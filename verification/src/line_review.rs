//! A review session over the line-state records (`own`): a cursor over the file's lines
//! and keys that mark the current line reviewed, questioned, approved or rejected.
use vstd::prelude::*;
use crate::own::{empty_model, FileModel, LineState, NoteModel, OwnershipStore, content_hash};
use crate::review::Key;

use crate::text::{chars_of, line_strings, lines, split_lines, string_views};

verus! {

/// What the caller does after a key.
#[derive(Debug, Clone, Copy, PartialEq, Eq, Structural)]
pub enum LineAction {
    /// Draw again and wait for the next key.
    Continue,
    /// End the session (the caller saves the store then).
    Quit,
    /// Save the store, then go on.
    Save,
}

/// A session over one file.
#[derive(Debug)]
pub struct ReviewState {
    /// The file under review, as the store names it.
    pub file_name: String,
    pub lines: Vec<String>,
    pub store: OwnershipStore,
    /// The current line, counted from 0.
    pub cursor: usize,
    /// The first line on screen, counted from 0.
    pub scroll_offset: usize,
    /// How many lines fit on screen.
    pub viewport_height: usize,
    /// The file changed since its snapshot.
    pub changed_warning: bool,
}

/// A session as plain values.
pub struct LineReviewModel {
    pub file: Seq<char>,
    pub lines: Seq<Seq<char>>,
    pub records: Map<Seq<char>, FileModel>,
    pub cursor: usize,
    pub scroll: usize,
    pub height: usize,
    pub changed: bool,
}

/// The largest line number the cursor can be on (1 for a file without lines).
pub open spec fn top_line(m: LineReviewModel) -> int {
    if m.lines.len() == 0 {
        1
    } else {
        m.lines.len() as int
    }
}

/// The cursor is on a line, the screen starts at most a line below it, and the screen
/// height is a terminal's.
pub open spec fn in_view(m: LineReviewModel) -> bool {
    &&& m.lines.len() <= i32::MAX
    &&& m.cursor < top_line(m)
    &&& m.scroll <= m.cursor + 1
    &&& m.height <= u16::MAX
}

impl ReviewState {
    pub open spec fn model(&self) -> LineReviewModel {
        LineReviewModel {
            file: self.file_name@,
            lines: string_views(self.lines@),
            records: self.store.model(),
            cursor: self.cursor,
            scroll: self.scroll_offset,
            height: self.viewport_height,
            changed: self.changed_warning,
        }
    }

    /// The session is consistent.
    pub open spec fn wf(&self) -> bool {
        self.store.wf() && in_view(self.model())
    }
}

/// The current line number (1-based).
pub open spec fn current_line(m: LineReviewModel) -> usize {
    (m.cursor + 1) as usize
}

/// The record of the file under review.
pub open spec fn record_of(m: LineReviewModel) -> FileModel {
    if m.records.contains_key(m.file) {
        m.records[m.file]
    } else {
        empty_model()
    }
}

/// The session with `fm` as the record of its file.
pub open spec fn with_file(m: LineReviewModel, fm: FileModel) -> LineReviewModel {
    LineReviewModel { records: m.records.insert(m.file, fm), ..m }
}

/// The state of line `l` after toggling `st`: cleared when it was `st`, else `st`.
pub open spec fn toggled_states(states: Map<usize, LineState>, l: usize, st: LineState) -> Map<usize, LineState> {
    if states.contains_key(l) && states[l] == st {
        states.remove(l)
    } else {
        states.insert(l, st)
    }
}

/// The session after toggling `st` on the current line.
pub open spec fn state_toggled(m: LineReviewModel, st: LineState) -> LineReviewModel {
    let fm = record_of(m);
    with_file(m, FileModel { states: toggled_states(fm.states, current_line(m), st), ..fm })
}

/// The session after clearing the current line's state.
pub open spec fn state_cleared(m: LineReviewModel) -> LineReviewModel {
    let fm = record_of(m);
    with_file(m, FileModel { states: fm.states.remove(current_line(m)), ..fm })
}

/// The session scrolled so that the cursor is on screen.
pub open spec fn scrolled_to(m: LineReviewModel) -> LineReviewModel {
    let s1: int = if m.cursor < m.scroll {
        m.cursor as int
    } else {
        m.scroll as int
    };
    let s2: int = if m.cursor >= s1 + m.height {
        m.cursor - m.height + 1
    } else {
        s1
    };
    LineReviewModel { scroll: s2 as usize, ..m }
}

/// The session with the cursor moved by `delta`, kept within the file, and scrolled.
pub open spec fn cursor_moved(m: LineReviewModel, delta: int) -> LineReviewModel {
    let p = m.cursor + delta;
    let top = m.lines.len() - 1;
    let c = if p < 0 {
        0
    } else if p > top {
        top
    } else {
        p
    };
    scrolled_to(LineReviewModel { cursor: c as usize, ..m })
}

/// What a key does: `q`/Esc quit, `j`/`k`/arrows move, `g`/`G` go to the first/last
/// line, `r`/`Q`/`a`/`x` toggle reviewed/questioned/approved/rejected and move down, `u`
/// clears the line, `s` saves.
pub open spec fn line_step(m: LineReviewModel, key: Key) -> (LineReviewModel, LineAction) {
    match key {
        Key::Char('q') | Key::Esc => (m, LineAction::Quit),
        Key::Char('j') | Key::Down => (cursor_moved(m, 1), LineAction::Continue),
        Key::Char('k') | Key::Up => (cursor_moved(m, -1), LineAction::Continue),
        Key::Char('g') => (scrolled_to(LineReviewModel { cursor: 0, ..m }), LineAction::Continue),
        Key::Char('G') => (
            scrolled_to(
                LineReviewModel {
                    cursor: if m.lines.len() == 0 {
                        0
                    } else {
                        (m.lines.len() - 1) as usize
                    },
                    ..m
                },
            ),
            LineAction::Continue,
        ),
        Key::Char('r') => (cursor_moved(state_toggled(m, LineState::Reviewed), 1), LineAction::Continue),
        Key::Char('Q') => (cursor_moved(state_toggled(m, LineState::Questioned), 1), LineAction::Continue),
        Key::Char('a') => (cursor_moved(state_toggled(m, LineState::Approved), 1), LineAction::Continue),
        Key::Char('x') => (cursor_moved(state_toggled(m, LineState::Rejected), 1), LineAction::Continue),
        Key::Char('u') => (state_cleared(m), LineAction::Continue),
        Key::Char('s') => (m, LineAction::Save),
        _ => (m, LineAction::Continue),
    }
}

/// The key moves the cursor.
pub open spec fn line_key_moves(key: Key) -> bool {
    key == Key::Char('j') || key == Key::Char('k') || key == Key::Up || key == Key::Down || key
        == Key::Char('r') || key == Key::Char('Q') || key == Key::Char('a') || key == Key::Char('x')
}

/// Whether `key` moves the cursor (what `handle_key` can do only in a file with lines).
pub fn line_key_moves_cursor(key: Key) -> (b: bool)
    ensures
        b == line_key_moves(key),
{
    match key {
        Key::Char(c) => c == 'j' || c == 'k' || c == 'r' || c == 'Q' || c == 'a' || c == 'x',
        Key::Up | Key::Down => true,
        _ => false,
    }
}

impl ReviewState {
    /// The current line number (1-based).
    pub fn current_line_number(&self) -> (n: usize)
        requires
            self.wf(),
        ensures
            n == current_line(self.model()),
    {
        self.cursor + 1
    }

    /// Toggles `state` on the current line: cleared when the line has it, else set.
    pub fn toggle_state(&mut self, state: LineState)
        requires
            old(self).wf(),
        ensures
            final(self).wf(),
            final(self).model() == state_toggled(old(self).model(), state),
    {
        let ghost m0 = self.model();
        let line_num = self.current_line_number();
        let ownership = self.store.get_file(self.file_name.as_str());
        let same = match ownership.get_line_state(line_num) {
            Some(s) => *s == state,
            None => false,
        };
        let rec = self.store.get_file_mut(self.file_name.as_str());
        if same {
            rec.clear_line_state(line_num);
        } else {
            rec.set_line_state(line_num, state);
        }
        proof {
            assert(self.model().records =~= state_toggled(m0, state).records);
        }
    }

    /// Clears the state of the current line.
    pub fn clear_current(&mut self)
        requires
            old(self).wf(),
        ensures
            final(self).wf(),
            final(self).model() == state_cleared(old(self).model()),
    {
        let ghost m0 = self.model();
        let line_num = self.current_line_number();
        let rec = self.store.get_file_mut(self.file_name.as_str());
        rec.clear_line_state(line_num);
        proof {
            assert(self.model().records =~= state_cleared(m0).records);
        }
    }

    /// Notes `note`, in state `state`, on the current line.
    pub fn add_annotation(&mut self, state: LineState, note: String)
        requires
            old(self).wf(),
        ensures
            final(self).wf(),
            final(self).model() == with_file(
                old(self).model(),
                FileModel {
                    annotations: record_of(old(self).model()).annotations.push(
                        NoteModel {
                            start_line: current_line(old(self).model()),
                            end_line: current_line(old(self).model()),
                            state,
                            note: note@,
                        },
                    ),
                    ..record_of(old(self).model())
                },
            ),
    {
        let ghost m0 = self.model();
        let line_num = self.current_line_number();
        let rec = self.store.get_file_mut(self.file_name.as_str());
        let ghost before = rec.model();
        rec.annotations.push(crate::own::Annotation { start_line: line_num, end_line: line_num, state, note });
        proof {
            assert(rec.model().annotations =~= before.annotations.push(
                NoteModel { start_line: line_num, end_line: line_num, state, note: note@ },
            ));
            assert(self.model().records =~= with_file(
                m0,
                FileModel {
                    annotations: record_of(m0).annotations.push(
                        NoteModel { start_line: line_num, end_line: line_num, state, note: note@ },
                    ),
                    ..record_of(m0)
                },
            ).records);
        }
    }

    /// Scrolls so that the cursor is on screen.
    pub fn update_scroll(&mut self)
        requires
            old(self).scroll_offset + old(self).viewport_height <= usize::MAX,
            old(self).viewport_height > 0 || old(self).cursor < usize::MAX,
        ensures
            final(self).model() == scrolled_to(old(self).model()),
            final(self).store == old(self).store,
    {
        if self.cursor < self.scroll_offset {
            self.scroll_offset = self.cursor;
        }
        if self.cursor >= self.scroll_offset + self.viewport_height {
            self.scroll_offset = self.cursor - self.viewport_height + 1;
        }
    }

    /// Moves the cursor by `delta` lines, kept within the file, and scrolls to it. The
    /// file must have a line.
    pub fn move_cursor(&mut self, delta: i32)
        requires
            old(self).wf(),
            old(self).lines@.len() > 0,
            i32::MIN <= old(self).cursor + delta <= i32::MAX,
        ensures
            final(self).wf(),
            final(self).model() == cursor_moved(old(self).model(), delta as int),
    {
        let new_pos = self.cursor as i32 + delta;
        let top = self.lines.len() as i32 - 1;
        let lo = if new_pos < 0 { 0 } else { new_pos };
        let c = if lo > top { top } else { lo };
        self.cursor = c as usize;
        self.update_scroll();
    }

    /// Fits the session to a terminal of `height` rows: four go to the frame.
    pub fn set_viewport(&mut self, height: u16)
        requires
            old(self).wf(),
        ensures
            final(self).wf(),
            final(self).model() == (LineReviewModel { height: (if height >= 4 { height - 4 } else { 0 }) as usize, ..old(self).model() }),
    {
        let h = if height >= 4 { height - 4 } else { 0 };
        self.viewport_height = h as usize;
    }

    /// Acts on one key press and says what the caller is to do next. A key that moves
    /// the cursor needs a file with a line.
    pub fn handle_key(&mut self, key: Key) -> (a: LineAction)
        requires
            old(self).wf(),
            old(self).lines@.len() > 0 || !line_key_moves(key),
        ensures
            final(self).wf(),
            (final(self).model(), a) == line_step(old(self).model(), key),
    {
        match key {
            Key::Char('q') | Key::Esc => LineAction::Quit,
            Key::Char('j') | Key::Down => {
                self.move_cursor(1);
                LineAction::Continue
            },
            Key::Char('k') | Key::Up => {
                self.move_cursor(-1);
                LineAction::Continue
            },
            Key::Char('g') => {
                self.cursor = 0;
                self.update_scroll();
                LineAction::Continue
            },
            Key::Char('G') => {
                let n = self.lines.len();
                self.cursor = if n == 0 { 0 } else { n - 1 };
                self.update_scroll();
                LineAction::Continue
            },
            Key::Char('r') => {
                self.toggle_state(LineState::Reviewed);
                self.move_cursor(1);
                LineAction::Continue
            },
            Key::Char('Q') => {
                self.toggle_state(LineState::Questioned);
                self.move_cursor(1);
                LineAction::Continue
            },
            Key::Char('a') => {
                self.toggle_state(LineState::Approved);
                self.move_cursor(1);
                LineAction::Continue
            },
            Key::Char('x') => {
                self.toggle_state(LineState::Rejected);
                self.move_cursor(1);
                LineAction::Continue
            },
            Key::Char('u') => {
                self.clear_current();
                LineAction::Continue
            },
            Key::Char('s') => LineAction::Save,
            _ => LineAction::Continue,
        }
    }
}

// ─── Starting a session ──────────────────────────────────────────────────────

/// A fresh session on `file`, whose content is `content` and whose current bytes are
/// `bytes`: at the top, warned when the file changed since its snapshot (or has none),
/// and with the snapshot brought up to date.
pub open spec fn session_opened(
    file: Seq<char>,
    content: Seq<char>,
    bytes: Seq<u8>,
    records: Map<Seq<char>, FileModel>,
) -> LineReviewModel {
    let fm = if records.contains_key(file) {
        records[file]
    } else {
        empty_model()
    };
    LineReviewModel {
        file,
        lines: lines(content),
        records: records.insert(file, FileModel { snapshot: Some(content_hash(bytes)), ..fm }),
        cursor: 0,
        scroll: 0,
        height: 20,
        changed: match fm.snapshot {
            Some(h) => h != content_hash(bytes),
            None => true,
        },
    }
}

impl ReviewState {
    /// Opens a session on `file_name`, whose text is `content` and whose bytes are
    /// `bytes`, with the records of `store`.
    pub fn new(file_name: String, content: &str, bytes: &Vec<u8>, store: OwnershipStore) -> (r: Self)
        requires
            store.wf(),
            lines(content@).len() <= i32::MAX,
        ensures
            r.wf(),
            r.model() == session_opened(file_name@, content@, bytes@, store.model()),
    {
        let ls = line_strings(&split_lines(chars_of(content).as_slice()));
        let mut store = store;
        let changed = store.has_changed(file_name.as_str(), bytes);
        let hash = OwnershipStore::compute_hash(bytes);
        let ghost m0 = store.model();
        let rec = store.get_file_mut(file_name.as_str());
        let ghost before = rec.model();
        rec.snapshot_hash = Some(hash);
        proof {
            assert(rec.model() == FileModel { snapshot: Some(content_hash(bytes@)), ..before });
        }
        ReviewState {
            file_name,
            lines: ls,
            store,
            cursor: 0,
            scroll_offset: 0,
            viewport_height: 20,
            changed_warning: changed,
        }
    }
}

// ─── Laws ────────────────────────────────────────────────────────────────────

/// Toggling a state twice gives the line back its state, when it had none or had that
/// state.
pub proof fn lemma_toggle_state_twice(m: LineReviewModel, st: LineState)
    requires
        !record_of(m).states.contains_key(current_line(m)) || record_of(m).states[current_line(m)] == st,
    ensures
        record_of(state_toggled(state_toggled(m, st), st)).states == record_of(m).states,
{
    let l = current_line(m);
    let s0 = record_of(m).states;
    let m1 = state_toggled(m, st);
    assert(current_line(m1) == l);
    assert(record_of(m1).states == toggled_states(s0, l, st));
    if s0.contains_key(l) {
        assert(toggled_states(toggled_states(s0, l, st), l, st) =~= s0);
    } else {
        assert(toggled_states(toggled_states(s0, l, st), l, st) =~= s0);
    }
}

/// Scrolling brings the cursor into view and leaves the cursor where it is; a view that
/// already shows the cursor does not move.
pub proof fn lemma_scroll_shows_cursor(m: LineReviewModel)
    requires
        m.height > 0,
        m.scroll + m.height <= usize::MAX,
    ensures
        scrolled_to(m).cursor == m.cursor,
        scrolled_to(m).scroll <= m.cursor < scrolled_to(m).scroll + m.height,
        m.scroll <= m.cursor < m.scroll + m.height ==> scrolled_to(m).scroll == m.scroll,
        scrolled_to(m) == (LineReviewModel { scroll: scrolled_to(m).scroll, ..m }),
{
}

/// Toggling state `st` on the current line: a line that was in `st` loses its state;
/// any other line (with no state, or another one) is then in `st`. Other lines, the
/// snapshot and the notes are left alone.
pub proof fn lemma_toggle_state_sets_or_clears(m: LineReviewModel, st: LineState, k: usize)
    ensures
        ({
            let before = record_of(m).states;
            let after = record_of(state_toggled(m, st));
            let l = current_line(m);
            &&& before.contains_key(l) && before[l] == st ==> !after.states.contains_key(l)
            &&& !(before.contains_key(l) && before[l] == st) ==> after.states.contains_key(l) && after.states[l] == st
            &&& k != l ==> (after.states.contains_key(k) == before.contains_key(k) && (before.contains_key(k)
                ==> after.states[k] == before[k]))
            &&& after.snapshot == record_of(m).snapshot
            &&& after.annotations == record_of(m).annotations
        }),
{
}

/// The keys `r`, `Q`, `a` and `x` toggle reviewed, questioned, approved and rejected on
/// the current line (then move down): the line takes the key's state unless it already
/// had it, in which case its state is cleared.
pub proof fn lemma_state_keys(m: LineReviewModel, key: Key, st: LineState)
    requires
        (key == Key::Char('r') && st == LineState::Reviewed) || (key == Key::Char('Q') && st
            == LineState::Questioned) || (key == Key::Char('a') && st == LineState::Approved) || (key
            == Key::Char('x') && st == LineState::Rejected),
    ensures
        ({
            let before = record_of(m).states;
            let after = record_of(line_step(m, key).0).states;
            let l = current_line(m);
            &&& before.contains_key(l) && before[l] == st ==> !after.contains_key(l)
            &&& !(before.contains_key(l) && before[l] == st) ==> after.contains_key(l) && after[l] == st
        }),
{
    assert(record_of(line_step(m, key).0) == record_of(state_toggled(m, st)));
}

} // verus!
