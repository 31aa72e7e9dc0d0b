//! A review session over one source file: a cursor over its lines, a tag picker, a line
//! selection and a note editor, driven one key at a time. The caller draws the screen,
//! reads keys, and does what the returned `Action` asks (saving, quitting).
use vstd::prelude::*;
use crate::keyorder::sorted_keys;
use crate::store::{
    line_hashes, reanchor_fold, annotated, covers, empty_model, first_covering, opt_view, unannotated, with_tags, Annotation,
    FileModel, Store, snapshot_of, opt_str,
};
use crate::tags::TagStore;
use crate::text::{
    chars_of, contains_chars, line_strings, lines, split_lines, has_substring, lowercase, string_of, string_views, to_lower, trim,
    trim_chars,
};

verus! {

// ─── Session state ───────────────────────────────────────────────────────────

/// What keys do at the moment.
#[derive(Debug, Clone, Copy, PartialEq, Eq, Structural)]
pub enum Mode {
    Normal,
    InputNote,
    SelectTag,
    SelectTagRemove,
    Selecting,
    Command,
    ViewAnnotation,
}

/// A key press.
#[derive(Debug, Clone, Copy, PartialEq, Eq, Structural)]
pub enum Key {
    Char(char),
    Up,
    Down,
    Enter,
    Esc,
    Backspace,
    /// Any other key; no mode acts on it.
    Other,
}

/// What the caller does after a key.
#[derive(Debug, Clone, Copy, PartialEq, Eq, Structural)]
pub enum Action {
    /// Draw again and wait for the next key.
    Continue,
    /// End the session.
    Quit,
    /// Save the store, then go on.
    Save,
    /// Save the store, then end the session.
    SaveAndQuit,
    /// Read the file, record its snapshot (`record_snapshot`), save the store, go on.
    SaveSnapshot,
}

/// A review session.
#[derive(Debug)]
pub struct ReviewState {
    /// The file under review, as the store names it.
    pub file_name: String,
    pub lines: Vec<String>,
    /// The current line, counted from 0.
    pub cursor: usize,
    /// The first line on screen, counted from 0.
    pub scroll_offset: usize,
    /// How many lines fit on screen.
    pub viewport_height: usize,
    pub store: Store,
    pub tags: TagStore,
    pub mode: Mode,
    /// The note or command being typed.
    pub input_buffer: Vec<char>,
    /// What the tag picker filters by.
    pub tag_filter: Vec<char>,
    /// The highlighted tag of the picker.
    pub tag_cursor: usize,
    /// The tag that `t` and `r` apply.
    pub last_tag: Option<String>,
    /// Where the selection started and where it ends (1-based line numbers).
    pub select_start: Option<usize>,
    pub select_end: Option<usize>,
    /// The file changed since its snapshot.
    pub is_stale: bool,
}

/// A session as plain values.
pub struct ReviewModel {
    pub file: Seq<char>,
    pub lines: Seq<Seq<char>>,
    pub cursor: usize,
    pub scroll: usize,
    pub height: usize,
    pub records: Map<Seq<char>, crate::store::FileModel>,
    /// The names of all tags, in order.
    pub tag_names: Seq<Seq<char>>,
    pub mode: Mode,
    pub input: Seq<char>,
    pub filter: Seq<char>,
    pub tag_cursor: usize,
    pub last_tag: Option<Seq<char>>,
    pub select_start: Option<usize>,
    pub select_end: Option<usize>,
    pub stale: bool,
}

/// The largest line number the cursor can be on (1 for a file without lines).
pub open spec fn last_line(m: ReviewModel) -> int {
    if m.lines.len() == 0 {
        1
    } else {
        m.lines.len() as int
    }
}

/// The session's own consistency: the cursor is on a line (on line 1 of an empty file),
/// the screen starts at most one line below it, the screen height is a terminal's, and selection
/// ends are line numbers.
pub open spec fn valid(m: ReviewModel) -> bool {
    &&& m.lines.len() <= i32::MAX
    &&& m.cursor < last_line(m)
    &&& m.scroll <= m.cursor + 1
    &&& m.height <= u16::MAX
    &&& m.tag_cursor < usize::MAX
    &&& (m.select_start matches Some(s) ==> 1 <= s <= last_line(m))
    &&& (m.select_end matches Some(e) ==> 1 <= e <= last_line(m))
}

impl ReviewState {
    pub open spec fn model(&self) -> ReviewModel {
        ReviewModel {
            file: self.file_name@,
            lines: string_views(self.lines@),
            cursor: self.cursor,
            scroll: self.scroll_offset,
            height: self.viewport_height,
            records: self.store.model(),
            tag_names: self.tags.tags.keys(),
            mode: self.mode,
            input: self.input_buffer@,
            filter: self.tag_filter@,
            tag_cursor: self.tag_cursor,
            last_tag: opt_view(self.last_tag),
            select_start: self.select_start,
            select_end: self.select_end,
            stale: self.is_stale,
        }
    }

    /// The session is consistent.
    pub open spec fn wf(&self) -> bool {
        &&& self.store.wf()
        &&& self.tags.wf()
        &&& valid(self.model())
    }
}

// ─── What a session shows ────────────────────────────────────────────────────

/// The current line number (1-based).
pub open spec fn line_no(m: ReviewModel) -> usize {
    (m.cursor + 1) as usize
}

/// The record of the file under review.
pub open spec fn record(m: ReviewModel) -> FileModel {
    if m.records.contains_key(m.file) {
        m.records[m.file]
    } else {
        empty_model()
    }
}

/// The session with `fm` as the record of its file.
pub open spec fn with_record(m: ReviewModel, fm: FileModel) -> ReviewModel {
    ReviewModel { records: m.records.insert(m.file, fm), ..m }
}

/// The tags of line `l` in `fm`.
pub open spec fn tags_at(fm: FileModel, l: usize) -> Seq<Seq<char>> {
    if fm.entries.contains_key(l) {
        fm.entries[l].tags
    } else {
        Seq::empty()
    }
}

/// The content of line `l` (1-based), if the file has it.
pub open spec fn content_at(m: ReviewModel, l: usize) -> Option<Seq<char>> {
    if 1 <= l <= m.lines.len() {
        Some(m.lines[l - 1])
    } else {
        None
    }
}

/// The lines `lo..=hi` that a selection covers, each end defaulting to the current line.
pub open spec fn selection_bounds(m: ReviewModel) -> (usize, usize) {
    let s = match m.select_start {
        Some(s) => s,
        None => line_no(m),
    };
    let e = match m.select_end {
        Some(e) => e,
        None => line_no(m),
    };
    if s <= e {
        (s, e)
    } else {
        (e, s)
    }
}

/// The tags whose lower-case name contains the lower-case filter, in name order.
pub open spec fn filtered_tags(m: ReviewModel) -> Seq<Seq<char>> {
    m.tag_names.filter(name_matches(lowercase(m.filter)))
}

/// The test of a tag name against a lower-case filter.
pub open spec fn name_matches(f: Seq<char>) -> spec_fn(Seq<char>) -> bool {
    |name: Seq<char>| has_substring(lowercase(name), f)
}

impl ReviewState {
    /// The current line number (1-based).
    pub fn line_number(&self) -> (n: usize)
        requires
            self.wf(),
        ensures
            n == line_no(self.model()),
    {
        self.cursor + 1
    }

    /// The tags of the current line.
    pub fn get_line_tags(&self) -> (r: Vec<String>)
        requires
            self.wf(),
        ensures
            string_views(r@) == tags_at(record(self.model()), line_no(self.model())),
    {
        let ownership = self.store.get_file(self.file_name.as_str());
        let line = self.line_number();
        match ownership.entries.get(&line) {
            Some(e) => {
                let r = crate::store::copy_strings(&e.tags);
                proof {
                    assert(ownership.model().entries.contains_key(line));
                    assert(ownership.model().entries[line] == e.model());
                }
                r
            },
            None => {
                proof {
                    assert(!ownership.model().entries.contains_key(line));
                    assert(string_views(Seq::<String>::empty()) =~= Seq::<Seq<char>>::empty());
                }
                Vec::new()
            },
        }
    }

    /// Whether line `line_num` lies in the selection (there is one only once both of
    /// its ends are set).
    pub fn is_in_selection(&self, line_num: usize) -> (b: bool)
        ensures
            b == match (self.select_start, self.select_end) {
                (Some(s), Some(e)) => (if s <= e { s <= line_num <= e } else { e <= line_num <= s }),
                _ => false,
            },
    {
        match (self.select_start, self.select_end) {
            (Some(s), Some(e)) => {
                let min = if s <= e { s } else { e };
                let max = if s <= e { e } else { s };
                line_num >= min && line_num <= max
            },
            _ => false,
        }
    }

    /// The names of the tags that the picker offers: those whose lower-case name
    /// contains the lower-case filter, in name order.
    pub fn get_filtered_tags(&self) -> (r: Vec<String>)
        requires
            self.wf(),
        ensures
            string_views(r@) == filtered_tags(self.model()),
    {
        let filter_text = string_of(self.tag_filter.as_slice());
        let f = chars_of(to_lower(filter_text.as_str()).as_str());
        let ghost names = self.tags.tags.keys();
        let ghost pred = name_matches(lowercase(self.tag_filter@));
        let mut r: Vec<String> = Vec::new();
        let mut i: usize = 0;
        while i < self.tags.tags.len()
            invariant
                i <= names.len(),
                names == self.tags.tags.keys(),
                f@ == lowercase(self.tag_filter@),
                pred == name_matches(lowercase(self.tag_filter@)),
                string_views(r@) == names.take(i as int).filter(pred),
            decreases names.len() - i,
        {
            let name = self.tags.tags.key_at(i);
            let lower = chars_of(to_lower(name.as_str()).as_str());
            proof {
                assert(names.take(i + 1).drop_last() =~= names.take(i as int));
                assert(names.take(i + 1).last() == name@);
                reveal(Seq::filter);
            }
            if contains_chars(lower.as_slice(), f.as_slice()) {
                let ghost before = string_views(r@);
                r.push(name.clone());
                proof {
                    assert(string_views(r@) =~= before.push(name@));
                }
            }
            i = i + 1;
        }
        proof {
            assert(names.take(i as int) =~= names);
        }
        r
    }
}


// ─── What keys do ────────────────────────────────────────────────────────────

/// The session scrolled so that the cursor is on screen: up to the cursor when it is
/// above the screen, else down until it is on the last screen line when it is below.
pub open spec fn scrolled(m: ReviewModel) -> ReviewModel {
    let s1: int = if m.cursor < m.scroll {
        m.cursor as int
    } else {
        m.scroll as int
    };
    let s2: int = if m.cursor >= s1 + m.height {
        m.cursor - m.height + 1
    } else {
        s1
    };
    ReviewModel { scroll: s2 as usize, ..m }
}

/// The session with the cursor moved by `delta` lines, kept within the file, and
/// scrolled to it.
pub open spec fn moved(m: ReviewModel, delta: int) -> ReviewModel {
    let p = m.cursor + delta;
    let top = m.lines.len() - 1;
    let c = if p < 0 {
        0
    } else if p > top {
        top
    } else {
        p
    };
    scrolled(ReviewModel { cursor: c as usize, ..m })
}

/// The test of a tag: it is not `t`.
pub open spec fn other_than(t: Seq<char>) -> spec_fn(Seq<char>) -> bool {
    |x: Seq<char>| x != t
}

/// `tags` without `t`.
pub open spec fn without_tag(tags: Seq<Seq<char>>, t: Seq<char>) -> Seq<Seq<char>> {
    tags.filter(other_than(t))
}

/// `tags` without `t` if it holds `t`, else with `t` added last.
pub open spec fn toggled(tags: Seq<Seq<char>>, t: Seq<char>) -> Seq<Seq<char>> {
    if tags.contains(t) {
        without_tag(tags, t)
    } else {
        tags.push(t)
    }
}

/// The session after the current line's tags become `tags`.
pub open spec fn with_line_tags(m: ReviewModel, tags: Seq<Seq<char>>) -> ReviewModel {
    with_record(m, with_tags(record(m), line_no(m), tags, content_at(m, line_no(m))))
}

/// The session after toggling tag `t` on the current line.
pub open spec fn tag_toggled(m: ReviewModel, t: Seq<char>) -> ReviewModel {
    with_line_tags(m, toggled(tags_at(record(m), line_no(m)), t))
}

/// The session after taking tag `t` off the current line.
pub open spec fn tag_removed(m: ReviewModel, t: Seq<char>) -> ReviewModel {
    with_line_tags(m, without_tag(tags_at(record(m), line_no(m)), t))
}

/// Every line of `lo..=hi` carries tag `t` in `fm`.
pub open spec fn all_tagged(fm: FileModel, lo: usize, hi: usize, t: Seq<char>) -> bool {
    forall|l: usize| lo <= l <= hi ==> #[trigger] tags_at(fm, l).contains(t)
}

/// How a selection-wide tag change rewrites one line's tags: when every line had `t`,
/// `t` goes; else `t` is added where it is missing.
pub open spec fn sync_tags(t: Seq<char>, all: bool) -> spec_fn(Seq<Seq<char>>) -> Seq<Seq<char>> {
    |tags: Seq<Seq<char>>|
        if all {
            without_tag(tags, t)
        } else if tags.contains(t) {
            tags
        } else {
            tags.push(t)
        }
}

/// `fm` after rewriting the tags of each line of `lo..=hi` with `f`, line by line in
/// order, each line getting its content's hash.
pub open spec fn retag_range(
    m: ReviewModel,
    fm: FileModel,
    lo: int,
    hi: int,
    f: spec_fn(Seq<Seq<char>>) -> Seq<Seq<char>>,
) -> FileModel
    decreases hi - lo + 1,
{
    if hi < lo {
        fm
    } else {
        let prev = retag_range(m, fm, lo, hi - 1, f);
        with_tags(prev, hi as usize, f(tags_at(prev, hi as usize)), content_at(m, hi as usize))
    }
}

/// The session after `t` toggles over the whole selection: taken off every line when
/// they all had it, else put on every line.
pub open spec fn synced(m: ReviewModel, t: Seq<char>) -> ReviewModel {
    let (lo, hi) = selection_bounds(m);
    let fm = record(m);
    with_record(m, retag_range(m, fm, lo as int, hi as int, sync_tags(t, all_tagged(fm, lo, hi, t))))
}

/// The lines that `r` acts on in a selection: from its start to its end, or to its
/// start when it has no end yet.
pub open spec fn strip_bounds(m: ReviewModel) -> (usize, usize) {
    let s = m.select_start->0;
    let e = match m.select_end {
        Some(e) => e,
        None => s,
    };
    if s <= e {
        (s, e)
    } else {
        (e, s)
    }
}

/// The session after taking `t` off every line of the selection.
pub open spec fn stripped(m: ReviewModel, t: Seq<char>) -> ReviewModel {
    let (lo, hi) = strip_bounds(m);
    with_record(m, retag_range(m, record(m), lo as int, hi as int, sync_tags(t, true)))
}

/// The session after putting `note` on the selection (or the current line).
pub open spec fn noted(m: ReviewModel, note: Seq<char>) -> ReviewModel {
    let (lo, hi) = selection_bounds(m);
    with_record(m, annotated(record(m), lo, hi, note))
}

/// The note of the first annotation that covers line `l`, or the empty text.
pub open spec fn note_at(fm: FileModel, l: usize) -> Seq<char> {
    match first_covering(fm.annotations, l) {
        Some(i) => fm.annotations[i].note,
        None => Seq::empty(),
    }
}

/// `fm` without the entry of line `l`.
pub open spec fn without_entry(fm: FileModel, l: usize) -> FileModel {
    FileModel { entries: fm.entries.remove(l), ..fm }
}

impl ReviewState {
    /// Scrolls so that the cursor is on screen.
    pub fn update_scroll(&mut self)
        requires
            old(self).scroll_offset + old(self).viewport_height <= usize::MAX,
            old(self).viewport_height > 0 || old(self).cursor < usize::MAX,
        ensures
            final(self).model() == scrolled(old(self).model()),
            final(self).store == old(self).store,
            final(self).tags == old(self).tags,
    {
        if self.cursor < self.scroll_offset {
            self.scroll_offset = self.cursor;
        }
        if self.cursor >= self.scroll_offset + self.viewport_height {
            self.scroll_offset = self.cursor - self.viewport_height + 1;
        }
    }

    /// Moves the cursor by `delta` lines, kept within the file, and scrolls to it. The
    /// file must have a line.
    pub fn move_cursor(&mut self, delta: i32)
        requires
            old(self).wf(),
            old(self).lines@.len() > 0,
            i32::MIN <= old(self).cursor + delta <= i32::MAX,
        ensures
            final(self).wf(),
            final(self).model() == moved(old(self).model(), delta as int),
            final(self).store == old(self).store,
            final(self).tags == old(self).tags,
    {
        let new_pos = self.cursor as i32 + delta;
        let top = self.lines.len() as i32 - 1;
        let lo = if new_pos < 0 { 0 } else { new_pos };
        let c = if lo > top { top } else { lo };
        self.cursor = c as usize;
        self.update_scroll();
    }

    /// Fits the session to a terminal of `height` rows: four go to the frame.
    pub fn set_viewport(&mut self, height: u16)
        requires
            old(self).wf(),
        ensures
            final(self).wf(),
            final(self).model() == (ReviewModel { height: (if height >= 4 { height - 4 } else { 0 }) as usize, ..old(self).model() }),
            final(self).store == old(self).store,
            final(self).tags == old(self).tags,
    {
        let h = if height >= 4 { height - 4 } else { 0 };
        self.viewport_height = h as usize;
    }
}


/// Whether `tags` holds `t`.
fn holds_tag(tags: &Vec<String>, t: &String) -> (b: bool)
    ensures
        b == string_views(tags@).contains(t@),
{
    let ghost sv = string_views(tags@);
    let mut i: usize = 0;
    while i < tags.len()
        invariant
            i <= tags@.len(),
            sv == string_views(tags@),
            forall|k: int| 0 <= k < i ==> sv[k] != t@,
        decreases tags@.len() - i,
    {
        if tags[i] == *t {
            proof {
                assert(sv[i as int] == t@);
            }
            return true;
        }
        i = i + 1;
    }
    proof {
        if sv.contains(t@) {
            let k = choose|k: int| 0 <= k < sv.len() && sv[k] == t@;
            assert(sv[k] != t@);
        }
    }
    false
}

/// `tags` without `t` (`Vec::retain` keeping the other tags).
fn drop_tag(tags: &Vec<String>, t: &String) -> (r: Vec<String>)
    ensures
        string_views(r@) == without_tag(string_views(tags@), t@),
{
    let ghost sv = string_views(tags@);
    let mut r: Vec<String> = Vec::new();
    let mut i: usize = 0;
    while i < tags.len()
        invariant
            i <= tags@.len(),
            sv == string_views(tags@),
            string_views(r@) == sv.take(i as int).filter(other_than(t@)),
        decreases tags@.len() - i,
    {
        proof {
            assert(sv.take(i + 1).drop_last() =~= sv.take(i as int));
            assert(sv.take(i + 1).last() == tags@[i as int]@);
            reveal(Seq::filter);
        }
        if !(tags[i] == *t) {
            let ghost before = string_views(r@);
            r.push(tags[i].clone());
            proof {
                assert(string_views(r@) =~= before.push(tags@[i as int]@));
            }
        }
        i = i + 1;
    }
    proof {
        assert(sv.take(i as int) =~= sv);
    }
    r
}

impl ReviewState {
    /// The tags of line `l`.
    fn tags_of_line(&self, l: usize) -> (r: Vec<String>)
        requires
            self.wf(),
        ensures
            string_views(r@) == tags_at(record(self.model()), l),
    {
        let ownership = self.store.get_file(self.file_name.as_str());
        match ownership.entries.get(&l) {
            Some(e) => {
                let r = crate::store::copy_strings(&e.tags);
                proof {
                    assert(ownership.model().entries.contains_key(l));
                    assert(ownership.model().entries[l] == e.model());
                }
                r
            },
            None => {
                proof {
                    assert(!ownership.model().entries.contains_key(l));
                    assert(string_views(Seq::<String>::empty()) =~= Seq::<Seq<char>>::empty());
                }
                Vec::new()
            },
        }
    }

    /// Sets the tags of line `l`, with the line's content when the file has that line.
    fn set_tags_of_line(&mut self, l: usize, tags: Vec<String>)
        requires
            old(self).wf(),
        ensures
            final(self).wf(),
            final(self).model() == with_record(
                old(self).model(),
                with_tags(record(old(self).model()), l, string_views(tags@), content_at(old(self).model(), l)),
            ),
            final(self).tags == old(self).tags,
    {
        let ghost m = self.model();
        let ghost tv = string_views(tags@);
        let content: Option<&str> = if l >= 1 && l - 1 < self.lines.len() {
            Some(self.lines[l - 1].as_str())
        } else {
            None
        };
        proof {
            assert(opt_str(content) == content_at(m, l));
        }
        let rec = self.store.get_file_mut(self.file_name.as_str());
        rec.set_line(l, tags, content);
        proof {
            assert(self.model() =~= with_record(m, with_tags(record(m), l, tv, content_at(m, l))));
        }
    }

    /// Sets the tags of the current line.
    pub fn set_line_tags(&mut self, tags: Vec<String>)
        requires
            old(self).wf(),
        ensures
            final(self).wf(),
            final(self).model() == with_line_tags(old(self).model(), string_views(tags@)),
            final(self).tags == old(self).tags,
    {
        let l = self.line_number();
        self.set_tags_of_line(l, tags);
    }

    /// Toggles tag `tag` on the current line.
    pub fn toggle_tag(&mut self, tag: &str)
        requires
            old(self).wf(),
        ensures
            final(self).wf(),
            final(self).model() == tag_toggled(old(self).model(), tag@),
            final(self).tags == old(self).tags,
    {
        let t = string_of(chars_of(tag).as_slice());
        let current = self.get_line_tags();
        let next = if holds_tag(&current, &t) {
            drop_tag(&current, &t)
        } else {
            let mut c = current;
            let ghost before = string_views(c@);
            c.push(t);
            proof {
                assert(string_views(c@) =~= before.push(tag@));
            }
            c
        };
        self.set_line_tags(next);
    }

    /// Takes tag `tag` off the current line.
    pub fn remove_tag(&mut self, tag: &str)
        requires
            old(self).wf(),
        ensures
            final(self).wf(),
            final(self).model() == tag_removed(old(self).model(), tag@),
            final(self).tags == old(self).tags,
    {
        let t = string_of(chars_of(tag).as_slice());
        let current = self.get_line_tags();
        let next = drop_tag(&current, &t);
        self.set_line_tags(next);
    }
}


impl ReviewState {
    /// Rewrites the tags of each line of `lo..=hi` in order, as `sync_tags(t, all)` says.
    fn retag_lines(&mut self, lo: usize, hi: usize, t: &String, all: bool)
        requires
            old(self).wf(),
            1 <= lo <= hi <= last_line(old(self).model()),
        ensures
            final(self).wf(),
            final(self).model() == with_record(
                old(self).model(),
                retag_range(old(self).model(), record(old(self).model()), lo as int, hi as int, sync_tags(t@, all)),
            ),
            final(self).tags == old(self).tags,
    {
        let ghost m0 = self.model();
        let ghost fm0 = record(m0);
        let ghost f = sync_tags(t@, all);
        let mut l = lo;
        while l <= hi
            invariant
                lo <= l <= hi + 1,
                hi <= last_line(m0),
                last_line(m0) <= i32::MAX,
                m0.lines.len() <= i32::MAX,
                f == sync_tags(t@, all),
                fm0 == record(m0),
                self.wf(),
                self.tags == old(self).tags,
                l == lo ==> self.model() == m0,
                l > lo ==> self.model() == with_record(m0, retag_range(m0, fm0, lo as int, l - 1, f)),
            decreases hi + 1 - l,
        {
            let ghost cur = self.model();
            proof {
                if l == lo {
                    assert(retag_range(m0, fm0, lo as int, l - 1, f) == fm0);
                } else {
                    assert(cur.records == m0.records.insert(m0.file, retag_range(m0, fm0, lo as int, l - 1, f)));
                }
                assert(record(cur) == retag_range(m0, fm0, lo as int, l - 1, f));
                assert(content_at(cur, l) == content_at(m0, l));
            }
            let tags = self.tags_of_line(l);
            let next = if all {
                drop_tag(&tags, t)
            } else if holds_tag(&tags, t) {
                tags
            } else {
                let mut c = tags;
                let ghost before = string_views(c@);
                c.push(t.clone());
                proof {
                    assert(string_views(c@) =~= before.push(t@));
                }
                c
            };
            proof {
                assert(string_views(next@) == f(tags_at(record(cur), l)));
            }
            self.set_tags_of_line(l, next);
            proof {
                assert(self.model().records =~= with_record(m0, retag_range(m0, fm0, lo as int, l as int, f)).records);
                assert(self.model() == with_record(m0, retag_range(m0, fm0, lo as int, l as int, f)));
            }
            l = l + 1;
        }
    }

    /// Toggles `tag` over the selection (or the current line): off every line when they
    /// all have it, else onto every line that lacks it.
    pub fn sync_tag_on_selection(&mut self, tag: &str)
        requires
            old(self).wf(),
        ensures
            final(self).wf(),
            final(self).model() == synced(old(self).model(), tag@),
            final(self).tags == old(self).tags,
    {
        let ghost m0 = self.model();
        let cur = self.line_number();
        let start = match self.select_start {
            Some(s) => s,
            None => cur,
        };
        let end = match self.select_end {
            Some(e) => e,
            None => cur,
        };
        let lo = if start <= end { start } else { end };
        let hi = if start <= end { end } else { start };
        let t = string_of(chars_of(tag).as_slice());
        let mut all = true;
        let mut l = lo;
        while l <= hi
            invariant
                lo <= l <= hi + 1,
                hi <= last_line(m0),
                last_line(m0) <= i32::MAX,
                self.wf(),
                self.model() == m0,
                t@ == tag@,
                all == (forall|k: usize| lo <= k < l ==> #[trigger] tags_at(record(m0), k).contains(tag@)),
            decreases hi + 1 - l,
        {
            let tags = self.tags_of_line(l);
            let ghost was = all;
            let present = holds_tag(&tags, &t);
            if !present {
                all = false;
            }
            proof {
                assert(present == tags_at(record(m0), l).contains(tag@));
                if all {
                    assert forall|k: usize| lo <= k < l + 1 implies #[trigger] tags_at(record(m0), k).contains(tag@) by {
                        if k < l {
                            assert(was);
                        }
                    }
                } else if !present {
                    assert(!tags_at(record(m0), l).contains(tag@));
                } else {
                    assert(!was);
                    let k = choose|k: usize| lo <= k < l && !#[trigger] tags_at(record(m0), k).contains(tag@);
                    assert(lo <= k < l + 1);
                }
            }
            l = l + 1;
        }
        proof {
            assert(all == all_tagged(record(m0), lo, hi, tag@));
        }
        self.retag_lines(lo, hi, &t, all);
    }

    /// Takes `tag` off every line of the selection, from its start to its end (to its
    /// start alone when it has no end yet). There must be a selection.
    pub fn remove_tag_on_selection(&mut self, tag: &str)
        requires
            old(self).wf(),
            old(self).select_start is Some,
        ensures
            final(self).wf(),
            final(self).model() == stripped(old(self).model(), tag@),
            final(self).tags == old(self).tags,
    {
        let start = self.select_start.unwrap();
        let end = match self.select_end {
            Some(e) => e,
            None => start,
        };
        let lo = if start <= end { start } else { end };
        let hi = if start <= end { end } else { start };
        let t = string_of(chars_of(tag).as_slice());
        self.retag_lines(lo, hi, &t, true);
    }

    /// Puts `note` on the selection (or the current line), replacing the annotations it
    /// overlaps.
    pub fn set_annotation(&mut self, note: String)
        requires
            old(self).wf(),
        ensures
            final(self).wf(),
            final(self).model() == noted(old(self).model(), note@),
            final(self).tags == old(self).tags,
    {
        let ghost m0 = self.model();
        let cur = self.line_number();
        let start = match self.select_start {
            Some(s) => s,
            None => cur,
        };
        let end = match self.select_end {
            Some(e) => e,
            None => cur,
        };
        let lo = if start <= end { start } else { end };
        let hi = if start <= end { end } else { start };
        let rec = self.store.get_file_mut(self.file_name.as_str());
        rec.set_annotation(lo, hi, note);
        proof {
            assert(self.model() =~= noted(m0, note@));
        }
    }

    /// The first annotation that covers line `line`.
    pub fn get_annotation(&self, line: usize) -> (r: Option<&Annotation>)
        requires
            self.wf(),
        ensures
            match first_covering(record(self.model()).annotations, line) {
                Some(i) => r matches Some(a) && a.model() == record(self.model()).annotations[i],
                None => r is None,
            },
    {
        self.store.get_file(self.file_name.as_str()).get_annotation(line)
    }

    /// Records the snapshot of the file's current content (`None` when it could not be
    /// read); the file is no longer stale.
    pub fn record_snapshot(&mut self, content: Option<&str>)
        requires
            old(self).wf(),
        ensures
            final(self).wf(),
            final(self).model() == (ReviewModel {
                stale: false,
                ..with_record(
                    old(self).model(),
                    FileModel {
                        snapshot: match content {
                            Some(c) => Some(snapshot_of(c@)),
                            None => None,
                        },
                        ..record(old(self).model())
                    },
                )
            }),
            final(self).tags == old(self).tags,
    {
        let ghost m0 = self.model();
        let rec = self.store.get_file_mut(self.file_name.as_str());
        rec.update_snapshot(content);
        self.is_stale = false;
        proof {
            assert(self.model().records =~= with_record(
                m0,
                FileModel {
                    snapshot: match content {
                        Some(c) => Some(snapshot_of(c@)),
                        None => None,
                    },
                    ..record(m0)
                },
            ).records);
        }
    }
}


// ─── One key at a time ───────────────────────────────────────────────────────

/// The session in mode `mode`.
pub open spec fn in_mode(m: ReviewModel, mode: Mode) -> ReviewModel {
    ReviewModel { mode, ..m }
}

/// The tag picker opened afresh: no filter, first tag highlighted.
pub open spec fn picker_opened(m: ReviewModel) -> ReviewModel {
    ReviewModel { mode: Mode::SelectTag, filter: Seq::empty(), tag_cursor: 0, ..m }
}

/// The note editor opened on the note of the current line (empty when it has none).
pub open spec fn note_started(m: ReviewModel) -> ReviewModel {
    ReviewModel { input: note_at(record(m), line_no(m)), mode: Mode::InputNote, ..m }
}

/// The session after dropping the current line's entry.
pub open spec fn entry_deleted(m: ReviewModel) -> ReviewModel {
    with_record(m, without_entry(record(m), line_no(m)))
}

/// The selection extended to the current line.
pub open spec fn with_end(m: ReviewModel) -> ReviewModel {
    ReviewModel { select_end: Some(line_no(m)), ..m }
}

/// `s` without its last character, if it has one.
pub open spec fn popped(s: Seq<char>) -> Seq<char> {
    if s.len() == 0 {
        s
    } else {
        s.drop_last()
    }
}

/// Keys in normal mode.
pub open spec fn normal_step(m: ReviewModel, key: Key) -> (ReviewModel, Action) {
    match key {
        Key::Char('q') | Key::Esc => (m, Action::Quit),
        Key::Char('j') | Key::Down => (moved(m, 1), Action::Continue),
        Key::Char('k') | Key::Up => (moved(m, -1), Action::Continue),
        Key::Char('g') => (ReviewModel { cursor: 0, scroll: 0, ..m }, Action::Continue),
        Key::Char('G') => (
            scrolled(
                ReviewModel {
                    cursor: if m.lines.len() == 0 {
                        0
                    } else {
                        (m.lines.len() - 1) as usize
                    },
                    ..m
                },
            ),
            Action::Continue,
        ),
        Key::Char('s') => (m, Action::SaveSnapshot),
        Key::Char('d') => (entry_deleted(m), Action::Continue),
        Key::Char('T') => (picker_opened(m), Action::Continue),
        Key::Char('t') => (
            match m.last_tag {
                Some(t) => if m.select_start is Some {
                    synced(m, t)
                } else {
                    tag_toggled(m, t)
                },
                None => picker_opened(m),
            },
            Action::Continue,
        ),
        Key::Char('r') => (
            match m.last_tag {
                Some(t) => if m.select_start is Some {
                    stripped(m, t)
                } else {
                    tag_removed(m, t)
                },
                None => m,
            },
            Action::Continue,
        ),
        Key::Char('a') => (in_mode(m, Mode::ViewAnnotation), Action::Continue),
        Key::Char('v') => (
            ReviewModel {
                select_start: Some(line_no(m)),
                select_end: None,
                mode: Mode::Selecting,
                ..m
            },
            Action::Continue,
        ),
        Key::Char('n') => (note_started(m), Action::Continue),
        Key::Char(':') => (ReviewModel { mode: Mode::Command, input: Seq::empty(), ..m }, Action::Continue),
        _ => (m, Action::Continue),
    }
}

/// Keys in the tag picker: Enter takes the highlighted tag as the one to apply (or, in
/// the removing picker, takes it off the current line).
pub open spec fn picker_step(m: ReviewModel, key: Key) -> (ReviewModel, Action) {
    let f = filtered_tags(m);
    let tc = m.tag_cursor;
    match key {
        Key::Esc => (in_mode(m, Mode::Normal), Action::Continue),
        Key::Enter => (
            in_mode(
                if tc < f.len() {
                    if m.mode == Mode::SelectTag {
                        ReviewModel { last_tag: Some(f[tc as int]), ..m }
                    } else {
                        tag_removed(m, f[tc as int])
                    }
                } else {
                    m
                },
                Mode::Normal,
            ),
            Action::Continue,
        ),
        Key::Up => (ReviewModel { tag_cursor: if tc == 0 { 0 } else { (tc - 1) as usize }, ..m }, Action::Continue),
        Key::Down => {
            let top: int = if f.len() == 0 { 0 } else { f.len() - 1 };
            (ReviewModel { tag_cursor: if tc + 1 < top { (tc + 1) as usize } else { top as usize }, ..m }, Action::Continue)
        },
        Key::Char(c) => (ReviewModel { filter: m.filter.push(c), tag_cursor: 0, ..m }, Action::Continue),
        Key::Backspace => (ReviewModel { filter: popped(m.filter), tag_cursor: 0, ..m }, Action::Continue),
        _ => (m, Action::Continue),
    }
}

/// Keys while selecting lines.
pub open spec fn selecting_step(m: ReviewModel, key: Key) -> (ReviewModel, Action) {
    match key {
        Key::Char('j') | Key::Down => (with_end(moved(m, 1)), Action::Continue),
        Key::Char('k') | Key::Up => (with_end(moved(m, -1)), Action::Continue),
        Key::Char('t') => (
            match m.last_tag {
                Some(t) => synced(m, t),
                None => m,
            },
            Action::Continue,
        ),
        Key::Char('n') => (note_started(m), Action::Continue),
        Key::Esc => (
            ReviewModel { select_start: None, select_end: None, mode: Mode::Normal, ..m },
            Action::Continue,
        ),
        Key::Enter | Key::Char('v') => (in_mode(m, Mode::Normal), Action::Continue),
        _ => (m, Action::Continue),
    }
}

/// Keys while typing a note: Enter puts the note on the selection, or, when it is
/// empty, drops the notes on the current line.
pub open spec fn note_step(m: ReviewModel, key: Key) -> (ReviewModel, Action) {
    match key {
        Key::Esc => (ReviewModel { mode: Mode::Normal, input: Seq::empty(), ..m }, Action::Continue),
        Key::Enter => {
            let m2 = if m.input.len() == 0 {
                with_record(m, unannotated(record(m), line_no(m)))
            } else {
                noted(m, m.input)
            };
            (ReviewModel { mode: Mode::Normal, input: Seq::empty(), ..m2 }, Action::Continue)
        },
        Key::Char(c) => (ReviewModel { input: m.input.push(c), ..m }, Action::Continue),
        Key::Backspace => (ReviewModel { input: popped(m.input), ..m }, Action::Continue),
        _ => (m, Action::Continue),
    }
}

/// Keys while typing a command: Enter runs the trimmed command (`q`/`quit`, `w`/`save`,
/// `wq`, `d`/`delete`; others do nothing).
pub open spec fn command_step(m: ReviewModel, key: Key) -> (ReviewModel, Action) {
    match key {
        Key::Esc => (ReviewModel { mode: Mode::Normal, input: Seq::empty(), ..m }, Action::Continue),
        Key::Enter => {
            let cmd = trim(m.input);
            let m2 = ReviewModel { mode: Mode::Normal, input: Seq::empty(), ..m };
            if cmd == seq!['q'] || cmd == seq!['q', 'u', 'i', 't'] {
                (m2, Action::Quit)
            } else if cmd == seq!['w'] || cmd == seq!['s', 'a', 'v', 'e'] {
                (m2, Action::Save)
            } else if cmd == seq!['w', 'q'] {
                (m2, Action::SaveAndQuit)
            } else if cmd == seq!['d'] || cmd == seq!['d', 'e', 'l', 'e', 't', 'e'] {
                (entry_deleted(m2), Action::Continue)
            } else {
                (m2, Action::Continue)
            }
        },
        Key::Char(c) => (ReviewModel { input: m.input.push(c), ..m }, Action::Continue),
        Key::Backspace => (ReviewModel { input: popped(m.input), ..m }, Action::Continue),
        _ => (m, Action::Continue),
    }
}

/// Keys while a note is shown.
pub open spec fn view_step(m: ReviewModel, key: Key) -> (ReviewModel, Action) {
    match key {
        Key::Esc | Key::Enter | Key::Char('a') => (in_mode(m, Mode::Normal), Action::Continue),
        _ => (m, Action::Continue),
    }
}

/// What a key does to the session, and what the caller is to do next.
pub open spec fn step(m: ReviewModel, key: Key) -> (ReviewModel, Action) {
    match m.mode {
        Mode::Normal => normal_step(m, key),
        Mode::SelectTag | Mode::SelectTagRemove => picker_step(m, key),
        Mode::Selecting => selecting_step(m, key),
        Mode::InputNote => note_step(m, key),
        Mode::Command => command_step(m, key),
        Mode::ViewAnnotation => view_step(m, key),
    }
}

/// The key moves the cursor in the current mode.
pub open spec fn moves_cursor(mode: Mode, key: Key) -> bool {
    (mode == Mode::Normal || mode == Mode::Selecting) && (key == Key::Char('j') || key == Key::Char('k')
        || key == Key::Up || key == Key::Down)
}

/// Whether `key` moves the cursor in `mode` (what `handle_key` can do only in a file with
/// lines).
pub fn key_moves_cursor(mode: Mode, key: Key) -> (b: bool)
    ensures
        b == moves_cursor(mode, key),
{
    let moving_mode = match mode {
        Mode::Normal | Mode::Selecting => true,
        _ => false,
    };
    let moving_key = match key {
        Key::Char(c) => c == 'j' || c == 'k',
        Key::Up | Key::Down => true,
        _ => false,
    };
    moving_mode && moving_key
}

/// Whether `a` and `b` hold the same characters.
fn same_chars(a: &[char], b: &[char]) -> (r: bool)
    ensures
        r == (a@ == b@),
{
    if a.len() != b.len() {
        return false;
    }
    let mut i: usize = 0;
    while i < a.len()
        invariant
            a@.len() == b@.len(),
            i <= a@.len(),
            forall|k: int| 0 <= k < i ==> a@[k] == b@[k],
        decreases a@.len() - i,
    {
        if a[i] != b[i] {
            return false;
        }
        i = i + 1;
    }
    proof {
        assert(a@ =~= b@);
    }
    true
}


impl ReviewState {
    /// Drops the entry of the current line.
    fn delete_entry(&mut self)
        requires
            old(self).wf(),
        ensures
            final(self).wf(),
            final(self).model() == entry_deleted(old(self).model()),
            final(self).tags == old(self).tags,
    {
        let ghost m0 = self.model();
        let l = self.line_number();
        let rec = self.store.get_file_mut(self.file_name.as_str());
        let ghost before = rec.model();
        rec.entries.remove(&l);
        proof {
            assert(rec.model().entries =~= before.entries.remove(l));
            assert(rec.model() == without_entry(before, l));
        }
    }

    /// Opens the note editor on the note of the current line.
    fn start_note(&mut self)
        requires
            old(self).wf(),
        ensures
            final(self).wf(),
            final(self).model() == note_started(old(self).model()),
            final(self).tags == old(self).tags,
    {
        let l = self.line_number();
        let text = match self.get_annotation(l) {
            Some(a) => chars_of(a.note.as_str()),
            None => Vec::new(),
        };
        self.input_buffer = text;
        self.mode = Mode::InputNote;
    }

    /// Opens the tag picker afresh.
    fn open_picker(&mut self)
        requires
            old(self).wf(),
        ensures
            final(self).wf(),
            final(self).model() == picker_opened(old(self).model()),
            final(self).tags == old(self).tags,
    {
        self.mode = Mode::SelectTag;
        self.tag_filter = Vec::new();
        self.tag_cursor = 0;
    }

    fn normal_key(&mut self, key: Key) -> (a: Action)
        requires
            old(self).wf(),
            old(self).mode == Mode::Normal,
            old(self).lines@.len() > 0 || !moves_cursor(old(self).mode, key),
        ensures
            final(self).wf(),
            (final(self).model(), a) == normal_step(old(self).model(), key),
            final(self).tags == old(self).tags,
    {
        match key {
            Key::Char('q') | Key::Esc => Action::Quit,
            Key::Char('j') | Key::Down => {
                self.move_cursor(1);
                Action::Continue
            },
            Key::Char('k') | Key::Up => {
                self.move_cursor(-1);
                Action::Continue
            },
            Key::Char('g') => {
                self.cursor = 0;
                self.scroll_offset = 0;
                Action::Continue
            },
            Key::Char('G') => {
                let n = self.lines.len();
                self.cursor = if n == 0 { 0 } else { n - 1 };
                self.update_scroll();
                Action::Continue
            },
            Key::Char('s') => Action::SaveSnapshot,
            Key::Char('d') => {
                self.delete_entry();
                Action::Continue
            },
            Key::Char('T') => {
                self.open_picker();
                Action::Continue
            },
            Key::Char('t') => {
                match &self.last_tag {
                    Some(t) => {
                        let tag = t.clone();
                        if self.select_start.is_some() {
                            self.sync_tag_on_selection(tag.as_str());
                        } else {
                            self.toggle_tag(tag.as_str());
                        }
                    },
                    None => self.open_picker(),
                }
                Action::Continue
            },
            Key::Char('r') => {
                match &self.last_tag {
                    Some(t) => {
                        let tag = t.clone();
                        if self.select_start.is_some() {
                            self.remove_tag_on_selection(tag.as_str());
                        } else {
                            self.remove_tag(tag.as_str());
                        }
                    },
                    None => {},
                }
                Action::Continue
            },
            Key::Char('a') => {
                self.mode = Mode::ViewAnnotation;
                Action::Continue
            },
            Key::Char('v') => {
                self.select_start = Some(self.line_number());
                self.select_end = None;
                self.mode = Mode::Selecting;
                Action::Continue
            },
            Key::Char('n') => {
                self.start_note();
                Action::Continue
            },
            Key::Char(':') => {
                self.mode = Mode::Command;
                self.input_buffer = Vec::new();
                Action::Continue
            },
            _ => Action::Continue,
        }
    }

    fn picker_key(&mut self, key: Key) -> (a: Action)
        requires
            old(self).wf(),
            old(self).mode == Mode::SelectTag || old(self).mode == Mode::SelectTagRemove,
        ensures
            final(self).wf(),
            (final(self).model(), a) == picker_step(old(self).model(), key),
            final(self).tags == old(self).tags,
    {
        match key {
            Key::Esc => {
                self.mode = Mode::Normal;
            },
            Key::Enter => {
                let filtered = self.get_filtered_tags();
                if self.tag_cursor < filtered.len() {
                    let tag = filtered[self.tag_cursor].clone();
                    proof {
                        assert(tag@ == filtered_tags(old(self).model())[self.tag_cursor as int]);
                    }
                    if self.mode == Mode::SelectTag {
                        self.last_tag = Some(tag);
                    } else {
                        self.remove_tag(tag.as_str());
                    }
                }
                self.mode = Mode::Normal;
            },
            Key::Up => {
                self.tag_cursor = if self.tag_cursor == 0 { 0 } else { self.tag_cursor - 1 };
            },
            Key::Down => {
                let n = self.get_filtered_tags().len();
                let top = if n == 0 { 0 } else { n - 1 };
                let next = self.tag_cursor + 1;
                self.tag_cursor = if next < top { next } else { top };
            },
            Key::Char(c) => {
                self.tag_filter.push(c);
                self.tag_cursor = 0;
            },
            Key::Backspace => {
                self.tag_filter.pop();
                self.tag_cursor = 0;
            },
            _ => {},
        }
        Action::Continue
    }

    fn selecting_key(&mut self, key: Key) -> (a: Action)
        requires
            old(self).wf(),
            old(self).mode == Mode::Selecting,
            old(self).lines@.len() > 0 || !moves_cursor(old(self).mode, key),
        ensures
            final(self).wf(),
            (final(self).model(), a) == selecting_step(old(self).model(), key),
            final(self).tags == old(self).tags,
    {
        match key {
            Key::Char('j') | Key::Down => {
                self.move_cursor(1);
                self.select_end = Some(self.line_number());
            },
            Key::Char('k') | Key::Up => {
                self.move_cursor(-1);
                self.select_end = Some(self.line_number());
            },
            Key::Char('t') => {
                match &self.last_tag {
                    Some(t) => {
                        let tag = t.clone();
                        self.sync_tag_on_selection(tag.as_str());
                    },
                    None => {},
                }
            },
            Key::Char('n') => {
                self.start_note();
            },
            Key::Esc => {
                self.select_start = None;
                self.select_end = None;
                self.mode = Mode::Normal;
            },
            Key::Enter | Key::Char('v') => {
                self.mode = Mode::Normal;
            },
            _ => {},
        }
        Action::Continue
    }

    fn note_key(&mut self, key: Key) -> (a: Action)
        requires
            old(self).wf(),
            old(self).mode == Mode::InputNote,
        ensures
            final(self).wf(),
            (final(self).model(), a) == note_step(old(self).model(), key),
            final(self).tags == old(self).tags,
    {
        match key {
            Key::Esc => {
                self.mode = Mode::Normal;
                self.input_buffer = Vec::new();
            },
            Key::Enter => {
                let ghost m0 = self.model();
                if self.input_buffer.len() == 0 {
                    let l = self.line_number();
                    let rec = self.store.get_file_mut(self.file_name.as_str());
                    rec.remove_annotation(l);
                    proof {
                        assert(self.model().records =~= with_record(m0, unannotated(record(m0), line_no(m0))).records);
                    }
                } else {
                    let note = string_of(self.input_buffer.as_slice());
                    self.set_annotation(note);
                }
                self.mode = Mode::Normal;
                self.input_buffer = Vec::new();
            },
            Key::Char(c) => {
                self.input_buffer.push(c);
            },
            Key::Backspace => {
                self.input_buffer.pop();
            },
            _ => {},
        }
        Action::Continue
    }

    fn command_key(&mut self, key: Key) -> (a: Action)
        requires
            old(self).wf(),
            old(self).mode == Mode::Command,
        ensures
            final(self).wf(),
            (final(self).model(), a) == command_step(old(self).model(), key),
            final(self).tags == old(self).tags,
    {
        match key {
            Key::Esc => {
                self.mode = Mode::Normal;
                self.input_buffer = Vec::new();
                Action::Continue
            },
            Key::Enter => {
                let ghost m0 = self.model();
                let cmd = trim_chars(self.input_buffer.as_slice());
                self.mode = Mode::Normal;
                self.input_buffer = Vec::new();
                let w_q = vec!['q'];
                let w_quit = vec!['q', 'u', 'i', 't'];
                let w_w = vec!['w'];
                let w_save = vec!['s', 'a', 'v', 'e'];
                let w_wq = vec!['w', 'q'];
                let w_d = vec!['d'];
                let w_delete = vec!['d', 'e', 'l', 'e', 't', 'e'];
                proof {
                    assert(cmd@ == trim(m0.input));
                    assert(w_q@ =~= seq!['q']);
                    assert(w_quit@ =~= seq!['q', 'u', 'i', 't']);
                    assert(w_w@ =~= seq!['w']);
                    assert(w_save@ =~= seq!['s', 'a', 'v', 'e']);
                    assert(w_wq@ =~= seq!['w', 'q']);
                    assert(w_d@ =~= seq!['d']);
                    assert(w_delete@ =~= seq!['d', 'e', 'l', 'e', 't', 'e']);
                    assert(self.model() == (ReviewModel { mode: Mode::Normal, input: Seq::empty(), ..m0 }));
                }
                if same_chars(cmd.as_slice(), w_q.as_slice()) || same_chars(cmd.as_slice(), w_quit.as_slice()) {
                    Action::Quit
                } else if same_chars(cmd.as_slice(), w_w.as_slice()) || same_chars(cmd.as_slice(), w_save.as_slice()) {
                    Action::Save
                } else if same_chars(cmd.as_slice(), w_wq.as_slice()) {
                    Action::SaveAndQuit
                } else if same_chars(cmd.as_slice(), w_d.as_slice()) || same_chars(cmd.as_slice(), w_delete.as_slice()) {
                    self.delete_entry();
                    Action::Continue
                } else {
                    Action::Continue
                }
            },
            Key::Char(c) => {
                self.input_buffer.push(c);
                Action::Continue
            },
            Key::Backspace => {
                self.input_buffer.pop();
                Action::Continue
            },
            _ => Action::Continue,
        }
    }

    /// Acts on one key press and says what the caller is to do next. A key that moves
    /// the cursor needs a file with a line.
    pub fn handle_key(&mut self, key: Key) -> (a: Action)
        requires
            old(self).wf(),
            old(self).lines@.len() > 0 || !moves_cursor(old(self).mode, key),
        ensures
            final(self).wf(),
            (final(self).model(), a) == step(old(self).model(), key),
            final(self).tags == old(self).tags,
    {
        match self.mode {
            Mode::Normal => self.normal_key(key),
            Mode::SelectTag | Mode::SelectTagRemove => self.picker_key(key),
            Mode::Selecting => self.selecting_key(key),
            Mode::InputNote => self.note_key(key),
            Mode::Command => self.command_key(key),
            Mode::ViewAnnotation => {
                match key {
                    Key::Esc | Key::Enter | Key::Char('a') => {
                        self.mode = Mode::Normal;
                    },
                    _ => {},
                }
                Action::Continue
            },
        }
    }
}


// ─── Starting a session ──────────────────────────────────────────────────────

/// A record re-anchored to the lines `ls` of the changed file (when it has a snapshot):
/// see `FileOwnership::reanchor`.
pub open spec fn reanchored(fm: FileModel, ls: Seq<Seq<char>>) -> FileModel {
    if fm.snapshot is None {
        fm
    } else {
        FileModel {
            entries: reanchor_fold(fm.entries, sorted_keys(fm.entries.dom()), line_hashes(ls)).0,
            ..fm
        }
    }
}

/// The record of `file` changed since its snapshot, the file now reading `content`.
pub open spec fn stale_record(fm: FileModel, content: Seq<char>) -> bool {
    match fm.snapshot {
        Some(s) => s != snapshot_of(content),
        None => false,
    }
}

/// A fresh session on `file` with content `content`: at the top, in normal mode, with
/// the record re-anchored when the file changed since its snapshot.
pub open spec fn opened(
    file: Seq<char>,
    content: Seq<char>,
    records: Map<Seq<char>, FileModel>,
    tag_names: Seq<Seq<char>>,
) -> ReviewModel {
    let ls = lines(content);
    let fm = if records.contains_key(file) {
        records[file]
    } else {
        empty_model()
    };
    let stale = stale_record(fm, content);
    ReviewModel {
        file,
        lines: ls,
        cursor: 0,
        scroll: 0,
        height: 20,
        records: if stale {
            records.insert(file, reanchored(fm, ls))
        } else {
            records
        },
        tag_names,
        mode: Mode::Normal,
        input: Seq::empty(),
        filter: Seq::empty(),
        tag_cursor: 0,
        last_tag: None,
        select_start: None,
        select_end: None,
        stale,
    }
}

impl ReviewState {
    /// Opens a session on `file_name`, whose content is `content`, with the tags and the
    /// records of `store`.
    pub fn new(file_name: String, content: &str, store: Store, tags: TagStore) -> (r: Self)
        requires
            store.wf(),
            tags.wf(),
            lines(content@).len() <= i32::MAX,
        ensures
            r.wf(),
            r.model() == opened(file_name@, content@, store.model(), tags.tags.keys()),
            r.tags == tags,
    {
        let ghost m0 = store.model();
        let ls = line_strings(&split_lines(chars_of(content).as_slice()));
        let mut store = store;
        let stale = store.get_file(file_name.as_str()).is_stale(Some(content));
        if stale {
            let rec = store.get_file_mut(file_name.as_str());
            let ghost before = rec.model();
            let ghost old_dom = rec.entries@.dom();
            proof {
                assert(before.entries.dom() =~= old_dom);
                assert(string_views(ls@) == lines(content@));
                assert(before.snapshot is Some);
            }
            rec.reanchor(&ls);
            proof {
                assert(rec.model().entries == reanchored(before, lines(content@)).entries);
                assert(rec.model() == reanchored(before, lines(content@)));
            }
        }
        let r = ReviewState {
            file_name,
            lines: ls,
            cursor: 0,
            scroll_offset: 0,
            viewport_height: 20,
            store,
            tags,
            mode: Mode::Normal,
            input_buffer: Vec::new(),
            tag_filter: Vec::new(),
            tag_cursor: 0,
            last_tag: None,
            select_start: None,
            select_end: None,
            is_stale: stale,
        };
        proof {
            assert(r.model().input =~= Seq::<char>::empty());
            assert(r.model().filter =~= Seq::<char>::empty());
        }
        r
    }
}


// ─── Laws ────────────────────────────────────────────────────────────────────

/// Filtering keeps a sequence whose elements all pass.
proof fn lemma_filter_keeps_all(s: Seq<Seq<char>>, p: spec_fn(Seq<char>) -> bool)
    requires
        forall|i: int| 0 <= i < s.len() ==> p(#[trigger] s[i]),
    ensures
        s.filter(p) == s,
    decreases s.len(),
{
    reveal(Seq::filter);
    if s.len() > 0 {
        lemma_filter_keeps_all(s.drop_last(), p);
        assert(s.drop_last().push(s.last()) =~= s);
    }
}

/// Toggling a tag twice on a line that lacked it gives the line back its tags.
pub proof fn lemma_toggle_twice(m: ReviewModel, t: Seq<char>)
    requires
        !tags_at(record(m), line_no(m)).contains(t),
    ensures
        tags_at(record(tag_toggled(tag_toggled(m, t), t)), line_no(m)) == tags_at(record(m), line_no(m)),
{
    let l = line_no(m);
    let tags = tags_at(record(m), l);
    let m1 = tag_toggled(m, t);
    assert(toggled(tags, t) == tags.push(t));
    assert(record(m1).entries.contains_key(l));
    assert(tags_at(record(m1), l) == tags.push(t));
    assert(tags.push(t).contains(t)) by {
        assert(tags.push(t)[tags.len() as int] == t);
    }
    let p = other_than(t);
    assert(tags.push(t).drop_last() =~= tags);
    assert(tags.push(t).filter(p) == tags.filter(p)) by {
        reveal(Seq::filter);
    }
    assert forall|i: int| 0 <= i < tags.len() implies p(#[trigger] tags[i]) by {
        if tags[i] == t {
            assert(tags.contains(t));
        }
    }
    lemma_filter_keeps_all(tags, p);
    assert(toggled(tags_at(record(m1), l), t) == tags);
    assert(line_no(m1) == l);
}

/// A note put on the selection (or the current line) is the note that every line of it
/// shows afterwards.
pub proof fn lemma_note_read_back(m: ReviewModel, note: Seq<char>, l: usize)
    requires
        selection_bounds(m).0 <= l <= selection_bounds(m).1,
    ensures
        note_at(record(noted(m, note)), l) == note,
{
    let (lo, hi) = selection_bounds(m);
    crate::store_laws::lemma_annotation_read_back(record(m), lo, hi, note, l);
}

/// Once the notes of the current line are dropped, it shows no note.
pub proof fn lemma_note_dropped(m: ReviewModel)
    ensures
        note_at(record(with_record(m, unannotated(record(m), line_no(m)))), line_no(m)) == Seq::<char>::empty(),
{
    crate::store_laws::lemma_annotation_removed(record(m), line_no(m));
}

/// Scrolling brings the cursor into view and leaves the cursor where it is; a view that
/// already shows the cursor does not move.
pub proof fn lemma_scroll_shows_cursor(m: ReviewModel)
    requires
        m.height > 0,
        m.scroll + m.height <= usize::MAX,
    ensures
        scrolled(m).cursor == m.cursor,
        scrolled(m).scroll <= m.cursor < scrolled(m).scroll + m.height,
        m.scroll <= m.cursor < m.scroll + m.height ==> scrolled(m).scroll == m.scroll,
        scrolled(m) == (ReviewModel { scroll: scrolled(m).scroll, ..m }),
{
}

/// Putting tags `tags` on line `line` sets that line's tags to `tags` and leaves the tags
/// of every other line alone.
proof fn lemma_with_tags_at(fm: FileModel, line: usize, tags: Seq<Seq<char>>, c: Option<Seq<char>>, l: usize)
    ensures
        tags_at(with_tags(fm, line, tags, c), l) == (if l == line {
            tags
        } else {
            tags_at(fm, l)
        }),
{
    if tags.len() == 0 && l == line {
        assert(tags =~= Seq::<Seq<char>>::empty());
    }
}

/// Rewriting the tags of the lines `lo..=hi` with `f` gives each of those lines `f` of its
/// former tags and leaves the tags of every other line alone.
proof fn lemma_retag_range_tags(
    m: ReviewModel,
    fm: FileModel,
    lo: int,
    hi: int,
    f: spec_fn(Seq<Seq<char>>) -> Seq<Seq<char>>,
    l: usize,
)
    requires
        0 <= lo,
        hi <= usize::MAX,
    ensures
        tags_at(retag_range(m, fm, lo, hi, f), l) == (if lo <= l <= hi {
            f(tags_at(fm, l))
        } else {
            tags_at(fm, l)
        }),
    decreases hi - lo + 1,
{
    if hi >= lo {
        let prev = retag_range(m, fm, lo, hi - 1, f);
        lemma_retag_range_tags(m, fm, lo, hi - 1, f, l);
        lemma_retag_range_tags(m, fm, lo, hi - 1, f, hi as usize);
        lemma_with_tags_at(prev, hi as usize, f(tags_at(prev, hi as usize)), content_at(m, hi as usize), l);
    }
}

/// Tagging a selection with `t` (`t` with a selection): when some line of it lacked `t`,
/// afterwards every line of it carries `t`; only when every line of it had `t` is `t`
/// taken off, and then no line of it carries `t`. Lines outside the selection keep their
/// tags.
pub proof fn lemma_sync_selection(m: ReviewModel, t: Seq<char>, l: usize)
    ensures
        ({
            let (lo, hi) = selection_bounds(m);
            let before = record(m);
            let after = record(synced(m, t));
            &&& (exists|k: usize| lo <= k <= hi && !(#[trigger] tags_at(before, k)).contains(t)) && lo <= l <= hi
                ==> tags_at(after, l).contains(t)
            &&& (forall|k: usize| lo <= k <= hi ==> (#[trigger] tags_at(before, k)).contains(t)) && lo <= l <= hi
                ==> !tags_at(after, l).contains(t)
            &&& !(lo <= l <= hi) ==> tags_at(after, l) == tags_at(before, l)
        }),
{
    let (lo, hi) = selection_bounds(m);
    let fm = record(m);
    let all = all_tagged(fm, lo, hi, t);
    let f = sync_tags(t, all);
    let r = retag_range(m, fm, lo as int, hi as int, f);
    assert(record(synced(m, t)) == r);
    lemma_retag_range_tags(m, fm, lo as int, hi as int, f, l);
    if lo <= l <= hi {
        let tags = tags_at(fm, l);
        if all {
            let out = without_tag(tags, t);
            if out.contains(t) {
                let i = choose|i: int| 0 <= i < out.len() && out[i] == t;
                tags.lemma_filter_pred(other_than(t), i);
            }
        } else if !tags.contains(t) {
            assert(tags.push(t)[tags.len() as int] == t);
        }
    }
}

/// Toggling tag `t` on the current line adds `t` when the line lacked it and takes it
/// off when the line had it; other lines keep their tags.
pub proof fn lemma_tag_toggle_flips(m: ReviewModel, t: Seq<char>, l: usize)
    ensures
        ({
            let before = record(m);
            let after = record(tag_toggled(m, t));
            &&& l == line_no(m) ==> (tags_at(after, l).contains(t) <==> !tags_at(before, l).contains(t))
            &&& l != line_no(m) ==> tags_at(after, l) == tags_at(before, l)
        }),
{
    let tags = tags_at(record(m), line_no(m));
    lemma_with_tags_at(record(m), line_no(m), toggled(tags, t), content_at(m, line_no(m)), l);
    if l == line_no(m) {
        if tags.contains(t) {
            let out = without_tag(tags, t);
            if out.contains(t) {
                let i = choose|i: int| 0 <= i < out.len() && out[i] == t;
                tags.lemma_filter_pred(other_than(t), i);
            }
        } else {
            assert(tags.push(t)[tags.len() as int] == t);
        }
    }
}

} // verus!
