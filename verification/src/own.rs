//! State-based ownership records: each reviewed line is reviewed, questioned, approved
//! or rejected, and ranges may carry notes.
use std::collections::BTreeMap;
use vstd::prelude::*;
use crate::hashing::{byte_hex, hex_sha256, sha256};
use crate::keyorder::{keys_in_order, sorted_keys};
use crate::strmap::TextMap;
use crate::text::{
    chars_of, decimal, join, lines, parse_unsigned, parse_unsigned_chars, push_digits,
    push_joined, push_str, split_lines, split_once, split_once_chars, starts_with,
    starts_with_chars, string_of, string_views, sub_chars, trim, trim_chars, views,
};

verus! {

// ─── Ownership States ────────────────────────────────────────────────────────

/// What the person reading a line made of it.
#[derive(Debug, Clone, Copy, PartialEq, Eq, Structural)]
pub enum LineState {
    Reviewed,
    Questioned,
    Approved,
    Rejected,
}

/// The state that the letter `c` stands for.
pub open spec fn state_of_char(c: char) -> Option<LineState> {
    if c == 'r' {
        Some(LineState::Reviewed)
    } else if c == 'q' {
        Some(LineState::Questioned)
    } else if c == 'a' {
        Some(LineState::Approved)
    } else if c == 'x' {
        Some(LineState::Rejected)
    } else {
        None
    }
}

/// The letter of a state.
pub open spec fn char_of_state(s: LineState) -> char {
    match s {
        LineState::Reviewed => 'r',
        LineState::Questioned => 'q',
        LineState::Approved => 'a',
        LineState::Rejected => 'x',
    }
}

/// The upper-case name of a state.
pub open spec fn label_of(s: LineState) -> Seq<char> {
    match s {
        LineState::Reviewed => seq!['R', 'E', 'V', 'I', 'E', 'W', 'E', 'D'],
        LineState::Questioned => seq!['Q', 'U', 'E', 'S', 'T', 'I', 'O', 'N', 'E', 'D'],
        LineState::Approved => seq!['A', 'P', 'P', 'R', 'O', 'V', 'E', 'D'],
        LineState::Rejected => seq!['R', 'E', 'J', 'E', 'C', 'T', 'E', 'D'],
    }
}

/// The terminal colors in which states are shown.
#[derive(Debug, Clone, Copy, PartialEq, Eq, Structural)]
pub enum StateColor {
    Green,
    Yellow,
    Cyan,
    Red,
}

/// The color in which a state is shown.
pub open spec fn color_of_state(s: LineState) -> StateColor {
    match s {
        LineState::Reviewed => StateColor::Green,
        LineState::Questioned => StateColor::Yellow,
        LineState::Approved => StateColor::Cyan,
        LineState::Rejected => StateColor::Red,
    }
}

impl LineState {
    /// The state that the letter `c` stands for, if any.
    pub fn from_char(c: char) -> (r: Option<Self>)
        ensures
            r == state_of_char(c),
    {
        match c {
            'r' => Some(LineState::Reviewed),
            'q' => Some(LineState::Questioned),
            'a' => Some(LineState::Approved),
            'x' => Some(LineState::Rejected),
            _ => None,
        }
    }

    /// The letter of this state.
    pub fn to_char(&self) -> (c: char)
        ensures
            c == char_of_state(*self),
    {
        match self {
            LineState::Reviewed => 'r',
            LineState::Questioned => 'q',
            LineState::Approved => 'a',
            LineState::Rejected => 'x',
        }
    }

    /// The color in which this state is shown.
    pub fn color(&self) -> (r: StateColor)
        ensures
            r == color_of_state(*self),
    {
        match self {
            LineState::Reviewed => StateColor::Green,
            LineState::Questioned => StateColor::Yellow,
            LineState::Approved => StateColor::Cyan,
            LineState::Rejected => StateColor::Red,
        }
    }

    /// The upper-case name of this state.
    pub fn label(&self) -> (r: &'static str)
        ensures
            r@ == label_of(*self),
    {
        match self {
            LineState::Reviewed => {
                proof {
                    reveal_strlit("REVIEWED");
                }
                "REVIEWED"
            },
            LineState::Questioned => {
                proof {
                    reveal_strlit("QUESTIONED");
                }
                "QUESTIONED"
            },
            LineState::Approved => {
                proof {
                    reveal_strlit("APPROVED");
                }
                "APPROVED"
            },
            LineState::Rejected => {
                proof {
                    reveal_strlit("REJECTED");
                }
                "REJECTED"
            },
        }
    }
}

/// Every state's letter stands for it again.
pub proof fn lemma_state_char_roundtrip(s: LineState)
    ensures
        state_of_char(char_of_state(s)) == Some(s),
{
}

// ─── Annotation ──────────────────────────────────────────────────────────────

/// A note on a range of lines in a given state.
#[derive(Debug, Clone)]
pub struct Annotation {
    pub start_line: usize,
    pub end_line: usize,
    pub state: LineState,
    pub note: String,
}

/// An annotation as plain values.
pub struct NoteModel {
    pub start_line: usize,
    pub end_line: usize,
    pub state: LineState,
    pub note: Seq<char>,
}

impl Annotation {
    pub open spec fn model(&self) -> NoteModel {
        NoteModel {
            start_line: self.start_line,
            end_line: self.end_line,
            state: self.state,
            note: self.note@,
        }
    }

    /// A copy of this annotation.
    pub fn copy(&self) -> (r: Self)
        ensures
            r == *self,
    {
        Annotation {
            start_line: self.start_line,
            end_line: self.end_line,
            state: self.state,
            note: self.note.clone(),
        }
    }
}

// ─── Extract Command ────────────────────────────────────────────────────────

/// Which lines to extract.
#[derive(Debug, Clone, Copy, PartialEq, Eq, Structural)]
pub enum ExtractState {
    Rejected,
    Approved,
}

impl ExtractState {
    /// The line state that this choice extracts.
    pub fn target_state(&self) -> (r: LineState)
        ensures
            r == match *self {
                ExtractState::Rejected => LineState::Rejected,
                ExtractState::Approved => LineState::Approved,
            },
    {
        match self {
            ExtractState::Rejected => LineState::Rejected,
            ExtractState::Approved => LineState::Approved,
        }
    }
}

// ─── Records ─────────────────────────────────────────────────────────────────

/// What is recorded of one source file.
#[derive(Debug, Clone)]
pub struct FileOwnership {
    /// Hash of the file when the states were recorded.
    pub snapshot_hash: Option<String>,
    /// State of each line, by line number.
    pub line_states: BTreeMap<usize, LineState>,
    pub annotations: Vec<Annotation>,
}

/// A record as plain values.
pub struct FileModel {
    pub snapshot: Option<Seq<char>>,
    pub states: Map<usize, LineState>,
    pub annotations: Seq<NoteModel>,
}

/// The text of an optional string.
pub open spec fn opt_view(o: Option<String>) -> Option<Seq<char>> {
    match o {
        Some(s) => Some(s@),
        None => None,
    }
}

/// A record with nothing in it.
pub open spec fn empty_model() -> FileModel {
    FileModel { snapshot: None, states: Map::empty(), annotations: seq![] }
}

impl FileOwnership {
    pub open spec fn model(&self) -> FileModel {
        FileModel {
            snapshot: opt_view(self.snapshot_hash),
            states: self.line_states@,
            annotations: self.annotations@.map_values(|a: Annotation| a.model()),
        }
    }

    /// A record with nothing in it.
    pub fn new() -> (r: Self)
        ensures
            r.model() == empty_model(),
    {
        let r = FileOwnership {
            snapshot_hash: None,
            line_states: BTreeMap::new(),
            annotations: Vec::new(),
        };
        proof {
            assert(r.model().annotations =~= Seq::<NoteModel>::empty());
        }
        r
    }

    /// A copy of this record.
    pub fn copy(&self) -> (r: Self)
        ensures
            r.model() == self.model(),
    {
        let mut anns: Vec<Annotation> = Vec::new();
        let mut i: usize = 0;
        while i < self.annotations.len()
            invariant
                i <= self.annotations@.len(),
                anns@ == self.annotations@.take(i as int),
            decreases self.annotations@.len() - i,
        {
            anns.push(self.annotations[i].copy());
            i = i + 1;
            proof {
                assert(anns@ =~= self.annotations@.take(i as int));
            }
        }
        proof {
            assert(self.annotations@.take(i as int) =~= self.annotations@);
        }
        let snapshot_hash = match &self.snapshot_hash {
            Some(h) => Some(h.clone()),
            None => None,
        };
        FileOwnership { snapshot_hash, line_states: self.line_states.clone(), annotations: anns }
    }

    /// The state of `line`, if it has one.
    pub fn get_line_state(&self, line: usize) -> (r: Option<&LineState>)
        ensures
            match r {
                Some(s) => self.line_states@.contains_key(line) && *s == self.line_states@[line],
                None => !self.line_states@.contains_key(line),
            },
    {
        self.line_states.get(&line)
    }

    /// Gives `line` the state `state`.
    pub fn set_line_state(&mut self, line: usize, state: LineState)
        ensures
            final(self).model() == (FileModel {
                states: old(self).model().states.insert(line, state),
                ..old(self).model()
            }),
    {
        self.line_states.insert(line, state);
    }

    /// Takes the state of `line` away.
    pub fn clear_line_state(&mut self, line: usize)
        ensures
            final(self).model() == (FileModel {
                states: old(self).model().states.remove(line),
                ..old(self).model()
            }),
    {
        self.line_states.remove(&line);
    }
}

// ─── Grouping lines into ranges ──────────────────────────────────────────────

/// A run of lines `start..=end` in one state.
pub type Range = (usize, usize, LineState);

/// Every line of the run has the run's state in `m`.
pub open spec fn range_in(r: Range, m: Map<usize, LineState>) -> bool {
    &&& r.0 <= r.1
    &&& forall|l: usize|
        #![trigger m.contains_key(l)]
        #![trigger m[l]]
        r.0 <= l <= r.1 ==> (m.contains_key(l) && m[l] == r.2)
}

/// Some run covers line `l`.
pub open spec fn covered(rs: Seq<Range>, l: usize) -> bool {
    exists|i: int| 0 <= i < rs.len() && (#[trigger] rs[i]).0 <= l <= rs[i].1
}

/// `rs` groups the lines of `m` into maximal runs of consecutive lines in one state, in
/// line order: each run lies in `m`, runs come in order with a gap or a change of state
/// between neighbours, and every line of `m` is in a run.
pub open spec fn is_grouping(rs: Seq<Range>, m: Map<usize, LineState>) -> bool {
    &&& forall|i: int| 0 <= i < rs.len() ==> range_in(#[trigger] rs[i], m)
    &&& forall|i: int|
        0 <= i < rs.len() - 1 ==> (#[trigger] rs[i]).1 < rs[i + 1].0 && !(rs[i].1 + 1 == rs[i
            + 1].0 && rs[i].2 == rs[i + 1].2)
    &&& forall|l: usize| #[trigger] m.contains_key(l) ==> covered(rs, l)
}

/// A run followed by a line in its state is a longer run.
proof fn lemma_extend_range(m: Map<usize, LineState>, s: usize, e: usize, k: usize, st: LineState)
    requires
        range_in((s, e, st), m),
        k == e + 1,
        m.contains_key(k),
        m[k] == st,
    ensures
        range_in((s, k, st), m),
{
    assert(s <= e);
    assert forall|l: usize| s <= l <= k implies #[trigger] m.contains_key(l) && m[l] == st by {
        if l < k {
            assert(s <= l <= e);
            assert(m.contains_key(l));
            assert(m[l] == st);
        } else {
            assert(l == k);
        }
    }
    assert(s <= k);
}

/// The runs so far: the closed ones and the open one.
pub open spec fn with_open(done: Seq<Range>, cur: Option<Range>) -> Seq<Range> {
    match cur {
        Some(r) => done.push(r),
        None => done,
    }
}

/// Groups the lines of `m` into maximal runs of consecutive lines in one state.
pub fn group_ranges(m: &BTreeMap<usize, LineState>) -> (rs: Vec<Range>)
    ensures
        is_grouping(rs@, m@),
{
    let keys = keys_in_order(m);
    let mut done: Vec<Range> = Vec::new();
    let mut cur: Option<Range> = None;
    let mut j: usize = 0;
    while j < keys.len()
        invariant
            j <= keys@.len(),
            crate::keyorder::increasing(keys@),
            keys@.to_set() == m@.dom(),
            j == 0 ==> cur is None && done@.len() == 0,
            j > 0 ==> (cur matches Some(c) && c.1 == keys@[j - 1]),
            forall|i: int|
                0 <= i < with_open(done@, cur).len() ==> range_in(
                    #[trigger] with_open(done@, cur)[i],
                    m@,
                ),
            forall|i: int|
                0 <= i < with_open(done@, cur).len() - 1 ==> (#[trigger] with_open(
                    done@,
                    cur,
                )[i]).1 < with_open(done@, cur)[i + 1].0 && !(with_open(done@, cur)[i].1 + 1
                    == with_open(done@, cur)[i + 1].0 && with_open(done@, cur)[i].2 == with_open(
                    done@,
                    cur,
                )[i + 1].2),
            forall|i: int| 0 <= i < j ==> covered(with_open(done@, cur), #[trigger] keys@[i]),
            forall|i: int|
                0 <= i < with_open(done@, cur).len() ==> (#[trigger] with_open(done@, cur)[i]).1
                    <= keys@[j - 1],
        decreases keys@.len() - j,
    {
        let k = keys[j];
        proof {
            assert(keys@.to_set().contains(k));
        }
        let st = *m.get(&k).unwrap();
        proof {
            assert(m@.contains_key(k) && m@[k] == st);
        }
        let ghost all = with_open(done@, cur);
        match cur {
            Some((s, e, cs)) if cs == st && k == e + 1 => {
                cur = Some((s, k, cs));
                proof {
                    let na = with_open(done@, cur);
                    assert(na.len() == all.len());
                    assert forall|i: int| 0 <= i < na.len() implies range_in(#[trigger] na[i], m@) by {
                        if i < na.len() - 1 {
                            assert(na[i] == all[i]);
                        } else {
                            assert(all[i] == (s, e, cs));
                            assert(range_in(all[i], m@));
                            assert(na[i] == (s, k, cs));
                            assert(m@.contains_key(k) && m@[k] == st);
                            lemma_extend_range(m@, s, e, k, cs);
                        }
                    }
                    assert forall|i: int| 0 <= i < j + 1 implies covered(na, #[trigger] keys@[i]) by {
                        if i < j {
                            assert(covered(all, keys@[i]));
                            let t = choose|t: int| 0 <= t < all.len() && (#[trigger] all[t]).0 <= keys@[i] <= all[t].1;
                            if t == na.len() - 1 {
                                assert(na[t].0 <= keys@[i] <= na[t].1);
                            } else {
                                assert(na[t] == all[t]);
                            }
                        } else {
                            assert(na[na.len() - 1].0 <= keys@[i] <= na[na.len() - 1].1);
                        }
                    }
                    assert forall|i: int| 0 <= i < na.len() implies (#[trigger] na[i]).1 <= keys@[j as int] by {
                        if i < na.len() - 1 {
                            assert(na[i] == all[i]);
                            assert(keys@[j - 1] < keys@[j as int]);
                        }
                    }
                    assert forall|i: int| 0 <= i < na.len() - 1 implies (#[trigger] na[i]).1 < na[i
                        + 1].0 && !(na[i].1 + 1 == na[i + 1].0 && na[i].2 == na[i + 1].2) by {
                        assert(na[i] == all[i]);
                        assert(na[i + 1].0 == all[i + 1].0 && na[i + 1].2 == all[i + 1].2);
                    }
                }
            },
            Some(c) => {
                done.push(c);
                cur = Some((k, k, st));
                proof {
                    let na = with_open(done@, cur);
                    assert(na.len() == all.len() + 1);
                    assert forall|i: int| 0 <= i < na.len() implies range_in(#[trigger] na[i], m@) by {
                        if i < all.len() {
                            assert(na[i] == all[i]);
                        }
                    }
                    assert forall|i: int| 0 <= i < j + 1 implies covered(na, #[trigger] keys@[i]) by {
                        if i < j {
                            assert(covered(all, keys@[i]));
                            let t = choose|t: int| 0 <= t < all.len() && (#[trigger] all[t]).0 <= keys@[i] <= all[t].1;
                            assert(na[t] == all[t]);
                        } else {
                            assert(na[na.len() - 1].0 <= keys@[i] <= na[na.len() - 1].1);
                        }
                    }
                    assert(keys@[j - 1] < keys@[j as int]);
                    assert forall|i: int| 0 <= i < na.len() implies (#[trigger] na[i]).1 <= keys@[j as int] by {
                        if i < all.len() {
                            assert(na[i] == all[i]);
                        }
                    }
                    assert forall|i: int| 0 <= i < na.len() - 1 implies (#[trigger] na[i]).1 < na[i
                        + 1].0 && !(na[i].1 + 1 == na[i + 1].0 && na[i].2 == na[i + 1].2) by {
                        assert(na[i] == all[i]);
                        if i < all.len() - 1 {
                            assert(na[i + 1] == all[i + 1]);
                        } else {
                            assert(all[i] == c);
                        }
                    }
                }
            },
            None => {
                cur = Some((k, k, st));
                proof {
                    let na = with_open(done@, cur);
                    assert(na.len() == 1);
                    assert(na[0].0 <= keys@[0] <= na[0].1);
                }
            },
        }
        j = j + 1;
    }
    let rs = match cur {
        Some(c) => {
            done.push(c);
            done
        },
        None => done,
    };
    proof {
        assert forall|l: usize| #[trigger] m@.contains_key(l) implies covered(rs@, l) by {
            assert(keys@.to_set().contains(l));
            let i = choose|i: int| 0 <= i < keys@.len() && keys@[i] == l;
        }
    }
    rs
}

/// In a grouping, every run ends before any later run starts.
proof fn lemma_grouping_ordered(rs: Seq<Range>, m: Map<usize, LineState>, i: int, j: int)
    requires
        is_grouping(rs, m),
        0 <= i < j < rs.len(),
    ensures
        rs[i].1 < rs[j].0,
    decreases j - i,
{
    if j > i + 1 {
        lemma_grouping_ordered(rs, m, i, j - 1);
        assert(range_in(rs[j - 1], m));
        assert(rs[j - 1].1 < rs[j - 1 + 1].0);
    } else {
        assert(rs[i].1 < rs[i + 1].0);
    }
}

/// The first run of a grouping starts at the first line of `m`.
proof fn lemma_first_start(rs: Seq<Range>, m: Map<usize, LineState>, k: usize)
    requires
        is_grouping(rs, m),
        rs.len() > 0,
        m.contains_key(k),
    ensures
        m.contains_key(rs[0].0),
        rs[0].0 <= k,
        m[rs[0].0] == rs[0].2,
{
    assert(range_in(rs[0], m));
    assert(rs[0].0 <= rs[0].0 <= rs[0].1);
    assert(m.contains_key(rs[0].0));
    assert(covered(rs, k));
    let i = choose|i: int| 0 <= i < rs.len() && (#[trigger] rs[i]).0 <= k <= rs[i].1;
    if i > 0 {
        lemma_grouping_ordered(rs, m, 0, i);
    }
}

/// Two groupings of `m` whose first runs start alike in one state cannot have the first
/// run of `a` end before that of `b`: the line after it would lie in `b`'s run, so `a`
/// would go on with a run in the same state right after its first one.
proof fn lemma_run_end(a: Seq<Range>, b: Seq<Range>, m: Map<usize, LineState>)
    requires
        is_grouping(a, m),
        is_grouping(b, m),
        a.len() > 0,
        b.len() > 0,
        a[0].0 == b[0].0,
        a[0].2 == b[0].2,
    ensures
        !(a[0].1 < b[0].1),
{
    if a[0].1 < b[0].1 {
        let x = (a[0].1 + 1) as usize;
        assert(range_in(a[0], m));
        assert(range_in(b[0], m));
        assert(b[0].0 <= x <= b[0].1);
        assert(m.contains_key(x) && m[x] == b[0].2);
        assert(covered(a, x));
        let i = choose|i: int| 0 <= i < a.len() && (#[trigger] a[i]).0 <= x <= a[i].1;
        assert(i != 0);
        lemma_grouping_ordered(a, m, 0, 1);
        if i > 1 {
            lemma_grouping_ordered(a, m, 1, i);
            assert(range_in(a[1], m));
        }
        assert(i == 1);
        assert(a[1].0 == x);
        assert(range_in(a[1], m));
        assert(a[1].0 <= x <= a[1].1);
        assert(m[x] == a[1].2);
        assert(!(a[0int].1 + 1 == a[0int + 1].0 && a[0int].2 == a[0int + 1].2));
    }
}

/// The lines of `m` after line `e`.
pub open spec fn lines_after(m: Map<usize, LineState>, e: usize) -> Map<usize, LineState> {
    Map::new(|l: usize| m.contains_key(l) && l > e, |l: usize| m[l])
}

/// Without its first run, a grouping groups the lines after that run.
proof fn lemma_grouping_tail(rs: Seq<Range>, m: Map<usize, LineState>)
    requires
        is_grouping(rs, m),
        rs.len() > 0,
    ensures
        is_grouping(rs.drop_first(), lines_after(m, rs[0].1)),
{
    let t = rs.drop_first();
    let m2 = lines_after(m, rs[0].1);
    assert forall|i: int| 0 <= i < t.len() implies range_in(#[trigger] t[i], m2) by {
        assert(t[i] == rs[i + 1]);
        assert(range_in(rs[i + 1], m));
        lemma_grouping_ordered(rs, m, 0, i + 1);
        assert forall|l: usize| t[i].0 <= l <= t[i].1 implies m2.contains_key(l) && m2[l] == t[i].2 by {
            assert(m.contains_key(l));
        }
    }
    assert forall|i: int| 0 <= i < t.len() - 1 implies (#[trigger] t[i]).1 < t[i + 1].0 && !(t[i].1 + 1
        == t[i + 1].0 && t[i].2 == t[i + 1].2) by {
        assert(t[i] == rs[i + 1] && t[i + 1] == rs[i + 1 + 1]);
        assert(rs[i + 1].1 < rs[i + 1 + 1].0);
    }
    assert forall|l: usize| #[trigger] m2.contains_key(l) implies covered(t, l) by {
        assert(m.contains_key(l));
        assert(covered(rs, l));
        let i = choose|i: int| 0 <= i < rs.len() && (#[trigger] rs[i]).0 <= l <= rs[i].1;
        assert(i != 0);
        assert(t[i - 1] == rs[i]);
    }
}

/// A grouping of lines that has no run groups no lines, so no other grouping of them has
/// a run either.
proof fn lemma_grouping_empty(a: Seq<Range>, b: Seq<Range>, m: Map<usize, LineState>)
    requires
        is_grouping(a, m),
        is_grouping(b, m),
        a.len() == 0,
    ensures
        b.len() == 0,
{
    if b.len() > 0 {
        assert(range_in(b[0], m));
        assert(b[0].0 <= b[0].0 <= b[0].1);
        assert(m.contains_key(b[0].0));
        assert(covered(a, b[0].0));
    }
}

/// Sequences with equal first elements and equal rests are equal.
proof fn lemma_cons_eq(a: Seq<Range>, b: Seq<Range>)
    requires
        a.len() > 0,
        b.len() > 0,
        a[0] == b[0],
        a.drop_first() == b.drop_first(),
    ensures
        a == b,
{
    assert(a.drop_first().len() == a.len() - 1);
    assert(b.drop_first().len() == b.len() - 1);
    assert(a.len() == b.len());
    assert forall|i: int| 0 <= i < a.len() implies a[i] == b[i] by {
        if i > 0 {
            assert(a[i] == a.drop_first()[i - 1]);
            assert(b[i] == b.drop_first()[i - 1]);
        }
    }
    assert(a =~= b);
}

/// Two groupings of the same lines start with the same run.
proof fn lemma_same_first_run(a: Seq<Range>, b: Seq<Range>, m: Map<usize, LineState>)
    requires
        is_grouping(a, m),
        is_grouping(b, m),
        a.len() > 0,
        b.len() > 0,
    ensures
        a[0] == b[0],
{
    assert(range_in(b[0], m));
    assert(b[0].0 <= b[0].0 <= b[0].1);
    lemma_first_start(a, m, b[0].0);
    assert(range_in(a[0], m));
    assert(a[0].0 <= a[0].0 <= a[0].1);
    lemma_first_start(b, m, a[0].0);
    lemma_run_end(a, b, m);
    lemma_run_end(b, a, m);
}

/// There is one way to group a record's lines into maximal runs of consecutive lines in
/// one state: any two groupings of the same lines are equal.
pub proof fn lemma_grouping_unique(a: Seq<Range>, b: Seq<Range>, m: Map<usize, LineState>)
    requires
        is_grouping(a, m),
        is_grouping(b, m),
    ensures
        a == b,
    decreases a.len() + b.len(),
{
    if a.len() == 0 {
        lemma_grouping_empty(a, b, m);
        assert(a =~= b);
    } else if b.len() == 0 {
        lemma_grouping_empty(b, a, m);
    } else {
        lemma_same_first_run(a, b, m);
        lemma_grouping_tail(a, m);
        lemma_grouping_tail(b, m);
        lemma_grouping_unique(a.drop_first(), b.drop_first(), lines_after(m, a[0].1));
        lemma_cons_eq(a, b);
    }
}

/// The grouping of the lines of `m` into maximal runs of consecutive lines in one state
/// (there is exactly one: `lemma_grouping_unique`).
pub open spec fn grouping_of(m: Map<usize, LineState>) -> Seq<Range> {
    choose|rs: Seq<Range>| is_grouping(rs, m)
}

/// A grouping of `m` is the grouping of `m`.
proof fn lemma_is_the_grouping(rs: Seq<Range>, m: Map<usize, LineState>)
    requires
        is_grouping(rs, m),
    ensures
        rs == grouping_of(m),
{
    lemma_grouping_unique(rs, grouping_of(m), m);
}

impl FileOwnership {
    /// The lines in maximal runs of consecutive lines in one state, in line order.
    pub fn group_into_ranges(&self) -> (rs: Vec<Range>)
        ensures
            is_grouping(rs@, self.model().states),
            rs@ == grouping_of(self.model().states),
    {
        let rs = group_ranges(&self.line_states);
        proof {
            lemma_is_the_grouping(rs@, self.line_states@);
        }
        rs
    }
}

// ─── The `.own` text format ──────────────────────────────────────────────────
//
// A record is written as
//   # file: src/main.rs
//   # snapshot: abc123
//
//   3-6:'r'
//   10-15:'q'
//     note: Why use String instead of &str?
// and read from lines `start-end:s`, `n:s` or `start-end:s:note` (`s` one of r, q, a, x).

/// The number of bytes of `c` in UTF-8.
pub open spec fn utf8_width(c: char) -> nat {
    let n = c as u32;
    if n < 0x80 {
        1
    } else if n < 0x800 {
        2
    } else if n < 0x10000 {
        3
    } else {
        4
    }
}

/// The number of bytes of `s` in UTF-8.
pub open spec fn utf8_len(s: Seq<char>) -> nat
    decreases s.len(),
{
    if s.len() == 0 {
        0
    } else {
        utf8_width(s[0]) + utf8_len(s.drop_first())
    }
}

/// The note of an entry whose text after the range's colon is `rest`: what follows its
/// first two bytes, trimmed, or nothing when `rest` has at most two bytes. `None` when
/// the second byte ends inside a character (there the text cannot be cut).
pub open spec fn note_after(rest: Seq<char>) -> Option<Seq<char>> {
    if utf8_len(rest) <= 2 {
        Some(seq![])
    } else if utf8_width(rest[0]) == 2 {
        Some(trim(rest.drop_first()))
    } else if utf8_width(rest[0]) == 1 && utf8_width(rest[1]) == 1 {
        Some(trim(rest.skip(2)))
    } else {
        None
    }
}

/// The text that opens the snapshot comment.
pub open spec fn snapshot_comment() -> Seq<char> {
    seq!['#', ' ', 's', 'n', 'a', 'p', 's', 'h', 'o', 't', ':', ' ']
}

/// The map `m` with the lines `start..=end` in state `st`.
pub open spec fn with_range(m: Map<usize, LineState>, start: usize, end: usize, st: LineState) -> Map<
    usize,
    LineState,
> {
    Map::new(
        |l: usize| m.contains_key(l) || start <= l <= end,
        |l: usize|
            if start <= l <= end {
                st
            } else {
                m[l]
            },
    )
}

/// The record after reading one more line of a `.own` file (`None` when the line's
/// note cannot be cut out).
pub open spec fn own_step(acc: FileModel, raw: Seq<char>) -> Option<FileModel> {
    let l = trim(raw);
    if l.len() == 0 || l[0] == '#' {
        if starts_with(l, snapshot_comment()) {
            Some(FileModel { snapshot: Some(l.skip(12)), ..acc })
        } else {
            Some(acc)
        }
    } else {
        match split_once(l, ':') {
            None => Some(acc),
            Some((range, rest)) => {
                let c = if rest.len() > 0 {
                    rest[0]
                } else {
                    ' '
                };
                match note_after(rest) {
                    None => None,
                    Some(note) => match state_of_char(c) {
                        None => Some(acc),
                        Some(st) => match split_once(range, '-') {
                            Some((a, b)) => match (
                                parse_unsigned(a, 10, usize::MAX as nat),
                                parse_unsigned(b, 10, usize::MAX as nat),
                            ) {
                                (Some(x), Some(y)) => Some(
                                    FileModel {
                                        snapshot: acc.snapshot,
                                        states: with_range(acc.states, x as usize, y as usize, st),
                                        annotations: if note.len() > 0 {
                                            acc.annotations.push(
                                                NoteModel {
                                                    start_line: x as usize,
                                                    end_line: y as usize,
                                                    state: st,
                                                    note,
                                                },
                                            )
                                        } else {
                                            acc.annotations
                                        },
                                    },
                                ),
                                _ => Some(acc),
                            },
                            None => match parse_unsigned(range, 10, usize::MAX as nat) {
                                Some(x) => Some(
                                    FileModel {
                                        snapshot: acc.snapshot,
                                        states: acc.states.insert(x as usize, st),
                                        annotations: if note.len() > 0 {
                                            acc.annotations.push(
                                                NoteModel {
                                                    start_line: x as usize,
                                                    end_line: x as usize,
                                                    state: st,
                                                    note,
                                                },
                                            )
                                        } else {
                                            acc.annotations
                                        },
                                    },
                                ),
                                None => Some(acc),
                            },
                        },
                    },
                }
            },
        }
    }
}

/// The record that the lines `ls` of a `.own` file denote (`None` when a note cannot be
/// cut out of its line).
pub open spec fn own_lines(ls: Seq<Seq<char>>) -> Option<FileModel>
    decreases ls.len(),
{
    if ls.len() == 0 {
        Some(empty_model())
    } else {
        match own_lines(ls.drop_last()) {
            Some(acc) => own_step(acc, ls.last()),
            None => None,
        }
    }
}

/// The record that the text of a `.own` file denotes, if every note can be cut out.
pub open spec fn own_parse(content: Seq<char>) -> Option<FileModel> {
    own_lines(lines(content))
}

/// Once a line cannot be read, neither can the text.
proof fn lemma_own_lines_none(ls: Seq<Seq<char>>, k: int)
    requires
        0 <= k <= ls.len(),
        own_lines(ls.take(k)) is None,
    ensures
        own_lines(ls) is None,
    decreases ls.len() - k,
{
    if k < ls.len() {
        assert(ls.take(k + 1).drop_last() =~= ls.take(k));
        lemma_own_lines_none(ls, k + 1);
    } else {
        assert(ls.take(k) =~= ls);
    }
}

/// The number of bytes of `c` in UTF-8.
fn utf8_width_of(c: char) -> (w: usize)
    ensures
        w == utf8_width(c),
{
    let n = c as u32;
    if n < 0x80 {
        1
    } else if n < 0x800 {
        2
    } else if n < 0x10000 {
        3
    } else {
        4
    }
}

/// The note cut out of `rest`, as `note_after` describes.
fn cut_note(rest: &[char]) -> (r: Option<Vec<char>>)
    ensures
        match (r, note_after(rest@)) {
            (Some(v), Some(n)) => v@ == n,
            (None, None) => true,
            _ => false,
        },
{
    let n = rest.len();
    let big = n >= 3 || (n == 2 && utf8_width_of(rest[0]) + utf8_width_of(rest[1]) > 2) || (n == 1
        && utf8_width_of(rest[0]) > 2);
    proof {
        if n >= 3 {
            lemma_utf8_len_at_least(rest@);
        } else if n == 2 {
            let d1 = rest@.drop_first();
            assert(d1[0] == rest@[1]);
            assert(d1.drop_first().len() == 0);
            assert(utf8_len(d1.drop_first()) == 0);
            assert(utf8_len(d1) == utf8_width(d1[0]) + utf8_len(d1.drop_first()));
            assert(utf8_len(rest@) == utf8_width(rest@[0]) + utf8_len(d1));
        } else if n == 1 {
            assert(rest@.drop_first().len() == 0);
            assert(utf8_len(rest@.drop_first()) == 0);
            assert(utf8_len(rest@) == utf8_width(rest@[0]) + utf8_len(rest@.drop_first()));
        } else {
            assert(utf8_len(rest@) == 0);
        }
    }
    if !big {
        return Some(Vec::new());
    }
    let w0 = utf8_width_of(rest[0]);
    if w0 == 2 {
        let t = sub_chars(rest, 1, n);
        proof {
            assert(t@ =~= rest@.drop_first());
        }
        Some(trim_chars(t.as_slice()))
    } else if w0 == 1 && utf8_width_of(rest[1]) == 1 {
        let t = sub_chars(rest, 2, n);
        proof {
            assert(t@ =~= rest@.skip(2));
        }
        Some(trim_chars(t.as_slice()))
    } else {
        None
    }
}

/// Every character takes at least one byte.
pub proof fn lemma_utf8_len_at_least(s: Seq<char>)
    ensures
        utf8_len(s) >= s.len(),
    decreases s.len(),
{
    if s.len() > 0 {
        lemma_utf8_len_at_least(s.drop_first());
    }
}

/// Puts the lines `start..=end` in state `st`.
fn insert_range(m: &mut BTreeMap<usize, LineState>, start: usize, end: usize, st: LineState)
    ensures
        final(m)@ == with_range(old(m)@, start, end, st),
{
    if start > end {
        proof {
            assert(with_range(old(m)@, start, end, st) =~= old(m)@);
        }
        return;
    }
    let mut l = start;
    loop
        invariant
            start <= l <= end,
            m@ == Map::new(
                |x: usize| old(m)@.contains_key(x) || start <= x < l,
                |x: usize|
                    if start <= x < l {
                        st
                    } else {
                        old(m)@[x]
                    },
            ),
        decreases end - l,
    {
        let ghost before = m@;
        m.insert(l, st);
        proof {
            assert(m@ =~= Map::new(
                |x: usize| old(m)@.contains_key(x) || start <= x <= l,
                |x: usize|
                    if start <= x <= l {
                        st
                    } else {
                        old(m)@[x]
                    },
            ));
        }
        if l == end {
            proof {
                assert(m@ =~= with_range(old(m)@, start, end, st));
            }
            return;
        }
        l = l + 1;
    }
}

impl FileOwnership {
    /// Reads one more line of a `.own` file into this record; false when the line's note
    /// cannot be cut out.
    #[verifier::spinoff_prover]
    #[verifier::rlimit(40)]
    fn read_line(&mut self, raw: &[char], comment: &Vec<char>) -> (ok: bool)
        requires
            comment@ == snapshot_comment(),
        ensures
            match own_step(old(self).model(), raw@) {
                Some(m) => ok && final(self).model() == m,
                None => !ok,
            },
    {
        let ghost before = self.model();
        let l = trim_chars(raw);
        if l.len() == 0 || l[0] == '#' {
            if starts_with_chars(l.as_slice(), comment.as_slice()) {
                let h = sub_chars(l.as_slice(), 12, l.len());
                self.snapshot_hash = Some(string_of(h.as_slice()));
                proof {
                    assert(h@ =~= l@.skip(12));
                    assert(self.model() =~= own_step(before, raw@).unwrap());
                }
            }
            return true;
        }
        let (range, rest) = match split_once_chars(l.as_slice(), ':') {
            None => return true,
            Some(p) => p,
        };
        let c = if rest.len() > 0 {
            rest[0]
        } else {
            ' '
        };
        let note = match cut_note(rest.as_slice()) {
            Some(n) => n,
            None => return false,
        };
        let st = match LineState::from_char(c) {
            None => return true,
            Some(st) => st,
        };
        let ghost rg = split_once(range@, '-');
        let (start, end, ok) = match split_once_chars(range.as_slice(), '-') {
            Some((a, b)) => {
                proof {
                    assert(rg == Some((a@, b@)));
                }
                match (
                    parse_unsigned_chars(a.as_slice(), 10, usize::MAX as u64),
                    parse_unsigned_chars(b.as_slice(), 10, usize::MAX as u64),
                ) {
                    (Some(x), Some(y)) => (x as usize, y as usize, true),
                    _ => (0, 0, false),
                }
            },
            None => match parse_unsigned_chars(range.as_slice(), 10, usize::MAX as u64) {
                Some(x) => (x as usize, x as usize, true),
                None => (0, 0, false),
            },
        };
        if !ok {
            return true;
        }
        if note.len() > 0 {
            self.annotations.push(
                Annotation { start_line: start, end_line: end, state: st, note: string_of(note.as_slice()) },
            );
        }
        insert_range(&mut self.line_states, start, end, st);
        proof {
            if rg is None {
                assert(with_range(before.states, start, end, st) =~= before.states.insert(start, st));
            }
            assert(self.model().annotations =~= (if note@.len() > 0 {
                before.annotations.push(NoteModel { start_line: start, end_line: end, state: st, note: note@ })
            } else {
                before.annotations
            }));
            assert(self.model() =~= own_step(before, raw@).unwrap());
        }
        true
    }

    /// Reads a record from the text of its `.own` file; `None` when a note cannot be cut
    /// out of its line.
    fn parse_checked(content: &str) -> (r: Option<Self>)
        ensures
            match (r, own_parse(content@)) {
                (Some(f), Some(m)) => f.model() == m,
                (None, None) => true,
                _ => false,
            },
    {
        let v = chars_of(content);
        let ls = split_lines(v.as_slice());
        let ghost lv = views(ls@);
        let mut acc = FileOwnership::new();
        let comment: Vec<char> = vec!['#', ' ', 's', 'n', 'a', 'p', 's', 'h', 'o', 't', ':', ' '];
        proof {
            assert(comment@ =~= snapshot_comment());
        }
        let mut i: usize = 0;
        while i < ls.len()
            invariant
                i <= ls@.len(),
                lv == views(ls@),
                lv == lines(content@),
                comment@ == snapshot_comment(),
                own_lines(lv.take(i as int)) == Some(acc.model()),
            decreases ls@.len() - i,
        {
            proof {
                assert(lv.take(i + 1).drop_last() =~= lv.take(i as int));
                assert(lv.take(i + 1).last() == ls@[i as int]@);
            }
            if !acc.read_line(ls[i].as_slice(), &comment) {
                proof {
                    assert(own_lines(lv.take(i + 1)) is None);
                    lemma_own_lines_none(lv, i + 1);
                }
                return None;
            }
            i = i + 1;
        }
        proof {
            assert(lv.take(i as int) =~= lv);
        }
        Some(acc)
    }

    /// Whether the text of a `.own` file can be read: every note can be cut out of its line.
    pub fn can_parse(content: &str) -> (b: bool)
        ensures
            b == own_parse(content@) is Some,
    {
        Self::parse_checked(content).is_some()
    }

    /// Reads a record from the text of its `.own` file.
    pub fn parse(content: &str) -> (r: Self)
        requires
            own_parse(content@) is Some,
        ensures
            r.model() == own_parse(content@).unwrap(),
    {
        Self::parse_checked(content).unwrap()
    }
}

/// The position of the first annotation of the range `start..=end` in state `st`.
pub open spec fn first_match(anns: Seq<NoteModel>, start: usize, end: usize, st: LineState) -> Option<int> {
    if exists|i: int| 0 <= i < anns.len() && matches_range(#[trigger] anns[i], start, end, st) {
        Some(
            choose|i: int|
                0 <= i < anns.len() && matches_range(#[trigger] anns[i], start, end, st) && forall|j: int|
                    0 <= j < i ==> !matches_range(#[trigger] anns[j], start, end, st),
        )
    } else {
        None
    }
}

/// `a` is an annotation of exactly the range `start..=end` in state `st`.
pub open spec fn matches_range(a: NoteModel, start: usize, end: usize, st: LineState) -> bool {
    a.start_line == start && a.end_line == end && a.state == st
}

/// The line numbers of a run as written: `start-end`, also for a run of one line (`4-4`).
pub open spec fn range_text(r: Range) -> Seq<char> {
    decimal(r.0 as nat) + seq!['-'] + decimal(r.1 as nat)
}

/// The line a run is written as: its line numbers, `:` and its state's letter, then `:`
/// and the note of its first annotation when it has one (`3-6:r`, `10:q:Why?`).
pub open spec fn range_line(r: Range, anns: Seq<NoteModel>) -> Seq<char> {
    range_text(r) + seq![':', char_of_state(r.2)] + match first_match(anns, r.0, r.1, r.2) {
        Some(i) => seq![':'] + anns[i].note,
        None => Seq::<char>::empty(),
    }
}

/// The lines the runs `rs` are written as.
pub open spec fn range_lines(rs: Seq<Range>, anns: Seq<NoteModel>) -> Seq<Seq<char>>
    decreases rs.len(),
{
    if rs.len() == 0 {
        seq![]
    } else {
        range_lines(rs.drop_last(), anns).push(range_line(rs.last(), anns))
    }
}

/// The text that opens the file comment.
pub open spec fn file_comment() -> Seq<char> {
    seq!['#', ' ', 'f', 'i', 'l', 'e', ':', ' ']
}

/// The lines a record of `path` is written as, given its ranges `rs`.
pub open spec fn own_out_lines(m: FileModel, path: Seq<char>, rs: Seq<Range>) -> Seq<Seq<char>> {
    seq![file_comment() + path] + (match m.snapshot {
        Some(h) => seq![snapshot_comment() + h],
        None => seq![],
    }) + seq![seq![]] + range_lines(rs, m.annotations)
}

impl FileOwnership {
    /// The first annotation of the range `start..=end` in state `st`.
    fn find_annotation(&self, start: usize, end: usize, st: LineState) -> (r: Option<usize>)
        ensures
            match first_match(self.model().annotations, start, end, st) {
                Some(i) => r matches Some(k) && k as int == i,
                None => r is None,
            },
            r matches Some(i) ==> i < self.annotations@.len() && matches_range(
                self.model().annotations[i as int],
                start,
                end,
                st,
            ),
    {
        let ghost anns = self.model().annotations;
        let mut i: usize = 0;
        while i < self.annotations.len()
            invariant
                i <= self.annotations@.len(),
                anns == self.model().annotations,
                forall|j: int| 0 <= j < i ==> !matches_range(#[trigger] anns[j], start, end, st),
            decreases self.annotations@.len() - i,
        {
            let a = &self.annotations[i];
            if a.start_line == start && a.end_line == end && a.state == st {
                proof {
                    assert(matches_range(anns[i as int], start, end, st));
                    let k = first_match(anns, start, end, st)->0;
                    assert(0 <= k < anns.len() && matches_range(anns[k], start, end, st));
                    if k < i {
                        assert(!matches_range(anns[k], start, end, st));
                    } else if k > i {
                        assert(!matches_range(anns[i as int], start, end, st));
                    }
                }
                return Some(i);
            }
            proof {
                assert(!matches_range(anns[i as int], start, end, st));
            }
            i = i + 1;
        }
        proof {
            if exists|j: int| 0 <= j < anns.len() && matches_range(#[trigger] anns[j], start, end, st) {
                let j = choose|j: int| 0 <= j < anns.len() && matches_range(#[trigger] anns[j], start, end, st);
                assert(!matches_range(anns[j], start, end, st));
            }
        }
        None
    }

    /// The line that the run `r` is written as.
    #[verifier::rlimit(40)]
    #[verifier::spinoff_prover]
    fn run_line(&self, r: Range) -> (l: String)
        ensures
            l@ == range_line(r, self.model().annotations),
    {
        let ghost m = self.model();
        let (start, end, st) = r;
        let mut line: Vec<char> = Vec::new();
        push_digits(&mut line, start as u64, 10);
        line.push('-');
        push_digits(&mut line, end as u64, 10);
        line.push(':');
        line.push(st.to_char());
        proof {
            assert(line@ =~= range_text(r) + seq![':', char_of_state(r.2)]);
        }
        let ghost head = line@;
        match self.find_annotation(start, end, st) {
            Some(k) => {
                line.push(':');
                push_str(&mut line, self.annotations[k].note.as_str());
                proof {
                    assert(first_match(m.annotations, start, end, st) == Some(k as int));
                    assert(line@ =~= head + (seq![':'] + m.annotations[k as int].note));
                }
            },
            None => {
                proof {
                    assert(line@ =~= head + Seq::<char>::empty());
                }
            },
        }
        string_of(line.as_slice())
    }

    /// Writes this record of `file_path` as the text of its `.own` file: a header, then
    /// a line for each run of lines in one state, with the note of its annotation, if any.
    #[verifier::spinoff_prover]
    #[verifier::rlimit(40)]
    pub fn serialize(&self, file_path: &str) -> (r: String)
        ensures
            r@ == join(own_out_lines(self.model(), file_path@, grouping_of(self.model().states)), seq!['\n']),
    {
        let ghost m = self.model();
        let mut out: Vec<String> = Vec::new();
        let mut t: Vec<char> = vec!['#', ' ', 'f', 'i', 'l', 'e', ':', ' '];
        push_str(&mut t, file_path);
        out.push(string_of(t.as_slice()));
        match &self.snapshot_hash {
            Some(h) => {
                let mut t2: Vec<char> = vec!['#', ' ', 's', 'n', 'a', 'p', 's', 'h', 'o', 't', ':', ' '];
                push_str(&mut t2, h.as_str());
                out.push(string_of(t2.as_slice()));
            },
            None => {},
        }
        let empty: Vec<char> = Vec::new();
        out.push(string_of(empty.as_slice()));
        let ghost head = string_views(out@);
        proof {
            assert(head =~= seq![file_comment() + file_path@] + (match m.snapshot {
                Some(h) => seq![snapshot_comment() + h],
                None => seq![],
            }) + seq![seq![]]);
        }
        let ranges = self.group_into_ranges();
        let mut i: usize = 0;
        while i < ranges.len()
            invariant
                i <= ranges@.len(),
                m == self.model(),
                string_views(out@) == head + range_lines(ranges@.take(i as int), m.annotations),
            decreases ranges@.len() - i,
        {
            proof {
                assert(ranges@.take(i + 1).drop_last() =~= ranges@.take(i as int));
                assert(ranges@.take(i + 1).last() == ranges@[i as int]);
            }
            let ghost before = string_views(out@);
            let l = self.run_line(ranges[i]);
            out.push(l);
            proof {
                assert(string_views(out@) =~= before.push(l@));
                assert(head + range_lines(ranges@.take(i + 1), m.annotations) =~= (head + range_lines(ranges@.take(i as int), m.annotations)).push(l@));
            }
            i = i + 1;
        }
        proof {
            assert(ranges@.take(i as int) =~= ranges@);
        }
        let mut text: Vec<char> = Vec::new();
        push_joined(&mut text, &out, '\n');
        proof {
            assert(string_views(out@) =~= own_out_lines(m, file_path@, ranges@));
        }
        string_of(text.as_slice())
    }
}

// ─── Ownership Store ─────────────────────────────────────────────────────────

/// The records of all reviewed files, by source path.
#[derive(Debug)]
pub struct OwnershipStore {
    /// Where the `.own` files live.
    pub own_dir: String,
    pub files: TextMap<FileOwnership>,
}

/// The source path that the `.own` file at `rel` (relative to the `.own` directory) is
/// about: `rel` without its `.own` ending.
pub open spec fn own_source(rel: Seq<char>) -> Seq<char> {
    if rel.len() >= 4 && rel.skip(rel.len() - 4) == seq!['.', 'o', 'w', 'n'] {
        rel.take(rel.len() - 4)
    } else {
        rel
    }
}

/// The records that the `.own` files `files` (relative path, content), read in order,
/// denote, when each of them can be read.
pub open spec fn own_load(files: Seq<(Seq<char>, Seq<char>)>) -> Map<Seq<char>, FileModel>
    decreases files.len(),
{
    if files.len() == 0 {
        Map::empty()
    } else {
        own_load(files.drop_last()).insert(
            own_source(files.last().0),
            own_parse(files.last().1).unwrap(),
        )
    }
}

/// The number of lines of `m` in state `st`.
pub open spec fn state_count(m: Map<usize, LineState>, st: LineState) -> nat {
    sorted_keys(m.dom()).filter(in_state(m, st)).len()
}

/// The test of a line number: its line is in state `st`.
pub open spec fn in_state(m: Map<usize, LineState>, st: LineState) -> spec_fn(usize) -> bool {
    |k: usize| m[k] == st
}

/// The hash text of file content `bytes`: its SHA-256 digest in lower-case hexadecimal.
pub open spec fn content_hash(bytes: Seq<u8>) -> Seq<char> {
    byte_hex(sha256(bytes))
}

impl OwnershipStore {
    /// The records, by source path.
    pub open spec fn model(&self) -> Map<Seq<char>, FileModel> {
        self.files@.map_values(|f: FileOwnership| f.model())
    }

    /// The store is consistent.
    pub open spec fn wf(&self) -> bool {
        self.files.wf()
    }

    /// The store recorded by the `.own` files `files`: each is (path relative to the
    /// `.own` directory, content). Every content must be readable (`can_parse`).
    pub fn load(files: Vec<(String, String)>) -> (r: Self)
        requires
            forall|i: int| 0 <= i < files@.len() ==> own_parse((#[trigger] files@[i]).1@) is Some,
        ensures
            r.wf(),
            r.own_dir@ == seq!['.', 'o', 'w', 'n'],
            r.model() == own_load(files@.map_values(|f: (String, String)| (f.0@, f.1@))),
    {
        let ghost ft = files@.map_values(|f: (String, String)| (f.0@, f.1@));
        let mut store = OwnershipStore { own_dir: string_of(vec!['.', 'o', 'w', 'n'].as_slice()), files: TextMap::new() };
        proof {
            assert(store.model() =~= Map::<Seq<char>, FileModel>::empty());
        }
        let suffix: Vec<char> = vec!['.', 'o', 'w', 'n'];
        let mut i: usize = 0;
        while i < files.len()
            invariant
                i <= files@.len(),
                ft == files@.map_values(|f: (String, String)| (f.0@, f.1@)),
                forall|i: int| 0 <= i < files@.len() ==> own_parse((#[trigger] files@[i]).1@) is Some,
                suffix@ == seq!['.', 'o', 'w', 'n'],
                store.wf(),
                store.own_dir@ == seq!['.', 'o', 'w', 'n'],
                store.model() == own_load(ft.take(i as int)),
            decreases files@.len() - i,
        {
            let rel = chars_of(files[i].0.as_str());
            let n = rel.len();
            let mut src = sub_chars(rel.as_slice(), 0, n);
            if n >= 4 {
                let tail = sub_chars(rel.as_slice(), n - 4, n);
                if starts_with_chars(tail.as_slice(), suffix.as_slice()) {
                    src = sub_chars(rel.as_slice(), 0, n - 4);
                }
                proof {
                    assert(tail@.take(4) =~= tail@);
                    assert(tail@ =~= rel@.skip(n - 4));
                }
            }
            proof {
                assert(rel@.subrange(0, n as int) =~= rel@);
                assert(src@ == own_source(ft[i as int].0));
                assert(ft.take(i + 1).drop_last() =~= ft.take(i as int));
                assert(ft.take(i + 1).last() == ft[i as int]);
                assert(own_parse(files@[i as int].1@) is Some);
            }
            let rec = FileOwnership::parse(files[i].1.as_str());
            let ghost rm = rec.model();
            let ghost before = store.model();
            store.files.insert(string_of(src.as_slice()), rec);
            proof {
                assert(store.model() =~= before.insert(src@, rm));
            }
            i = i + 1;
        }
        proof {
            assert(ft.take(i as int) =~= ft);
        }
        store
    }

    /// A copy of the record of `file_name`, or an empty record when there is none.
    pub fn get_file(&self, file_name: &str) -> (r: FileOwnership)
        requires
            self.wf(),
        ensures
            r.model() == if self.model().contains_key(file_name@) {
                self.model()[file_name@]
            } else {
                empty_model()
            },
    {
        match self.files.get(file_name) {
            Some(f) => f.copy(),
            None => FileOwnership::new(),
        }
    }

    /// The record of `file_name`, made empty first when there is none.
    pub fn get_file_mut(&mut self, file_name: &str) -> (r: &mut FileOwnership)
        requires
            old(self).wf(),
        ensures
            final(self).wf(),
            final(self).own_dir == old(self).own_dir,
            r.model() == if old(self).model().contains_key(file_name@) {
                old(self).model()[file_name@]
            } else {
                empty_model()
            },
            final(self).model() == old(self).model().insert(file_name@, final(r).model()),
    {
        let ghost before = self.model();
        let r = self.files.get_or_insert(file_name, FileOwnership::new());
        proof {
            assert forall|m2: TextMap<FileOwnership>, x: FileOwnership|
                #![trigger m2.view(), x.model()]
                m2@ == old(self).files@.insert(file_name@, x) implies m2@.map_values(
                    |f: FileOwnership| f.model(),
                ) == before.insert(file_name@, x.model()) by {
                assert(m2@.map_values(|f: FileOwnership| f.model()) =~= before.insert(file_name@, x.model()));
            }
        }
        r
    }

    /// The SHA-256 hash of file content, as 64 lower-case hexadecimal digits (what is
    /// kept as a record's snapshot).
    pub fn compute_hash(content: &Vec<u8>) -> (r: String)
        ensures
            r@ == content_hash(content@),
            r@.len() == 64,
    {
        hex_sha256(content)
    }

    /// Whether `file_name` changed since its snapshot, given the file's current content:
    /// always when it has no snapshot.
    pub fn has_changed(&self, file_name: &str, current: &Vec<u8>) -> (b: bool)
        requires
            self.wf(),
        ensures
            b == match (if self.model().contains_key(file_name@) {
                self.model()[file_name@]
            } else {
                empty_model()
            }).snapshot {
                Some(h) => h != content_hash(current@),
                None => true,
            },
    {
        let ownership = self.get_file(file_name);
        match &ownership.snapshot_hash {
            Some(stored) => {
                let now = Self::compute_hash(current);
                !(*stored == now)
            },
            None => true,
        }
    }

    /// The numbers of lines of `file_name` that are reviewed, questioned, approved and
    /// rejected.
    pub fn file_stats(&self, file_name: &str) -> (r: (usize, usize, usize, usize))
        requires
            self.wf(),
        ensures
            ({
                let m = (if self.model().contains_key(file_name@) {
                    self.model()[file_name@]
                } else {
                    empty_model()
                }).states;
                &&& r.0 == state_count(m, LineState::Reviewed)
                &&& r.1 == state_count(m, LineState::Questioned)
                &&& r.2 == state_count(m, LineState::Approved)
                &&& r.3 == state_count(m, LineState::Rejected)
                &&& r.0 + r.1 + r.2 + r.3 == m.dom().len()
            }),
    {
        let ownership = self.get_file(file_name);
        ownership.state_counts()
    }
}

impl FileOwnership {
    /// The numbers of lines that are reviewed, questioned, approved and rejected.
    pub fn state_counts(&self) -> (r: (usize, usize, usize, usize))
        ensures
            r.0 == state_count(self.model().states, LineState::Reviewed),
            r.1 == state_count(self.model().states, LineState::Questioned),
            r.2 == state_count(self.model().states, LineState::Approved),
            r.3 == state_count(self.model().states, LineState::Rejected),
            r.0 + r.1 + r.2 + r.3 == self.model().states.dom().len(),
            r.0 + r.1 + r.2 + r.3 <= usize::MAX,
    {
        let ghost m = self.line_states@;
        let keys = keys_in_order(&self.line_states);
        let mut reviewed: usize = 0;
        let mut questioned: usize = 0;
        let mut approved: usize = 0;
        let mut rejected: usize = 0;
        let mut j: usize = 0;
        while j < keys.len()
            invariant
                j <= keys@.len(),
                keys@ == sorted_keys(m.dom()),
                keys@.to_set() == m.dom(),
                m == self.line_states@,
                reviewed == keys@.take(j as int).filter(in_state(m, LineState::Reviewed)).len(),
                questioned == keys@.take(j as int).filter(in_state(m, LineState::Questioned)).len(),
                approved == keys@.take(j as int).filter(in_state(m, LineState::Approved)).len(),
                rejected == keys@.take(j as int).filter(in_state(m, LineState::Rejected)).len(),
                reviewed <= j,
                questioned <= j,
                approved <= j,
                rejected <= j,
                reviewed + questioned + approved + rejected == j,
            decreases keys@.len() - j,
        {
            let k = keys[j];
            proof {
                assert(keys@.to_set().contains(k));
                assert(keys@.take(j + 1).drop_last() =~= keys@.take(j as int));
                assert(keys@.take(j + 1).last() == k);
                reveal(Seq::filter);
            }
            match self.line_states.get(&k).unwrap() {
                LineState::Reviewed => reviewed = reviewed + 1,
                LineState::Questioned => questioned = questioned + 1,
                LineState::Approved => approved = approved + 1,
                LineState::Rejected => rejected = rejected + 1,
            }
            j = j + 1;
        }
        proof {
            assert(keys@.take(j as int) =~= keys@);
            keys@.unique_seq_to_set();
        }
        (reviewed, questioned, approved, rejected)
    }
}

} // verus!
