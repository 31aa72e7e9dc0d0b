//! Tag-based ownership records: one line entry per reviewed line, plus range notes.
use std::collections::BTreeMap;
use vstd::prelude::*;
use crate::hashing::{default_hash_str, hex_hash_str};
use crate::keyorder::{keys_in_order, sorted_keys};
use crate::strmap::TextMap;
use crate::text::{
    chars_of, decimal, hex, join, parse_unsigned, parse_unsigned_chars, push_digits, push_joined,
    push_str, split, split_chars, starts_with, starts_with_chars, sub_chars, lines, split_lines, split_once, split_once_chars, string_of, string_views, trim,
    trim_chars, views,
};

verus! {

// ─── Data Model ──────────────────────────────────────────────────────────────

/// The tags of one source line.
#[derive(Debug, Clone)]
pub struct LineEntry {
    pub line: usize,
    pub tags: Vec<String>,
    /// Hash of the line's content, used to find the line again after edits.
    pub content_hash: Option<String>,
}

/// A note on a range of lines.
#[derive(Debug, Clone)]
pub struct Annotation {
    pub start_line: usize,
    pub end_line: usize,
    pub note: String,
}

/// What is recorded of one source file.
#[derive(Debug)]
pub struct FileOwnership {
    /// Hash of the source file when it was reviewed.
    pub snapshot: Option<String>,
    pub entries: BTreeMap<usize, LineEntry>,
    pub annotations: Vec<Annotation>,
}

/// The records of all reviewed files, by file path.
#[derive(Debug)]
pub struct Store {
    pub files: TextMap<FileOwnership>,
    empty: FileOwnership,
}

// ─── Models ──────────────────────────────────────────────────────────────────

/// A line entry as plain values.
pub struct EntryModel {
    pub line: usize,
    pub tags: Seq<Seq<char>>,
    pub hash: Option<Seq<char>>,
}

/// An annotation as plain values.
pub struct NoteModel {
    pub start_line: usize,
    pub end_line: usize,
    pub note: Seq<char>,
}

/// A file record as plain values.
pub struct FileModel {
    pub snapshot: Option<Seq<char>>,
    pub entries: Map<usize, EntryModel>,
    pub annotations: Seq<NoteModel>,
}

/// The text of an optional string.
pub open spec fn opt_view(o: Option<String>) -> Option<Seq<char>> {
    match o {
        Some(s) => Some(s@),
        None => None,
    }
}

impl LineEntry {
    pub open spec fn model(&self) -> EntryModel {
        EntryModel { line: self.line, tags: string_views(self.tags@), hash: opt_view(self.content_hash) }
    }
}

impl Annotation {
    pub open spec fn model(&self) -> NoteModel {
        NoteModel { start_line: self.start_line, end_line: self.end_line, note: self.note@ }
    }
}

impl FileOwnership {
    pub open spec fn model(&self) -> FileModel {
        FileModel {
            snapshot: opt_view(self.snapshot),
            entries: self.entries@.map_values(|e: LineEntry| e.model()),
            annotations: self.annotations@.map_values(|a: Annotation| a.model()),
        }
    }
}

// ─── Line entry format: `5:r,approved:content_hash` or `5:r,approved` ─────────

/// The largest `usize`, as a mathematical integer.
pub open spec fn usize_max() -> nat {
    usize::MAX as nat
}

/// The line entry that the text `s` denotes, if any.
#[verifier::opaque]
pub open spec fn parse_entry(s: Seq<char>) -> Option<EntryModel> {
    match split_once(s, ':') {
        None => None,
        Some((p0, rest)) => {
            let (p1, p2) = match split_once(rest, ':') {
                Some((a, b)) => (a, Some(b)),
                None => (rest, None::<Seq<char>>),
            };
            match parse_unsigned(p0, 10, usize_max()) {
                None => None,
                Some(n) => Some(
                    EntryModel {
                        line: n as usize,
                        tags: split(p1, ',').map_values(|t: Seq<char>| trim(t)),
                        hash: match p2 {
                            Some(h) => if h.len() > 0 {
                                Some(h)
                            } else {
                                None
                            },
                            None => None,
                        },
                    },
                ),
            }
        },
    }
}

/// The entry that a range line `a-b:tags` or `a-b:tags:hash` gives each line from `a`
/// to `b` (its `line` is `a`), with the range's ends.
#[verifier::opaque]
pub open spec fn parse_range(s: Seq<char>) -> Option<(usize, usize, EntryModel)> {
    match split_once(s, ':') {
        None => None,
        Some((p0, rest)) => match split_once(p0, '-') {
            None => None,
            Some((a, b)) => {
                let (p1, p2) = match split_once(rest, ':') {
                    Some((x, y)) => (x, Some(y)),
                    None => (rest, None::<Seq<char>>),
                };
                match (parse_unsigned(a, 10, usize_max()), parse_unsigned(b, 10, usize_max())) {
                    (Some(x), Some(y)) => Some(
                        (
                            x as usize,
                            y as usize,
                            EntryModel {
                                line: x as usize,
                                tags: split(p1, ',').map_values(|t: Seq<char>| trim(t)),
                                hash: match p2 {
                                    Some(h) => if h.len() > 0 {
                                        Some(h)
                                    } else {
                                        None
                                    },
                                    None => None,
                                },
                            },
                        ),
                    ),
                    _ => None,
                }
            },
        },
    }
}

/// `m` with an entry like `e` on each line from `x` to `y`.
pub open spec fn with_entry_range(m: Map<usize, EntryModel>, x: int, y: int, e: EntryModel) -> Map<
    usize,
    EntryModel,
> {
    Map::new(
        |k: usize| m.contains_key(k) || (x <= k && k <= y),
        |k: usize|
            if x <= k && k <= y {
                EntryModel { line: k, ..e }
            } else {
                m[k]
            },
    )
}

/// The text of a line entry.
pub open spec fn entry_text(e: EntryModel) -> Seq<char> {
    decimal(e.line as nat) + seq![':'] + join(e.tags, seq![',']) + match e.hash {
        Some(h) => seq![':'] + h,
        None => seq![],
    }
}

/// The trimmed text of each piece.
fn trimmed_strings(pieces: &Vec<Vec<char>>) -> (r: Vec<String>)
    ensures
        string_views(r@) == views(pieces@).map_values(|t: Seq<char>| trim(t)),
{
    let mut r: Vec<String> = Vec::new();
    let mut i: usize = 0;
    while i < pieces.len()
        invariant
            i <= pieces@.len(),
            string_views(r@) == views(pieces@).take(i as int).map_values(|t: Seq<char>| trim(t)),
        decreases pieces@.len() - i,
    {
        let t = trim_chars(pieces[i].as_slice());
        let ghost prev = string_views(r@);
        r.push(string_of(t.as_slice()));
        proof {
            let want = views(pieces@).take(i + 1).map_values(|t: Seq<char>| trim(t));
            assert(prev.len() == i);
            assert(views(pieces@).len() == pieces@.len());
            assert(string_views(r@).len() == want.len());
            assert forall|k: int| 0 <= k < want.len() implies string_views(r@)[k] == want[k] by {
                if k < i {
                    assert(string_views(r@)[k] == prev[k]);
                } else {
                    assert(views(pieces@)[k] == pieces@[k]@);
                }
            }
            assert(string_views(r@) =~= want);
        }
        i = i + 1;
    }
    proof {
        assert(views(pieces@).take(i as int) =~= views(pieces@));
    }
    r
}

/// Reads a range line `a-b:tags` or `a-b:tags:hash`: its ends, and the entry of its
/// first line.
fn parse_range_line(v: &[char]) -> (r: Option<(usize, usize, LineEntry)>)
    ensures
        match (r, parse_range(v@)) {
            (Some((x, y, e)), Some((mx, my, me))) => x == mx && y == my && e.model() == me,
            (None, None) => true,
            _ => false,
        },
{
    proof {
        reveal(parse_range);
    }
    let (p0, rest) = match split_once_chars(v, ':') {
        Some(p) => p,
        None => return None,
    };
    let (a, b) = match split_once_chars(p0.as_slice(), '-') {
        Some(p) => p,
        None => return None,
    };
    let (p1, p2) = match split_once_chars(rest.as_slice(), ':') {
        Some((x, y)) => (x, Some(y)),
        None => (rest, None),
    };
    let x = match parse_unsigned_chars(a.as_slice(), 10, usize::MAX as u64) {
        Some(n) => n as usize,
        None => return None,
    };
    let y = match parse_unsigned_chars(b.as_slice(), 10, usize::MAX as u64) {
        Some(n) => n as usize,
        None => return None,
    };
    let pieces = split_chars(p1.as_slice(), ',');
    let tags = trimmed_strings(&pieces);
    let content_hash = match p2 {
        Some(h) => if h.len() > 0 {
            Some(string_of(h.as_slice()))
        } else {
            None
        },
        None => None,
    };
    let e = LineEntry { line: x, tags, content_hash };
    proof {
        reveal(parse_range);
        assert(e.model() =~= parse_range(v@).unwrap().2);
    }
    Some((x, y, e))
}

/// Puts an entry like `e` on each line from `x` to `y`.
fn insert_entry_range(entries: &mut BTreeMap<usize, LineEntry>, x: usize, y: usize, e: &LineEntry)
    ensures
        final(entries)@.map_values(|f: LineEntry| f.model()) == with_entry_range(
            old(entries)@.map_values(|f: LineEntry| f.model()),
            x as int,
            y as int,
            e.model(),
        ),
{
    let ghost m0 = old(entries)@.map_values(|f: LineEntry| f.model());
    if x > y {
        proof {
            assert(entries@.map_values(|f: LineEntry| f.model()) =~= with_entry_range(m0, x as int, y as int, e.model()));
        }
        return;
    }
    let mut k = x;
    loop
        invariant
            x <= k <= y,
            m0 == old(entries)@.map_values(|f: LineEntry| f.model()),
            entries@.map_values(|f: LineEntry| f.model()) == with_entry_range(m0, x as int, k - 1, e.model()),
        decreases y - k,
    {
        let ghost before = entries@.map_values(|f: LineEntry| f.model());
        let item = LineEntry { line: k, tags: copy_strings(&e.tags), content_hash: copy_opt(&e.content_hash) };
        let ghost im = item.model();
        proof {
            assert(im == EntryModel { line: k, ..e.model() });
        }
        entries.insert(k, item);
        proof {
            assert(entries@.map_values(|f: LineEntry| f.model()) =~= before.insert(k, im));
            assert(before.insert(k, im) =~= with_entry_range(m0, x as int, k as int, e.model()));
        }
        if k == y {
            return;
        }
        k = k + 1;
    }
}

impl LineEntry {
    /// Reads an entry from its text.
    pub fn parse(line: &str) -> (r: Option<Self>)
        ensures
            match (r, parse_entry(line@)) {
                (Some(e), Some(m)) => e.model() == m,
                (None, None) => true,
                _ => false,
            },
    {
        let v = chars_of(line);
        proof {
            reveal(parse_entry);
        }
        let (p0, rest) = match split_once_chars(v.as_slice(), ':') {
            Some(p) => p,
            None => return None,
        };
        let (p1, p2) = match split_once_chars(rest.as_slice(), ':') {
            Some((a, b)) => (a, Some(b)),
            None => (rest, None),
        };
        let n = match parse_unsigned_chars(p0.as_slice(), 10, usize::MAX as u64) {
            Some(n) => n as usize,
            None => return None,
        };
        let pieces = split_chars(p1.as_slice(), ',');
        let tags = trimmed_strings(&pieces);
        let content_hash = match p2 {
            Some(h) => if h.len() > 0 {
                Some(string_of(h.as_slice()))
            } else {
                None
            },
            None => None,
        };
        let e = LineEntry { line: n, tags, content_hash };
        proof {
            reveal(parse_entry);
            assert(e.model() =~= parse_entry(line@).unwrap());
        }
        Some(e)
    }

    /// Writes an entry as text.
    pub fn serialize(&self) -> (r: String)
        ensures
            r@ == entry_text(self.model()),
    {
        let mut out: Vec<char> = Vec::new();
        push_digits(&mut out, self.line as u64, 10);
        out.push(':');
        push_joined(&mut out, &self.tags, ',');
        match &self.content_hash {
            Some(h) => {
                out.push(':');
                push_str(&mut out, h.as_str());
            },
            None => {},
        }
        proof {
            assert(out@ =~= entry_text(self.model()));
        }
        string_of(out.as_slice())
    }

    /// Creates an entry with the hash of the line's content.
    pub fn with_content(line: usize, tags: Vec<String>, content: &str) -> (r: Self)
        ensures
            r.line == line,
            r.tags == tags,
            r.content_hash matches Some(h) && h@ == hex(default_hash_str(content@) as nat),
    {
        let content_hash = hex_hash_str(content);
        LineEntry { line, tags, content_hash: Some(content_hash) }
    }
}

// ─── Annotation format: `@5-10:note text here` ───────────────────────────────

/// The annotation that the text `s` denotes, if any.
#[verifier::opaque]
pub open spec fn parse_note(s: Seq<char>) -> Option<NoteModel> {
    if s.len() > 0 && s[0] == '@' {
        match split_once(s.drop_first(), ':') {
            None => None,
            Some((range, note)) => {
                let parts = split(range, '-');
                if parts.len() == 2 {
                    match (parse_unsigned(parts[0], 10, usize_max()), parse_unsigned(parts[1], 10, usize_max())) {
                        (Some(a), Some(b)) => Some(
                            NoteModel { start_line: a as usize, end_line: b as usize, note },
                        ),
                        _ => None,
                    }
                } else {
                    None
                }
            },
        }
    } else {
        None
    }
}

/// The text of an annotation.
pub open spec fn note_text(a: NoteModel) -> Seq<char> {
    seq!['@'] + decimal(a.start_line as nat) + seq!['-'] + decimal(a.end_line as nat) + seq![':']
        + a.note
}

impl Annotation {
    /// Reads an annotation from its text.
    pub fn parse(line: &str) -> (r: Option<Self>)
        ensures
            match (r, parse_note(line@)) {
                (Some(a), Some(m)) => a.model() == m,
                (None, None) => true,
                _ => false,
            },
    {
        let v = chars_of(line);
        proof {
            reveal(parse_note);
        }
        if !(v.len() > 0 && v[0] == '@') {
            return None;
        }
        let rest = sub_chars(v.as_slice(), 1, v.len());
        proof {
            assert(rest@ =~= line@.drop_first());
        }
        let (range, note) = match split_once_chars(rest.as_slice(), ':') {
            Some(p) => p,
            None => return None,
        };
        let parts = split_chars(range.as_slice(), '-');
        if parts.len() != 2 {
            return None;
        }
        proof {
            assert(views(parts@)[0] == parts@[0]@);
            assert(views(parts@)[1] == parts@[1]@);
        }
        let start = match parse_unsigned_chars(parts[0].as_slice(), 10, usize::MAX as u64) {
            Some(n) => n as usize,
            None => return None,
        };
        let end = match parse_unsigned_chars(parts[1].as_slice(), 10, usize::MAX as u64) {
            Some(n) => n as usize,
            None => return None,
        };
        let a = Annotation { start_line: start, end_line: end, note: string_of(note.as_slice()) };
        Some(a)
    }

    /// Writes an annotation as text.
    pub fn serialize(&self) -> (r: String)
        ensures
            r@ == note_text(self.model()),
    {
        let mut out: Vec<char> = Vec::new();
        out.push('@');
        push_digits(&mut out, self.start_line as u64, 10);
        out.push('-');
        push_digits(&mut out, self.end_line as u64, 10);
        out.push(':');
        push_str(&mut out, self.note.as_str());
        proof {
            assert(out@ =~= note_text(self.model()));
        }
        string_of(out.as_slice())
    }
}

// ─── File format ─────────────────────────────────────────────────────────────

/// The text that opens the snapshot line.
pub open spec fn snapshot_prefix() -> Seq<char> {
    seq!['s', 'n', 'a', 'p', 's', 'h', 'o', 't', ':', ' ']
}

/// A record with nothing in it.
pub open spec fn empty_model() -> FileModel {
    FileModel { snapshot: None, entries: Map::empty(), annotations: seq![] }
}

/// The record after reading one more line of a `.own` file.
pub open spec fn parse_step(acc: FileModel, raw: Seq<char>) -> FileModel {
    let l = trim(raw);
    if l.len() == 0 || l[0] == '#' {
        acc
    } else if starts_with(l, snapshot_prefix()) {
        FileModel { snapshot: Some(l.skip(10)), entries: acc.entries, annotations: acc.annotations }
    } else {
        match parse_note(l) {
            Some(a) => FileModel {
                snapshot: acc.snapshot,
                entries: acc.entries,
                annotations: acc.annotations.push(a),
            },
            None => match parse_entry(l) {
                Some(e) => FileModel {
                    snapshot: acc.snapshot,
                    entries: acc.entries.insert(e.line, e),
                    annotations: acc.annotations,
                },
                None => match parse_range(l) {
                    Some((x, y, e)) => FileModel {
                        entries: with_entry_range(acc.entries, x as int, y as int, e),
                        ..acc
                    },
                    None => acc,
                },
            },
        }
    }
}

/// The record that the lines `ls` of a `.own` file denote.
pub open spec fn parse_lines(ls: Seq<Seq<char>>) -> FileModel
    decreases ls.len(),
{
    if ls.len() == 0 {
        empty_model()
    } else {
        parse_step(parse_lines(ls.drop_last()), ls.last())
    }
}

/// The record that the text of a `.own` file denotes.
pub open spec fn parse_file(content: Seq<char>) -> FileModel {
    parse_lines(lines(content))
}

/// The lines that a record is written as: the snapshot, the entries by line number,
/// then the annotations.
pub open spec fn file_lines(m: FileModel) -> Seq<Seq<char>> {
    (match m.snapshot {
        Some(s) => seq![snapshot_prefix() + s],
        None => seq![],
    }) + sorted_keys(m.entries.dom()).map_values(|k: usize| entry_text(m.entries[k]))
        + m.annotations.map_values(|a: NoteModel| note_text(a))
}

/// The text that a record is written as.
pub open spec fn file_text(m: FileModel) -> Seq<char> {
    join(file_lines(m), seq!['\n'])
}

impl FileOwnership {
    /// A record with nothing in it.
    pub fn new() -> (r: Self)
        ensures
            r.model() == empty_model(),
    {
        let r = FileOwnership { snapshot: None, entries: BTreeMap::new(), annotations: Vec::new() };
        proof {
            assert(r.model().entries =~= Map::<usize, EntryModel>::empty());
            assert(r.model().annotations =~= Seq::<NoteModel>::empty());
        }
        r
    }

    /// Reads a record from the text of its `.own` file.
    pub fn parse(content: &str) -> (r: Self)
        ensures
            r.model() == parse_file(content@),
    {
        let v = chars_of(content);
        let ls = split_lines(v.as_slice());
        let ghost lv = views(ls@);
        let mut acc = FileOwnership::new();
        let prefix: Vec<char> = vec!['s', 'n', 'a', 'p', 's', 'h', 'o', 't', ':', ' '];
        proof {
            assert(prefix@ =~= snapshot_prefix());
        }
        let mut i: usize = 0;
        while i < ls.len()
            invariant
                i <= ls@.len(),
                lv == views(ls@),
                lv == lines(content@),
                prefix@ == snapshot_prefix(),
                acc.model() == parse_lines(lv.take(i as int)),
            decreases ls@.len() - i,
        {
            let ghost before = acc.model();
            let l = trim_chars(ls[i].as_slice());
            proof {
                assert(lv.take(i + 1).drop_last() =~= lv.take(i as int));
                assert(lv.take(i + 1).last() == ls@[i as int]@);
            }
            if l.len() == 0 || l[0] == '#' {
            } else if starts_with_chars(l.as_slice(), prefix.as_slice()) {
                let rest = sub_chars(l.as_slice(), 10, l.len());
                acc.snapshot = Some(string_of(rest.as_slice()));
                proof {
                    assert(rest@ =~= l@.skip(10));
                    assert(acc.model() =~= parse_step(before, ls@[i as int]@));
                }
            } else {
                let text = string_of(l.as_slice());
                match Annotation::parse(text.as_str()) {
                    Some(a) => {
                        acc.annotations.push(a);
                        proof {
                            assert(acc.model().annotations =~= before.annotations.push(a.model()));
                            assert(acc.model() =~= parse_step(before, ls@[i as int]@));
                        }
                    },
                    None => match LineEntry::parse(text.as_str()) {
                        Some(e) => {
                            let ghost em = e.model();
                            acc.entries.insert(e.line, e);
                            proof {
                                assert(acc.model().entries =~= before.entries.insert(em.line, em));
                                assert(acc.model() =~= parse_step(before, ls@[i as int]@));
                            }
                        },
                        None => match parse_range_line(l.as_slice()) {
                            Some((x, y, e)) => {
                                let ghost em = e.model();
                                insert_entry_range(&mut acc.entries, x, y, &e);
                                proof {
                                    assert(acc.model().entries == with_entry_range(before.entries, x as int, y as int, em));
                                    assert(acc.model() =~= parse_step(before, ls@[i as int]@));
                                }
                            },
                            None => {},
                        },
                    },
                }
            }
            i = i + 1;
        }
        proof {
            assert(lv.take(i as int) =~= lv);
        }
        acc
    }

    /// The lines this record is written as.
    fn serialized_lines(&self) -> (r: Vec<String>)
        ensures
            string_views(r@) == file_lines(self.model()),
    {
        let mut out: Vec<String> = Vec::new();
        match &self.snapshot {
            Some(s) => {
                let mut t: Vec<char> = vec!['s', 'n', 'a', 'p', 's', 'h', 'o', 't', ':', ' '];
                push_str(&mut t, s.as_str());
                out.push(string_of(t.as_slice()));
            },
            None => {},
        }
        let ghost head = string_views(out@);
        let keys = keys_in_order(&self.entries);
        let ghost m = self.model();
        let mut i: usize = 0;
        while i < keys.len()
            invariant
                i <= keys@.len(),
                keys@ == sorted_keys(self.entries@.dom()),
                keys@.to_set() == self.entries@.dom(),
                m == self.model(),
                string_views(out@) == head + keys@.take(i as int).map_values(
                    |k: usize| entry_text(m.entries[k]),
                ),
            decreases keys@.len() - i,
        {
            let k = keys[i];
            proof {
                assert(keys@.to_set().contains(k));
            }
            let e = self.entries.get(&k).unwrap();
            let ghost prev = string_views(out@);
            out.push(e.serialize());
            proof {
                assert(keys@.take(i + 1).drop_last() =~= keys@.take(i as int));
                assert(string_views(out@) =~= prev.push(entry_text(m.entries[k])));
                assert(string_views(out@) =~= head + keys@.take(i + 1).map_values(
                    |k: usize| entry_text(m.entries[k]),
                ));
            }
            i = i + 1;
        }
        let ghost mid = string_views(out@);
        let mut j: usize = 0;
        while j < self.annotations.len()
            invariant
                j <= self.annotations@.len(),
                m == self.model(),
                string_views(out@) == mid + m.annotations.take(j as int).map_values(
                    |a: NoteModel| note_text(a),
                ),
            decreases self.annotations@.len() - j,
        {
            let ghost prev = string_views(out@);
            out.push(self.annotations[j].serialize());
            proof {
                assert(m.annotations.take(j + 1).drop_last() =~= m.annotations.take(j as int));
                assert(string_views(out@) =~= prev.push(note_text(m.annotations[j as int])));
                assert(string_views(out@) =~= mid + m.annotations.take(j + 1).map_values(
                    |a: NoteModel| note_text(a),
                ));
            }
            j = j + 1;
        }
        proof {
            assert(keys@.take(i as int) =~= keys@);
            assert(m.annotations.take(j as int) =~= m.annotations);
            assert(m.entries.dom() =~= self.entries@.dom());
            assert(string_views(out@) =~= file_lines(m));
        }
        out
    }

    /// Writes this record as the text of its `.own` file.
    pub fn serialize(&self) -> (r: String)
        ensures
            r@ == file_text(self.model()),
    {
        let ls = self.serialized_lines();
        let mut out: Vec<char> = Vec::new();
        push_joined(&mut out, &ls, '\n');
        proof {
            assert(out@ =~= file_text(self.model()));
        }
        string_of(out.as_slice())
    }
}

// ─── Copies ──────────────────────────────────────────────────────────────────

/// A copy of a list of strings.
pub fn copy_strings(v: &Vec<String>) -> (r: Vec<String>)
    ensures
        r@ == v@,
{
    let mut r: Vec<String> = Vec::new();
    let mut i: usize = 0;
    while i < v.len()
        invariant
            i <= v@.len(),
            r@ == v@.take(i as int),
        decreases v@.len() - i,
    {
        r.push(v[i].clone());
        i = i + 1;
        proof {
            assert(r@ =~= v@.take(i as int));
        }
    }
    proof {
        assert(v@.take(i as int) =~= v@);
    }
    r
}

/// A copy of an optional string.
pub fn copy_opt(o: &Option<String>) -> (r: Option<String>)
    ensures
        r == *o,
{
    match o {
        Some(s) => Some(s.clone()),
        None => None,
    }
}

impl LineEntry {
    /// This entry, filed under another line number.
    pub fn moved_to(&self, line: usize) -> (r: Self)
        ensures
            r.line == line,
            r.tags@ == self.tags@,
            r.content_hash == self.content_hash,
    {
        LineEntry { line, tags: copy_strings(&self.tags), content_hash: copy_opt(&self.content_hash) }
    }
}

impl Annotation {
    /// A copy of this annotation.
    pub fn copy(&self) -> (r: Self)
        ensures
            r == *self,
    {
        Annotation { start_line: self.start_line, end_line: self.end_line, note: self.note.clone() }
    }
}

// ─── Editing a record ────────────────────────────────────────────────────────

/// `a` overlaps the lines `start..=end`.
pub open spec fn overlaps(a: NoteModel, start: usize, end: usize) -> bool {
    a.start_line <= end && a.end_line >= start
}

/// `a` covers line `line`.
pub open spec fn covers(a: NoteModel, line: usize) -> bool {
    line >= a.start_line && line <= a.end_line
}

/// The position of the first annotation that covers `line`, if any.
pub open spec fn first_covering(anns: Seq<NoteModel>, line: usize) -> Option<int> {
    if exists|i: int| 0 <= i < anns.len() && covers(#[trigger] anns[i], line) {
        Some(
            choose|i: int|
                0 <= i < anns.len() && covers(#[trigger] anns[i], line) && forall|j: int|
                    0 <= j < i ==> !covers(#[trigger] anns[j], line),
        )
    } else {
        None
    }
}

/// The hash text that a fresh entry for a line with `content` carries.
pub open spec fn content_hash_of(content: Seq<char>) -> Seq<char> {
    hex(default_hash_str(content) as nat)
}

/// The text of an optional string slice.
pub open spec fn opt_str(o: Option<&str>) -> Option<Seq<char>> {
    match o {
        Some(s) => Some(s@),
        None => None,
    }
}

/// The record after setting the tags of `line` to `tags` (see `set_line`).
pub open spec fn with_tags(
    fm: FileModel,
    line: usize,
    tags: Seq<Seq<char>>,
    content: Option<Seq<char>>,
) -> FileModel {
    if tags.len() == 0 {
        FileModel { entries: fm.entries.remove(line), ..fm }
    } else {
        FileModel {
            entries: fm.entries.insert(
                line,
                EntryModel {
                    line,
                    tags,
                    hash: match content {
                        Some(c) => Some(content_hash_of(c)),
                        None => if fm.entries.contains_key(line) {
                            fm.entries[line].hash
                        } else {
                            None
                        },
                    },
                },
            ),
            ..fm
        }
    }
}

/// The record after noting `note` on the lines `start..=end`: the annotations that
/// overlap those lines go, the new one comes last.
pub open spec fn annotated(fm: FileModel, start: usize, end: usize, note: Seq<char>) -> FileModel {
    FileModel {
        annotations: fm.annotations.filter(|a: NoteModel| !overlaps(a, start, end)).push(
            NoteModel { start_line: start, end_line: end, note },
        ),
        ..fm
    }
}

/// The record after dropping the annotations that cover `line`.
pub open spec fn unannotated(fm: FileModel, line: usize) -> FileModel {
    FileModel { annotations: fm.annotations.filter(|a: NoteModel| !covers(a, line)), ..fm }
}

impl FileOwnership {
    /// Sets the tags of `line`: an empty list drops the line's entry. With the line's
    /// content the entry gets that content's hash; without it the entry keeps the hash
    /// it had, if any.
    pub fn set_line(&mut self, line: usize, tags: Vec<String>, content: Option<&str>)
        ensures
            final(self).model() == with_tags(old(self).model(), line, string_views(tags@), opt_str(content)),
            final(self).snapshot == old(self).snapshot,
            final(self).annotations == old(self).annotations,
            tags@.len() == 0 ==> final(self).entries@ == old(self).entries@.remove(line),
            tags@.len() > 0 ==> final(self).entries@.dom() == old(self).entries@.dom().insert(line)
                && (forall|k: usize| #![trigger final(self).entries@[k]]
                    k != line && old(self).entries@.contains_key(k) ==> final(self).entries@[k]
                    == old(self).entries@[k]) && final(self).entries@[line].line == line
                && final(self).entries@[line].tags == tags && opt_view(
                final(self).entries@[line].content_hash,
            ) == match content {
                Some(c) => Some(content_hash_of(c@)),
                None => if old(self).entries@.contains_key(line) {
                    opt_view(old(self).entries@[line].content_hash)
                } else {
                    None
                },
            },
    {
        let ghost tv = string_views(tags@);
        if tags.len() == 0 {
            self.entries.remove(&line);
            proof {
                assert(self.model().entries =~= old(self).model().entries.remove(line));
            }
        } else {
            let entry = match content {
                Some(c) => LineEntry::with_content(line, tags, c),
                None => {
                    let existing = match self.entries.get(&line) {
                        Some(e) => copy_opt(&e.content_hash),
                        None => None,
                    };
                    LineEntry { line, tags, content_hash: existing }
                },
            };
            self.entries.insert(line, entry);
            proof {
                assert(self.entries@.dom() =~= old(self).entries@.dom().insert(line));
                assert(self.model().entries =~= with_tags(old(self).model(), line, tv, opt_str(content)).entries);
            }
        }
    }

    /// The first annotation that covers `line`.
    pub fn get_annotation(&self, line: usize) -> (r: Option<&Annotation>)
        ensures
            match first_covering(self.model().annotations, line) {
                Some(i) => 0 <= i < self.annotations@.len() && (r matches Some(a) && *a == self.annotations@[i]),
                None => r is None,
            },
    {
        let ghost anns = self.model().annotations;
        let mut i: usize = 0;
        while i < self.annotations.len()
            invariant
                i <= self.annotations@.len(),
                anns == self.model().annotations,
                forall|j: int| 0 <= j < i ==> !covers(#[trigger] anns[j], line),
            decreases self.annotations@.len() - i,
        {
            let a = &self.annotations[i];
            if line >= a.start_line && line <= a.end_line {
                proof {
                    assert(covers(anns[i as int], line));
                    let k = first_covering(anns, line)->0;
                    assert(0 <= k < anns.len() && covers(anns[k], line) && forall|j: int|
                        0 <= j < k ==> !covers(#[trigger] anns[j], line));
                    if k < i {
                        assert(!covers(anns[k], line));
                    } else if k > i {
                        assert(!covers(anns[i as int], line));
                    }
                }
                return Some(a);
            }
            proof {
                assert(!covers(anns[i as int], line));
            }
            i = i + 1;
        }
        proof {
            if exists|j: int| 0 <= j < anns.len() && covers(#[trigger] anns[j], line) {
                let j = choose|j: int| 0 <= j < anns.len() && covers(#[trigger] anns[j], line);
                assert(!covers(anns[j], line));
            }
        }
        None
    }

    /// Keeps only the annotations that do not overlap the lines `start..=end`.
    fn drop_overlapping(&mut self, start: usize, end: usize)
        ensures
            final(self).snapshot == old(self).snapshot,
            final(self).entries == old(self).entries,
            final(self).model().annotations == old(self).model().annotations.filter(
                |a: NoteModel| !overlaps(a, start, end),
            ),
    {
        let ghost olds = self.model().annotations;
        let mut kept: Vec<Annotation> = Vec::new();
        let mut i: usize = 0;
        while i < self.annotations.len()
            invariant
                i <= self.annotations@.len(),
                olds == self.model().annotations,
                kept@.map_values(|a: Annotation| a.model()) == olds.take(i as int).filter(
                    |a: NoteModel| !overlaps(a, start, end),
                ),
            decreases self.annotations@.len() - i,
        {
            let a = &self.annotations[i];
            proof {
                assert(olds.take(i + 1).drop_last() =~= olds.take(i as int));
                assert(olds.take(i + 1).last() == a.model());
                reveal(Seq::filter);
            }
            if !(a.start_line <= end && a.end_line >= start) {
                kept.push(a.copy());
                proof {
                    assert(kept@.map_values(|a: Annotation| a.model()) =~= olds.take(i + 1).filter(
                        |a: NoteModel| !overlaps(a, start, end),
                    ));
                }
            }
            i = i + 1;
        }
        proof {
            assert(olds.take(i as int) =~= olds);
        }
        self.annotations = kept;
    }

    /// Puts a note on the lines `start..=end`, dropping the annotations it overlaps.
    pub fn set_annotation(&mut self, start: usize, end: usize, note: String)
        ensures
            final(self).snapshot == old(self).snapshot,
            final(self).entries == old(self).entries,
            final(self).model() == annotated(old(self).model(), start, end, note@),
    {
        self.drop_overlapping(start, end);
        let ghost before = self.model().annotations;
        self.annotations.push(Annotation { start_line: start, end_line: end, note });
        proof {
            assert(self.model().annotations =~= before.push(
                NoteModel { start_line: start, end_line: end, note: note@ },
            ));
        }
    }

    /// Drops the annotations that cover `line`.
    pub fn remove_annotation(&mut self, line: usize)
        ensures
            final(self).snapshot == old(self).snapshot,
            final(self).entries == old(self).entries,
            final(self).model() == unannotated(old(self).model(), line),
    {
        self.drop_overlapping(line, line);
        proof {
            assert(old(self).model().annotations.filter(|a: NoteModel| !overlaps(a, line, line))
                =~= old(self).model().annotations.filter(|a: NoteModel| !covers(a, line))) by {
                let f1 = |a: NoteModel| !overlaps(a, line, line);
                let f2 = |a: NoteModel| !covers(a, line);
                assert(f1 =~= f2);
            }
        }
    }
}

// ─── Snapshots ───────────────────────────────────────────────────────────────

/// The snapshot text of source content `c`: the hex text of its hash.
pub open spec fn snapshot_of(c: Seq<char>) -> Seq<char> {
    hex(default_hash_str(c) as nat)
}

impl FileOwnership {
    /// The snapshot of a source file, given its content (`None` when it could not be read).
    pub fn compute_snapshot(content: Option<&str>) -> (r: Option<String>)
        ensures
            match content {
                Some(c) => r matches Some(s) && s@ == snapshot_of(c@),
                None => r is None,
            },
    {
        match content {
            Some(c) => Some(hex_hash_str(c)),
            None => None,
        }
    }

    /// Whether the source changed since the snapshot: never without a snapshot, always
    /// when the source cannot be read, else when the snapshots differ.
    pub fn is_stale(&self, content: Option<&str>) -> (b: bool)
        ensures
            b == match (self.snapshot, content) {
                (None, _) => false,
                (Some(_), None) => true,
                (Some(s), Some(c)) => s@ != snapshot_of(c@),
            },
    {
        match (&self.snapshot, Self::compute_snapshot(content)) {
            (Some(stored), Some(current)) => !(*stored == current),
            (None, _) => false,
            (_, None) => true,
        }
    }

    /// Records the snapshot of the source content (none when it could not be read).
    pub fn update_snapshot(&mut self, content: Option<&str>)
        ensures
            final(self).entries == old(self).entries,
            final(self).annotations == old(self).annotations,
            opt_view(final(self).snapshot) == match content {
                Some(c) => Some(snapshot_of(c@)),
                None => None,
            },
    {
        self.snapshot = Self::compute_snapshot(content);
    }
}

// ─── Re-anchoring after edits ────────────────────────────────────────────────

/// The 1-based number of the last line whose hash text is `h`, if any.
pub open spec fn last_line_with(hashes: Seq<Seq<char>>, h: Seq<char>) -> Option<nat>
    decreases hashes.len(),
{
    if hashes.len() == 0 {
        None
    } else if hashes.last() == h {
        Some(hashes.len())
    } else {
        last_line_with(hashes.drop_last(), h)
    }
}

/// The entries and used hashes after re-anchoring the entries at the lines `keys`, in
/// order, against the new lines' hashes: an entry whose hash is that of a new line not
/// yet claimed moves to the last such line, and that hash is claimed; any other entry
/// stays at its line.
pub open spec fn reanchor_fold(
    entries: Map<usize, EntryModel>,
    keys: Seq<usize>,
    hashes: Seq<Seq<char>>,
) -> (Map<usize, EntryModel>, Set<Seq<char>>)
    decreases keys.len(),
{
    if keys.len() == 0 {
        (Map::empty(), Set::empty())
    } else {
        let (acc, used) = reanchor_fold(entries, keys.drop_last(), hashes);
        let k = keys.last();
        let e = entries[k];
        match e.hash {
            Some(h) => match last_line_with(hashes, h) {
                Some(n) => if !used.contains(h) {
                    (
                        acc.insert(n as usize, EntryModel { line: n as usize, tags: e.tags, hash: e.hash }),
                        used.insert(h),
                    )
                } else {
                    (acc.insert(k, e), used)
                },
                None => (acc.insert(k, e), used),
            },
            None => (acc.insert(k, e), used),
        }
    }
}

/// The hash texts of the lines `ls`.
pub open spec fn line_hashes(ls: Seq<Seq<char>>) -> Seq<Seq<char>> {
    ls.map_values(|l: Seq<char>| content_hash_of(l))
}

/// The 1-based number of the last line whose hash text is `h`, if any.
fn find_last_line(hashes: &Vec<String>, h: &String) -> (r: Option<usize>)
    ensures
        match last_line_with(string_views(hashes@), h@) {
            Some(n) => r == Some(n as usize),
            None => r is None,
        },
{
    let ghost hs = string_views(hashes@);
    let mut i = hashes.len();
    proof {
        assert(hs.take(i as int) =~= hs);
    }
    while i > 0
        invariant
            i <= hashes@.len(),
            hs == string_views(hashes@),
            last_line_with(hs, h@) == last_line_with(hs.take(i as int), h@),
        decreases i,
    {
        proof {
            assert(hs.take(i as int).drop_last() =~= hs.take(i - 1));
            assert(hs.take(i as int).last() == hashes@[i - 1]@);
        }
        if hashes[i - 1] == *h {
            return Some(i);
        }
        i = i - 1;
    }
    proof {
        assert(hs.take(0) =~= Seq::<Seq<char>>::empty());
    }
    None
}

/// Whether `h` is among `used`.
fn contains_string(used: &Vec<String>, h: &String) -> (b: bool)
    ensures
        b == string_views(used@).contains(h@),
{
    let mut i: usize = 0;
    while i < used.len()
        invariant
            i <= used@.len(),
            forall|j: int| 0 <= j < i ==> used@[j]@ != h@,
        decreases used@.len() - i,
    {
        if used[i] == *h {
            proof {
                assert(string_views(used@)[i as int] == h@);
            }
            return true;
        }
        i = i + 1;
    }
    proof {
        if string_views(used@).contains(h@) {
            let j = choose|j: int| 0 <= j < string_views(used@).len() && string_views(used@)[j] == h@;
            assert(used@[j]@ == h@);
        }
    }
    false
}

impl FileOwnership {
    /// Moves the entries to where their lines' content now is, after the source changed.
    /// Without a snapshot nothing moves.
    pub fn reanchor(&mut self, new_lines: &Vec<String>)
        ensures
            final(self).snapshot == old(self).snapshot,
            final(self).model().annotations == old(self).model().annotations,
            old(self).snapshot is None ==> final(self).model() == old(self).model(),
            old(self).snapshot is Some ==> final(self).model().entries == reanchor_fold(
                old(self).model().entries,
                sorted_keys(old(self).entries@.dom()),
                line_hashes(string_views(new_lines@)),
            ).0,
    {
        if self.snapshot.is_none() {
            return;
        }
        let ghost nl = string_views(new_lines@);
        let mut hashes: Vec<String> = Vec::new();
        let mut i: usize = 0;
        while i < new_lines.len()
            invariant
                i <= new_lines@.len(),
                nl == string_views(new_lines@),
                string_views(hashes@) == line_hashes(nl.take(i as int)),
            decreases new_lines@.len() - i,
        {
            let ghost before = string_views(hashes@);
            hashes.push(hex_hash_str(new_lines[i].as_str()));
            proof {
                assert(nl[i as int] == new_lines@[i as int]@);
                assert(line_hashes(nl.take(i + 1)) =~= line_hashes(nl.take(i as int)).push(
                    content_hash_of(nl[i as int]),
                ));
                assert(string_views(hashes@) =~= before.push(content_hash_of(nl[i as int])));
            }
            i = i + 1;
        }
        proof {
            assert(nl.take(i as int) =~= nl);
        }
        let ghost hs = line_hashes(nl);
        let ghost m = self.model().entries;
        let keys = keys_in_order(&self.entries);
        let mut new_entries: BTreeMap<usize, LineEntry> = BTreeMap::new();
        let mut used: Vec<String> = Vec::new();
        let mut j: usize = 0;
        while j < keys.len()
            invariant
                j <= keys@.len(),
                keys@ == sorted_keys(self.entries@.dom()),
                keys@.to_set() == self.entries@.dom(),
                m == self.model().entries,
                string_views(hashes@) == hs,
                ({
                    let (acc, u) = reanchor_fold(m, keys@.take(j as int), hs);
                    &&& new_entries@.map_values(|e: LineEntry| e.model()) == acc
                    &&& string_views(used@).to_set() == u
                }),
            decreases keys@.len() - j,
        {
            let k = keys[j];
            proof {
                assert(keys@.to_set().contains(k));
                assert(keys@.take(j + 1).drop_last() =~= keys@.take(j as int));
                assert(keys@.take(j + 1).last() == k);
            }
            let ghost before = new_entries@.map_values(|e: LineEntry| e.model());
            let ghost used_before = string_views(used@);
            let entry = self.entries.get(&k).unwrap();
            let mut moved = false;
            match &entry.content_hash {
                Some(h) => {
                    match find_last_line(&hashes, h) {
                        Some(n) => {
                            if !contains_string(&used, h) {
                                let e2 = entry.moved_to(n);
                                let ghost em = e2.model();
                                new_entries.insert(n, e2);
                                used.push(h.clone());
                                moved = true;
                                proof {
                                    assert(new_entries@.map_values(|e: LineEntry| e.model()) =~= before.insert(n, em));
                                    assert(string_views(used@) =~= used_before.push(h@));
                                    used_before.lemma_push_to_set_commute(h@);
                                }
                            }
                        },
                        None => {},
                    }
                },
                None => {},
            }
            if !moved {
                let e2 = entry.moved_to(entry.line);
                let ghost em = e2.model();
                new_entries.insert(k, e2);
                proof {
                    assert(em == m[k]);
                    assert(new_entries@.map_values(|e: LineEntry| e.model()) =~= before.insert(k, em));
                }
            }
            j = j + 1;
        }
        proof {
            assert(keys@.take(j as int) =~= keys@);
        }
        self.entries = new_entries;
    }
}

// ─── The store of all records ────────────────────────────────────────────────

/// The text that ends a `.own` file's name.
pub open spec fn own_suffix() -> Seq<char> {
    seq!['.', 'o', 'w', 'n']
}

/// The source path that the `.own` file at `rel` (relative to `.own/`) is about: `rel`
/// without its `.own` ending, or empty when it has none.
pub open spec fn source_of(rel: Seq<char>) -> Seq<char> {
    if rel.len() >= 4 && rel.skip(rel.len() - 4) == own_suffix() {
        rel.take(rel.len() - 4)
    } else {
        seq![]
    }
}

/// The records that the `.own` files `files` (relative path, content), read in order,
/// denote: each file with a non-empty source path records that source.
pub open spec fn load_files(files: Seq<(Seq<char>, Seq<char>)>) -> Map<Seq<char>, FileModel>
    decreases files.len(),
{
    if files.len() == 0 {
        Map::empty()
    } else {
        let acc = load_files(files.drop_last());
        let (rel, content) = files.last();
        let src = source_of(rel);
        if src.len() > 0 {
            acc.insert(src, parse_file(content))
        } else {
            acc
        }
    }
}

/// The path and content of each file.
pub open spec fn file_texts(files: Seq<(String, String)>) -> Seq<(Seq<char>, Seq<char>)> {
    files.map_values(|f: (String, String)| (f.0@, f.1@))
}

impl Store {
    /// The records, by source path.
    pub closed spec fn model(&self) -> Map<Seq<char>, FileModel> {
        self.files@.map_values(|f: FileOwnership| f.model())
    }

    /// The store is consistent.
    pub closed spec fn wf(&self) -> bool {
        self.files.wf() && self.empty.model() == empty_model()
    }

    /// A store with no records.
    pub fn new() -> (r: Self)
        ensures
            r.wf(),
            r.model() == Map::<Seq<char>, FileModel>::empty(),
    {
        let r = Store { files: TextMap::new(), empty: FileOwnership::new() };
        proof {
            assert(r.model() =~= Map::<Seq<char>, FileModel>::empty());
        }
        r
    }

    /// The store recorded by the `.own` files `files`: each is (path relative to `.own/`,
    /// content).
    pub fn load(files: Vec<(String, String)>) -> (r: Self)
        ensures
            r.wf(),
            r.model() == load_files(file_texts(files@)),
    {
        let mut store = Store::new();
        let ghost ft = file_texts(files@);
        let suffix: Vec<char> = vec!['.', 'o', 'w', 'n'];
        let mut i: usize = 0;
        while i < files.len()
            invariant
                i <= files@.len(),
                ft == file_texts(files@),
                suffix@ == own_suffix(),
                store.wf(),
                store.model() == load_files(ft.take(i as int)),
            decreases files@.len() - i,
        {
            let rel = chars_of(files[i].0.as_str());
            let n = rel.len();
            let mut src: Vec<char> = Vec::new();
            if n >= 4 {
                let tail = sub_chars(rel.as_slice(), n - 4, n);
                if starts_with_chars(tail.as_slice(), suffix.as_slice()) {
                    src = sub_chars(rel.as_slice(), 0, n - 4);
                    proof {
                        assert(tail@.take(4) =~= tail@);
                        assert(tail@ =~= rel@.skip(n - 4));
                        assert(src@ =~= rel@.take(n - 4));
                    }
                } else {
                    proof {
                        assert(tail@.take(4) =~= tail@);
                        assert(tail@ =~= rel@.skip(n - 4));
                    }
                }
            }
            proof {
                assert(src@ == source_of(ft[i as int].0));
                assert(ft.take(i + 1).drop_last() =~= ft.take(i as int));
                assert(ft.take(i + 1).last() == ft[i as int]);
            }
            if src.len() > 0 {
                let rec = FileOwnership::parse(files[i].1.as_str());
                let ghost rm = rec.model();
                let key = string_of(src.as_slice());
                let ghost old_model = store.model();
                store.files.insert(key, rec);
                proof {
                    assert(store.model() =~= old_model.insert(src@, rm));
                }
            }
            i = i + 1;
        }
        proof {
            assert(ft.take(i as int) =~= ft);
        }
        store
    }

    /// The record of `path`, or an empty record when there is none.
    pub fn get_file(&self, path: &str) -> (r: &FileOwnership)
        requires
            self.wf(),
        ensures
            r.model() == if self.model().contains_key(path@) {
                self.model()[path@]
            } else {
                empty_model()
            },
    {
        match self.files.get(path) {
            Some(f) => f,
            None => &self.empty,
        }
    }

    /// The record of `path`, made empty first when there is none.
    pub fn get_file_mut(&mut self, path: &str) -> (r: &mut FileOwnership)
        requires
            old(self).wf(),
        ensures
            final(self).wf(),
            r.model() == if old(self).model().contains_key(path@) {
                old(self).model()[path@]
            } else {
                empty_model()
            },
            final(self).model() == old(self).model().insert(path@, final(r).model()),
    {
        let ghost before = self.model();
        let r = self.files.get_or_insert(path, FileOwnership::new());
        proof {
            assert forall|m2: TextMap<FileOwnership>, x: FileOwnership|
                #![trigger m2.view(), x.model()]
                m2@ == old(self).files@.insert(path@, x) implies m2@.map_values(
                    |f: FileOwnership| f.model(),
                ) == before.insert(path@, x.model()) by {
                assert(m2@.map_values(|f: FileOwnership| f.model()) =~= before.insert(path@, x.model()));
            }
        }
        r
    }
}

// ─── Counting reviewed lines ─────────────────────────────────────────────────

/// `tags` holds the tag `t`.
pub open spec fn has_tag(tags: Seq<Seq<char>>, t: Seq<char>) -> bool {
    tags.contains(t)
}

/// The entry counts as reviewed against the source lines `src`: it is not on a blank
/// source line, and it is tagged `r` or `a`.
pub open spec fn counts_as_reviewed(e: EntryModel, src: Seq<Seq<char>>) -> bool {
    &&& !(1 <= e.line <= src.len() && trim(src[e.line - 1]).len() == 0)
    &&& (has_tag(e.tags, seq!['r']) || has_tag(e.tags, seq!['a']))
}

/// The line numbers of the entries that count as reviewed, in order.
pub open spec fn reviewed_keys(m: Map<usize, EntryModel>, src: Seq<Seq<char>>) -> Seq<usize> {
    sorted_keys(m.dom()).filter(|k: usize| counts_as_reviewed(m[k], src))
}

/// The source lines that are not blank.
pub open spec fn non_blank(src: Seq<Seq<char>>) -> Seq<Seq<char>> {
    src.filter(|l: Seq<char>| trim(l).len() > 0)
}

/// Whether the list of tags holds `t`.
fn tags_contain(tags: &Vec<String>, t: &[char]) -> (b: bool)
    ensures
        b == has_tag(string_views(tags@), t@),
{
    let mut i: usize = 0;
    while i < tags.len()
        invariant
            i <= tags@.len(),
            forall|j: int| 0 <= j < i ==> tags@[j]@ != t@,
        decreases tags@.len() - i,
    {
        let c = chars_of(tags[i].as_str());
        if c.len() == t.len() && starts_with_chars(c.as_slice(), t) {
            proof {
                assert(c@.take(t@.len() as int) =~= c@);
                assert(string_views(tags@)[i as int] == t@);
            }
            return true;
        }
        proof {
            if c@ == t@ {
                assert(c@.take(t@.len() as int) =~= c@);
            }
        }
        i = i + 1;
    }
    proof {
        if has_tag(string_views(tags@), t@) {
            let j = choose|j: int| 0 <= j < string_views(tags@).len() && string_views(tags@)[j] == t@;
            assert(tags@[j]@ == t@);
        }
    }
    false
}

/// The number of non-blank lines.
pub fn count_non_blank(src: &Vec<String>) -> (n: usize)
    ensures
        n == non_blank(string_views(src@)).len(),
{
    let ghost sv = string_views(src@);
    let mut n: usize = 0;
    let mut i: usize = 0;
    while i < src.len()
        invariant
            i <= src@.len(),
            sv == string_views(src@),
            n == non_blank(sv.take(i as int)).len(),
            n <= i,
        decreases src@.len() - i,
    {
        let t = trim_chars(chars_of(src[i].as_str()).as_slice());
        proof {
            assert(sv.take(i + 1).drop_last() =~= sv.take(i as int));
            assert(sv.take(i + 1).last() == src@[i as int]@);
            reveal(Seq::filter);
        }
        if t.len() > 0 {
            n = n + 1;
        }
        i = i + 1;
    }
    proof {
        assert(sv.take(i as int) =~= sv);
    }
    n
}

impl FileOwnership {
    /// The number of entries that count as reviewed against the source lines `src`.
    /// Line numbers start at 1.
    pub fn reviewed_lines(&self, src: &Vec<String>) -> (n: usize)
        requires
            forall|k: usize| #[trigger] self.entries@.contains_key(k) ==> self.entries@[k].line >= 1,
        ensures
            n == reviewed_keys(self.model().entries, string_views(src@)).len(),
    {
        let ghost sv = string_views(src@);
        let ghost m = self.model().entries;
        let keys = keys_in_order(&self.entries);
        let r: Vec<char> = vec!['r'];
        let a: Vec<char> = vec!['a'];
        let mut n: usize = 0;
        let mut j: usize = 0;
        while j < keys.len()
            invariant
                j <= keys@.len(),
                keys@ == sorted_keys(self.entries@.dom()),
                keys@.to_set() == self.entries@.dom(),
                m == self.model().entries,
                sv == string_views(src@),
                r@ == seq!['r'],
                a@ == seq!['a'],
                forall|k: usize| #[trigger] self.entries@.contains_key(k) ==> self.entries@[k].line >= 1,
                n == keys@.take(j as int).filter(|k: usize| counts_as_reviewed(m[k], sv)).len(),
                n <= j,
            decreases keys@.len() - j,
        {
            let k = keys[j];
            proof {
                assert(keys@.to_set().contains(k));
                assert(keys@.take(j + 1).drop_last() =~= keys@.take(j as int));
                assert(keys@.take(j + 1).last() == k);
                reveal(Seq::filter);
            }
            let e = self.entries.get(&k).unwrap();
            let mut blank = false;
            if e.line <= src.len() {
                let t = trim_chars(chars_of(src[e.line - 1].as_str()).as_slice());
                blank = t.len() == 0;
            }
            if !blank && (tags_contain(&e.tags, r.as_slice()) || tags_contain(&e.tags, a.as_slice())) {
                n = n + 1;
            }
            j = j + 1;
        }
        proof {
            assert(keys@.take(j as int) =~= keys@);
            assert(m.dom() =~= self.entries@.dom());
        }
        n
    }
}

} // verus!
