//! What the `.own` text format promises: a record that is written and read back is the
//! same record.
use vstd::prelude::*;
use crate::keyorder::{lemma_sorted_keys, sorted_keys};
use crate::store::{
    empty_model, entry_text, file_lines, file_text, load_files, note_text, own_suffix, parse_entry, parse_file,
    parse_lines, parse_note, parse_step, snapshot_prefix, usize_max, EntryModel, FileModel,
    NoteModel, annotated, unannotated, first_covering, covers, overlaps, reanchor_fold, reviewed_keys, last_line_with,
};
use crate::text::{
    decimal, has_char, is_decimal_digit, is_ws, join, lemma_decimal, lemma_decimal_lacks,
    lemma_first_index, lemma_join_lacks, lemma_lines_join, lemma_split_join, lemma_trim_id, lines,
    parse_unsigned, split, split_once, starts_with, trim,
};

verus! {

/// `t` holds no line break and does not end in white space.
pub open spec fn line_safe(t: Seq<char>) -> bool {
    !has_char(t, '\n') && (t.len() == 0 || !is_ws(t.last()))
}

/// An entry that its text reads back as: at least one tag; tags free of `,` and `:` and
/// of surrounding white space; a hash, if any, non-empty.
pub open spec fn entry_readable(e: EntryModel) -> bool {
    &&& e.tags.len() > 0
    &&& forall|i: int|
        0 <= i < e.tags.len() ==> !has_char(#[trigger] e.tags[i], ',') && !has_char(e.tags[i], ':')
            && trim(e.tags[i]) == e.tags[i]
    &&& match e.hash {
        Some(h) => h.len() > 0,
        None => true,
    }
}

/// An entry that its line in a record's text reads back as: readable, with no line
/// break in its tags and a hash, if any, that is line-safe.
pub open spec fn entry_writable(e: EntryModel) -> bool {
    &&& entry_readable(e)
    &&& forall|i: int| 0 <= i < e.tags.len() ==> !has_char(#[trigger] e.tags[i], '\n')
    &&& match e.hash {
        Some(h) => line_safe(h),
        None => true,
    }
}

/// A record that its text reads back as: a non-empty, line-safe snapshot if any; each
/// entry filed under its own line number and writable; line-safe notes.
pub open spec fn file_writable(m: FileModel) -> bool {
    &&& match m.snapshot {
        Some(s) => s.len() > 0 && line_safe(s),
        None => true,
    }
    &&& m.entries.dom().finite()
    &&& forall|k: usize| #[trigger]
        m.entries.contains_key(k) ==> m.entries[k].line == k && entry_writable(m.entries[k])
    &&& forall|i: int| 0 <= i < m.annotations.len() ==> line_safe(#[trigger] m.annotations[i].note)
}

/// `has_char` is false exactly when no position holds the character.
pub proof fn lemma_lacks(s: Seq<char>, c: char)
    requires
        !has_char(s, c),
    ensures
        forall|j: int| 0 <= j < s.len() ==> s[j] != c,
{
    assert forall|j: int| 0 <= j < s.len() implies s[j] != c by {
        if s[j] == c {
            assert(has_char(s, c));
        }
    }
}

/// A concatenation lacks what its parts lack.
pub proof fn lemma_concat_lacks(a: Seq<char>, b: Seq<char>, c: char)
    requires
        !has_char(a, c),
        !has_char(b, c),
    ensures
        !has_char(a + b, c),
{
    lemma_lacks(a, c);
    lemma_lacks(b, c);
    if has_char(a + b, c) {
        let k = choose|k: int| 0 <= k < (a + b).len() && (a + b)[k] == c;
        if k < a.len() {
            assert((a + b)[k] == a[k]);
        } else {
            assert((a + b)[k] == b[k - a.len()]);
        }
    }
}

/// Splitting `a + [c] + b` at its first `c`, when `a` has none.
pub proof fn lemma_split_once_at(a: Seq<char>, c: char, b: Seq<char>)
    requires
        !has_char(a, c),
    ensures
        split_once(a + seq![c] + b, c) == Some((a, b)),
{
    let s = a + seq![c] + b;
    lemma_lacks(a, c);
    assert forall|j: int| 0 <= j < a.len() implies s[j] != c by {
        assert(s[j] == a[j]);
    }
    assert(s[a.len() as int] == c);
    lemma_first_index(s, c, a.len() as int);
    assert(s.take(a.len() as int) =~= a);
    assert(s.skip(a.len() as int + 1) =~= b);
}

/// The last character of a join of tags is not white space.
proof fn lemma_join_tags_end(tags: Seq<Seq<char>>)
    requires
        tags.len() > 0,
        forall|i: int| 0 <= i < tags.len() ==> trim(#[trigger] tags[i]) == tags[i],
    ensures
        join(tags, seq![',']).len() > 0 ==> !is_ws(join(tags, seq![',']).last()),
{
    let j = join(tags, seq![',']);
    let t = tags.last();
    assert(tags[tags.len() - 1] == t);
    assert(trim(t) == t);
    if t.len() > 0 {
        crate::store_laws::lemma_trimmed_end(t);
    }
    if tags.len() >= 2 {
        assert(j == join(tags.drop_last(), seq![',']) + seq![','] + t);
        if t.len() > 0 {
            assert(j.last() == t.last());
        } else {
            assert(j.last() == ',');
        }
    } else {
        assert(j == tags[0]);
    }
}

/// A trimmed non-empty text does not end in white space.
pub proof fn lemma_trimmed_end(t: Seq<char>)
    requires
        t.len() > 0,
        trim(t) == t,
    ensures
        !is_ws(t.last()),
{
    let s = crate::text::trim_start(t);
    assert(crate::text::trim_end(s) == t);
    if is_ws(t.last()) {
        lemma_trim_end_shorter(s);
    }
}

/// `trim_end` gives a text that does not end in white space.
proof fn lemma_trim_end_shorter(s: Seq<char>)
    ensures
        crate::text::trim_end(s).len() > 0 ==> !is_ws(crate::text::trim_end(s).last()),
    decreases s.len(),
{
    if s.len() > 0 && is_ws(s.last()) {
        lemma_trim_end_shorter(s.drop_last());
    }
}

/// The parts an entry's text splits into at its first two colons.
#[verifier::spinoff_prover]
#[verifier::rlimit(50)]
proof fn lemma_entry_split(e: EntryModel)
    requires
        entry_readable(e),
    ensures
        ({
            let d = decimal(e.line as nat);
            let j = join(e.tags, seq![',']);
            let r = entry_rest(e);
            &&& split_once(entry_text(e), ':') == Some((d, r))
            &&& match e.hash {
                Some(hh) => split_once(r, ':') == Some((j, hh)),
                None => split_once(r, ':') is None && r == j,
            }
        }),
{
    let d = decimal(e.line as nat);
    let j = join(e.tags, seq![',']);
    let r = entry_rest(e);
    assert(entry_text(e) =~= d + seq![':'] + r);
    lemma_decimal_lacks(e.line as nat, ':');
    lemma_split_once_at(d, ':', r);
    lemma_join_lacks(e.tags, seq![','], ':');
    match e.hash {
        Some(hh) => {
            assert(r =~= j + seq![':'] + hh);
            lemma_split_once_at(j, ':', hh);
        },
        None => {
            assert(r =~= j);
            if has_char(r, ':') {
                lemma_lacks(j, ':');
            }
        },
    }
}

/// What follows the line number and its colon in an entry's text.
pub open spec fn entry_rest(e: EntryModel) -> Seq<char> {
    join(e.tags, seq![',']) + match e.hash {
        Some(h) => seq![':'] + h,
        None => seq![],
    }
}

/// An entry's text reads back as the entry.
#[verifier::rlimit(30)]
pub proof fn lemma_entry_roundtrip(e: EntryModel)
    requires
        entry_readable(e),
    ensures
        parse_entry(entry_text(e)) == Some(e),
{
    let j = join(e.tags, seq![',']);
    lemma_entry_split(e);
    lemma_decimal_parse(e.line);
    lemma_split_join(e.tags, ',');
    assert(split(j, ',').map_values(|t: Seq<char>| trim(t)) =~= e.tags);
    lemma_parse_entry_intro(entry_text(e), entry_rest(e), e);
}

/// `parse_entry` on a text whose parts are known.
proof fn lemma_parse_entry_intro(s: Seq<char>, r: Seq<char>, e: EntryModel)
    requires
        split_once(s, ':') == Some((decimal(e.line as nat), r)),
        match e.hash {
            Some(hh) => split_once(r, ':') == Some((join(e.tags, seq![',']), hh)) && hh.len() > 0,
            None => split_once(r, ':') is None && r == join(e.tags, seq![',']),
        },
        parse_unsigned(decimal(e.line as nat), 10, usize_max()) == Some(e.line as nat),
        split(join(e.tags, seq![',']), ',').map_values(|t: Seq<char>| trim(t)) == e.tags,
    ensures
        parse_entry(s) == Some(e),
{
    reveal(parse_entry);
}

/// An entry's text starts with a digit and is line-safe.
#[verifier::rlimit(30)]
pub proof fn lemma_entry_text_safe(e: EntryModel)
    requires
        entry_writable(e),
    ensures
        entry_text(e).len() > 0,
        is_decimal_digit(entry_text(e)[0]),
        line_safe(entry_text(e)),
{
    let d = decimal(e.line as nat);
    let j = join(e.tags, seq![',']);
    let r = entry_rest(e);
    let s = entry_text(e);
    assert(s =~= d + seq![':'] + r);
    lemma_decimal(e.line as nat, usize_max());
    lemma_decimal_lacks(e.line as nat, '\n');
    lemma_join_lacks(e.tags, seq![','], '\n');
    assert(s[0] == d[0]);
    lemma_single_lacks(':', '\n');
    lemma_concat_lacks(d, seq![':'], '\n');
    match e.hash {
        Some(hh) => {
            lemma_concat_lacks(seq![':'], hh, '\n');
            assert(r =~= j + (seq![':'] + hh));
            lemma_concat_lacks(j, seq![':'] + hh, '\n');
            assert(s.last() == hh.last());
        },
        None => {
            assert(r =~= j);
            lemma_join_tags_end(e.tags);
            if j.len() > 0 {
                assert(s.last() == j.last());
            } else {
                assert(s.last() == ':');
            }
        },
    }
    lemma_concat_lacks(d + seq![':'], r, '\n');
}

/// A one-character text lacks every other character.
pub proof fn lemma_single_lacks(a: char, c: char)
    requires
        a != c,
    ensures
        !has_char(seq![a], c),
{
    if has_char(seq![a], c) {
        let k = choose|k: int| 0 <= k < 1 && seq![a][k] == c;
    }
}

/// The range part of an annotation's text splits into its two numbers.
#[verifier::spinoff_prover]
pub proof fn lemma_range_split(x: nat, y: nat)
    ensures
        split(decimal(x) + seq!['-'] + decimal(y), '-') == seq![decimal(x), decimal(y)],
        !has_char(decimal(x) + seq!['-'] + decimal(y), ':'),
{
    let d1 = decimal(x);
    let d2 = decimal(y);
    let range = d1 + seq!['-'] + d2;
    lemma_decimal_lacks(x, '-');
    lemma_decimal_lacks(y, '-');
    lemma_decimal_lacks(x, ':');
    lemma_decimal_lacks(y, ':');
    lemma_single_lacks('-', ':');
    lemma_concat_lacks(d1, seq!['-'], ':');
    lemma_concat_lacks(d1 + seq!['-'], d2, ':');
    let parts = seq![d1, d2];
    assert(join(parts, seq!['-']) == join(parts.drop_last(), seq!['-']) + seq!['-'] + parts.last());
    assert(parts.drop_last() =~= seq![d1]);
    assert(join(parts, seq!['-']) =~= range);
    lemma_split_join(parts, '-');
}

/// The decimal text of a line number reads back as it.
pub proof fn lemma_decimal_parse(n: usize)
    ensures
        parse_unsigned(decimal(n as nat), 10, usize_max()) == Some(n as nat),
{
    lemma_decimal(n as nat, usize_max());
}

/// An annotation's text reads back as the annotation.
#[verifier::spinoff_prover]
pub proof fn lemma_note_roundtrip(a: NoteModel)
    ensures
        parse_note(note_text(a)) == Some(a),
{
    let d1 = decimal(a.start_line as nat);
    let d2 = decimal(a.end_line as nat);
    let s = note_text(a);
    let range = d1 + seq!['-'] + d2;
    assert(s.drop_first() =~= range + seq![':'] + a.note);
    lemma_range_split(a.start_line as nat, a.end_line as nat);
    lemma_split_once_at(range, ':', a.note);
    lemma_decimal_parse(a.start_line);
    lemma_decimal_parse(a.end_line);
    assert(s.len() > 0 && s[0] == '@');
    lemma_parse_note_intro(s, range, a);
}

/// `parse_note` on a text whose parts are known.
proof fn lemma_parse_note_intro(s: Seq<char>, range: Seq<char>, a: NoteModel)
    requires
        s.len() > 0,
        s[0] == '@',
        split_once(s.drop_first(), ':') == Some((range, a.note)),
        split(range, '-') == seq![decimal(a.start_line as nat), decimal(a.end_line as nat)],
        parse_unsigned(decimal(a.start_line as nat), 10, usize_max()) == Some(a.start_line as nat),
        parse_unsigned(decimal(a.end_line as nat), 10, usize_max()) == Some(a.end_line as nat),
    ensures
        parse_note(s) == Some(a),
{
    reveal(parse_note);
}

/// An annotation's text starts with `@` and is line-safe.
#[verifier::rlimit(30)]
pub proof fn lemma_note_text_safe(a: NoteModel)
    requires
        line_safe(a.note),
    ensures
        note_text(a).len() > 0,
        note_text(a)[0] == '@',
        line_safe(note_text(a)),
{
    let d1 = decimal(a.start_line as nat);
    let d2 = decimal(a.end_line as nat);
    let s = note_text(a);
    lemma_decimal_lacks(a.start_line as nat, '\n');
    lemma_decimal_lacks(a.end_line as nat, '\n');
    lemma_single_lacks('@', '\n');
    lemma_single_lacks('-', '\n');
    lemma_single_lacks(':', '\n');
    lemma_concat_lacks(seq!['@'], d1, '\n');
    lemma_concat_lacks(seq!['@'] + d1, seq!['-'], '\n');
    lemma_concat_lacks(seq!['@'] + d1 + seq!['-'], d2, '\n');
    lemma_concat_lacks(seq!['@'] + d1 + seq!['-'] + d2, seq![':'], '\n');
    lemma_concat_lacks(seq!['@'] + d1 + seq!['-'] + d2 + seq![':'], a.note, '\n');
    if a.note.len() > 0 {
        assert(s.last() == a.note.last());
    } else {
        assert(s.last() == ':');
    }
}


/// Reading one more line is one more parsing step.
proof fn lemma_parse_lines_push(pre: Seq<Seq<char>>, y: Seq<char>)
    ensures
        parse_lines(pre.push(y)) == parse_step(parse_lines(pre), y),
{
    assert(pre.push(y).drop_last() =~= pre);
}

/// Reading an entry's line files the entry under its line number.
#[verifier::rlimit(30)]
proof fn lemma_step_entry(acc: FileModel, e: EntryModel)
    requires
        entry_writable(e),
    ensures
        parse_step(acc, entry_text(e)) == (FileModel {
            snapshot: acc.snapshot,
            entries: acc.entries.insert(e.line, e),
            annotations: acc.annotations,
        }),
{
    let l = entry_text(e);
    lemma_entry_roundtrip(e);
    lemma_entry_text_safe(e);
    assert(!is_ws(l[0]));
    lemma_trim_id(l);
    assert(l[0] != '#');
    assert(l[0] != '@');
    assert(snapshot_prefix()[0] == 's');
    if starts_with(l, snapshot_prefix()) {
        assert(l.take(10)[0] == l[0]);
    }
    assert(parse_note(l) is None) by {
        reveal(parse_note);
    }
}

/// Reading an annotation's line appends the annotation.
#[verifier::rlimit(30)]
proof fn lemma_step_note(acc: FileModel, a: NoteModel)
    requires
        line_safe(a.note),
    ensures
        parse_step(acc, note_text(a)) == (FileModel {
            snapshot: acc.snapshot,
            entries: acc.entries,
            annotations: acc.annotations.push(a),
        }),
{
    let l = note_text(a);
    lemma_note_roundtrip(a);
    lemma_note_text_safe(a);
    assert(!is_ws(l[0]));
    lemma_trim_id(l);
    if starts_with(l, snapshot_prefix()) {
        assert(l.take(10)[0] == l[0]);
    }
}

/// Reading the snapshot line sets the snapshot.
proof fn lemma_step_snapshot(acc: FileModel, x: Seq<char>)
    requires
        x.len() > 0,
        line_safe(x),
    ensures
        parse_step(acc, snapshot_prefix() + x) == (FileModel {
            snapshot: Some(x),
            entries: acc.entries,
            annotations: acc.annotations,
        }),
        line_safe(snapshot_prefix() + x),
        (snapshot_prefix() + x).len() > 0,
{
    let l = snapshot_prefix() + x;
    assert(l[0] == 's');
    assert(l.last() == x.last());
    lemma_trim_id(l);
    assert(l.take(10) =~= snapshot_prefix());
    assert(l.skip(10) =~= x);
    assert(!has_char(snapshot_prefix(), '\n')) by {
        if has_char(snapshot_prefix(), '\n') {
            let k = choose|k: int| 0 <= k < 10 && snapshot_prefix()[k] == '\n';
        }
    }
    lemma_concat_lacks(snapshot_prefix(), x, '\n');
}

/// The lines before the entries: the snapshot line, if any.
pub open spec fn head_lines(m: FileModel) -> Seq<Seq<char>> {
    match m.snapshot {
        Some(s) => seq![snapshot_prefix() + s],
        None => seq![],
    }
}

/// The entry lines, by line number.
pub open spec fn entry_lines(m: FileModel) -> Seq<Seq<char>> {
    sorted_keys(m.entries.dom()).map_values(|k: usize| entry_text(m.entries[k]))
}

/// The annotation lines, in order.
pub open spec fn note_lines(m: FileModel) -> Seq<Seq<char>> {
    m.annotations.map_values(|a: NoteModel| note_text(a))
}

/// Reading the first `j` entry lines files those entries.
proof fn lemma_read_entries(m: FileModel, j: int)
    requires
        file_writable(m),
        0 <= j <= entry_lines(m).len(),
    ensures
        parse_lines(head_lines(m) + entry_lines(m).take(j)) == (FileModel {
            snapshot: m.snapshot,
            entries: m.entries.restrict(sorted_keys(m.entries.dom()).take(j).to_set()),
            annotations: seq![],
        }),
    decreases j,
{
    let ks = sorted_keys(m.entries.dom());
    lemma_sorted_keys(m.entries.dom());
    if j == 0 {
        assert(head_lines(m) + entry_lines(m).take(0) =~= head_lines(m));
        assert(m.entries.restrict(ks.take(0).to_set()) =~= Map::<usize, EntryModel>::empty());
        match m.snapshot {
            Some(x) => {
                lemma_parse_lines_push(seq![], snapshot_prefix() + x);
                assert(seq![].push(snapshot_prefix() + x) =~= head_lines(m));
                lemma_step_snapshot(empty_model(), x);
            },
            None => {},
        }
    } else {
        lemma_read_entries(m, j - 1);
        let k = ks[j - 1];
        assert(ks.to_set().contains(k));
        assert(m.entries.contains_key(k));
        let e = m.entries[k];
        assert(entry_lines(m)[j - 1] == entry_text(e));
        assert(head_lines(m) + entry_lines(m).take(j) =~= (head_lines(m) + entry_lines(m).take(j
            - 1)).push(entry_text(e)));
        lemma_parse_lines_push(head_lines(m) + entry_lines(m).take(j - 1), entry_text(e));
        lemma_step_entry(parse_lines(head_lines(m) + entry_lines(m).take(j - 1)), e);
        assert(ks.take(j).to_set() =~= ks.take(j - 1).to_set().insert(k)) by {
            assert forall|y: usize| ks.take(j).to_set().contains(y) implies ks.take(
                j - 1,
            ).to_set().insert(k).contains(y) by {
                let t = ks.take(j);
                let i = choose|i: int| 0 <= i < t.len() && t[i] == y;
                if i < j - 1 {
                    assert(ks.take(j - 1)[i] == y);
                }
            }
            assert forall|y: usize| ks.take(j - 1).to_set().insert(k).contains(y) implies ks.take(
                j,
            ).to_set().contains(y) by {
                if y == k {
                    assert(ks.take(j)[j - 1] == y);
                } else {
                    let t = ks.take(j - 1);
                    let i = choose|i: int| 0 <= i < t.len() && t[i] == y;
                    assert(ks.take(j)[i] == y);
                }
            }
        }
        assert(m.entries.restrict(ks.take(j - 1).to_set()).insert(e.line, e) =~= m.entries.restrict(
            ks.take(j).to_set(),
        ));
    }
}

/// Reading the first `j` annotation lines appends those annotations.
proof fn lemma_read_notes(m: FileModel, j: int)
    requires
        file_writable(m),
        0 <= j <= m.annotations.len(),
    ensures
        parse_lines(head_lines(m) + entry_lines(m) + note_lines(m).take(j)) == (FileModel {
            snapshot: m.snapshot,
            entries: m.entries,
            annotations: m.annotations.take(j),
        }),
    decreases j,
{
    let ks = sorted_keys(m.entries.dom());
    lemma_sorted_keys(m.entries.dom());
    if j == 0 {
        lemma_read_entries(m, entry_lines(m).len() as int);
        assert(entry_lines(m).take(entry_lines(m).len() as int) =~= entry_lines(m));
        assert(ks.take(ks.len() as int) =~= ks);
        assert(m.entries.restrict(ks.to_set()) =~= m.entries);
        assert(head_lines(m) + entry_lines(m) + note_lines(m).take(0) =~= head_lines(m)
            + entry_lines(m).take(entry_lines(m).len() as int));
        assert(m.annotations.take(0) =~= Seq::<NoteModel>::empty());
    } else {
        lemma_read_notes(m, j - 1);
        let a = m.annotations[j - 1];
        assert(line_safe(a.note));
        let pre = head_lines(m) + entry_lines(m) + note_lines(m).take(j - 1);
        assert(head_lines(m) + entry_lines(m) + note_lines(m).take(j) =~= pre.push(note_text(a)));
        lemma_parse_lines_push(pre, note_text(a));
        lemma_step_note(parse_lines(pre), a);
        assert(m.annotations.take(j - 1).push(a) =~= m.annotations.take(j));
    }
}

/// Writing a record and reading the text back gives the same record, for every record
/// whose text can hold it (`file_writable`).
pub proof fn lemma_file_roundtrip(m: FileModel)
    requires
        file_writable(m),
    ensures
        parse_file(file_text(m)) == m,
{
    let ls = file_lines(m);
    assert(ls =~= head_lines(m) + entry_lines(m) + note_lines(m));
    lemma_sorted_keys(m.entries.dom());
    assert forall|i: int| 0 <= i < ls.len() implies (#[trigger] ls[i]).len() > 0 && !has_char(
        ls[i],
        '\n',
    ) && ls[i].last() != '\r' by {
        let h = head_lines(m);
        let b = entry_lines(m);
        if i < h.len() {
            match m.snapshot {
                Some(x) => {
                    lemma_step_snapshot(empty_model(), x);
                    assert(ls[i] == snapshot_prefix() + x);
                },
                None => {},
            }
        } else if i < h.len() + b.len() {
            let k = sorted_keys(m.entries.dom())[i - h.len()];
            assert(sorted_keys(m.entries.dom()).to_set().contains(k));
            assert(m.entries.contains_key(k));
            assert(ls[i] == entry_text(m.entries[k]));
            lemma_entry_text_safe(m.entries[k]);
        } else {
            let a = m.annotations[i - h.len() - b.len()];
            assert(line_safe(a.note));
            assert(ls[i] == note_text(a));
            lemma_note_text_safe(a);
        }
        assert(is_ws('\r'));
    }
    lemma_lines_join(ls);
    lemma_read_notes(m, m.annotations.len() as int);
    assert(note_lines(m).take(m.annotations.len() as int) =~= note_lines(m));
    assert(m.annotations.take(m.annotations.len() as int) =~= m.annotations);
}


/// The `.own` files that the records of `m` named `names` are saved as, in that order:
/// each named by its source path and `.own`, holding the record's text.
pub open spec fn saved_files(m: Map<Seq<char>, FileModel>, names: Seq<Seq<char>>) -> Seq<(Seq<char>, Seq<char>)> {
    names.map_values(|k: Seq<char>| (k + own_suffix(), file_text(m[k])))
}

/// The records `m` as they read back from their texts.
pub open spec fn reread(m: Map<Seq<char>, FileModel>) -> Map<Seq<char>, FileModel> {
    m.map_values(|r: FileModel| parse_file(file_text(r)))
}

/// Saving records and loading the files back gives, under each name, what the record's
/// text reads back as: for every list of non-empty names (in any order, such as the
/// store's) that covers the store.
pub proof fn lemma_records_reload(m: Map<Seq<char>, FileModel>, names: Seq<Seq<char>>)
    requires
        names.to_set() == m.dom(),
        forall|i: int| 0 <= i < names.len() ==> (#[trigger] names[i]).len() > 0,
    ensures
        load_files(saved_files(m, names)) == reread(m),
{
    lemma_store_prefix(m, names, names.len() as int);
    assert(names.take(names.len() as int) =~= names);
    assert(reread(m).restrict(names.to_set()) =~= reread(m));
}

/// Saving records and loading the files back gives the same records, when each record's
/// text can hold it.
pub proof fn lemma_records_roundtrip(m: Map<Seq<char>, FileModel>, names: Seq<Seq<char>>)
    requires
        names.to_set() == m.dom(),
        forall|i: int| 0 <= i < names.len() ==> (#[trigger] names[i]).len() > 0,
        forall|k: Seq<char>| #[trigger] m.contains_key(k) ==> file_writable(m[k]),
    ensures
        load_files(saved_files(m, names)) == m,
{
    lemma_records_reload(m, names);
    assert forall|k: Seq<char>| #[trigger] m.contains_key(k) implies reread(m)[k] == m[k] by {
        lemma_file_roundtrip(m[k]);
    }
    assert(reread(m) =~= m);
}

/// Loading the files of the first `j` names gives what the records of those names read
/// back as.
proof fn lemma_store_prefix(m: Map<Seq<char>, FileModel>, names: Seq<Seq<char>>, j: int)
    requires
        0 <= j <= names.len(),
        names.to_set() == m.dom(),
        forall|i: int| 0 <= i < names.len() ==> (#[trigger] names[i]).len() > 0,
    ensures
        load_files(saved_files(m, names.take(j))) == reread(m).restrict(names.take(j).to_set()),
    decreases j,
{
    let f = saved_files(m, names.take(j));
    if j == 0 {
        assert(f =~= Seq::<(Seq<char>, Seq<char>)>::empty());
        assert(reread(m).restrict(names.take(0).to_set()) =~= Map::<Seq<char>, FileModel>::empty());
    } else {
        lemma_store_prefix(m, names, j - 1);
        let k = names[j - 1];
        assert(names.to_set().contains(k));
        assert(f.drop_last() =~= saved_files(m, names.take(j - 1)));
        assert(f.last() == (k + own_suffix(), file_text(m[k])));
        let rel = k + own_suffix();
        assert(rel.skip(rel.len() - 4) =~= own_suffix());
        assert(rel.take(rel.len() - 4) =~= k);
        assert(names.take(j).to_set() =~= names.take(j - 1).to_set().insert(k)) by {
            assert forall|x: Seq<char>| #[trigger] names.take(j).to_set().contains(x) <==> names.take(j - 1).to_set().insert(k).contains(x) by {
                if names.take(j).to_set().contains(x) {
                    let i = choose|i: int| 0 <= i < j && #[trigger] names.take(j)[i] == x;
                    if i < j - 1 {
                        assert(names.take(j - 1)[i] == x);
                    }
                }
                if names.take(j - 1).to_set().contains(x) {
                    let i = choose|i: int| 0 <= i < j - 1 && #[trigger] names.take(j - 1)[i] == x;
                    assert(names.take(j)[i] == x);
                }
                if x == k {
                    assert(names.take(j)[j - 1] == x);
                }
            }
        }
        assert(load_files(f) =~= reread(m).restrict(names.take(j).to_set()));
    }
}

/// Re-anchoring entries filed at the lines `keys` files each result under its own line,
/// gives no more entries than there are keys, and only moves entries: each result has the
/// tags and hash of one of them.
proof fn lemma_reanchor_fold_moves(entries: Map<usize, EntryModel>, keys: Seq<usize>, hashes: Seq<Seq<char>>)
    requires
        forall|i: int| 0 <= i < keys.len() ==> entries[#[trigger] keys[i]].line == keys[i],
    ensures
        ({
            let acc = reanchor_fold(entries, keys, hashes).0;
            &&& acc.dom().finite()
            &&& acc.dom().len() <= keys.len()
            &&& forall|k: usize| #[trigger]
                acc.contains_key(k) ==> acc[k].line == k && exists|i: int|
                    0 <= i < keys.len() && entries[keys[i]].tags == acc[k].tags && entries[#[trigger] keys[i]].hash
                        == acc[k].hash
        }),
    decreases keys.len(),
{
    if keys.len() > 0 {
        let pre = keys.drop_last();
        assert forall|i: int| 0 <= i < pre.len() implies entries[#[trigger] pre[i]].line == pre[i] by {
            assert(pre[i] == keys[i]);
        }
        lemma_reanchor_fold_moves(entries, pre, hashes);
        let (acc, used) = reanchor_fold(entries, pre, hashes);
        let res = reanchor_fold(entries, keys, hashes).0;
        let last = keys.len() - 1;
        let k = keys[last];
        let e = entries[k];
        assert(entries[keys[last]].line == keys[last]);
        assert forall|x: usize| #[trigger] res.contains_key(x) implies res[x].line == x && exists|i: int|
            0 <= i < keys.len() && entries[keys[i]].tags == res[x].tags && entries[#[trigger] keys[i]].hash
                == res[x].hash by {
            if acc.contains_key(x) && res[x] == acc[x] {
                let i = choose|i: int|
                    0 <= i < pre.len() && entries[pre[i]].tags == acc[x].tags && entries[#[trigger] pre[i]].hash
                        == acc[x].hash;
                assert(pre[i] == keys[i]);
            } else {
                assert(entries[keys[last]].tags == res[x].tags && entries[keys[last]].hash == res[x].hash);
            }
        }
        assert(res.dom().finite());
        assert(res.dom().len() <= keys.len()) by {
            let x = choose|x: usize| res.dom() == acc.dom().insert(x);
            if acc.dom().contains(x) {
                assert(acc.dom().insert(x) =~= acc.dom());
            }
        }
    }
}

/// Re-anchoring a record whose entries are each filed under their own line (as reading
/// and `set_line` keep them) gives no more entries than it had, each filed under its own
/// line, and only moves entries: each keeps the tags and hash of an entry it had.
pub proof fn lemma_reanchor_moves(m: FileModel, hashes: Seq<Seq<char>>)
    requires
        m.entries.dom().finite(),
        forall|k: usize| #[trigger] m.entries.contains_key(k) ==> m.entries[k].line == k,
    ensures
        ({
            let r = reanchor_fold(m.entries, sorted_keys(m.entries.dom()), hashes).0;
            &&& r.dom().finite()
            &&& r.dom().len() <= m.entries.dom().len()
            &&& forall|k: usize| #[trigger]
                r.contains_key(k) ==> r[k].line == k && exists|k0: usize|
                    #[trigger] m.entries.contains_key(k0) && m.entries[k0].tags == r[k].tags && m.entries[k0].hash
                        == r[k].hash
        }),
{
    let keys = sorted_keys(m.entries.dom());
    lemma_sorted_keys(m.entries.dom());
    assert forall|i: int| 0 <= i < keys.len() implies m.entries[#[trigger] keys[i]].line == keys[i] by {
        assert(keys.to_set().contains(keys[i]));
    }
    lemma_reanchor_fold_moves(m.entries, keys, hashes);
    let r = reanchor_fold(m.entries, keys, hashes).0;
    assert forall|k: usize| #[trigger] r.contains_key(k) implies r[k].line == k && exists|k0: usize|
        #[trigger] m.entries.contains_key(k0) && m.entries[k0].tags == r[k].tags && m.entries[k0].hash
            == r[k].hash by {
        let i = choose|i: int|
            0 <= i < keys.len() && m.entries[keys[i]].tags == r[k].tags && m.entries[#[trigger] keys[i]].hash
                == r[k].hash;
        assert(keys.to_set().contains(keys[i]));
        assert(m.entries.contains_key(keys[i]));
    }
}

// ─── Annotations ─────────────────────────────────────────────────────────────

/// After a note is put on `start..=end`, the first annotation that covers any of those
/// lines is the new one.
pub proof fn lemma_annotation_read_back(fm: FileModel, start: usize, end: usize, note: Seq<char>, l: usize)
    requires
        start <= l <= end,
    ensures
        first_covering(annotated(fm, start, end, note).annotations, l) == Some(fm.annotations.filter(|a: NoteModel| !overlaps(a, start, end)).len() as int),
        annotated(fm, start, end, note).annotations[fm.annotations.filter(|a: NoteModel| !overlaps(a, start, end)).len() as int]
            == (NoteModel { start_line: start, end_line: end, note }),
{
    let p = |a: NoteModel| !overlaps(a, start, end);
    let kept = fm.annotations.filter(p);
    let all = annotated(fm, start, end, note).annotations;
    assert(all == kept.push(NoteModel { start_line: start, end_line: end, note }));
    let last = kept.len() as int;
    assert forall|j: int| 0 <= j < last implies !covers(#[trigger] all[j], l) by {
        fm.annotations.lemma_filter_pred(p, j);
        assert(all[j] == kept[j]);
    }
    assert(covers(all[last], l));
    let i = first_covering(all, l)->0;
    assert(first_covering(all, l) is Some);
    assert(0 <= i < all.len() && covers(all[i], l) && forall|j: int| 0 <= j < i ==> !covers(#[trigger] all[j], l));
    if i < last {
        assert(!covers(all[i], l));
    }
    assert(i == last);
}

/// After the notes on a line are dropped, no annotation covers it.
pub proof fn lemma_annotation_removed(fm: FileModel, l: usize)
    ensures
        first_covering(unannotated(fm, l).annotations, l) is None,
{
    let p = |a: NoteModel| !covers(a, l);
    let kept = unannotated(fm, l).annotations;
    assert(kept == fm.annotations.filter(p));
    assert forall|j: int| 0 <= j < kept.len() implies !covers(#[trigger] kept[j], l) by {
        fm.annotations.lemma_filter_pred(p, j);
    }
}

// ─── Counting reviewed lines ─────────────────────────────────────────────────

/// Which entries the ownership count takes: an entry tagged `r` or tagged `a` counts,
/// unless its line is blank in the source `src`; an entry with neither tag, or on a
/// blank line, does not.
pub proof fn lemma_reviewed_counts(m: Map<usize, EntryModel>, src: Seq<Seq<char>>, k: usize)
    requires
        m.dom().finite(),
        m.contains_key(k),
    ensures
        ({
            let e = m[k];
            let blank = 1 <= e.line <= src.len() && trim(src[e.line - 1]).len() == 0;
            let tagged = e.tags.contains(seq!['r']) || e.tags.contains(seq!['a']);
            &&& tagged && !blank ==> reviewed_keys(m, src).contains(k)
            &&& !tagged || blank ==> !reviewed_keys(m, src).contains(k)
        }),
{
    let keys = sorted_keys(m.dom());
    lemma_sorted_keys(m.dom());
    let pred = |x: usize| crate::store::counts_as_reviewed(m[x], src);
    assert(keys.to_set().contains(k));
    let i = choose|i: int| 0 <= i < keys.len() && keys[i] == k;
    if pred(k) {
        keys.lemma_filter_contains(pred, i);
    }
    let out = reviewed_keys(m, src);
    assert(out == keys.filter(pred));
    if out.contains(k) {
        let j = choose|j: int| 0 <= j < out.len() && out[j] == k;
        keys.lemma_filter_pred(pred, j);
    }
}

// ─── Re-anchoring keeps what it cannot move ──────────────────────────────────

/// Re-anchoring the entries at the lines `keys` keeps each entry that has no content hash,
/// or whose content is on no new line, at its own line: afterwards its line holds either that entry or an entry that moved
/// there by its content hash. No such entry is dropped.
proof fn lemma_reanchor_fold_keeps_unhashed(
    entries: Map<usize, EntryModel>,
    keys: Seq<usize>,
    hashes: Seq<Seq<char>>,
    j: int,
)
    requires
        0 <= j < keys.len(),
        entries[keys[j]].hash is None || last_line_with(hashes, entries[keys[j]].hash->0) is None,
        keys.no_duplicates(),
    ensures
        ({
            let acc = reanchor_fold(entries, keys, hashes).0;
            let k = keys[j];
            &&& acc.contains_key(k)
            &&& acc[k] == entries[k] || (acc[k].hash is Some && acc[k].line == k)
        }),
    decreases keys.len(),
{
    let pre = keys.drop_last();
    let last = keys.len() - 1;
    let k = keys[j];
    if j < last {
        assert(pre[j] == k);
        assert(pre.no_duplicates());
        lemma_reanchor_fold_keeps_unhashed(entries, pre, hashes, j);
        assert(keys[last] != k);
    }
}

/// Re-anchoring a record never drops an entry that has no content hash, or whose content
/// is on no new line: its line still holds it, with its tags, unless an entry moved onto
/// that line by its content hash.
pub proof fn lemma_reanchor_keeps_unhashed(m: FileModel, hashes: Seq<Seq<char>>, k: usize)
    requires
        m.entries.dom().finite(),
        m.entries.contains_key(k),
        m.entries[k].hash is None || last_line_with(hashes, m.entries[k].hash->0) is None,
    ensures
        ({
            let r = reanchor_fold(m.entries, sorted_keys(m.entries.dom()), hashes).0;
            &&& r.contains_key(k)
            &&& r[k] == m.entries[k] || (r[k].hash is Some && r[k].line == k)
        }),
{
    let keys = sorted_keys(m.entries.dom());
    lemma_sorted_keys(m.entries.dom());
    assert(keys.to_set().contains(k));
    let j = choose|j: int| 0 <= j < keys.len() && keys[j] == k;
    assert(keys.no_duplicates()) by {
        assert forall|a: int, b: int| 0 <= a < keys.len() && 0 <= b < keys.len() && a != b implies keys[a]
            != keys[b] by {
            if a < b {
                assert(keys[a] < keys[b]);
            } else {
                assert(keys[b] < keys[a]);
            }
        }
    }
    lemma_reanchor_fold_keeps_unhashed(m.entries, keys, hashes, j);
}

} // verus!
