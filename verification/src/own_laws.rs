//! What the ledger's `.own` text promises: a record that is written and read back keeps
//! its snapshot, the state of every line, and the notes of its runs.
use vstd::prelude::*;
use crate::own::{
    char_of_state, empty_model, file_comment, first_match, is_grouping, lemma_state_char_roundtrip,
    lemma_utf8_len_at_least, matches_range, note_after, own_lines, own_out_lines, own_parse,
    own_step, range_in, range_line, range_lines, range_text, snapshot_comment, state_of_char,
    utf8_len, utf8_width, with_range, FileModel, LineState, NoteModel, Range,
};
use crate::store_laws::{
    lemma_concat_lacks, lemma_decimal_parse, lemma_lacks, lemma_range_split, lemma_single_lacks,
    lemma_split_once_at, lemma_trimmed_end,
};
use crate::text::{
    decimal, has_char, is_ws, join, lemma_decimal, lemma_decimal_lacks, lemma_lines_of_join_cr, strip_cr,
    lemma_trim_end_prefix, lemma_trim_id, lines, split_once, starts_with, trim, trim_end,
    trim_start,
};

verus! {

/// A note that its line gives back: no line break, and no white space at either end.
pub open spec fn note_writable(n: Seq<char>) -> bool {
    !has_char(n, '\n') && trim(n) == n
}

/// A record of `path` whose text can hold it: the path holds no line break; a snapshot
/// is not empty, holds no line break and does not end in white space; notes are writable.
pub open spec fn own_writable(m: FileModel, path: Seq<char>) -> bool {
    &&& !has_char(path, '\n')
    &&& match m.snapshot {
        Some(h) => h.len() > 0 && !has_char(h, '\n') && !is_ws(h.last()),
        None => true,
    }
    &&& forall|i: int| 0 <= i < m.annotations.len() ==> note_writable(#[trigger] m.annotations[i].note)
}

/// The annotation that the line of run `r` carries: the first annotation of exactly that
/// run, when its note is not empty.
pub open spec fn run_note(r: Range, anns: Seq<NoteModel>) -> Seq<NoteModel> {
    match first_match(anns, r.0, r.1, r.2) {
        Some(i) => if anns[i].note.len() > 0 {
            seq![anns[i]]
        } else {
            Seq::empty()
        },
        None => Seq::empty(),
    }
}

/// The annotations that the lines of the runs `rs` carry, in order.
pub open spec fn runs_notes(rs: Seq<Range>, anns: Seq<NoteModel>) -> Seq<NoteModel>
    decreases rs.len(),
{
    if rs.len() == 0 {
        Seq::empty()
    } else {
        runs_notes(rs.drop_last(), anns) + run_note(rs.last(), anns)
    }
}

/// The line states that reading the runs `rs` in order gives.
pub open spec fn runs_states(rs: Seq<Range>) -> Map<usize, LineState>
    decreases rs.len(),
{
    if rs.len() == 0 {
        Map::empty()
    } else {
        with_range(runs_states(rs.drop_last()), rs.last().0, rs.last().1, rs.last().2)
    }
}

/// Below an annotation of a run is a first one.
#[verifier::spinoff_prover]
#[verifier::rlimit(50)]
proof fn lemma_min_match(anns: Seq<NoteModel>, s: usize, e: usize, st: LineState, w: int) -> (k: int)
    requires
        0 <= w < anns.len(),
        matches_range(anns[w], s, e, st),
    ensures
        0 <= k <= w,
        matches_range(anns[k], s, e, st),
        forall|j: int| 0 <= j < k ==> !matches_range(#[trigger] anns[j], s, e, st),
    decreases w,
{
    if exists|j: int| 0 <= j < w && matches_range(#[trigger] anns[j], s, e, st) {
        let j = choose|j: int| 0 <= j < w && matches_range(#[trigger] anns[j], s, e, st);
        lemma_min_match(anns, s, e, st, j)
    } else {
        w
    }
}

/// The first annotation of a run, when there is one, is an annotation of that run.
#[verifier::spinoff_prover]
#[verifier::rlimit(50)]
proof fn lemma_first_match_valid(anns: Seq<NoteModel>, s: usize, e: usize, st: LineState)
    ensures
        match first_match(anns, s, e, st) {
            Some(i) => 0 <= i < anns.len() && matches_range(anns[i], s, e, st),
            None => true,
        },
{
    if exists|i: int| 0 <= i < anns.len() && matches_range(#[trigger] anns[i], s, e, st) {
        let w = choose|i: int| 0 <= i < anns.len() && matches_range(#[trigger] anns[i], s, e, st);
        let k = lemma_min_match(anns, s, e, st, w);
        assert(0 <= k < anns.len() && matches_range(anns[k], s, e, st) && forall|j: int|
            0 <= j < k ==> !matches_range(#[trigger] anns[j], s, e, st));
    }
}

/// The first line of a run's text is a digit, and the text holds no `:` and no line break.
#[verifier::spinoff_prover]
#[verifier::rlimit(50)]
proof fn lemma_range_text(r: Range)
    requires
        r.0 <= r.1,
    ensures
        range_text(r).len() > 0,
        !is_ws(range_text(r)[0]),
        range_text(r)[0] != '#',
        !has_char(range_text(r), ':'),
        !has_char(range_text(r), '\n'),
{
    let d0 = decimal(r.0 as nat);
    lemma_decimal(r.0 as nat, 0);
    lemma_decimal_lacks(r.0 as nat, ':');
    lemma_decimal_lacks(r.0 as nat, '\n');
    let d1 = decimal(r.1 as nat);
    lemma_range_split(r.0 as nat, r.1 as nat);
    lemma_decimal_lacks(r.1 as nat, '\n');
    lemma_single_lacks('-', '\n');
    lemma_concat_lacks(d0, seq!['-'], '\n');
    lemma_concat_lacks(d0 + seq!['-'], d1, '\n');
    assert(range_text(r)[0] == d0[0]);
}

/// The tail of a run's line after its state letter: `:` and the note of its first
/// annotation, when it has one.
pub open spec fn run_tail(r: Range, anns: Seq<NoteModel>) -> Seq<char> {
    match first_match(anns, r.0, r.1, r.2) {
        Some(i) => seq![':'] + anns[i].note,
        None => Seq::<char>::empty(),
    }
}

/// What `note_after` makes of the rest of a run's line.
#[verifier::spinoff_prover]
#[verifier::rlimit(50)]
proof fn lemma_run_note_text(r: Range, anns: Seq<NoteModel>)
    requires
        forall|i: int| 0 <= i < anns.len() ==> note_writable(#[trigger] anns[i].note),
    ensures
        note_after(seq![char_of_state(r.2)] + run_tail(r, anns)) == Some(
            match first_match(anns, r.0, r.1, r.2) {
                Some(i) => anns[i].note,
                None => Seq::<char>::empty(),
            },
        ),
{
    let c = char_of_state(r.2);
    let rest = seq![c] + run_tail(r, anns);
    lemma_first_match_valid(anns, r.0, r.1, r.2);
    assert(utf8_width(c) == 1);
    match first_match(anns, r.0, r.1, r.2) {
        Some(i) => {
            let n = anns[i].note;
            assert(note_writable(n));
            assert(rest =~= seq![c, ':'] + n);
            lemma_utf8_len_at_least(rest);
            if n.len() == 0 {
                assert(rest =~= seq![c, ':']);
                assert(rest.drop_first() =~= seq![':']);
                assert(rest.drop_first().drop_first() =~= Seq::<char>::empty());
                assert(utf8_len(rest.drop_first().drop_first()) == 0);
                assert(utf8_width(':') == 1);
                assert(utf8_len(rest.drop_first()) == utf8_width(rest.drop_first()[0]) + utf8_len(
                    rest.drop_first().drop_first(),
                ));
                assert(utf8_len(rest) == utf8_width(rest[0]) + utf8_len(rest.drop_first()));
                assert(utf8_len(rest) == 2);
            } else {
                assert(rest[0] == c && rest[1] == ':');
                assert(utf8_width(':') == 1);
                assert(rest.skip(2) =~= n);
            }
        },
        None => {
            assert(rest =~= seq![c]);
            assert(rest.drop_first() =~= Seq::<char>::empty());
            assert(utf8_len(rest.drop_first()) == 0);
            assert(utf8_len(rest) == utf8_width(rest[0]) + utf8_len(rest.drop_first()));
            assert(utf8_len(rest) == 1);
        },
    }
}

/// A run's line is its own trim, does not open a comment, and splits at its first `:`
/// into the run's line numbers and the rest.
#[verifier::spinoff_prover]
proof fn lemma_run_line_shape(r: Range, anns: Seq<NoteModel>)
    requires
        r.0 <= r.1,
        forall|i: int| 0 <= i < anns.len() ==> note_writable(#[trigger] anns[i].note),
    ensures
        ({
            let l = range_line(r, anns);
            &&& l.len() > 0
            &&& trim(l) == l
            &&& l[0] != '#'
            &&& split_once(l, ':') == Some((range_text(r), seq![char_of_state(r.2)] + run_tail(r, anns)))
        }),
{
    let rt = range_text(r);
    let c = char_of_state(r.2);
    let rest = seq![c] + run_tail(r, anns);
    let l = range_line(r, anns);
    assert(l =~= rt + seq![':'] + rest);
    lemma_range_text(r);
    lemma_first_match_valid(anns, r.0, r.1, r.2);
    assert(l[0] == rt[0]);
    match first_match(anns, r.0, r.1, r.2) {
        Some(i) => {
            let n = anns[i].note;
            assert(note_writable(n));
            if n.len() > 0 {
                lemma_trimmed_end(n);
                assert(l.last() == n.last());
            } else {
                assert(l.last() == ':');
            }
        },
        None => {
            assert(l.last() == c);
        },
    }
    lemma_trim_id(l);
    lemma_split_once_at(rt, ':', rest);
}

/// The line numbers of a run read back as its first and last line.
#[verifier::spinoff_prover]
proof fn lemma_range_text_parse(r: Range)
    requires
        r.0 <= r.1,
    ensures
        split_once(range_text(r), '-') == Some((decimal(r.0 as nat), decimal(r.1 as nat))),
        crate::text::parse_unsigned(decimal(r.0 as nat), 10, usize::MAX as nat) == Some(r.0 as nat),
        crate::text::parse_unsigned(decimal(r.1 as nat), 10, usize::MAX as nat) == Some(r.1 as nat),
{
    lemma_decimal_parse(r.0);
    lemma_decimal_parse(r.1);
    lemma_decimal_lacks(r.0 as nat, '-');
    lemma_split_once_at(decimal(r.0 as nat), '-', decimal(r.1 as nat));
}

/// Reading the line of a run sets the states of its lines and adds the annotation that
/// the line carries.
#[verifier::rlimit(50)]
#[verifier::spinoff_prover]
proof fn lemma_read_run(acc: FileModel, r: Range, anns: Seq<NoteModel>)
    requires
        r.0 <= r.1,
        forall|i: int| 0 <= i < anns.len() ==> note_writable(#[trigger] anns[i].note),
    ensures
        own_step(acc, range_line(r, anns)) == Some(
            FileModel {
                snapshot: acc.snapshot,
                states: with_range(acc.states, r.0, r.1, r.2),
                annotations: acc.annotations + run_note(r, anns),
            },
        ),
{
    let rest = seq![char_of_state(r.2)] + run_tail(r, anns);
    lemma_run_line_shape(r, anns);
    lemma_first_match_valid(anns, r.0, r.1, r.2);
    lemma_state_char_roundtrip(r.2);
    assert(rest[0] == char_of_state(r.2));
    lemma_run_note_text(r, anns);
    lemma_range_text_parse(r);
    let note = match first_match(anns, r.0, r.1, r.2) {
        Some(i) => anns[i].note,
        None => Seq::<char>::empty(),
    };
    let want_anns = acc.annotations + run_note(r, anns);
    if note.len() > 0 {
        let i = first_match(anns, r.0, r.1, r.2)->0;
        assert(NoteModel { start_line: r.0, end_line: r.1, state: r.2, note } == anns[i]);
        assert(acc.annotations.push(anns[i]) =~= want_anns);
    } else {
        assert(acc.annotations =~= want_anns);
    }
    if r.0 == r.1 {
        assert(acc.states.insert(r.0, r.2) =~= with_range(acc.states, r.0, r.1, r.2));
    }
}

/// The file comment line leaves a record as it is.
#[verifier::spinoff_prover]
#[verifier::rlimit(50)]
proof fn lemma_read_file_line(acc: FileModel, path: Seq<char>)
    ensures
        own_step(acc, file_comment() + path) == Some(acc),
{
    let l = file_comment() + path;
    assert(l[0] == '#');
    assert(trim_start(l) == l);
    lemma_trim_end_prefix(l);
    let t = trim(l);
    assert(t == trim_end(l));
    assert(t.len() > 0);
    assert(t[0] == l[0]);
    if starts_with(t, snapshot_comment()) {
        assert(t.take(12)[2] == snapshot_comment()[2]);
        assert(t[2] == l[2]);
    }
}

/// The snapshot comment line sets the snapshot.
#[verifier::spinoff_prover]
#[verifier::rlimit(50)]
proof fn lemma_read_snapshot_line(acc: FileModel, h: Seq<char>)
    requires
        h.len() > 0,
        !is_ws(h.last()),
    ensures
        own_step(acc, snapshot_comment() + h) == Some(FileModel { snapshot: Some(h), ..acc }),
{
    let l = snapshot_comment() + h;
    assert(l.last() == h.last());
    assert(l[0] == '#');
    lemma_trim_id(l);
    assert(l.take(12) =~= snapshot_comment());
    assert(l.skip(12) =~= h);
}

/// An empty line leaves a record as it is.
#[verifier::spinoff_prover]
#[verifier::rlimit(50)]
proof fn lemma_read_blank(acc: FileModel)
    ensures
        own_step(acc, Seq::<char>::empty()) == Some(acc),
{
    assert(trim_start(Seq::<char>::empty()) == Seq::<char>::empty());
    assert(trim(Seq::<char>::empty()) == Seq::<char>::empty());
}

/// Reading the lines of runs after lines that give an empty record with a snapshot.
#[verifier::spinoff_prover]
#[verifier::rlimit(50)]
proof fn lemma_read_runs(hs: Seq<Seq<char>>, snap: Option<Seq<char>>, rs: Seq<Range>, anns: Seq<NoteModel>)
    requires
        own_lines(hs) == Some(FileModel { snapshot: snap, ..empty_model() }),
        forall|i: int| 0 <= i < rs.len() ==> (#[trigger] rs[i]).0 <= rs[i].1,
        forall|i: int| 0 <= i < anns.len() ==> note_writable(#[trigger] anns[i].note),
    ensures
        own_lines(hs + range_lines(rs, anns)) == Some(
            FileModel { snapshot: snap, states: runs_states(rs), annotations: runs_notes(rs, anns) },
        ),
    decreases rs.len(),
{
    if rs.len() == 0 {
        assert(hs + range_lines(rs, anns) =~= hs);
        assert(empty_model().states == runs_states(rs));
        assert(empty_model().annotations =~= runs_notes(rs, anns));
    } else {
        let pre = rs.drop_last();
        assert forall|i: int| 0 <= i < pre.len() implies (#[trigger] pre[i]).0 <= pre[i].1 by {
            assert(pre[i] == rs[i]);
        }
        lemma_read_runs(hs, snap, pre, anns);
        let ls = hs + range_lines(rs, anns);
        assert(ls.drop_last() =~= hs + range_lines(pre, anns));
        assert(ls.last() == range_line(rs.last(), anns));
        let acc = FileModel { snapshot: snap, states: runs_states(pre), annotations: runs_notes(pre, anns) };
        assert(rs[rs.len() - 1] == rs.last());
        lemma_read_run(acc, rs.last(), anns);
    }
}

/// The runs of a grouping, read in order, give back every line's state.
#[verifier::spinoff_prover]
#[verifier::rlimit(50)]
proof fn lemma_runs_states(rs: Seq<Range>, m: Map<usize, LineState>, k: int)
    requires
        is_grouping(rs, m),
        0 <= k <= rs.len(),
    ensures
        runs_states(rs.take(k)) == Map::new(
            |l: usize| exists|i: int| 0 <= i < k && (#[trigger] rs[i]).0 <= l <= rs[i].1,
            |l: usize| m[l],
        ),
    decreases k,
{
    let want = Map::new(
        |l: usize| exists|i: int| 0 <= i < k && (#[trigger] rs[i]).0 <= l <= rs[i].1,
        |l: usize| m[l],
    );
    if k == 0 {
        assert(rs.take(0) =~= Seq::<Range>::empty());
        assert(runs_states(rs.take(0)) =~= want);
    } else {
        lemma_runs_states(rs, m, k - 1);
        let t = rs.take(k);
        assert(t.drop_last() =~= rs.take(k - 1));
        assert(t.last() == rs[k - 1]);
        let r = rs[k - 1];
        assert(range_in(r, m));
        let got = runs_states(t);
        assert forall|l: usize| #[trigger] got.contains_key(l) == want.contains_key(l) && (want.contains_key(l)
            ==> got[l] == want[l]) by {
            if r.0 <= l <= r.1 {
                assert(m.contains_key(l) && m[l] == r.2);
            }
            if exists|i: int| 0 <= i < k - 1 && (#[trigger] rs[i]).0 <= l <= rs[i].1 {
                let i = choose|i: int| 0 <= i < k - 1 && (#[trigger] rs[i]).0 <= l <= rs[i].1;
                assert(0 <= i < k);
            }
            if exists|i: int| 0 <= i < k && (#[trigger] rs[i]).0 <= l <= rs[i].1 {
                let i = choose|i: int| 0 <= i < k && (#[trigger] rs[i]).0 <= l <= rs[i].1;
                if i < k - 1 {
                    assert(0 <= i < k - 1);
                }
            }
        }
        assert(got =~= want);
    }
}

/// The header lines of a record of `path`: the file comment, the snapshot comment when
/// it has a snapshot, and an empty line.
pub open spec fn header_lines(m: FileModel, path: Seq<char>) -> Seq<Seq<char>> {
    seq![file_comment() + path] + (match m.snapshot {
        Some(h) => seq![snapshot_comment() + h],
        None => Seq::<Seq<char>>::empty(),
    }) + seq![Seq::<char>::empty()]
}

/// The header lines give an empty record with the snapshot; so do they without the final
/// empty line.
#[verifier::spinoff_prover]
#[verifier::rlimit(50)]
proof fn lemma_read_header(m: FileModel, path: Seq<char>)
    requires
        own_writable(m, path),
    ensures
        own_lines(header_lines(m, path)) == Some(FileModel { snapshot: m.snapshot, ..empty_model() }),
        own_lines(header_lines(m, path).drop_last()) == Some(FileModel { snapshot: m.snapshot, ..empty_model() }),
{
    let fl = file_comment() + path;
    let e0 = empty_model();
    assert(own_lines(Seq::<Seq<char>>::empty()) == Some(e0));
    lemma_read_file_line(e0, path);
    assert(seq![fl].drop_last() =~= Seq::<Seq<char>>::empty());
    assert(own_lines(seq![fl]) == Some(e0));
    let snap_lines = match m.snapshot {
        Some(h) => seq![snapshot_comment() + h],
        None => Seq::<Seq<char>>::empty(),
    };
    let h1 = seq![fl] + snap_lines;
    let base = FileModel { snapshot: m.snapshot, ..e0 };
    match m.snapshot {
        Some(h) => {
            lemma_read_snapshot_line(e0, h);
            assert(h1.drop_last() =~= seq![fl]);
            assert(h1.last() == snapshot_comment() + h);
        },
        None => {
            assert(h1 =~= seq![fl]);
        },
    }
    assert(own_lines(h1) == Some(base));
    lemma_read_blank(base);
    let hs = header_lines(m, path);
    assert(hs.drop_last() =~= h1);
    assert(hs.last() == Seq::<char>::empty());
}

/// Every line of the header can be joined and split back.
#[verifier::spinoff_prover]
#[verifier::rlimit(50)]
proof fn lemma_header_safe(m: FileModel, path: Seq<char>)
    requires
        own_writable(m, path),
    ensures
        forall|i: int|
            0 <= i < header_lines(m, path).len() ==> !has_char(#[trigger] header_lines(m, path)[i], '\n') && (0 < i
            && header_lines(m, path)[i].len() > 0 ==> header_lines(m, path)[i].last() != '\r'),
{
    let hs = header_lines(m, path);
    let fl = file_comment() + path;
    assert(is_ws('\r'));
    assert forall|i: int| 0 <= i < hs.len() implies !has_char(#[trigger] hs[i], '\n') && (0 < i && hs[i].len() > 0
        ==> hs[i].last() != '\r') by {
        if i == 0 {
            assert(hs[i] == fl);
            lemma_concat_lacks(file_comment(), path, '\n');
        } else if i == hs.len() - 1 {
            assert(hs[i] == Seq::<char>::empty());
            if has_char(hs[i], '\n') {
                let k = choose|k: int| 0 <= k < hs[i].len() && hs[i][k] == '\n';
            }
        } else {
            let h = m.snapshot->0;
            assert(hs[i] == snapshot_comment() + h);
            lemma_concat_lacks(snapshot_comment(), h, '\n');
            assert(hs[i].last() == h.last());
        }
    }
}

/// A run's line can be joined and split back, and is not empty.
#[verifier::spinoff_prover]
#[verifier::rlimit(50)]
proof fn lemma_run_line_safe(r: Range, anns: Seq<NoteModel>)
    requires
        r.0 <= r.1,
        forall|i: int| 0 <= i < anns.len() ==> note_writable(#[trigger] anns[i].note),
    ensures
        range_line(r, anns).len() > 0,
        !has_char(range_line(r, anns), '\n'),
        range_line(r, anns).last() != '\r',
{
    let l = range_line(r, anns);
    assert(is_ws('\r'));
    lemma_range_text(r);
    lemma_first_match_valid(anns, r.0, r.1, r.2);
    let c = char_of_state(r.2);
    lemma_single_lacks(':', '\n');
    lemma_single_lacks(c, '\n');
    lemma_concat_lacks(seq![':'], seq![c], '\n');
    assert(seq![':', c] =~= seq![':'] + seq![c]);
    lemma_concat_lacks(range_text(r), seq![':', c], '\n');
    let tail = run_tail(r, anns);
    match first_match(anns, r.0, r.1, r.2) {
        Some(k) => {
            let n = anns[k].note;
            assert(note_writable(n));
            lemma_concat_lacks(seq![':'], n, '\n');
            if n.len() > 0 {
                lemma_trimmed_end(n);
                assert(l.last() == n.last());
            } else {
                assert(l.last() == ':');
            }
        },
        None => {
            assert(l.last() == c);
            assert(tail =~= Seq::<char>::empty());
            if has_char(tail, '\n') {
                let k = choose|k: int| 0 <= k < tail.len() && tail[k] == '\n';
            }
        },
    }
    assert(l =~= range_text(r) + seq![':', c] + tail);
    lemma_concat_lacks(range_text(r) + seq![':', c], tail, '\n');
}

/// Every line a record is written as can be joined and split back.
#[verifier::spinoff_prover]
#[verifier::rlimit(50)]
proof fn lemma_out_lines_safe(m: FileModel, path: Seq<char>, rs: Seq<Range>)
    requires
        own_writable(m, path),
        forall|i: int| 0 <= i < rs.len() ==> (#[trigger] rs[i]).0 <= rs[i].1,
    ensures
        forall|i: int|
            0 <= i < own_out_lines(m, path, rs).len() ==> !has_char(#[trigger] own_out_lines(m, path, rs)[i], '\n')
                && (0 < i && own_out_lines(m, path, rs)[i].len() > 0 ==> own_out_lines(m, path, rs)[i].last() != '\r'),
{
    let anns = m.annotations;
    let hs = header_lines(m, path);
    let all = own_out_lines(m, path, rs);
    assert(all =~= hs + range_lines(rs, anns));
    lemma_range_lines_len(rs, anns);
    lemma_header_safe(m, path);
    assert forall|i: int| 0 <= i < all.len() implies !has_char(#[trigger] all[i], '\n') && (0 < i && all[i].len() > 0
        ==> all[i].last() != '\r') by {
        if i < hs.len() {
            assert(all[i] == hs[i]);
        } else {
            let j = i - hs.len();
            assert(all[i] == range_lines(rs, anns)[j]);
            lemma_range_lines_at(rs, anns, j);
            lemma_run_line_safe(rs[j], anns);
        }
    }
}

/// The runs of a grouping, read in order, give the states of all the lines.
#[verifier::spinoff_prover]
#[verifier::rlimit(50)]
proof fn lemma_runs_give_states(rs: Seq<Range>, m: Map<usize, LineState>)
    requires
        is_grouping(rs, m),
    ensures
        runs_states(rs) == m,
{
    lemma_runs_states(rs, m, rs.len() as int);
    assert(rs.take(rs.len() as int) =~= rs);
    let st = runs_states(rs);
    assert forall|l: usize| #[trigger] st.contains_key(l) == m.contains_key(l) && (st.contains_key(l) ==> st[l]
        == m[l]) by {
        if m.contains_key(l) {
            assert(crate::own::covered(rs, l));
        }
        if st.contains_key(l) {
            let i = choose|i: int| 0 <= i < rs.len() && (#[trigger] rs[i]).0 <= l <= rs[i].1;
            assert(range_in(rs[i], m));
        }
    }
    assert(st =~= m);
}

/// A ledger record written as the text of its `.own` file, and that text read back, gives
/// the same snapshot and the same state for every line, with the notes that its runs'
/// lines carry (the first annotation of exactly each run, when its note is not empty),
/// for every record whose text can hold it and every grouping `rs` of its lines into runs
/// (there is one: `group_into_ranges`).
#[verifier::spinoff_prover]
#[verifier::rlimit(50)]
pub proof fn lemma_own_roundtrip(m: FileModel, path: Seq<char>, rs: Seq<Range>)
    requires
        own_writable(m, path),
        is_grouping(rs, m.states),
    ensures
        own_parse(join(own_out_lines(m, path, rs), seq!['\n'])) == Some(
            FileModel { snapshot: m.snapshot, states: m.states, annotations: runs_notes(rs, m.annotations) },
        ),
{
    let anns = m.annotations;
    let p2 = strip_cr(path);
    let all = own_out_lines(m, path, rs);
    let all2 = own_out_lines(m, p2, rs);
    let hs2 = header_lines(m, p2);
    assert(all2 =~= hs2 + range_lines(rs, anns));
    assert(all =~= header_lines(m, path) + range_lines(rs, anns));
    assert forall|i: int| 0 <= i < rs.len() implies (#[trigger] rs[i]).0 <= rs[i].1 by {
        assert(range_in(rs[i], m.states));
    }
    assert(!has_char(p2, '\n')) by {
        if has_char(p2, '\n') {
            let k = choose|k: int| 0 <= k < p2.len() && p2[k] == '\n';
            assert(path[k] == '\n');
        }
    }
    lemma_out_lines_safe(m, path, rs);
    lemma_range_lines_len(rs, anns);
    if rs.len() == 0 {
        assert(range_lines(rs, anns) =~= Seq::<Seq<char>>::empty());
        assert(all =~= header_lines(m, path));
        assert(all2 =~= hs2);
    } else {
        lemma_range_lines_at(rs, anns, rs.len() - 1);
        assert(all.last() == range_line(rs[rs.len() - 1], anns));
        lemma_run_line_safe(rs[rs.len() - 1], anns);
    }
    assert(all.last() == all2.last());
    lemma_lines_of_join_cr(all);
    let fl = file_comment() + path;
    assert(strip_cr(fl) =~= file_comment() + p2) by {
        if path.len() > 0 {
            assert(fl.last() == path.last());
        } else {
            assert(fl.last() == ' ');
        }
    }
    let x = if all.last().len() == 0 {
        all.drop_last()
    } else {
        all
    };
    let x2 = if all2.last().len() == 0 {
        all2.drop_last()
    } else {
        all2
    };
    assert(x.map_values(|l: Seq<char>| strip_cr(l)) =~= x2) by {
        assert forall|i: int| 0 <= i < x.len() implies strip_cr(#[trigger] x[i]) == x2[i] by {
            if i == 0 {
                assert(x[i] == fl);
            } else {
                assert(x[i] == all[i] && x2[i] == all2[i]);
                assert(all[i] == all2[i]);
                if all[i].len() > 0 {
                    assert(all[i].last() != '\r');
                }
            }
        }
    }
    lemma_read_header(m, p2);
    lemma_read_runs(hs2, m.snapshot, rs, anns);
    lemma_runs_give_states(rs, m.states);
}

/// A record whose annotations are just the notes its runs' lines carry reads back
/// unchanged.
#[verifier::spinoff_prover]
#[verifier::rlimit(50)]
pub proof fn lemma_own_roundtrip_whole(m: FileModel, path: Seq<char>, rs: Seq<Range>)
    requires
        own_writable(m, path),
        is_grouping(rs, m.states),
        m.annotations == runs_notes(rs, m.annotations),
    ensures
        own_parse(join(own_out_lines(m, path, rs), seq!['\n'])) == Some(m),
{
    lemma_own_roundtrip(m, path, rs);
}

/// Each annotation of `anns` notes a run of `rs` with a non-empty note, and no two
/// annotations note the same run.
pub open spec fn notes_on_runs(anns: Seq<NoteModel>, rs: Seq<Range>) -> bool {
    &&& forall|i: int|
        0 <= i < anns.len() ==> (#[trigger] anns[i]).note.len() > 0 && exists|j: int|
            0 <= j < rs.len() && matches_range(anns[i], (#[trigger] rs[j]).0, rs[j].1, rs[j].2)
    &&& forall|i: int, k: int|
        #![trigger anns[i], anns[k]]
        0 <= i < anns.len() && 0 <= k < anns.len() && i != k ==> !matches_range(
            anns[i],
            anns[k].start_line,
            anns[k].end_line,
            anns[k].state,
        )
}

/// What the line of run `j` carries is among what the lines of all the runs carry.
proof fn lemma_runs_notes_member(rs: Seq<Range>, anns: Seq<NoteModel>, j: int, x: NoteModel)
    requires
        0 <= j < rs.len(),
        run_note(rs[j], anns).contains(x),
    ensures
        runs_notes(rs, anns).contains(x),
    decreases rs.len(),
{
    let prev = runs_notes(rs.drop_last(), anns);
    let last = run_note(rs.last(), anns);
    if j < rs.len() - 1 {
        assert(rs.drop_last()[j] == rs[j]);
        lemma_runs_notes_member(rs.drop_last(), anns, j, x);
        let k = choose|k: int| 0 <= k < prev.len() && prev[k] == x;
        assert((prev + last)[k] == x);
    } else {
        let k = choose|k: int| 0 <= k < last.len() && last[k] == x;
        assert((prev + last)[prev.len() + k] == x);
    }
}

/// What the lines of the runs carry are annotations of the record.
proof fn lemma_runs_notes_from(rs: Seq<Range>, anns: Seq<NoteModel>, x: NoteModel)
    requires
        runs_notes(rs, anns).contains(x),
    ensures
        anns.contains(x),
    decreases rs.len(),
{
    let prev = runs_notes(rs.drop_last(), anns);
    let last = run_note(rs.last(), anns);
    let k = choose|k: int| 0 <= k < (prev + last).len() && (prev + last)[k] == x;
    if k < prev.len() {
        assert(prev[k] == x);
        lemma_runs_notes_from(rs.drop_last(), anns, x);
    } else {
        lemma_first_match_valid(anns, rs.last().0, rs.last().1, rs.last().2);
        let i = first_match(anns, rs.last().0, rs.last().1, rs.last().2)->0;
        assert(anns[i] == x);
    }
}

/// A ledger record whose annotations each note a different run of its lines with a
/// non-empty note, written as the text of its `.own` file and read back, gives the same
/// snapshot, the same state for every line and the same annotations (as a set), for every
/// record whose text can hold it and every grouping `rs` of its lines into runs.
#[verifier::spinoff_prover]
#[verifier::rlimit(50)]
pub proof fn lemma_own_roundtrip_notes(m: FileModel, path: Seq<char>, rs: Seq<Range>)
    requires
        own_writable(m, path),
        is_grouping(rs, m.states),
        notes_on_runs(m.annotations, rs),
    ensures
        own_parse(join(own_out_lines(m, path, rs), seq!['\n'])) matches Some(r) && r.snapshot == m.snapshot
            && r.states == m.states && r.annotations.to_set() == m.annotations.to_set(),
{
    lemma_own_roundtrip(m, path, rs);
    let anns = m.annotations;
    let got = runs_notes(rs, anns);
    assert forall|x: NoteModel| #[trigger] got.to_set().contains(x) == anns.to_set().contains(x) by {
        if got.contains(x) {
            lemma_runs_notes_from(rs, anns, x);
        }
        if anns.contains(x) {
            let i = choose|i: int| 0 <= i < anns.len() && anns[i] == x;
            let j = choose|j: int| 0 <= j < rs.len() && matches_range(anns[i], (#[trigger] rs[j]).0, rs[j].1, rs[j].2);
            let r = rs[j];
            lemma_first_match_valid(anns, r.0, r.1, r.2);
            let k = first_match(anns, r.0, r.1, r.2)->0;
            if k != i {
                assert(!matches_range(anns[k], anns[i].start_line, anns[i].end_line, anns[i].state));
            }
            assert(run_note(r, anns) == seq![x]);
            assert(run_note(r, anns)[0] == x);
            lemma_runs_notes_member(rs, anns, j, x);
        }
    }
    assert(got.to_set() =~= anns.to_set());
}

/// The line of run `j` among the lines of the runs `rs`.
#[verifier::spinoff_prover]
#[verifier::rlimit(50)]
proof fn lemma_range_lines_at(rs: Seq<Range>, anns: Seq<NoteModel>, j: int)
    requires
        0 <= j < rs.len(),
    ensures
        range_lines(rs, anns).len() == rs.len(),
        range_lines(rs, anns)[j] == range_line(rs[j], anns),
    decreases rs.len(),
{
    lemma_range_lines_len(rs, anns);
    if j < rs.len() - 1 {
        lemma_range_lines_at(rs.drop_last(), anns, j);
        assert(rs.drop_last()[j] == rs[j]);
    }
}

/// There is one line per run.
#[verifier::spinoff_prover]
#[verifier::rlimit(50)]
proof fn lemma_range_lines_len(rs: Seq<Range>, anns: Seq<NoteModel>)
    ensures
        range_lines(rs, anns).len() == rs.len(),
    decreases rs.len(),
{
    if rs.len() > 0 {
        lemma_range_lines_len(rs.drop_last(), anns);
    }
}

} // verus!
