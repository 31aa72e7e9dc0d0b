//! What the extract command reports of a record: the ranges of lines in a chosen state,
//! and the Markdown lines that show them with their source.
use vstd::prelude::*;
use crate::own::{grouping_of, ExtractState, FileModel, FileOwnership, LineState, NoteModel, Range};
use crate::text::{decimal, line_span, push_digits, push_line_span, push_str, string_of, string_views};

verus! {

// ─── Ranges to extract ───────────────────────────────────────────────────────

/// A reported range: first line, last line, and its note (empty when it has none).
pub type Extracted = (usize, usize, Seq<char>);

/// The annotations in state `st` that carry a note, in order, as reported ranges.
pub open spec fn note_ranges(anns: Seq<NoteModel>, st: LineState) -> Seq<Extracted>
    decreases anns.len(),
{
    if anns.len() == 0 {
        Seq::empty()
    } else {
        let prev = note_ranges(anns.drop_last(), st);
        let a = anns.last();
        if a.state == st && a.note.len() > 0 {
            prev.push((a.start_line, a.end_line, a.note))
        } else {
            prev
        }
    }
}

/// Some range of `rs` runs from `s` to `e`.
pub open spec fn has_range(rs: Seq<Extracted>, s: usize, e: usize) -> bool {
    exists|i: int| 0 <= i < rs.len() && (#[trigger] rs[i]).0 == s && rs[i].1 == e
}

/// The runs of `groups` in state `st` that no range of `noted` already reports, in
/// order, without notes.
pub open spec fn run_ranges(groups: Seq<Range>, st: LineState, noted: Seq<Extracted>) -> Seq<Extracted>
    decreases groups.len(),
{
    if groups.len() == 0 {
        Seq::empty()
    } else {
        let prev = run_ranges(groups.drop_last(), st, noted);
        let g = groups.last();
        if g.2 == st && !has_range(noted, g.0, g.1) {
            prev.push((g.0, g.1, Seq::empty()))
        } else {
            prev
        }
    }
}

/// What extracting the lines in state `st` reports of a record whose lines group into
/// `groups`: its noted annotations in that state, then its runs of lines in that state
/// that no such annotation covers exactly.
pub open spec fn extracted(fm: FileModel, groups: Seq<Range>, st: LineState) -> Seq<Extracted> {
    let noted = note_ranges(fm.annotations, st);
    noted + run_ranges(groups, st, noted)
}

/// Some annotation of `anns` in state `st` carries a note and spans exactly `s..=e`.
pub open spec fn noted_span(anns: Seq<NoteModel>, st: LineState, s: usize, e: usize) -> bool {
    exists|i: int|
        0 <= i < anns.len() && (#[trigger] anns[i]).state == st && anns[i].note.len() > 0 && anns[i].start_line == s
            && anns[i].end_line == e
}

/// The noted ranges report a span exactly when a noted annotation in that state spans it,
/// and each noted annotation in that state is among them with its note.
proof fn lemma_note_ranges(anns: Seq<NoteModel>, st: LineState, s: usize, e: usize)
    ensures
        has_range(note_ranges(anns, st), s, e) <==> noted_span(anns, st, s, e),
        forall|i: int|
            0 <= i < anns.len() && (#[trigger] anns[i]).state == st && anns[i].note.len() > 0 ==> note_ranges(
                anns,
                st,
            ).contains((anns[i].start_line, anns[i].end_line, anns[i].note)),
    decreases anns.len(),
{
    if anns.len() > 0 {
        let pre = anns.drop_last();
        lemma_note_ranges(pre, st, s, e);
        let prev = note_ranges(pre, st);
        let a = anns.last();
        let cur = note_ranges(anns, st);
        assert forall|i: int| 0 <= i < pre.len() implies #[trigger] pre[i] == anns[i] by {}
        if noted_span(pre, st, s, e) {
            let i = choose|i: int|
                0 <= i < pre.len() && (#[trigger] pre[i]).state == st && pre[i].note.len() > 0 && pre[i].start_line
                    == s && pre[i].end_line == e;
            assert(anns[i] == pre[i]);
        }
        if a.state == st && a.note.len() > 0 {
            assert(cur == prev.push((a.start_line, a.end_line, a.note)));
            assert(cur[prev.len() as int] == (a.start_line, a.end_line, a.note));
            if has_range(prev, s, e) {
                let k = choose|k: int| 0 <= k < prev.len() && (#[trigger] prev[k]).0 == s && prev[k].1 == e;
                assert(cur[k] == prev[k]);
            }
            if has_range(cur, s, e) && !has_range(prev, s, e) {
                let k = choose|k: int| 0 <= k < cur.len() && (#[trigger] cur[k]).0 == s && cur[k].1 == e;
                if k < prev.len() {
                    assert(cur[k] == prev[k]);
                } else {
                    assert(anns[anns.len() - 1] == a);
                }
            }
            if noted_span(anns, st, s, e) && !noted_span(pre, st, s, e) {
                let i = choose|i: int|
                    0 <= i < anns.len() && (#[trigger] anns[i]).state == st && anns[i].note.len() > 0
                        && anns[i].start_line == s && anns[i].end_line == e;
                if i < pre.len() {
                    assert(pre[i] == anns[i]);
                }
            }
            assert forall|i: int|
                0 <= i < anns.len() && (#[trigger] anns[i]).state == st && anns[i].note.len() > 0 implies cur.contains(
                (anns[i].start_line, anns[i].end_line, anns[i].note),
            ) by {
                if i < pre.len() {
                    assert(pre[i] == anns[i]);
                    let x = (anns[i].start_line, anns[i].end_line, anns[i].note);
                    let k = choose|k: int| 0 <= k < prev.len() && prev[k] == x;
                    assert(cur[k] == x);
                }
            }
        } else {
            assert(cur == prev);
            if noted_span(anns, st, s, e) && !noted_span(pre, st, s, e) {
                let i = choose|i: int|
                    0 <= i < anns.len() && (#[trigger] anns[i]).state == st && anns[i].note.len() > 0
                        && anns[i].start_line == s && anns[i].end_line == e;
                if i < pre.len() {
                    assert(pre[i] == anns[i]);
                }
            }
            assert forall|i: int|
                0 <= i < anns.len() && (#[trigger] anns[i]).state == st && anns[i].note.len() > 0 implies cur.contains(
                (anns[i].start_line, anns[i].end_line, anns[i].note),
            ) by {
                if i < pre.len() {
                    assert(pre[i] == anns[i]);
                }
            }
        }
    }
}

/// Each run in state `st` that `noted` does not report is among the run ranges, without a
/// note.
proof fn lemma_run_ranges_has(groups: Seq<Range>, st: LineState, noted: Seq<Extracted>, j: int)
    requires
        0 <= j < groups.len(),
        groups[j].2 == st,
        !has_range(noted, groups[j].0, groups[j].1),
    ensures
        run_ranges(groups, st, noted).contains((groups[j].0, groups[j].1, Seq::<char>::empty())),
    decreases groups.len(),
{
    let pre = groups.drop_last();
    let prev = run_ranges(pre, st, noted);
    let cur = run_ranges(groups, st, noted);
    let x = (groups[j].0, groups[j].1, Seq::<char>::empty());
    if j < groups.len() - 1 {
        assert(pre[j] == groups[j]);
        lemma_run_ranges_has(pre, st, noted, j);
        let k = choose|k: int| 0 <= k < prev.len() && prev[k] == x;
        let g = groups.last();
        if g.2 == st && !has_range(noted, g.0, g.1) {
            assert(cur[k] == x);
        }
    } else {
        assert(cur == prev.push(x));
        assert(cur[prev.len() as int] == x);
    }
}

/// Extracting the lines in state `st` reports every run of lines in `st` (every maximal
/// run when `groups` is the record's grouping) that no noted annotation in `st` spans
/// exactly, without a note: a note on an overlapping but different span does not hide it.
pub proof fn lemma_extract_reports_runs(fm: FileModel, groups: Seq<Range>, st: LineState, j: int)
    requires
        0 <= j < groups.len(),
        groups[j].2 == st,
        !noted_span(fm.annotations, st, groups[j].0, groups[j].1),
    ensures
        extracted(fm, groups, st).contains((groups[j].0, groups[j].1, Seq::<char>::empty())),
{
    let noted = note_ranges(fm.annotations, st);
    lemma_note_ranges(fm.annotations, st, groups[j].0, groups[j].1);
    lemma_run_ranges_has(groups, st, noted, j);
    let runs = run_ranges(groups, st, noted);
    let x = (groups[j].0, groups[j].1, Seq::<char>::empty());
    let k = choose|k: int| 0 <= k < runs.len() && runs[k] == x;
    assert((noted + runs)[noted.len() + k] == x);
}

/// Extracting the lines in state `st` reports every annotation in `st` that carries a
/// note, with its span and its note.
pub proof fn lemma_extract_reports_notes(fm: FileModel, groups: Seq<Range>, st: LineState, i: int)
    requires
        0 <= i < fm.annotations.len(),
        fm.annotations[i].state == st,
        fm.annotations[i].note.len() > 0,
    ensures
        extracted(fm, groups, st).contains(
            (fm.annotations[i].start_line, fm.annotations[i].end_line, fm.annotations[i].note),
        ),
{
    let a = fm.annotations[i];
    lemma_note_ranges(fm.annotations, st, a.start_line, a.end_line);
    let noted = note_ranges(fm.annotations, st);
    let x = (a.start_line, a.end_line, a.note);
    let k = choose|k: int| 0 <= k < noted.len() && noted[k] == x;
    assert((noted + run_ranges(groups, st, noted))[k] == x);
}

/// The reported ranges as plain values.
pub open spec fn report_views(v: Seq<(usize, usize, String)>) -> Seq<Extracted> {
    v.map_values(|t: (usize, usize, String)| (t.0, t.1, t.2@))
}

/// Whether some range of `rs` runs from `s` to `e`.
fn find_range(rs: &Vec<(usize, usize, String)>, upto: usize, s: usize, e: usize) -> (b: bool)
    requires
        upto <= rs@.len(),
    ensures
        b == has_range(report_views(rs@).take(upto as int), s, e),
{
    let ghost v = report_views(rs@).take(upto as int);
    let mut i: usize = 0;
    while i < upto
        invariant
            i <= upto <= rs@.len(),
            v == report_views(rs@).take(upto as int),
            forall|k: int| 0 <= k < i ==> !((#[trigger] v[k]).0 == s && v[k].1 == e),
        decreases upto - i,
    {
        if rs[i].0 == s && rs[i].1 == e {
            proof {
                assert(v[i as int].0 == s && v[i as int].1 == e);
            }
            return true;
        }
        proof {
            assert(v[i as int].0 == rs@[i as int].0 && v[i as int].1 == rs@[i as int].1);
        }
        i = i + 1;
    }
    false
}

impl FileOwnership {
    /// The ranges to report when extracting the lines in state `target`: the annotations
    /// in that state that carry a note, then each maximal run of lines in that state
    /// that no such annotation covers exactly (without a note).
    pub fn extract_ranges(&self, target: LineState) -> (r: Vec<(usize, usize, String)>)
        ensures
            report_views(r@) == extracted(self.model(), grouping_of(self.model().states), target),
    {
        let ghost fm = self.model();
        let mut r: Vec<(usize, usize, String)> = Vec::new();
        let mut i: usize = 0;
        while i < self.annotations.len()
            invariant
                i <= self.annotations@.len(),
                fm == self.model(),
                report_views(r@) == note_ranges(fm.annotations.take(i as int), target),
            decreases self.annotations@.len() - i,
        {
            let a = &self.annotations[i];
            proof {
                assert(fm.annotations.take(i + 1).drop_last() =~= fm.annotations.take(i as int));
                assert(fm.annotations.take(i + 1).last() == a.model());
            }
            if a.state == target && !a.note.as_str().is_empty() {
                let ghost before = report_views(r@);
                r.push((a.start_line, a.end_line, a.note.clone()));
                proof {
                    assert(report_views(r@) =~= before.push((a.start_line, a.end_line, a.note@)));
                }
            }
            i = i + 1;
        }
        proof {
            assert(fm.annotations.take(i as int) =~= fm.annotations);
        }
        let noted = r.len();
        let ghost nv = report_views(r@);
        let groups = self.group_into_ranges();
        let mut j: usize = 0;
        while j < groups.len()
            invariant
                j <= groups@.len(),
                noted <= r@.len(),
                nv == note_ranges(fm.annotations, target),
                report_views(r@).take(noted as int) == nv,
                report_views(r@) == nv + run_ranges(groups@.take(j as int), target, nv),
            decreases groups@.len() - j,
        {
            let g = groups[j];
            proof {
                assert(groups@.take(j + 1).drop_last() =~= groups@.take(j as int));
                assert(groups@.take(j + 1).last() == g);
            }
            if g.2 == target && !find_range(&r, noted, g.0, g.1) {
                let ghost before = report_views(r@);
                r.push((g.0, g.1, String::new()));
                proof {
                    assert(report_views(r@) =~= before.push((g.0, g.1, Seq::<char>::empty())));
                    assert(report_views(r@).take(noted as int) =~= before.take(noted as int));
                }
            }
            j = j + 1;
        }
        proof {
            assert(groups@.take(j as int) =~= groups@);
        }
        r
    }
}

impl ExtractState {
    /// The word that headings use for this choice.
    pub open spec fn label_text(self) -> Seq<char> {
        match self {
            ExtractState::Rejected => seq!['R', 'e', 'j', 'e', 'c', 't', 'e', 'd'],
            ExtractState::Approved => seq!['A', 'p', 'p', 'r', 'o', 'v', 'e', 'd'],
        }
    }

    /// The word that headings use for this choice.
    pub fn label(&self) -> (r: &'static str)
        ensures
            r@ == self.label_text(),
    {
        match self {
            ExtractState::Rejected => {
                proof {
                    reveal_strlit("Rejected");
                }
                "Rejected"
            },
            ExtractState::Approved => {
                proof {
                    reveal_strlit("Approved");
                }
                "Approved"
            },
        }
    }
}

/// The heading of a reported range.
pub open spec fn range_heading(label: Seq<char>, r: Extracted) -> Seq<char> {
    seq!['#', '#', '#', ' '] + label + seq![' ', 'L', 'i', 'n', 'e', 's', ' '] + decimal(r.0 as nat)
        + seq!['-'] + decimal(r.1 as nat)
}

/// The lines that show one reported range: a heading, the source lines in a code block,
/// the note (if any), and a blank line.
pub open spec fn range_section(label: Seq<char>, r: Extracted, src: Seq<Seq<char>>) -> Seq<Seq<char>> {
    seq![range_heading(label, r), seq!['`', '`', '`', 'r', 'u', 's', 't']] + line_span(src, r.0, r.1)
        + seq![seq!['`', '`', '`']] + (if r.2.len() > 0 {
        seq![seq!['>', ' ', '*', '*', 'A', 'n', 'n', 'o', 't', 'a', 't', 'i', 'o', 'n', ':', '*', '*', ' '] + r.2]
    } else {
        Seq::empty()
    }) + seq![Seq::<char>::empty()]
}

/// The sections of the ranges `rs`, in order.
pub open spec fn range_sections(label: Seq<char>, rs: Seq<Extracted>, src: Seq<Seq<char>>) -> Seq<Seq<char>>
    decreases rs.len(),
{
    if rs.len() == 0 {
        Seq::empty()
    } else {
        range_sections(label, rs.drop_last(), src) + range_section(label, rs.last(), src)
    }
}

/// The report of one file: its name as a heading, a blank line, and its ranges.
pub open spec fn file_section(name: Seq<char>, label: Seq<char>, rs: Seq<Extracted>, src: Seq<Seq<char>>) -> Seq<Seq<char>> {
    seq![seq!['#', '#', ' '] + name, Seq::<char>::empty()] + range_sections(label, rs, src)
}

/// A range can be shown: it does not start at line 0 unless it is empty.
pub open spec fn showable(r: Extracted) -> bool {
    r.0 >= 1 || r.0 > r.1
}

/// The lines that report the ranges `ranges` of `file_name`, whose source lines are
/// `source`, under the heading word `label`.
pub fn extract_section(file_name: &str, label: &str, ranges: &Vec<(usize, usize, String)>, source: &Vec<String>) -> (r: Vec<String>)
    requires
        forall|i: int| 0 <= i < ranges@.len() ==> showable(#[trigger] report_views(ranges@)[i]),
    ensures
        string_views(r@) == file_section(file_name@, label@, report_views(ranges@), string_views(source@)),
{
    let ghost rv = report_views(ranges@);
    let ghost src = string_views(source@);
    let mut out: Vec<String> = Vec::new();
    let mut h: Vec<char> = vec!['#', '#', ' '];
    push_str(&mut h, file_name);
    out.push(string_of(h.as_slice()));
    out.push(String::new());
    let ghost head = string_views(out@);
    proof {
        assert(head =~= seq![seq!['#', '#', ' '] + file_name@, Seq::<char>::empty()]);
        assert(rv.take(0) =~= Seq::<Extracted>::empty());
    }
    let mut i: usize = 0;
    while i < ranges.len()
        invariant
            i <= ranges@.len(),
            rv == report_views(ranges@),
            src == string_views(source@),
            forall|i: int| 0 <= i < ranges@.len() ==> showable(#[trigger] report_views(ranges@)[i]),
            string_views(out@) == head + range_sections(label@, rv.take(i as int), src),
        decreases ranges@.len() - i,
    {
        let (s, e, note) = (ranges[i].0, ranges[i].1, &ranges[i].2);
        let ghost r = rv[i as int];
        proof {
            assert(r == (s, e, note@));
            assert(showable(r));
            assert(rv.take(i + 1).drop_last() =~= rv.take(i as int));
            assert(rv.take(i + 1).last() == r);
        }
        let ghost before = string_views(out@);
        let mut hd: Vec<char> = vec!['#', '#', '#', ' '];
        push_str(&mut hd, label);
        push_str(&mut hd, " Lines ");
        push_digits(&mut hd, s as u64, 10);
        hd.push('-');
        push_digits(&mut hd, e as u64, 10);
        proof {
            reveal_strlit(" Lines ");
            assert(hd@ =~= range_heading(label@, r));
        }
        out.push(string_of(hd.as_slice()));
        let fence: Vec<char> = vec!['`', '`', '`', 'r', 'u', 's', 't'];
        out.push(string_of(fence.as_slice()));
        let ghost mid = string_views(out@);
        push_line_span(&mut out, source, s, e);
        let close: Vec<char> = vec!['`', '`', '`'];
        out.push(string_of(close.as_slice()));
        let ghost after_code = string_views(out@);
        if !note.as_str().is_empty() {
            let mut nl: Vec<char> = vec!['>', ' ', '*', '*', 'A', 'n', 'n', 'o', 't', 'a', 't', 'i', 'o', 'n', ':', '*', '*', ' '];
            push_str(&mut nl, note.as_str());
            out.push(string_of(nl.as_slice()));
        }
        let ghost after_note = string_views(out@);
        out.push(String::new());
        proof {
            assert(mid =~= before + seq![hd@, fence@]);
            assert(after_code =~= mid + line_span(src, s, e) + seq![close@]);
            let tail = if note@.len() > 0 {
                seq![seq!['>', ' ', '*', '*', 'A', 'n', 'n', 'o', 't', 'a', 't', 'i', 'o', 'n', ':', '*', '*', ' '] + note@]
            } else {
                Seq::<Seq<char>>::empty()
            };
            assert(after_note =~= after_code + tail);
            assert(string_views(out@) =~= after_note + seq![Seq::<char>::empty()]);
            assert(range_section(label@, r, src) =~= seq![hd@, fence@] + line_span(src, s, e) + seq![close@] + tail + seq![Seq::<char>::empty()]);
            assert(string_views(out@) =~= before + range_section(label@, r, src));
        }
        i = i + 1;
    }
    proof {
        assert(rv.take(i as int) =~= rv);
    }
    out
}

} // verus!
