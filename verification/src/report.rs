//! The annotations part of the Markdown ownership report: each noted range of a file
//! with its source lines and its note.
use vstd::prelude::*;
use crate::store::{Annotation, FileOwnership, NoteModel};
use crate::text::{decimal, line_span, push_digits, push_line_span, push_str, string_of, string_views};

verus! {

/// The lines that show one annotation: its range, its source lines in a code block, and
/// its note, with blank lines between.
pub open spec fn note_block(a: NoteModel, src: Seq<Seq<char>>) -> Seq<Seq<char>> {
    seq![
        seq!['*', '*', 'L', 'i', 'n', 'e', 's', ' '] + decimal(a.start_line as nat) + seq!['-']
            + decimal(a.end_line as nat) + seq![':', '*', '*'],
        Seq::<char>::empty(),
        seq!['`', '`', '`'],
    ] + line_span(src, a.start_line, a.end_line) + seq![
        seq!['`', '`', '`'],
        Seq::<char>::empty(),
        seq!['>', ' '] + a.note,
        Seq::<char>::empty(),
    ]
}

/// The blocks of the annotations `anns`, in order.
pub open spec fn note_blocks(anns: Seq<NoteModel>, src: Seq<Seq<char>>) -> Seq<Seq<char>>
    decreases anns.len(),
{
    if anns.len() == 0 {
        Seq::empty()
    } else {
        note_blocks(anns.drop_last(), src) + note_block(anns.last(), src)
    }
}

/// The annotations section of one file: its name as a heading, a blank line, and the
/// block of each annotation.
pub open spec fn notes_section(name: Seq<char>, anns: Seq<NoteModel>, src: Seq<Seq<char>>) -> Seq<Seq<char>> {
    seq![seq!['#', '#', '#', ' '] + name, Seq::<char>::empty()] + note_blocks(anns, src)
}

/// An annotation can be shown: it does not start at line 0 unless its range is empty.
pub open spec fn shown_range(a: NoteModel) -> bool {
    a.start_line >= 1 || a.start_line > a.end_line
}

/// The lines of the annotations section of `file_name`, whose record is `record` and
/// whose source lines are `source`.
pub fn notes_report(file_name: &str, record: &FileOwnership, source: &Vec<String>) -> (r: Vec<String>)
    requires
        forall|i: int| 0 <= i < record.annotations@.len() ==> shown_range(#[trigger] record.model().annotations[i]),
    ensures
        string_views(r@) == notes_section(file_name@, record.model().annotations, string_views(source@)),
{
    let ghost anns = record.model().annotations;
    let ghost src = string_views(source@);
    let mut out: Vec<String> = Vec::new();
    let mut h: Vec<char> = vec!['#', '#', '#', ' '];
    push_str(&mut h, file_name);
    out.push(string_of(h.as_slice()));
    out.push(String::new());
    let ghost head = string_views(out@);
    proof {
        assert(head =~= seq![seq!['#', '#', '#', ' '] + file_name@, Seq::<char>::empty()]);
        assert(anns.take(0) =~= Seq::<NoteModel>::empty());
    }
    let mut i: usize = 0;
    while i < record.annotations.len()
        invariant
            i <= record.annotations@.len(),
            anns == record.model().annotations,
            src == string_views(source@),
            forall|i: int| 0 <= i < record.annotations@.len() ==> shown_range(#[trigger] record.model().annotations[i]),
            string_views(out@) == head + note_blocks(anns.take(i as int), src),
        decreases record.annotations@.len() - i,
    {
        let a: &Annotation = &record.annotations[i];
        proof {
            assert(anns[i as int] == a.model());
            assert(shown_range(anns[i as int]));
            assert(anns.take(i + 1).drop_last() =~= anns.take(i as int));
            assert(anns.take(i + 1).last() == a.model());
        }
        let ghost before = string_views(out@);
        let mut hd: Vec<char> = vec!['*', '*', 'L', 'i', 'n', 'e', 's', ' '];
        push_digits(&mut hd, a.start_line as u64, 10);
        hd.push('-');
        push_digits(&mut hd, a.end_line as u64, 10);
        hd.push(':');
        hd.push('*');
        hd.push('*');
        out.push(string_of(hd.as_slice()));
        out.push(String::new());
        let fence: Vec<char> = vec!['`', '`', '`'];
        out.push(string_of(fence.as_slice()));
        let ghost mid = string_views(out@);
        push_line_span(&mut out, source, a.start_line, a.end_line);
        let ghost after_span = string_views(out@);
        out.push(string_of(fence.as_slice()));
        out.push(String::new());
        let mut nl: Vec<char> = vec!['>', ' '];
        push_str(&mut nl, a.note.as_str());
        out.push(string_of(nl.as_slice()));
        out.push(String::new());
        proof {
            let blk = note_block(a.model(), src);
            assert(hd@ =~= seq!['*', '*', 'L', 'i', 'n', 'e', 's', ' '] + decimal(a.start_line as nat) + seq!['-']
                + decimal(a.end_line as nat) + seq![':', '*', '*']);
            assert(mid =~= before + seq![hd@, Seq::<char>::empty(), fence@]);
            assert(after_span == mid + line_span(src, a.start_line, a.end_line));
            assert(string_views(out@) =~= after_span + seq![fence@, Seq::<char>::empty(), nl@, Seq::<char>::empty()]);
            assert(blk =~= seq![hd@, Seq::<char>::empty(), fence@] + line_span(src, a.start_line, a.end_line)
                + seq![fence@, Seq::<char>::empty(), nl@, Seq::<char>::empty()]);
            assert(string_views(out@) =~= before + blk);
        }
        i = i + 1;
    }
    proof {
        assert(anns.take(i as int) =~= anns);
    }
    out
}

} // verus!
