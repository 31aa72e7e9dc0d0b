//! What the review screens show beside the text: the marks in the gutter of a line and
//! the label of a selection.
use vstd::prelude::*;
use crate::own::LineState;
use crate::text::{decimal, push_digits, push_str, string_of};

verus! {

// ─── Tag review screen ───────────────────────────────────────────────────────

/// The gutter mark of line `line` within a note on lines `start..=end`: a dot for a
/// one-line note, else a corner at the first and last lines and a bar between.
pub open spec fn note_mark_of(start: usize, end: usize, line: usize) -> Seq<char> {
    if start == end {
        "●"@
    } else if line == start {
        "┌"@
    } else if line == end {
        "└"@
    } else {
        "│"@
    }
}

/// The gutter mark of line `line` within a note on lines `start..=end`.
pub fn note_mark(start: usize, end: usize, line: usize) -> (r: &'static str)
    ensures
        r@ == note_mark_of(start, end, line),
{
    if start == end {
        "●"
    } else if line == start {
        "┌"
    } else if line == end {
        "└"
    } else {
        "│"
    }
}

/// The mark before a tag in the tag picker: a tick for a tag the line has when adding, a
/// cross for one it has when removing, blanks otherwise.
pub open spec fn picker_mark_of(removing: bool, present: bool) -> Seq<char> {
    if !present {
        "  "@
    } else if removing {
        "✗ "@
    } else {
        "✓ "@
    }
}

/// The mark before a tag in the tag picker.
pub fn picker_mark(removing: bool, present: bool) -> (r: &'static str)
    ensures
        r@ == picker_mark_of(removing, present),
{
    if !present {
        "  "
    } else if removing {
        "✗ "
    } else {
        "✓ "
    }
}

/// The label of a selection from `start` to `end`: its lines in increasing order, or its
/// first line alone while the selection is open; empty with no selection.
pub open spec fn selection_label_of(start: Option<usize>, end: Option<usize>) -> Seq<char> {
    match (start, end) {
        (Some(s), Some(e)) => {
            let lo: usize = if s <= e { s } else { e };
            let hi: usize = if s <= e { e } else { s };
            " SELECT "@ + decimal(lo as nat) + "-"@ + decimal(hi as nat) + " "@
        },
        (Some(s), None) => " SELECT "@ + decimal(s as nat) + "-... "@,
        _ => Seq::empty(),
    }
}

/// The label of a selection from `start` to `end`.
pub fn selection_label(start: Option<usize>, end: Option<usize>) -> (r: String)
    ensures
        r@ == selection_label_of(start, end),
{
    let mut out: Vec<char> = Vec::new();
    match (start, end) {
        (Some(s), Some(e)) => {
            let lo: usize = if s <= e { s } else { e };
            let hi: usize = if s <= e { e } else { s };
            push_str(&mut out, " SELECT ");
            push_digits(&mut out, lo as u64, 10);
            push_str(&mut out, "-");
            push_digits(&mut out, hi as u64, 10);
            push_str(&mut out, " ");
        },
        (Some(s), None) => {
            push_str(&mut out, " SELECT ");
            push_digits(&mut out, s as u64, 10);
            push_str(&mut out, "-... ");
        },
        _ => {},
    }
    proof {
        assert(out@ =~= selection_label_of(start, end));
    }
    string_of(out.as_slice())
}

// ─── Line-state review screen ────────────────────────────────────────────────

/// The upper-case letter of a state.
pub open spec fn upper_letter(s: LineState) -> char {
    match s {
        LineState::Reviewed => 'R',
        LineState::Questioned => 'Q',
        LineState::Approved => 'A',
        LineState::Rejected => 'X',
    }
}

/// The gutter mark of a line: its state's letter in upper case between blanks; for a line
/// with no state, a dot when the file changed since it was reviewed, else blanks.
pub open spec fn state_mark_of(state: Option<LineState>, changed: bool) -> Seq<char> {
    match state {
        Some(s) => seq![' ', upper_letter(s), ' '],
        None => if changed {
            " • "@
        } else {
            "   "@
        },
    }
}

/// The gutter mark of a line in state `state`.
pub fn state_mark(state: Option<LineState>, changed: bool) -> (r: String)
    ensures
        r@ == state_mark_of(state, changed),
{
    let mut out: Vec<char> = Vec::new();
    match state {
        Some(s) => {
            let c = match s {
                LineState::Reviewed => 'R',
                LineState::Questioned => 'Q',
                LineState::Approved => 'A',
                LineState::Rejected => 'X',
            };
            out.push(' ');
            out.push(c);
            out.push(' ');
        },
        None => {
            if changed {
                push_str(&mut out, " • ");
            } else {
                push_str(&mut out, "   ");
            }
        },
    }
    proof {
        assert(out@ =~= state_mark_of(state, changed));
    }
    string_of(out.as_slice())
}

} // verus!
