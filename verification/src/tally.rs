//! Ownership tallies for a scan: the lines each file has and how many of them are owned,
//! the files grouped by directory, and the sums of both counts.
use vstd::prelude::*;
use crate::own::{FileOwnership, LineState, state_count};
use crate::strmap::TextMap;

verus! {

// ─── Owned lines ─────────────────────────────────────────────────────────────

/// The owned lines of a record: those reviewed or approved.
pub open spec fn owned_count(m: Map<usize, LineState>) -> nat {
    state_count(m, LineState::Reviewed) + state_count(m, LineState::Approved)
}

impl FileOwnership {
    /// How many lines of this record are owned (reviewed or approved).
    pub fn owned_lines(&self) -> (n: usize)
        ensures
            n == owned_count(self.model().states),
    {
        let (reviewed, _questioned, approved, _rejected) = self.state_counts();
        reviewed + approved
    }
}

/// The mark shown before a scanned file: `✓` when all of its lines are owned, `~` when
/// some are, a blank when none are (or it has no lines).
pub open spec fn mark_of(owned: usize, lines: usize) -> Seq<char> {
    if owned == lines && lines > 0 {
        "✓"@
    } else if owned > 0 {
        "~"@
    } else {
        " "@
    }
}

/// The mark of a file with `lines` lines of which `owned` are owned.
pub fn progress_mark(owned: usize, lines: usize) -> (r: &'static str)
    ensures
        r@ == mark_of(owned, lines),
{
    if owned == lines && lines > 0 {
        "✓"
    } else if owned > 0 {
        "~"
    } else {
        " "
    }
}

// ─── Grouping by directory ───────────────────────────────────────────────────

/// A tallied file as plain values: its path, its lines, its owned lines.
pub open spec fn entry_view(e: (String, usize, usize)) -> (Seq<char>, usize, usize) {
    (e.0@, e.1, e.2)
}

/// Tallied files as plain values.
pub open spec fn entry_views(v: Seq<(String, usize, usize)>) -> Seq<(Seq<char>, usize, usize)> {
    v.map_values(|e: (String, usize, usize)| entry_view(e))
}

/// The files of a scan (directory, path, lines, owned lines) that lie in `dir`, in order,
/// as path, lines and owned lines.
pub open spec fn files_in(files: Seq<(String, String, usize, usize)>, dir: Seq<char>) -> Seq<(Seq<char>, usize, usize)>
    decreases files.len(),
{
    if files.len() == 0 {
        seq![]
    } else {
        let rest = files_in(files.drop_last(), dir);
        let f = files.last();
        if f.0@ == dir {
            rest.push((f.1@, f.2, f.3))
        } else {
            rest
        }
    }
}

/// No file of `files` lies in `dir`, so none is listed under it.
proof fn lemma_files_in_none(files: Seq<(String, String, usize, usize)>, dir: Seq<char>)
    requires
        forall|j: int| 0 <= j < files.len() ==> (#[trigger] files[j]).0@ != dir,
    ensures
        files_in(files, dir) == Seq::<(Seq<char>, usize, usize)>::empty(),
    decreases files.len(),
{
    if files.len() > 0 {
        let rest = files.drop_last();
        assert forall|j: int| 0 <= j < rest.len() implies (#[trigger] rest[j]).0@ != dir by {
            assert(rest[j] == files[j]);
        }
        lemma_files_in_none(rest, dir);
    }
}

/// The files of a scan grouped by directory: the directories in name order, each with its
/// files in scan order.
pub fn group_by_dir(files: &Vec<(String, String, usize, usize)>) -> (r: TextMap<Vec<(String, usize, usize)>>)
    ensures
        r.wf(),
        forall|d: Seq<char>|
            r@.contains_key(d) <==> exists|i: int| 0 <= i < files@.len() && (#[trigger] files@[i]).0@ == d,
        forall|d: Seq<char>| #[trigger] r@.contains_key(d) ==> entry_views(r@[d]@) == files_in(files@, d),
{
    let mut tree: TextMap<Vec<(String, usize, usize)>> = TextMap::new();
    let mut i: usize = 0;
    while i < files.len()
        invariant
            i <= files@.len(),
            tree.wf(),
            forall|d: Seq<char>|
                tree@.contains_key(d) <==> exists|j: int| 0 <= j < i && (#[trigger] files@[j]).0@ == d,
            forall|d: Seq<char>| #[trigger]
                tree@.contains_key(d) ==> entry_views(tree@[d]@) == files_in(files@.take(i as int), d),
        decreases files@.len() - i,
    {
        let f = &files[i];
        let entry = (f.1.clone(), f.2, f.3);
        let ghost before = tree@;
        let ghost key = f.0@;
        let ghost prefix = files@.take(i as int);
        let ghost next = files@.take(i + 1);
        proof {
            assert(next.drop_last() =~= prefix);
            assert(next.last() == files@[i as int]);
            if !before.contains_key(key) {
                assert forall|j: int| 0 <= j < prefix.len() implies (#[trigger] prefix[j]).0@ != key by {
                    assert(prefix[j] == files@[j]);
                }
                lemma_files_in_none(prefix, key);
            }
        }
        let slot = tree.get_or_insert(f.0.as_str(), Vec::new());
        slot.push(entry);
        proof {
            assert forall|d: Seq<char>|
                tree@.contains_key(d) <==> exists|j: int| 0 <= j < i + 1 && (#[trigger] files@[j]).0@ == d by {
                if d == key {
                    assert(files@[i as int].0@ == d);
                } else if before.contains_key(d) {
                    let j = choose|j: int| 0 <= j < i && (#[trigger] files@[j]).0@ == d;
                    assert(0 <= j < i + 1 && files@[j].0@ == d);
                }
            }
            assert forall|d: Seq<char>| #[trigger]
                tree@.contains_key(d) implies entry_views(tree@[d]@) == files_in(next, d) by {
                if d == key {
                    let old_v = if before.contains_key(key) { before[key]@ } else { Seq::empty() };
                    assert(entry_views(tree@[d]@) =~= entry_views(old_v).push(entry_view(entry)));
                } else {
                    assert(tree@[d] == before[d]);
                }
            }
        }
        i = i + 1;
    }
    proof {
        assert(files@.take(i as int) =~= files@);
    }
    tree
}

// ─── Sums ────────────────────────────────────────────────────────────────────

/// The lines of the tallied files, summed.
pub open spec fn lines_sum(v: Seq<(Seq<char>, usize, usize)>) -> nat
    decreases v.len(),
{
    if v.len() == 0 {
        0
    } else {
        lines_sum(v.drop_last()) + v.last().1 as nat
    }
}

/// The owned lines of the tallied files, summed.
pub open spec fn owned_sum(v: Seq<(Seq<char>, usize, usize)>) -> nat
    decreases v.len(),
{
    if v.len() == 0 {
        0
    } else {
        owned_sum(v.drop_last()) + v.last().2 as nat
    }
}

/// A prefix sums to no more than the whole.
proof fn lemma_sums_grow(v: Seq<(Seq<char>, usize, usize)>, k: int)
    requires
        0 <= k <= v.len(),
    ensures
        lines_sum(v.take(k)) <= lines_sum(v),
        owned_sum(v.take(k)) <= owned_sum(v),
    decreases v.len() - k,
{
    if k < v.len() {
        lemma_sums_grow(v, k + 1);
        assert(v.take(k + 1).drop_last() =~= v.take(k));
    } else {
        assert(v.take(k) =~= v);
    }
}

/// The lines and the owned lines of the tallied files `v`, each summed; `None` when a sum
/// does not fit in a `usize`.
pub fn totals(v: &Vec<(String, usize, usize)>) -> (r: Option<(usize, usize)>)
    ensures
        match r {
            Some((lines, owned)) => lines == lines_sum(entry_views(v@)) && owned == owned_sum(
                entry_views(v@),
            ),
            None => lines_sum(entry_views(v@)) > usize::MAX || owned_sum(entry_views(v@)) > usize::MAX,
        },
{
    let ghost all = entry_views(v@);
    let mut lines: usize = 0;
    let mut owned: usize = 0;
    let mut i: usize = 0;
    while i < v.len()
        invariant
            i <= v@.len(),
            all == entry_views(v@),
            lines == lines_sum(all.take(i as int)),
            owned == owned_sum(all.take(i as int)),
        decreases v@.len() - i,
    {
        let ghost next = all.take(i + 1);
        proof {
            assert(next.drop_last() =~= all.take(i as int));
            assert(next.last() == entry_view(v@[i as int]));
        }
        match (lines.checked_add(v[i].1), owned.checked_add(v[i].2)) {
            (Some(l), Some(o)) => {
                lines = l;
                owned = o;
            },
            _ => {
                proof {
                    lemma_sums_grow(all, i + 1);
                }
                return None;
            },
        }
        i = i + 1;
    }
    proof {
        assert(all.take(i as int) =~= all);
    }
    Some((lines, owned))
}

} // verus!
