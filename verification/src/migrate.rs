//! Carrying line states over to a new version of a file: each new line takes the state
//! of an old line with the same text.
use std::collections::BTreeMap;
use vstd::prelude::*;
use crate::own::{content_hash, empty_model, FileModel, FileOwnership, LineState, OwnershipStore};
use crate::text::{chars_of, line_strings, lines, split_lines, string_of, string_views};

verus! {

/// How many of the first `j` lines of `s` read `c`.
pub open spec fn count_before(s: Seq<Seq<char>>, j: int, c: Seq<char>) -> nat
    decreases j,
{
    if j <= 0 {
        0
    } else {
        count_before(s, j - 1, c) + if s[j - 1] == c {
            1nat
        } else {
            0nat
        }
    }
}

/// The old line that new line `j` (0-based) takes its state from: the old line that is
/// the same occurrence of the same text (the k-th new copy of a text matches its k-th
/// old copy), if there is one.
pub open spec fn source_line(old: Seq<Seq<char>>, new: Seq<Seq<char>>, j: int) -> Option<int> {
    let c = new[j];
    let r = count_before(new, j, c);
    if exists|i: int| 0 <= i < old.len() && old[i] == c && count_before(old, i, c) == r {
        Some(choose|i: int| 0 <= i < old.len() && old[i] == c && count_before(old, i, c) == r)
    } else {
        None
    }
}

/// The states that the new lines get: line `n` (1-based) gets the state of its source
/// line, when that line has one.
pub open spec fn migrated(
    states: Map<usize, LineState>,
    old: Seq<Seq<char>>,
    new: Seq<Seq<char>>,
) -> Map<usize, LineState> {
    Map::new(
        |n: usize|
            1 <= n <= new.len() && match source_line(old, new, n - 1) {
                Some(i) => states.contains_key((i + 1) as usize),
                None => false,
            },
        |n: usize| states[(source_line(old, new, n - 1)->0 + 1) as usize],
    )
}

/// The states of the first `j` new lines.
pub open spec fn migrated_upto(
    states: Map<usize, LineState>,
    old: Seq<Seq<char>>,
    new: Seq<Seq<char>>,
    j: int,
) -> Map<usize, LineState> {
    Map::new(
        |n: usize| n <= j && migrated(states, old, new).contains_key(n),
        |n: usize| migrated(states, old, new)[n],
    )
}

/// Counts never shrink as more lines are counted.
proof fn lemma_count_mono(s: Seq<Seq<char>>, j: int, k: int, c: Seq<char>)
    requires
        0 <= j <= k,
    ensures
        count_before(s, j, c) <= count_before(s, k, c),
    decreases k - j,
{
    if j < k {
        lemma_count_mono(s, j, k - 1, c);
    }
}

/// Below a count there is a copy of `c` with each smaller count.
proof fn lemma_count_witness(s: Seq<Seq<char>>, k: int, c: Seq<char>, r: nat)
    requires
        0 <= k <= s.len(),
        count_before(s, k, c) > r,
    ensures
        exists|i: int| 0 <= i < k && s[i] == c && count_before(s, i, c) == r,
    decreases k,
{
    if count_before(s, k - 1, c) > r {
        lemma_count_witness(s, k - 1, c, r);
    } else {
        assert(s[k - 1] == c && count_before(s, k - 1, c) == r);
    }
}

/// Two copies of `c` with the same count are the same line.
proof fn lemma_count_unique(s: Seq<Seq<char>>, i: int, k: int, c: Seq<char>)
    requires
        0 <= i < s.len(),
        0 <= k < s.len(),
        s[i] == c,
        s[k] == c,
        count_before(s, i, c) == count_before(s, k, c),
    ensures
        i == k,
{
    if i < k {
        lemma_count_mono(s, i + 1, k, c);
    } else if k < i {
        lemma_count_mono(s, k + 1, i, c);
    }
}

/// Each line of an unchanged file takes its state from itself.
proof fn lemma_source_is_self(ls: Seq<Seq<char>>, j: int)
    requires
        0 <= j < ls.len(),
    ensures
        source_line(ls, ls, j) == Some(j),
{
    let c = ls[j];
    let r = count_before(ls, j, c);
    assert(0 <= j < ls.len() && ls[j] == c && count_before(ls, j, c) == r);
    let i = choose|i: int| 0 <= i < ls.len() && ls[i] == c && count_before(ls, i, c) == r;
    lemma_count_unique(ls, i, j, c);
}

/// A file whose content did not change keeps the state of each of its lines (and drops
/// states recorded past its end).
pub proof fn lemma_migrate_unchanged(states: Map<usize, LineState>, ls: Seq<Seq<char>>)
    ensures
        migrated(states, ls, ls) == Map::new(
            |n: usize| 1 <= n <= ls.len() && states.contains_key(n),
            |n: usize| states[n],
        ),
{
    let want = Map::new(|n: usize| 1 <= n <= ls.len() && states.contains_key(n), |n: usize| states[n]);
    let got = migrated(states, ls, ls);
    assert forall|n: usize| #[trigger] got.contains_key(n) == want.contains_key(n) && (want.contains_key(n)
        ==> got[n] == want[n]) by {
        if 1 <= n <= ls.len() {
            lemma_source_is_self(ls, n - 1);
        }
    }
    assert(got =~= want);
}

/// Where the old and new versions start with the same `p` lines, each of those lines
/// keeps its state, and a line that had none still has none.
pub proof fn lemma_migrate_keeps_prefix(
    states: Map<usize, LineState>,
    old: Seq<Seq<char>>,
    new: Seq<Seq<char>>,
    p: int,
)
    requires
        0 <= p <= old.len(),
        p <= new.len(),
        old.take(p) == new.take(p),
    ensures
        forall|n: usize| 1 <= n <= p ==> (#[trigger] migrated(states, old, new).contains_key(n)
            <==> states.contains_key(n)),
        forall|n: usize| 1 <= n <= p && states.contains_key(n) ==> #[trigger] migrated(states, old, new)[n]
            == states[n],
{
    assert forall|j: int| 0 <= j < p implies #[trigger] source_line(old, new, j) == Some(j) by {
        let c = new[j];
        assert(old[j] == old.take(p)[j] && new[j] == new.take(p)[j]);
        assert(count_before(old, j, c) == count_before(new, j, c)) by {
            lemma_count_same_prefix(old, new, p, j, c);
        }
        let r = count_before(new, j, c);
        assert(0 <= j < old.len() && old[j] == c && count_before(old, j, c) == r);
        let i = choose|i: int| 0 <= i < old.len() && old[i] == c && count_before(old, i, c) == r;
        lemma_count_unique(old, i, j, c);
    }
}

/// Counts below `j` agree in two sequences that share their first `p >= j` items.
proof fn lemma_count_same_prefix(a: Seq<Seq<char>>, b: Seq<Seq<char>>, p: int, j: int, c: Seq<char>)
    requires
        0 <= j <= p,
        p <= a.len(),
        p <= b.len(),
        a.take(p) == b.take(p),
    ensures
        count_before(a, j, c) == count_before(b, j, c),
    decreases j,
{
    if j > 0 {
        lemma_count_same_prefix(a, b, p, j - 1, c);
        assert(a[j - 1] == a.take(p)[j - 1] && b[j - 1] == b.take(p)[j - 1]);
    }
}

/// A new line whose text no old line has stays without a state.
pub proof fn lemma_migrate_new_text_unreviewed(
    states: Map<usize, LineState>,
    old: Seq<Seq<char>>,
    new: Seq<Seq<char>>,
    j: int,
)
    requires
        0 <= j < new.len(),
        j + 1 <= usize::MAX,
        !old.contains(new[j]),
    ensures
        !migrated(states, old, new).contains_key((j + 1) as usize),
{
    if source_line(old, new, j) is Some {
        let i = source_line(old, new, j)->0;
        assert(old[i] == new[j]);
    }
}

/// Every state of the new version is the state of an old line with the same text, and
/// no old line gives its state to two new lines.
pub proof fn lemma_migrate_from_old(
    states: Map<usize, LineState>,
    old: Seq<Seq<char>>,
    new: Seq<Seq<char>>,
    n: usize,
    m: usize,
)
    requires
        migrated(states, old, new).contains_key(n),
        migrated(states, old, new).contains_key(m),
        n != m,
    ensures
        exists|i: int|
            0 <= i < old.len() && old[i] == new[n - 1] && states.contains_key((i + 1) as usize) && #[trigger] states[(i + 1) as usize]
                == migrated(states, old, new)[n],
        source_line(old, new, n - 1) != source_line(old, new, m - 1),
{
    let i = source_line(old, new, n - 1)->0;
    assert(0 <= i < old.len() && old[i] == new[n - 1]);
    assert(states.contains_key((i + 1) as usize));
    assert(states[(i + 1) as usize] == migrated(states, old, new)[n]);
    let k = source_line(old, new, m - 1)->0;
    if i == k {
        let c = new[n - 1];
        assert(new[m - 1] == c);
        lemma_count_unique(new, n - 1, m - 1, c);
    }
}

/// The first old line that reads as new line `j` and is not used yet.
fn find_unused(olds: &Vec<String>, used: &Vec<bool>, line: &String) -> (r: Option<usize>)
    requires
        used@.len() == olds@.len(),
    ensures
        match r {
            Some(i) => i < olds@.len() && olds@[i as int]@ == line@ && !used@[i as int] && forall|k: int|
                0 <= k < i ==> !(olds@[k]@ == line@ && !used@[k]),
            None => forall|k: int| 0 <= k < olds@.len() ==> !(olds@[k]@ == line@ && !used@[k]),
        },
{
    let mut i: usize = 0;
    while i < olds.len()
        invariant
            i <= olds@.len(),
            used@.len() == olds@.len(),
            forall|k: int| 0 <= k < i ==> !(olds@[k]@ == line@ && !used@[k]),
        decreases olds@.len() - i,
    {
        if olds[i] == *line && !used[i] {
            return Some(i);
        }
        i = i + 1;
    }
    None
}

impl OwnershipStore {
    /// Records `file_name` anew after its content changed from `old_content` to
    /// `new_content`: each new line takes the state of the same occurrence of the same
    /// text among the old lines (new lines stay unreviewed), annotations are dropped,
    /// and the snapshot is the hash of `file_bytes`, the file's current bytes.
    pub fn migrate_ownership(
        &mut self,
        file_name: &str,
        old_content: &str,
        new_content: &str,
        file_bytes: &Vec<u8>,
    )
        requires
            old(self).wf(),
        ensures
            final(self).wf(),
            final(self).own_dir == old(self).own_dir,
            final(self).model() == old(self).model().insert(
                file_name@,
                FileModel {
                    snapshot: Some(content_hash(file_bytes@)),
                    states: migrated(
                        (if old(self).model().contains_key(file_name@) {
                            old(self).model()[file_name@]
                        } else {
                            empty_model()
                        }).states,
                        lines(old_content@),
                        lines(new_content@),
                    ),
                    annotations: seq![],
                },
            ),
    {
        let ownership = self.get_file(file_name);
        let ghost st = ownership.model().states;
        let olds = line_strings(&split_lines(chars_of(old_content).as_slice()));
        let news = line_strings(&split_lines(chars_of(new_content).as_slice()));
        let ghost ov = string_views(olds@);
        let ghost nv = string_views(news@);
        let n_old = olds.len();
        let mut used: Vec<bool> = Vec::new();
        let mut i: usize = 0;
        while i < olds.len()
            invariant
                i <= olds@.len(),
                used@.len() == i,
                forall|k: int| 0 <= k < i ==> !used@[k],
            decreases olds@.len() - i,
        {
            used.push(false);
            i = i + 1;
        }
        let mut states: BTreeMap<usize, LineState> = BTreeMap::new();
        let mut j: usize = 0;
        proof {
            assert(states@ =~= migrated_upto(st, ov, nv, 0));
        }
        while j < news.len()
            invariant
                j <= news@.len(),
                n_old == olds@.len(),
                used@.len() == olds@.len(),
                ov == string_views(olds@),
                nv == string_views(news@),
                st == ownership.model().states,
                forall|k: int|
                    0 <= k < olds@.len() ==> (#[trigger] used@[k] <==> count_before(ov, k, ov[k])
                        < count_before(nv, j as int, ov[k])),
                states@ == migrated_upto(st, ov, nv, j as int),
            decreases news@.len() - j,
        {
            let ghost c = nv[j as int];
            let ghost r = count_before(nv, j as int, c);
            proof {
                assert(news@[j as int]@ == c);
            }
            let found = find_unused(&olds, &used, &news[j]);
            let ghost before = states@;
            let ghost used_before = used@;
            match found {
                Some(i) => {
                    proof {
                        assert(ov[i as int] == c);
                        assert(!used@[i as int]);
                        let t = count_before(ov, i as int, c);
                        assert(t >= r);
                        if t > r {
                            lemma_count_witness(ov, i as int, c, r);
                            let w = choose|w: int| 0 <= w < i && ov[w] == c && count_before(ov, w, c) == r;
                            assert(!used@[w]);
                            assert(!(olds@[w]@ == news@[j as int]@ && !used@[w]));
                        }
                        assert(count_before(ov, i as int, c) == r);
                        let sl = source_line(ov, nv, j as int);
                        assert(sl is Some);
                        lemma_count_unique(ov, i as int, sl->0, c);
                        assert(sl == Some(i as int));
                    }
                    match ownership.get_line_state(i + 1) {
                        Some(s) => {
                            states.insert(j + 1, *s);
                        },
                        None => {},
                    }
                    used.set(i, true);
                    proof {
                        assert forall|k: int| 0 <= k < olds@.len() implies (#[trigger] used@[k]
                            <==> count_before(ov, k, ov[k]) < count_before(nv, j + 1, ov[k])) by {
                            if k != i {
                                assert(used@[k] == used_before[k]);
                                if ov[k] == c && count_before(ov, k, c) == r {
                                    lemma_count_unique(ov, i as int, k, c);
                                }
                            }
                        }
                        assert(states@ =~= migrated_upto(st, ov, nv, j + 1));
                    }
                },
                None => {
                    proof {
                        if source_line(ov, nv, j as int) is Some {
                            let w = source_line(ov, nv, j as int)->0;
                            assert(0 <= w < ov.len() && ov[w] == c && count_before(ov, w, c) == r);
                            assert(!(olds@[w]@ == news@[j as int]@ && !used@[w]));
                        }
                        assert forall|k: int| 0 <= k < olds@.len() implies (#[trigger] used@[k]
                            <==> count_before(ov, k, ov[k]) < count_before(nv, j + 1, ov[k])) by {
                            if ov[k] == c {
                                if count_before(ov, k, c) == r {
                                    assert(!(olds@[k]@ == news@[j as int]@ && !used@[k]));
                                }
                            }
                        }
                        assert(states@ =~= migrated_upto(st, ov, nv, j + 1));
                    }
                },
            }
            j = j + 1;
        }
        proof {
            assert(states@ =~= migrated(st, ov, nv));
        }
        let hash = OwnershipStore::compute_hash(file_bytes);
        let record = FileOwnership { snapshot_hash: Some(hash), line_states: states, annotations: Vec::new() };
        let ghost rm = record.model();
        let ghost before = self.model();
        proof {
            assert(rm.annotations =~= Seq::<crate::own::NoteModel>::empty());
        }
        self.files.insert(string_of(chars_of(file_name).as_slice()), record);
        proof {
            assert(self.model() =~= before.insert(file_name@, rm));
        }
    }
}

} // verus!
