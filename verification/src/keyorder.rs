//! Ordered traversal of maps keyed by line numbers.
use std::collections::BTreeMap;
use vstd::prelude::*;
use vstd::std_specs::cmp::OrdSpec;
use vstd::std_specs::iter::IteratorSpec;

verus! {

/// `s` is strictly increasing.
pub open spec fn increasing(s: Seq<usize>) -> bool {
    forall|i: int, j: int| 0 <= i < j < s.len() ==> s[i] < s[j]
}

/// The elements of `d` in increasing order (the order in which a `BTreeMap` hands out its keys).
pub open spec fn sorted_keys(d: Set<usize>) -> Seq<usize> {
    choose|s: Seq<usize>| increasing(s) && s.to_set() == d
}

/// Keys handed out by a `BTreeMap<usize, _>` key iterator come in strictly increasing order.
proof fn lemma_increasing_keys(all: Seq<&usize>)
    requires
        vstd::std_specs::btree::increasing_seq(all),
    ensures
        forall|i: int, j: int| 0 <= i < j < all.len() ==> *all[i] < *all[j],
{
    assert(vstd::laws_cmp::obeys_cmp::<usize>());
    assert(vstd::laws_cmp::obeys_cmp::<&usize>());
    vstd::std_specs::btree::axiom_increasing_seq_meaning(all);
    assert forall|i: int, j: int| 0 <= i < j < all.len() implies *all[i] < *all[j] by {
        assert(OrdSpec::cmp_spec(&all[i], &all[j]) is Less);
    }
}

/// Two strictly increasing sequences with the same elements are equal.
pub proof fn lemma_increasing_unique(a: Seq<usize>, b: Seq<usize>)
    requires
        increasing(a),
        increasing(b),
        a.to_set() == b.to_set(),
    ensures
        a == b,
    decreases a.len(),
{
    if a.len() == 0 {
        if b.len() > 0 {
            assert(b.to_set().contains(b[0]));
        }
        assert(a =~= b);
    } else {
        assert(a.to_set().contains(a[0]));
        assert(b.to_set().contains(a[0]));
        let k = choose|k: int| 0 <= k < b.len() && b[k] == a[0];
        assert(b.len() > 0);
        assert(a.to_set().contains(b[0]));
        let l = choose|l: int| 0 <= l < a.len() && a[l] == b[0];
        assert(a[0] == b[0]);
        let a1 = a.drop_first();
        let b1 = b.drop_first();
        assert forall|x: usize| a1.to_set().contains(x) implies b1.to_set().contains(x) by {
            let i = choose|i: int| 0 <= i < a1.len() && a1[i] == x;
            assert(a[i + 1] == x);
            assert(b.to_set().contains(x));
            let j = choose|j: int| 0 <= j < b.len() && b[j] == x;
            assert(j != 0);
            assert(b1[j - 1] == x);
        }
        assert forall|x: usize| b1.to_set().contains(x) implies a1.to_set().contains(x) by {
            let i = choose|i: int| 0 <= i < b1.len() && b1[i] == x;
            assert(b[i + 1] == x);
            assert(a.to_set().contains(x));
            let j = choose|j: int| 0 <= j < a.len() && a[j] == x;
            assert(j != 0);
            assert(a1[j - 1] == x);
        }
        assert(a1.to_set() =~= b1.to_set());
        lemma_increasing_unique(a1, b1);
        assert(a.len() == b.len());
        assert forall|i: int| 0 <= i < a.len() implies a[i] == b[i] by {
            if i > 0 {
                assert(a[i] == a1[i - 1]);
                assert(b[i] == b1[i - 1]);
            }
        }
        assert(a =~= b);
    }
}

/// A finite non-empty set of numbers has a largest element.
proof fn lemma_finite_max(d: Set<usize>) -> (x: usize)
    requires
        d.finite(),
        d.len() > 0,
    ensures
        d.contains(x),
        forall|y: usize| d.contains(y) ==> y <= x,
    decreases d.len(),
{
    let y = d.choose();
    let rest = d.remove(y);
    if rest.len() == 0 {
        assert forall|z: usize| d.contains(z) implies z <= y by {
            if z != y {
                assert(rest.contains(z));
            }
        }
        y
    } else {
        let m = lemma_finite_max(rest);
        if m < y {
            y
        } else {
            m
        }
    }
}

/// Every finite set of numbers has its elements in increasing order.
pub proof fn lemma_sorted_keys(d: Set<usize>)
    requires
        d.finite(),
    ensures
        increasing(sorted_keys(d)),
        sorted_keys(d).to_set() == d,
        sorted_keys(d).len() == d.len(),
    decreases d.len(),
{
    let w = lemma_sorted_witness(d);
    assert(increasing(w) && w.to_set() == d);
    let s = sorted_keys(d);
    lemma_increasing_unique(s, w);
}

/// An increasing sequence with the elements of a finite set.
proof fn lemma_sorted_witness(d: Set<usize>) -> (w: Seq<usize>)
    requires
        d.finite(),
    ensures
        increasing(w),
        w.to_set() == d,
        w.len() == d.len(),
    decreases d.len(),
{
    if d.len() == 0 {
        assert(d =~= Set::<usize>::empty());
        let w = Seq::<usize>::empty();
        assert(w.to_set() =~= d);
        w
    } else {
        let x = lemma_finite_max(d);
        let rest = d.remove(x);
        let w0 = lemma_sorted_witness(rest);
        let w = w0.push(x);
        assert forall|i: int, j: int| 0 <= i < j < w.len() implies w[i] < w[j] by {
            if j == w.len() - 1 {
                assert(w0.to_set().contains(w0[i]));
                assert(rest.contains(w[i]));
            }
        }
        assert forall|y: usize| w.to_set().contains(y) <==> d.contains(y) by {
            if d.contains(y) && y != x {
                assert(w0.to_set().contains(y));
                let k = choose|k: int| 0 <= k < w0.len() && w0[k] == y;
                assert(w[k] == y);
            }
            if d.contains(y) && y == x {
                assert(w[w.len() - 1] == y);
            }
            if w.to_set().contains(y) {
                let k = choose|k: int| 0 <= k < w.len() && w[k] == y;
                if k < w0.len() {
                    assert(w0[k] == y);
                    assert(w0.to_set().contains(y));
                }
            }
        }
        assert(w.to_set() =~= d);
        w
    }
}

/// The keys of `m`, in increasing order.
pub fn keys_in_order<V>(m: &BTreeMap<usize, V>) -> (v: Vec<usize>)
    ensures
        v@ == sorted_keys(m@.dom()),
        increasing(v@),
        v@.to_set() == m@.dom(),
        v@.no_duplicates(),
{
    let mut v: Vec<usize> = Vec::new();
    let ghost all = vstd::std_specs::btree::spec_keys_iter(m).remaining();
    for k in it: m.keys()
        invariant
            it.seq() == all,
            v@ == it.seq().take(it.index() as int).unref(),
    {
        v.push(*k);
    }
    proof {
        assert(all.take(v.len() as int) == all);
        lemma_increasing_keys(all);
        assert(increasing(v@));
        lemma_increasing_unique(v@, sorted_keys(m@.dom()));
    }
    v
}

} // verus!
