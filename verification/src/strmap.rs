//! A map keyed by text, kept in key order (the order of `String`'s `Ord`).
use vstd::prelude::*;
use crate::text::chars_of;

verus! {

/// `a` comes before `b` in lexicographic order of code points (the order of `str`).
pub open spec fn text_lt(a: Seq<char>, b: Seq<char>) -> bool
    decreases a.len(),
{
    if a.len() == 0 {
        b.len() > 0
    } else if b.len() == 0 {
        false
    } else if a[0] < b[0] {
        true
    } else if a[0] == b[0] {
        text_lt(a.drop_first(), b.drop_first())
    } else {
        false
    }
}

/// `text_lt` is irreflexive.
pub proof fn lemma_text_lt_irreflexive(a: Seq<char>)
    ensures
        !text_lt(a, a),
    decreases a.len(),
{
    if a.len() > 0 {
        lemma_text_lt_irreflexive(a.drop_first());
    }
}

/// `text_lt` is transitive.
pub proof fn lemma_text_lt_transitive(a: Seq<char>, b: Seq<char>, c: Seq<char>)
    requires
        text_lt(a, b),
        text_lt(b, c),
    ensures
        text_lt(a, c),
    decreases a.len(),
{
    if a.len() > 0 && b.len() > 0 && c.len() > 0 {
        if a[0] == b[0] && b[0] == c[0] {
            lemma_text_lt_transitive(a.drop_first(), b.drop_first(), c.drop_first());
        }
    }
}

/// Two different texts are ordered one way or the other.
pub proof fn lemma_text_lt_total(a: Seq<char>, b: Seq<char>)
    requires
        a != b,
    ensures
        text_lt(a, b) || text_lt(b, a),
    decreases a.len(),
{
    if a.len() > 0 && b.len() > 0 && a[0] == b[0] {
        if a.drop_first() == b.drop_first() {
            assert(a =~= seq![a[0]] + a.drop_first());
            assert(b =~= seq![b[0]] + b.drop_first());
        }
        lemma_text_lt_total(a.drop_first(), b.drop_first());
    } else if a.len() > 0 && b.len() > 0 {
    } else if a.len() == 0 && b.len() == 0 {
        assert(a =~= b);
    }
}

/// Whether `a` comes before `b`.
pub fn text_less(a: &str, b: &str) -> (r: bool)
    ensures
        r == text_lt(a@, b@),
{
    let x = chars_of(a);
    let y = chars_of(b);
    let mut i: usize = 0;
    proof {
        assert(x@.skip(0) =~= x@);
        assert(y@.skip(0) =~= y@);
    }
    while i < x.len() && i < y.len() && x[i] == y[i]
        invariant
            i <= x@.len(),
            i <= y@.len(),
            text_lt(a@, b@) == text_lt(x@.skip(i as int), y@.skip(i as int)),
            x@ == a@,
            y@ == b@,
        decreases x@.len() - i,
    {
        proof {
            let xs = x@.skip(i as int);
            let ys = y@.skip(i as int);
            assert(xs.drop_first() =~= x@.skip(i + 1));
            assert(ys.drop_first() =~= y@.skip(i + 1));
        }
        i = i + 1;
    }
    let ghost xs = x@.skip(i as int);
    let ghost ys = y@.skip(i as int);
    if i == x.len() {
        i < y.len()
    } else if i == y.len() {
        false
    } else {
        proof {
            assert(xs[0] == x@[i as int]);
            assert(ys[0] == y@[i as int]);
        }
        x[i] < y[i]
    }
}

/// Finite map from text keys to values, stored as entries in strictly increasing key order.
#[derive(Debug)]
pub struct TextMap<V> {
    entries: Vec<(String, V)>,
}

impl<V> TextMap<V> {
    /// The keys, in order.
    pub closed spec fn keys(&self) -> Seq<Seq<char>> {
        self.entries@.map_values(|e: (String, V)| e.0@)
    }

    /// The values, in key order.
    pub closed spec fn values(&self) -> Seq<V> {
        self.entries@.map_values(|e: (String, V)| e.1)
    }

    /// Keys strictly increase.
    pub closed spec fn wf(&self) -> bool {
        forall|i: int, j: int|
            0 <= i < j < self.entries@.len() ==> text_lt(
                #[trigger] self.entries@[i].0@,
                #[trigger] self.entries@[j].0@,
            )
    }

    /// The map that the entries denote.
    pub closed spec fn view(&self) -> Map<Seq<char>, V> {
        Map::new(
            |k: Seq<char>| self.keys().contains(k),
            |k: Seq<char>| self.values()[self.keys().index_of(k)],
        )
    }

    /// There are as many values as keys.
    pub proof fn lemma_lens(&self)
        ensures
            self.values().len() == self.keys().len(),
    {
    }

    /// In a well-formed map each key sits at one position.
    pub proof fn lemma_view_at(&self, i: int)
        requires
            self.wf(),
            0 <= i < self.keys().len(),
        ensures
            self@.contains_key(self.keys()[i]),
            self@[self.keys()[i]] == self.values()[i],
            self.keys().index_of(self.keys()[i]) == i,
    {
        let k = self.keys()[i];
        assert(self.keys().contains(k));
        let j = self.keys().index_of(k);
        assert(0 <= j < self.keys().len() && self.keys()[j] == k);
        if j < i {
            assert(text_lt(self.entries@[j].0@, self.entries@[i].0@));
            lemma_text_lt_irreflexive(k);
        } else if i < j {
            assert(text_lt(self.entries@[i].0@, self.entries@[j].0@));
            lemma_text_lt_irreflexive(k);
        }
    }

    /// The keys of the map are those of the entries.
    pub proof fn lemma_view_dom(&self)
        requires
            self.wf(),
        ensures
            forall|k: Seq<char>| #[trigger]
                self@.contains_key(k) <==> exists|i: int|
                    0 <= i < self.keys().len() && self.keys()[i] == k,
            forall|i: int|
                0 <= i < self.keys().len() ==> #[trigger] self@[self.keys()[i]]
                    == self.values()[i] && self@.contains_key(self.keys()[i]),
            self@.dom().finite(),
            self@.dom().len() == self.keys().len(),
    {
        assert forall|i: int| 0 <= i < self.keys().len() implies #[trigger] self@[self.keys()[i]]
            == self.values()[i] && self@.contains_key(self.keys()[i]) by {
            self.lemma_view_at(i);
        }
        assert forall|k: Seq<char>| #[trigger] self@.contains_key(k) <==> exists|i: int|
            0 <= i < self.keys().len() && self.keys()[i] == k by {
            if self@.contains_key(k) {
                assert(self.keys().contains(k));
            }
        }
        assert(self.keys().no_duplicates()) by {
            assert forall|i: int, j: int|
                0 <= i < self.keys().len() && 0 <= j < self.keys().len() && i != j implies
                self.keys()[i] != self.keys()[j] by {
                if i < j {
                    assert(text_lt(self.entries@[i].0@, self.entries@[j].0@));
                } else {
                    assert(text_lt(self.entries@[j].0@, self.entries@[i].0@));
                }
                lemma_text_lt_irreflexive(self.keys()[i]);
            }
        }
        assert(self@.dom() =~= self.keys().to_set());
        self.keys().unique_seq_to_set();
    }

    /// An empty map.
    pub fn new() -> (m: Self)
        ensures
            m.wf(),
            m.keys() == Seq::<Seq<char>>::empty(),
            m@ == Map::<Seq<char>, V>::empty(),
    {
        let m = TextMap { entries: Vec::new() };
        proof {
            assert(m.keys() =~= Seq::<Seq<char>>::empty());
            assert(m@ =~= Map::<Seq<char>, V>::empty());
        }
        m
    }

    /// The number of entries.
    pub fn len(&self) -> (n: usize)
        ensures
            n == self.keys().len(),
    {
        self.entries.len()
    }

    /// The key at position `i`.
    pub fn key_at(&self, i: usize) -> (k: &String)
        requires
            i < self.keys().len(),
        ensures
            k@ == self.keys()[i as int],
    {
        &self.entries[i].0
    }

    /// The value at position `i`.
    pub fn value_at(&self, i: usize) -> (v: &V)
        requires
            i < self.keys().len(),
        ensures
            *v == self.values()[i as int],
    {
        &self.entries[i].1
    }

    /// Where `k` is, or else where it would go.
    pub fn find(&self, k: &str) -> (r: Result<usize, usize>)
        requires
            self.wf(),
        ensures
            match r {
                Ok(i) => i < self.keys().len() && self.keys()[i as int] == k@,
                Err(p) => p <= self.keys().len() && (forall|j: int|
                    0 <= j < p ==> text_lt(#[trigger] self.keys()[j], k@)) && (forall|j: int|
                    p <= j < self.keys().len() ==> text_lt(k@, #[trigger] self.keys()[j])),
            },
    {
        let n = self.entries.len();
        let mut i: usize = 0;
        while i < n
            invariant
                i <= n == self.entries@.len(),
                self.wf(),
                forall|j: int| 0 <= j < i ==> text_lt(#[trigger] self.keys()[j], k@),
            decreases n - i,
        {
            let key = self.entries[i].0.as_str();
            if text_less(key, k) {
                i = i + 1;
            } else {
                if text_less(k, key) {
                    proof {
                        assert forall|j: int| i <= j < self.keys().len() implies text_lt(
                            k@,
                            #[trigger] self.keys()[j],
                        ) by {
                            if j > i {
                                assert(text_lt(self.entries@[i as int].0@, self.entries@[j].0@));
                                lemma_text_lt_transitive(k@, self.keys()[i as int], self.keys()[j]);
                            }
                        }
                    }
                    return Err(i);
                } else {
                    proof {
                        if key@ != k@ {
                            lemma_text_lt_total(key@, k@);
                        }
                    }
                    return Ok(i);
                }
            }
        }
        Err(i)
    }

    /// Placing a new key at its position adds it to the map.
    proof fn lemma_view_insert(old_m: &Self, new_m: &Self, p: int, k: Seq<char>, v: V)
        requires
            old_m.wf(),
            new_m.wf(),
            0 <= p <= old_m.keys().len(),
            new_m.keys() == old_m.keys().insert(p, k),
            new_m.values() == old_m.values().insert(p, v),
            !old_m@.contains_key(k),
        ensures
            new_m@ == old_m@.insert(k, v),
    {
        old_m.lemma_view_dom();
        new_m.lemma_view_dom();
        assert forall|x: Seq<char>| new_m@.contains_key(x) <==> old_m@.insert(k, v).contains_key(
            x,
        ) by {
            if new_m@.contains_key(x) {
                let i = choose|i: int| 0 <= i < new_m.keys().len() && new_m.keys()[i] == x;
                if i < p {
                    assert(old_m.keys()[i] == x);
                } else if i > p {
                    assert(old_m.keys()[i - 1] == x);
                }
            }
            if old_m@.contains_key(x) {
                let i = choose|i: int| 0 <= i < old_m.keys().len() && old_m.keys()[i] == x;
                if i < p {
                    assert(new_m.keys()[i] == x);
                } else {
                    assert(new_m.keys()[i + 1] == x);
                }
            }
            if x == k {
                assert(new_m.keys()[p] == k);
            }
        }
        assert forall|x: Seq<char>| #[trigger] new_m@.contains_key(x) implies new_m@[x]
            == old_m@.insert(k, v)[x] by {
            let i = choose|i: int| 0 <= i < new_m.keys().len() && new_m.keys()[i] == x;
            if i < p {
                assert(old_m.keys()[i] == x);
                assert(new_m@[new_m.keys()[i]] == new_m.values()[i]);
                assert(old_m@[old_m.keys()[i]] == old_m.values()[i]);
            } else if i > p {
                assert(old_m.keys()[i - 1] == x);
                assert(new_m@[new_m.keys()[i]] == new_m.values()[i]);
                assert(old_m@[old_m.keys()[i - 1]] == old_m.values()[i - 1]);
            } else {
                assert(new_m@[new_m.keys()[i]] == new_m.values()[i]);
            }
        }
        assert(new_m@ =~= old_m@.insert(k, v));
    }

    /// Changing the value at a position changes the value of its key.
    proof fn lemma_view_update(old_m: &Self, new_m: &Self, i: int, v: V)
        requires
            old_m.wf(),
            new_m.wf(),
            0 <= i < old_m.keys().len(),
            new_m.keys() == old_m.keys(),
            new_m.values() == old_m.values().update(i, v),
        ensures
            new_m@ == old_m@.insert(old_m.keys()[i], v),
    {
        old_m.lemma_view_dom();
        new_m.lemma_view_dom();
        let k = old_m.keys()[i];
        assert forall|x: Seq<char>| new_m@.contains_key(x) <==> old_m@.insert(k, v).contains_key(
            x,
        ) by {
            if new_m@.contains_key(x) {
                let j = choose|j: int| 0 <= j < new_m.keys().len() && new_m.keys()[j] == x;
                assert(old_m.keys()[j] == x);
            }
            if old_m@.contains_key(x) {
                let j = choose|j: int| 0 <= j < old_m.keys().len() && old_m.keys()[j] == x;
                assert(new_m.keys()[j] == x);
            }
            if x == k {
                assert(new_m.keys()[i] == k);
            }
        }
        assert forall|x: Seq<char>| #[trigger] new_m@.contains_key(x) implies new_m@[x]
            == old_m@.insert(k, v)[x] by {
            let j = choose|j: int| 0 <= j < new_m.keys().len() && new_m.keys()[j] == x;
            assert(new_m@[new_m.keys()[j]] == new_m.values()[j]);
            assert(old_m@[old_m.keys()[j]] == old_m.values()[j]);
            if j != i {
                old_m.lemma_view_at(i);
                old_m.lemma_view_at(j);
            }
        }
        assert(new_m@ =~= old_m@.insert(k, v));
    }

    /// Dropping the entry at a position drops its key.
    proof fn lemma_view_remove(old_m: &Self, new_m: &Self, i: int)
        requires
            old_m.wf(),
            new_m.wf(),
            0 <= i < old_m.keys().len(),
            new_m.keys() == old_m.keys().remove(i),
            new_m.values() == old_m.values().remove(i),
        ensures
            new_m@ == old_m@.remove(old_m.keys()[i]),
    {
        old_m.lemma_view_dom();
        new_m.lemma_view_dom();
        let k = old_m.keys()[i];
        assert forall|x: Seq<char>| new_m@.contains_key(x) <==> old_m@.remove(k).contains_key(x) by {
            if new_m@.contains_key(x) {
                let j = choose|j: int| 0 <= j < new_m.keys().len() && new_m.keys()[j] == x;
                if j < i {
                    assert(old_m.keys()[j] == x);
                    old_m.lemma_view_at(i);
                    old_m.lemma_view_at(j);
                } else {
                    assert(old_m.keys()[j + 1] == x);
                    old_m.lemma_view_at(i);
                    old_m.lemma_view_at(j + 1);
                }
            }
            if old_m@.remove(k).contains_key(x) {
                let j = choose|j: int| 0 <= j < old_m.keys().len() && old_m.keys()[j] == x;
                assert(j != i);
                if j < i {
                    assert(new_m.keys()[j] == x);
                } else {
                    assert(new_m.keys()[j - 1] == x);
                }
            }
        }
        assert forall|x: Seq<char>| #[trigger] new_m@.contains_key(x) implies new_m@[x]
            == old_m@.remove(k)[x] by {
            let j = choose|j: int| 0 <= j < new_m.keys().len() && new_m.keys()[j] == x;
            assert(new_m@[new_m.keys()[j]] == new_m.values()[j]);
            if j < i {
                assert(old_m@[old_m.keys()[j]] == old_m.values()[j]);
            } else {
                assert(old_m@[old_m.keys()[j + 1]] == old_m.values()[j + 1]);
            }
        }
        assert(new_m@ =~= old_m@.remove(k));
    }

    /// The value of `k`, if any.
    pub fn get(&self, k: &str) -> (r: Option<&V>)
        requires
            self.wf(),
        ensures
            match r {
                Some(v) => self@.contains_key(k@) && *v == self@[k@],
                None => !self@.contains_key(k@),
            },
    {
        proof {
            self.lemma_view_dom();
        }
        match self.find(k) {
            Ok(i) => {
                proof {
                    self.lemma_view_at(i as int);
                }
                Some(&self.entries[i].1)
            },
            Err(p) => {
                proof {
                    if self@.contains_key(k@) {
                        let j = choose|j: int| 0 <= j < self.keys().len() && self.keys()[j] == k@;
                        lemma_text_lt_irreflexive(k@);
                    }
                }
                None
            },
        }
    }

    /// Whether `k` has a value.
    pub fn contains_key(&self, k: &str) -> (b: bool)
        requires
            self.wf(),
        ensures
            b == self@.contains_key(k@),
    {
        match self.get(k) {
            Some(_) => true,
            None => false,
        }
    }

    /// Sets the value of `k` to `v`; returns the value it replaced.
    pub fn insert(&mut self, k: String, v: V) -> (r: Option<V>)
        requires
            old(self).wf(),
        ensures
            final(self).wf(),
            final(self)@ == old(self)@.insert(k@, v),
            match r {
                Some(x) => old(self)@.contains_key(k@) && x == old(self)@[k@],
                None => !old(self)@.contains_key(k@),
            },
    {
        proof {
            self.lemma_view_dom();
        }
        match self.find(k.as_str()) {
            Ok(i) => {
                proof {
                    self.lemma_view_at(i as int);
                }
                let ghost old_m = *self;
                let old_entry = self.entries.remove(i);
                self.entries.insert(i, (old_entry.0, v));
                proof {
                    assert(self.keys() =~= old_m.keys());
                    assert(self.values() =~= old_m.values().update(i as int, v));
                    assert(self.wf()) by {
                        assert forall|a: int, b: int| 0 <= a < b < self.entries@.len() implies text_lt(
                            #[trigger] self.entries@[a].0@,
                            #[trigger] self.entries@[b].0@,
                        ) by {
                            assert(self.entries@[a].0@ == old_m.keys()[a]);
                            assert(self.entries@[b].0@ == old_m.keys()[b]);
                            assert(text_lt(old_m.entries@[a].0@, old_m.entries@[b].0@));
                        }
                    }
                    Self::lemma_view_update(&old_m, self, i as int, v);
                }
                Some(old_entry.1)
            },
            Err(p) => {
                proof {
                    if self@.contains_key(k@) {
                        let j = choose|j: int| 0 <= j < self.keys().len() && self.keys()[j] == k@;
                        lemma_text_lt_irreflexive(k@);
                    }
                }
                let ghost old_m = *self;
                let ghost kv = k@;
                self.entries.insert(p, (k, v));
                proof {
                    assert(self.keys() =~= old_m.keys().insert(p as int, kv));
                    assert(self.values() =~= old_m.values().insert(p as int, v));
                    assert(self.wf()) by {
                        assert forall|a: int, b: int| 0 <= a < b < self.entries@.len() implies text_lt(
                            #[trigger] self.entries@[a].0@,
                            #[trigger] self.entries@[b].0@,
                        ) by {
                            assert(self.entries@[a].0@ == self.keys()[a]);
                            assert(self.entries@[b].0@ == self.keys()[b]);
                            if b < p {
                                assert(text_lt(old_m.entries@[a].0@, old_m.entries@[b].0@));
                            } else if b == p {
                                assert(text_lt(old_m.keys()[a], kv));
                            } else if a < p {
                                assert(text_lt(old_m.keys()[a], kv));
                                assert(text_lt(kv, old_m.keys()[b - 1]));
                                lemma_text_lt_transitive(old_m.keys()[a], kv, old_m.keys()[b - 1]);
                            } else if a == p {
                                assert(text_lt(kv, old_m.keys()[b - 1]));
                            } else {
                                assert(text_lt(old_m.entries@[a - 1].0@, old_m.entries@[b - 1].0@));
                            }
                        }
                    }
                    Self::lemma_view_insert(&old_m, self, p as int, kv, v);
                }
                None
            },
        }
    }

    /// Removes `k`; returns its value.
    pub fn remove(&mut self, k: &str) -> (r: Option<V>)
        requires
            old(self).wf(),
        ensures
            final(self).wf(),
            final(self)@ == old(self)@.remove(k@),
            match r {
                Some(x) => old(self)@.contains_key(k@) && x == old(self)@[k@],
                None => !old(self)@.contains_key(k@),
            },
    {
        proof {
            self.lemma_view_dom();
        }
        match self.find(k) {
            Ok(i) => {
                proof {
                    self.lemma_view_at(i as int);
                }
                let ghost old_m = *self;
                let e = self.entries.remove(i);
                proof {
                    assert(self.keys() =~= old_m.keys().remove(i as int));
                    assert(self.values() =~= old_m.values().remove(i as int));
                    assert(self.wf()) by {
                        assert forall|a: int, b: int| 0 <= a < b < self.entries@.len() implies text_lt(
                            #[trigger] self.entries@[a].0@,
                            #[trigger] self.entries@[b].0@,
                        ) by {
                            let a0 = if a < i { a } else { a + 1 };
                            let b0 = if b < i { b } else { b + 1 };
                            assert(self.entries@[a] == old_m.entries@[a0]);
                            assert(self.entries@[b] == old_m.entries@[b0]);
                            assert(text_lt(old_m.entries@[a0].0@, old_m.entries@[b0].0@));
                        }
                    }
                    Self::lemma_view_remove(&old_m, self, i as int);
                }
                Some(e.1)
            },
            Err(p) => {
                proof {
                    if self@.contains_key(k@) {
                        let j = choose|j: int| 0 <= j < self.keys().len() && self.keys()[j] == k@;
                        lemma_text_lt_irreflexive(k@);
                    }
                    assert(self@.remove(k@) =~= self@);
                }
                None
            },
        }
    }

    /// The value at position `i`, to be changed in place.
    fn value_mut(&mut self, i: usize) -> (r: &mut V)
        requires i < old(self).entries@.len(),
        ensures
            *r == old(self).entries@[i as int].1,
            final(self).entries@ == old(self).entries@.update(i as int, (old(self).entries@[i as int].0, *final(r))),
    {
        &mut self.entries[i].1
    }

    /// The value of `k`, put in as `dflt` first when `k` has none.
    pub fn get_or_insert(&mut self, k: &str, dflt: V) -> (r: &mut V)
        requires
            old(self).wf(),
        ensures
            final(self).wf(),
            *r == (if old(self)@.contains_key(k@) {
                old(self)@[k@]
            } else {
                dflt
            }),
            final(self)@ == old(self)@.insert(k@, *final(r)),
    {
        proof {
            self.lemma_view_dom();
        }
        let i = match self.find(k) {
            Ok(i) => {
                proof {
                    self.lemma_view_at(i as int);
                }
                i
            },
            Err(p) => {
                proof {
                    if self@.contains_key(k@) {
                        let j = choose|j: int| 0 <= j < self.keys().len() && self.keys()[j] == k@;
                        lemma_text_lt_irreflexive(k@);
                    }
                }
                let ghost old_m = *self;
                let key = String::from_str(k);
                self.entries.insert(p, (key, dflt));
                proof {
                    assert(self.keys() =~= old_m.keys().insert(p as int, k@));
                    assert(self.values() =~= old_m.values().insert(p as int, dflt));
                    assert(self.wf()) by {
                        assert forall|a: int, b: int| 0 <= a < b < self.entries@.len() implies text_lt(
                            #[trigger] self.entries@[a].0@,
                            #[trigger] self.entries@[b].0@,
                        ) by {
                            assert(self.entries@[a].0@ == self.keys()[a]);
                            assert(self.entries@[b].0@ == self.keys()[b]);
                            if b < p {
                                assert(text_lt(old_m.entries@[a].0@, old_m.entries@[b].0@));
                            } else if b == p {
                                assert(text_lt(old_m.keys()[a], k@));
                            } else if a < p {
                                lemma_text_lt_transitive(old_m.keys()[a], k@, old_m.keys()[b - 1]);
                            } else if a == p {
                                assert(text_lt(k@, old_m.keys()[b - 1]));
                            } else {
                                assert(text_lt(old_m.entries@[a - 1].0@, old_m.entries@[b - 1].0@));
                            }
                        }
                    }
                    Self::lemma_view_insert(&old_m, self, p as int, k@, dflt);
                    self.lemma_view_at(p as int);
                }
                p
            },
        };
        let ghost mid = *self;
        proof {
            mid.lemma_view_at(i as int);
            assert forall|m2: Self|
                #![trigger m2.view()]
                m2.entries@ == mid.entries@.update(i as int, (mid.entries@[i as int].0, m2.entries@[i as int].1))
                implies m2.wf() && m2@ == mid@.insert(k@, m2.entries@[i as int].1) by {
                let x = m2.entries@[i as int].1;
                assert(m2.keys() =~= mid.keys());
                assert(m2.values() =~= mid.values().update(i as int, x));
                assert forall|a: int, b: int| 0 <= a < b < m2.entries@.len() implies text_lt(
                    #[trigger] m2.entries@[a].0@,
                    #[trigger] m2.entries@[b].0@,
                ) by {
                    assert(m2.entries@[a].0@ == mid.keys()[a]);
                    assert(m2.entries@[b].0@ == mid.keys()[b]);
                    assert(text_lt(mid.entries@[a].0@, mid.entries@[b].0@));
                }
                Self::lemma_view_update(&mid, &m2, i as int, x);
                assert(mid@.insert(k@, x) =~= old(self)@.insert(k@, x));
            }
            assert(mid@.contains_key(k@));
        }
        self.value_mut(i)
    }
}

} // verus!
