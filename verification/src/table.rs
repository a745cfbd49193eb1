//! A finite map with hashes or addresses as keys.

use vstd::prelude::*;
use crate::hash::Key;

verus! {

/// `keys` lists every element of `dom` once, in some order.
pub open spec fn is_walk<K>(keys: Seq<K>, dom: Set<K>) -> bool {
    &&& keys.no_duplicates()
    &&& keys.to_set() == dom
}

/// A map from `K` to `V`, kept as a list of entries with distinct keys.
#[derive(Debug)]
pub struct Table<K, V> {
    entries: Vec<(K, V)>,
}

impl<K, V> Table<K, V> {
    #[verifier::type_invariant]
    spec fn distinct(self) -> bool {
        forall|i: int, j: int|
            0 <= i < j < self.entries@.len() ==> (#[trigger] self.entries@[i]).0 != (
            #[trigger] self.entries@[j]).0
    }

    spec fn holds_at(self, k: K, i: int) -> bool {
        0 <= i < self.entries@.len() && self.entries@[i].0 == k
    }

    spec fn position(self, k: K) -> int {
        choose|i: int| self.holds_at(k, i)
    }
}

impl<K, V: DeepView> View for Table<K, V> {
    type V = Map<K, V::V>;

    closed spec fn view(&self) -> Map<K, V::V> {
        Map::new(
            |k: K| exists|i: int| self.holds_at(k, i),
            |k: K| self.entries@[self.position(k)].1.deep_view(),
        )
    }
}

impl<K, V: DeepView> DeepView for Table<K, V> {
    type V = Map<K, V::V>;

    open spec fn deep_view(&self) -> Map<K, V::V> {
        self.view()
    }
}

impl<K: Key, V: DeepView> Table<K, V> {
    proof fn lemma_entry(&self, i: int)
        requires
            self.distinct(),
            0 <= i < self.entries@.len(),
        ensures
            self@.contains_key(self.entries@[i].0),
            self@[self.entries@[i].0] == self.entries@[i].1.deep_view(),
    {
        let k = self.entries@[i].0;
        assert(self.holds_at(k, i));
        let p = self.position(k);
        assert(self.holds_at(k, p));
        if p < i {
            assert(self.entries@[p].0 != self.entries@[i].0);
        }
        if i < p {
            assert(self.entries@[i].0 != self.entries@[p].0);
        }
    }

    /// The map without entries.
    pub fn new() -> (table: Self)
        ensures
            table@ == Map::<K, V::V>::empty(),
    {
        let table = Table { entries: Vec::new() };
        assert(table@ =~= Map::<K, V::V>::empty());
        table
    }

    fn find(&self, k: &K) -> (at: Option<usize>)
        ensures
            match at {
                Some(i) => self.holds_at(*k, i as int),
                None => forall|i: int| !self.holds_at(*k, i),
            },
    {
        let mut i: usize = 0;
        while i < self.entries.len()
            invariant
                i <= self.entries@.len(),
                forall|j: int| 0 <= j < i ==> (#[trigger] self.entries@[j]).0 != *k,
            decreases self.entries@.len() - i,
        {
            if self.entries[i].0.same(k) {
                return Some(i);
            }
            i = i + 1;
        }
        None
    }

    /// Whether there is an entry for `k`.
    pub fn contains_key(&self, k: &K) -> (r: bool)
        ensures
            r == self@.contains_key(*k),
    {
        let at = self.find(k);
        match at {
            Some(_) => true,
            None => false,
        }
    }

    /// The value for `k`, if there is one.
    pub fn get(&self, k: &K) -> (value: Option<&V>)
        ensures
            match value {
                Some(v) => self@.contains_key(*k) && self@[*k] == v.deep_view(),
                None => !self@.contains_key(*k),
            },
    {
        let at = self.find(k);
        match at {
            Some(i) => {
                proof {
                    use_type_invariant(self);
                    self.lemma_entry(i as int);
                }
                Some(&self.entries[i].1)
            },
            None => None,
        }
    }

    /// Takes the entry for `k` out of the map and gives its value, if there is one.
    pub fn remove(&mut self, k: &K) -> (value: Option<V>)
        ensures
            final(self)@ == old(self)@.remove(*k),
            match value {
                Some(v) => old(self)@.contains_key(*k) && old(self)@[*k] == v.deep_view(),
                None => !old(self)@.contains_key(*k),
            },
    {
        proof {
            use_type_invariant(&*self);
        }
        let at = self.find(k);
        match at {
            Some(i) => {
                let ghost before = *self;
                let mut entries: Vec<(K, V)> = Vec::new();
                std::mem::swap(&mut entries, &mut self.entries);
                let entry = entries.remove(i);
                self.entries = entries;
                proof {
                    before.lemma_entry(i as int);
                    self.lemma_removed(before, *k, i as int);
                }
                Some(entry.1)
            },
            None => {
                assert(self@.remove(*k) =~= self@);
                None
            },
        }
    }

    proof fn lemma_removed(&self, before: Self, k: K, i: int)
        requires
            before.distinct(),
            before.holds_at(k, i),
            self.entries@ == before.entries@.remove(i),
        ensures
            self.distinct(),
            self@ == before@.remove(k),
    {
        assert forall|a: int, b: int| 0 <= a < b < self.entries@.len() implies (
        #[trigger] self.entries@[a]).0 != (#[trigger] self.entries@[b]).0 by {
            let a0 = if a < i { a } else { a + 1 };
            let b0 = if b < i { b } else { b + 1 };
            assert(self.entries@[a] == before.entries@[a0]);
            assert(self.entries@[b] == before.entries@[b0]);
        }
        assert forall|q: K| #[trigger] self@.contains_key(q) implies before@.remove(k).contains_key(q)
            && self@[q] == before@[q] by {
            let p = self.position(q);
            assert(self.holds_at(q, p));
            let p0 = if p < i { p } else { p + 1 };
            assert(self.entries@[p] == before.entries@[p0]);
            self.lemma_entry(p);
            before.lemma_entry(p0);
            if q == k {
                if p0 < i {
                    assert(before.entries@[p0].0 != before.entries@[i].0);
                } else {
                    assert(before.entries@[i].0 != before.entries@[p0].0);
                }
            }
        }
        assert forall|q: K| #[trigger] before@.remove(k).contains_key(q) implies self@.contains_key(
            q,
        ) by {
            let p0 = before.position(q);
            assert(before.holds_at(q, p0));
            let p = if p0 < i { p0 } else { p0 - 1 };
            assert(self.entries@[p] == before.entries@[p0]);
            self.lemma_entry(p);
        }
        assert(self@ =~= before@.remove(k));
    }

    /// Sets the value for `k`.
    pub fn insert(&mut self, k: K, v: V)
        ensures
            final(self)@ == old(self)@.insert(k, v.deep_view()),
    {
        let ghost first = self@;
        let _ = self.remove(&k);
        proof {
            use_type_invariant(&*self);
        }
        let ghost before = *self;
        let mut entries: Vec<(K, V)> = Vec::new();
        std::mem::swap(&mut entries, &mut self.entries);
        entries.push((k, v));
        proof {
            assert forall|i: int| !before.holds_at(k, i) by {
                if before.holds_at(k, i) {
                    before.lemma_entry(i);
                }
            }
        }
        proof {
            let after = Table { entries };
            after.lemma_pushed(before, k, v);
        }
        self.entries = entries;
        proof {
            self.lemma_pushed(before, k, v);
            assert(first.remove(k).insert(k, v.deep_view()) =~= first.insert(k, v.deep_view()));
        }
    }

    proof fn lemma_pushed(&self, before: Self, k: K, v: V)
        requires
            before.distinct(),
            forall|i: int| !before.holds_at(k, i),
            self.entries@ == before.entries@.push((k, v)),
        ensures
            self.distinct(),
            self@ == before@.insert(k, v.deep_view()),
    {
        let n = before.entries@.len() as int;
        assert(self.distinct()) by {
            assert forall|a: int, b: int| 0 <= a < b < self.entries@.len() implies (
            #[trigger] self.entries@[a]).0 != (#[trigger] self.entries@[b]).0 by {
                assert(self.entries@[a] == before.entries@[a]);
                assert(!before.holds_at(k, a));
                if b < n {
                    assert(self.entries@[b] == before.entries@[b]);
                }
            }
        }
        self.lemma_entry(n);
        assert forall|q: K| #[trigger] self@.contains_key(q) implies before@.insert(
            k,
            v.deep_view(),
        ).contains_key(q) && self@[q] == before@.insert(k, v.deep_view())[q] by {
            let p = self.position(q);
            assert(self.holds_at(q, p));
            if p < n {
                self.lemma_entry(p);
                before.lemma_entry(p);
                assert(!before.holds_at(k, p));
            }
        }
        assert forall|q: K| #[trigger] before@.insert(k, v.deep_view()).contains_key(q) implies
            self@.contains_key(q) by {
            if q != k {
                let p = before.position(q);
                assert(before.holds_at(q, p));
                assert(self.entries@[p] == before.entries@[p]);
                self.lemma_entry(p);
            }
        }
        assert(self@ =~= before@.insert(k, v.deep_view()));
    }

    /// Every key of the map, once each.
    pub fn keys(&self) -> (keys: Vec<K>)
        ensures
            is_walk(keys@, self@.dom()),
    {
        proof {
            use_type_invariant(self);
        }
        let mut keys: Vec<K> = Vec::new();
        let mut i: usize = 0;
        while i < self.entries.len()
            invariant
                i <= self.entries@.len(),
                keys@.len() == i,
                forall|j: int| 0 <= j < i ==> #[trigger] keys@[j] == self.entries@[j].0,
            decreases self.entries@.len() - i,
        {
            keys.push(self.entries[i].0);
            i = i + 1;
        }
        proof {
            self.lemma_key_list(keys@);
        }
        keys
    }

    proof fn lemma_key_list(&self, keys: Seq<K>)
        requires
            self.distinct(),
            keys.len() == self.entries@.len(),
            forall|j: int| 0 <= j < keys.len() ==> #[trigger] keys[j] == self.entries@[j].0,
        ensures
            is_walk(keys, self@.dom()),
    {
        assert forall|a: int, b: int| 0 <= a < keys.len() && 0 <= b < keys.len() && a != b implies
            keys[a] != keys[b] by {
            if a < b {
                assert(self.entries@[a].0 != self.entries@[b].0);
            } else {
                assert(self.entries@[b].0 != self.entries@[a].0);
            }
        }
        assert forall|q: K| keys.to_set().contains(q) <==> self@.dom().contains(q) by {
            if keys.to_set().contains(q) {
                let j = choose|j: int| 0 <= j < keys.len() && keys[j] == q;
                self.lemma_entry(j);
            }
            if self@.dom().contains(q) {
                let p = self.position(q);
                assert(self.holds_at(q, p));
                assert(keys[p] == q);
            }
        }
        assert(keys.to_set() =~= self@.dom());
    }

    /// The number of entries.
    pub fn len(&self) -> (n: usize)
        ensures
            self@.dom().finite(),
            n == self@.dom().len(),
    {
        proof {
            use_type_invariant(self);
            let keys = Seq::new(self.entries@.len(), |j: int| self.entries@[j].0);
            self.lemma_key_list(keys);
            keys.unique_seq_to_set();
        }
        self.entries.len()
    }
}

/// Values of which a copy with the same contents can be made.
pub trait Replicate: DeepView + Sized {
    /// A copy with the same contents.
    fn replicate(&self) -> (copy: Self)
        ensures
            copy.deep_view() == self.deep_view(),
    ;
}

impl<K: Key, V: Replicate> Clone for Table<K, V> {
    fn clone(&self) -> (copy: Self)
        ensures
            copy@ == self@,
    {
        let mut entries: Vec<(K, V)> = Vec::new();
        let mut i: usize = 0;
        while i < self.entries.len()
            invariant
                i <= self.entries@.len(),
                entries@.len() == i,
                forall|j: int|
                    0 <= j < i ==> {
                        &&& (#[trigger] entries@[j]).0 == self.entries@[j].0
                        &&& entries@[j].1.deep_view() == self.entries@[j].1.deep_view()
                    },
            decreases self.entries@.len() - i,
        {
            entries.push((self.entries[i].0, self.entries[i].1.replicate()));
            i = i + 1;
        }
        proof {
            use_type_invariant(self);
            assert forall|a: int, b: int| 0 <= a < b < entries@.len() implies (
            #[trigger] entries@[a]).0 != (#[trigger] entries@[b]).0 by {
                assert(self.entries@[a].0 != self.entries@[b].0);
            }
        }
        let copy = Table { entries };
        proof {
            assert forall|q: K, p: int| copy.holds_at(q, p) == self.holds_at(q, p) by {
                if 0 <= p < self.entries@.len() {
                    assert(entries@[p].0 == self.entries@[p].0);
                }
            }
            assert(copy@.dom() =~= self@.dom());
            assert forall|q: K| #[trigger] self@.contains_key(q) implies copy@[q] == self@[q] by {
                let p = self.position(q);
                assert(self.holds_at(q, p));
                self.lemma_entry(p);
                copy.lemma_entry(p);
            }
            assert(copy@ =~= self@);
        }
        copy
    }
}

} // verus!
