//! A map from keys to values, kept as a list of entries in insertion order.
use vstd::prelude::*;

use crate::new_runtime::message::TxId;
use crate::new_runtime::service::{ReactiveName, ReactiveRef};

verus! {

/// Keys that can be compared and copied, with the comparison agreeing with
/// equality of their views.
pub trait Key: View + Sized {
    fn same(&self, other: &Self) -> (r: bool)
        ensures
            r == (self@ == other@);

    fn copy_key(&self) -> (r: Self)
        ensures
            r@ == self@;
}

impl Key for ReactiveName {
    fn same(&self, other: &Self) -> (r: bool) {
        ReactiveName::same(self, other)
    }

    fn copy_key(&self) -> (r: Self) {
        self.copy()
    }
}

impl Key for ReactiveRef {
    fn same(&self, other: &Self) -> (r: bool) {
        ReactiveRef::same(self, other)
    }

    fn copy_key(&self) -> (r: Self) {
        self.copy()
    }
}

impl Key for String {
    fn same(&self, other: &Self) -> (r: bool) {
        *self == *other
    }

    fn copy_key(&self) -> (r: Self) {
        self.clone()
    }
}

impl Key for TxId {
    fn same(&self, other: &Self) -> (r: bool) {
        TxId::same(self, other)
    }

    fn copy_key(&self) -> (r: Self) {
        self.copy()
    }
}

/// A finite map whose entries keep the order in which their keys were
/// first inserted.
#[derive(Debug)]
pub struct Table<K: Key, V> {
    entries: Vec<(K, V)>,
}

impl<K: Key, V> Table<K, V> {
    /// The keys, in entry order.
    pub closed spec fn keys(&self) -> Seq<K::V> {
        self.entries@.map_values(|e: (K, V)| e.0@)
    }

    /// The values, in entry order.
    pub closed spec fn values(&self) -> Seq<V> {
        self.entries@.map_values(|e: (K, V)| e.1)
    }

    #[verifier::type_invariant]
    closed spec fn wf(self) -> bool {
        self.keys().no_duplicates()
    }

    /// The number of entries.
    pub closed spec fn size(&self) -> nat {
        self.entries@.len()
    }

    /// The map that the table denotes.
    pub open spec fn map(&self) -> Map<K::V, V> {
        Map::new(
            |k: K::V| self.keys().contains(k),
            |k: K::V| self.values()[self.keys().index_of(k)],
        )
    }

    proof fn lemma_shape(&self)
        requires
            self.keys().no_duplicates(),
        ensures
            self.keys().len() == self.size(),
            self.values().len() == self.size(),
            self.keys().no_duplicates(),
            forall|i: int| 0 <= i < self.size() ==> #[trigger] self.keys().index_of(self.keys()[i]) == i,
            forall|i: int| 0 <= i < self.size() ==> self.map()[#[trigger] self.keys()[i]] == self.values()[i],
            forall|k: K::V| self.map().contains_key(k) <==> self.keys().contains(k),
            self.map().dom() == self.keys().to_set(),
    {
        assert forall|i: int| 0 <= i < self.size() implies #[trigger] self.keys().index_of(self.keys()[i]) == i by {
            let k = self.keys()[i];
            assert(self.keys().contains(k));
            let j = self.keys().index_of(k);
            assert(self.keys()[j] == k);
        }
        assert(self.map().dom() =~= self.keys().to_set());
    }

    /// An empty table.
    pub fn new() -> (r: Self)
        ensures
            r.keys() == Seq::<K::V>::empty(),
            r.map() == Map::<K::V, V>::empty(),
    {
        let r = Table { entries: Vec::new() };
        assert(r.keys() =~= Seq::<K::V>::empty());
        assert(r.map() =~= Map::<K::V, V>::empty());
        r
    }

    /// The number of entries.
    pub fn len(&self) -> (r: usize)
        ensures
            r == self.size(),
            r == self.keys().len(),
            r == self.map().len(),
            self.keys().no_duplicates(),
            self.map().dom() == self.keys().to_set(),
    {
        proof {
            use_type_invariant(self);
            self.lemma_shape();
            self.keys().unique_seq_to_set();
        }
        self.entries.len()
    }

    /// The number of keys equals the number of values and of entries.
    pub proof fn lemma_len(&self)
        ensures
            self.keys().len() == self.size(),
            self.values().len() == self.size(),
    {
    }

    /// With no key twice, the map gives each key the value at its position.
    pub proof fn lemma_entry(&self, i: int)
        requires
            0 <= i < self.size(),
            self.keys().no_duplicates(),
        ensures
            self.map().contains_key(self.keys()[i]),
            self.map()[self.keys()[i]] == self.values()[i],
    {
        self.lemma_shape();
    }

    /// The table's keys form a finite set.
    pub proof fn lemma_dom_finite(&self)
        ensures
            self.map().dom().finite(),
    {
        assert(self.map().dom() =~= self.keys().to_set());
        vstd::seq_lib::seq_to_set_is_finite(self.keys());
    }

    /// The position of key `k`, if present.
    pub fn position(&self, k: &K) -> (r: Option<usize>)
        ensures
            match r {
                Some(i) => i < self.size() && self.keys()[i as int] == k@,
                None => !self.keys().contains(k@),
            },
    {
        let mut i: usize = 0;
        while i < self.entries.len()
            invariant
                i <= self.entries.len(),
                forall|j: int| 0 <= j < i ==> self.keys()[j] != k@,
            decreases self.entries.len() - i,
        {
            if self.entries[i].0.same(k) {
                return Some(i);
            }
            i = i + 1;
        }
        None
    }

    /// Whether `k` has an entry.
    pub fn contains_key(&self, k: &K) -> (r: bool)
        ensures
            r == self.map().contains_key(k@),
    {
        self.position(k).is_some()
    }

    /// The value stored for `k`.
    pub fn get(&self, k: &K) -> (r: Option<&V>)
        ensures
            match r {
                Some(v) => self.map().contains_key(k@) && self.map()[k@] == *v,
                None => !self.map().contains_key(k@),
            },
    {
        proof {
            use_type_invariant(self);
            self.lemma_shape();
        }
        match self.position(k) {
            Some(i) => Some(&self.entries[i].1),
            None => None,
        }
    }

    /// The key at position `i`.
    pub fn key_at(&self, i: usize) -> (r: &K)
        requires
            i < self.size(),
        ensures
            r@ == self.keys()[i as int],
            self.map().contains_key(r@),
    {
        proof {
            use_type_invariant(self);
            self.lemma_shape();
            assert(self.keys().contains(self.keys()[i as int]));
        }
        &self.entries[i].0
    }

    /// The value at position `i`.
    pub fn value_at(&self, i: usize) -> (r: &V)
        requires
            i < self.size(),
        ensures
            *r == self.values()[i as int],
            *r == self.map()[self.keys()[i as int]],
    {
        proof {
            use_type_invariant(self);
            self.lemma_shape();
        }
        &self.entries[i].1
    }

    /// Replaces the value at position `i`, giving back the value it held.
    pub fn replace_at(&mut self, i: usize, v: V) -> (r: V)
        requires
            i < old(self).size(),
        ensures
            r == old(self).values()[i as int],
            r == old(self).map()[old(self).keys()[i as int]],
            final(self).keys() == old(self).keys(),
            final(self).values() == old(self).values().update(i as int, v),
            final(self).map() == old(self).map().insert(old(self).keys()[i as int], v),
    {
        proof {
            use_type_invariant(&*self);
            self.lemma_shape();
        }
        let ghost ok = self.keys();
        let ghost ov = self.values();
        let mut entries = Vec::new();
        std::mem::swap(&mut entries, &mut self.entries);
        let (k, old_v) = entries.remove(i);
        entries.insert(i, (k, v));
        proof {
            assert(entries@.map_values(|e: (K, V)| e.0@) =~= ok);
            assert(entries@.map_values(|e: (K, V)| e.1) =~= ov.update(i as int, v));
        }
        self.entries = entries;
        proof {
            self.lemma_shape();
            old(self).lemma_shape();
            assert(self.map() =~= old(self).map().insert(ok[i as int], v));
        }
        old_v
    }

    /// Stores `v` for `k`, in place when `k` already has an entry and at the
    /// end otherwise; gives back the value it replaces.
    pub fn insert(&mut self, k: K, v: V) -> (r: Option<V>)
        ensures
            final(self).map() == old(self).map().insert(k@, v),
            match r {
                Some(o) => old(self).map().contains_key(k@) && o == old(self).map()[k@],
                None => !old(self).map().contains_key(k@),
            },
            old(self).map().contains_key(k@) ==> final(self).keys() == old(self).keys(),
            !old(self).map().contains_key(k@) ==> final(self).keys() == old(self).keys().push(k@),
            !old(self).map().contains_key(k@) ==> final(self).values() == old(self).values().push(v),
    {
        proof {
            use_type_invariant(&*self);
            self.lemma_shape();
        }
        let ghost ok = self.keys();
        let ghost ov = self.values();
        let found = self.position(&k);
        let mut entries = Vec::new();
        std::mem::swap(&mut entries, &mut self.entries);
        match found {
            Some(i) => {
                let (_, old_v) = entries.remove(i);
                entries.insert(i, (k, v));
                proof {
                    let nk = entries@.map_values(|e: (K, V)| e.0@);
                    let nv = entries@.map_values(|e: (K, V)| e.1);
                    assert(nk =~= ok);
                    assert(nv =~= ov.update(i as int, v));
                }
                self.entries = entries;
                proof {
                    self.lemma_shape();
                    assert(self.map() =~= old(self).map().insert(k@, v));
                }
                Some(old_v)
            },
            None => {
                proof {
                    assert(!ok.contains(k@));
                }
                entries.push((k, v));
                proof {
                    let nk = entries@.map_values(|e: (K, V)| e.0@);
                    let nv = entries@.map_values(|e: (K, V)| e.1);
                    assert(nk =~= ok.push(k@));
                    assert(nv =~= ov.push(v));
                    assert(nk.no_duplicates()) by {
                        assert forall|a: int, b: int| 0 <= a < nk.len() && 0 <= b < nk.len() && a != b
                            implies nk[a] != nk[b] by {
                            if a == ok.len() as int {
                                assert(ok.contains(nk[b]));
                            } else if b == ok.len() as int {
                                assert(ok.contains(nk[a]));
                            }
                        }
                    }
                }
                self.entries = entries;
                proof {
                    self.lemma_shape();
                    old(self).lemma_shape();
                    assert forall|kk: K::V| #[trigger] self.map().contains_key(kk) implies
                        self.map()[kk] == old(self).map().insert(k@, v)[kk] by {
                        let j = self.keys().index_of(kk);
                        if kk != k@ {
                            assert(j < ok.len());
                            assert(ok[j] == kk);
                            assert(old(self).keys().index_of(kk) == j);
                        }
                    }
                    assert forall|kk: K::V| old(self).map().insert(k@, v).contains_key(kk) implies
                        #[trigger] self.map().contains_key(kk) by {
                        if kk != k@ {
                            let j = ok.index_of(kk);
                            assert(self.keys()[j] == kk);
                        } else {
                            assert(self.keys()[ok.len() as int] == kk);
                        }
                    }
                    assert(self.map() =~= old(self).map().insert(k@, v));
                }
                None
            },
        }
    }

    /// Removes the entry for `k`, giving back its value; the other entries
    /// keep their order.
    pub fn remove(&mut self, k: &K) -> (r: Option<V>)
        ensures
            final(self).map() == old(self).map().remove(k@),
            match r {
                Some(o) => old(self).map().contains_key(k@) && o == old(self).map()[k@],
                None => !old(self).map().contains_key(k@),
            },
            old(self).map().contains_key(k@)
                ==> final(self).keys() == old(self).keys().remove(old(self).keys().index_of(k@)),
            !old(self).map().contains_key(k@) ==> final(self).keys() == old(self).keys(),
    {
        proof {
            use_type_invariant(&*self);
            self.lemma_shape();
        }
        let ghost ok = self.keys();
        let ghost ov = self.values();
        match self.position(k) {
            None => {
                proof {
                    assert(old(self).map().remove(k@) =~= old(self).map());
                }
                None
            },
            Some(i) => {
                let mut entries = Vec::new();
                std::mem::swap(&mut entries, &mut self.entries);
                let (_, old_v) = entries.remove(i);
                proof {
                    let nk = entries@.map_values(|e: (K, V)| e.0@);
                    let nv = entries@.map_values(|e: (K, V)| e.1);
                    assert(nk =~= ok.remove(i as int));
                    assert(nv =~= ov.remove(i as int));
                    assert(ok.index_of(k@) == i);
                    assert(nk.no_duplicates()) by {
                        assert forall|a: int, b: int| 0 <= a < nk.len() && 0 <= b < nk.len() && a != b
                            implies nk[a] != nk[b] by {
                            let a2 = if a < i { a } else { a + 1 };
                            let b2 = if b < i { b } else { b + 1 };
                            assert(nk[a] == ok[a2]);
                            assert(nk[b] == ok[b2]);
                        }
                    }
                }
                self.entries = entries;
                proof {
                    self.lemma_shape();
                    assert forall|kk: K::V| #[trigger] self.map().contains_key(kk) implies
                        self.map()[kk] == old(self).map().remove(k@)[kk] && kk != k@ by {
                        let j = self.keys().index_of(kk);
                        let j2 = if j < i { j } else { j + 1 };
                        assert(ok[j2] == kk);
                        assert(old(self).keys().index_of(kk) == j2);
                    }
                    assert forall|kk: K::V| old(self).map().remove(k@).contains_key(kk) implies
                        #[trigger] self.map().contains_key(kk) by {
                        let j2 = ok.index_of(kk);
                        assert(j2 != i);
                        let j = if j2 < i { j2 } else { j2 - 1 };
                        assert(self.keys()[j] == kk);
                    }
                    assert(self.map() =~= old(self).map().remove(k@));
                }
                Some(old_v)
            },
        }
    }

    /// The entries, in entry order.
    pub fn into_entries(self) -> (r: Vec<(K, V)>)
        ensures
            r@.map_values(|e: (K, V)| e.0@) == self.keys(),
            r@.map_values(|e: (K, V)| e.1) == self.values(),
            self.keys().no_duplicates(),
            r@.len() == self.keys().len(),
            forall|j: int| 0 <= j < r@.len() ==> #[trigger] self.map()[r@[j].0@] == r@[j].1 && self.keys()[j] == r@[j].0@,
            forall|k: K::V| #[trigger] self.map().contains_key(k) <==> self.keys().contains(k),
    {
        proof {
            use_type_invariant(&self);
            self.lemma_shape();
        }
        let r = self.entries;
        proof {
            assert forall|j: int| 0 <= j < r@.len() implies #[trigger] self.map()[r@[j].0@] == r@[j].1 && self.keys()[j] == r@[j].0@ by {
                assert(self.keys()[j] == r@[j].0@);
                assert(self.values()[j] == r@[j].1);
            }
        }
        r
    }
}

} // verus!
