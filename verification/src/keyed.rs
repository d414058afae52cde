//! A map kept as a list in the order of its keys.

use vstd::prelude::*;

use crate::order::{key_precedes, same_key, Ranked};

verus! {

/// What can be a key: a value known by the rank of its view.
pub trait Key: Ranked {
    /// A key is known by its rank.
    proof fn rank_is_injective(a: Self::V, b: Self::V)
        requires
            Self::rank_of(a) == Self::rank_of(b),
        ensures
            a == b,
    ;
}

impl Key for String {
    proof fn rank_is_injective(a: Seq<char>, b: Seq<char>) {
        crate::order::text_rank_is_injective(a, b);
    }
}

impl Key for u64 {
    proof fn rank_is_injective(a: u64, b: u64) {
        assert(seq![a][0] == seq![b][0]);
    }
}

/// A map with its entries in the order of their keys.
#[derive(Debug)]
pub struct KeyedMap<K, V> {
    entries: Vec<(K, V)>,
}

impl<K: Key, V: View> KeyedMap<K, V> {
    /// The keys, in their order.
    pub closed spec fn keys(&self) -> Seq<K::V> {
        self.entries@.map_values(|e: (K, V)| e.0@)
    }

    /// The values, in the order of their keys.
    pub closed spec fn values(&self) -> Seq<V::V> {
        self.entries@.map_values(|e: (K, V)| e.1@)
    }

    /// Every key comes before the keys behind it.
    pub open spec fn wf(&self) -> bool {
        &&& self.keys().len() == self.values().len()
        &&& forall|i: int, j: int|
            0 <= i < j < self.keys().len() ==> crate::order::precedes(
                K::rank_of(#[trigger] self.keys()[i]),
                K::rank_of(#[trigger] self.keys()[j]),
            )
    }

    /// The position of a key.
    pub open spec fn position(&self, k: K::V) -> int {
        choose|i: int| 0 <= i < self.keys().len() && self.keys()[i] == k
    }

    /// Whether there is an entry with this key.
    pub open spec fn has(&self, k: K::V) -> bool {
        exists|i: int| 0 <= i < self.keys().len() && self.keys()[i] == k
    }

    proof fn lemma_unique(&self, i: int, j: int)
        requires
            self.wf(),
            0 <= i < self.keys().len(),
            0 <= j < self.keys().len(),
            self.keys()[i] == self.keys()[j],
        ensures
            i == j,
    {
        crate::order::precedes_is_irreflexive(K::rank_of(self.keys()[i]));
    }

    /// The entry at a position.
    pub proof fn entry_at(&self, i: int)
        requires
            self.wf(),
            0 <= i < self.keys().len(),
        ensures
            self@.contains_key(self.keys()[i]),
            self@[self.keys()[i]] == self.values()[i],
    {
        let p = self.position(self.keys()[i]);
        self.lemma_unique(p, i);
    }

    /// No key stands twice.
    pub proof fn keys_are_distinct(&self)
        requires
            self.wf(),
        ensures
            self.keys().no_duplicates(),
            self.keys().to_set() == self@.dom(),
    {
        assert forall|i: int, j: int|
            0 <= i < self.keys().len() && 0 <= j < self.keys().len() && i
                != j implies self.keys()[i] != self.keys()[j] by {
            if self.keys()[i] == self.keys()[j] {
                self.lemma_unique(i, j);
            }
        }
        assert(self.keys().to_set() =~= self@.dom());
    }
}

impl<K: Key, V: View> View for KeyedMap<K, V> {
    type V = Map<K::V, V::V>;

    open spec fn view(&self) -> Map<K::V, V::V> {
        Map::new(|k: K::V| self.has(k), |k: K::V| self.values()[self.position(k)])
    }
}

impl<K: Key, V: View> KeyedMap<K, V> {
    /// The empty map.
    pub fn new() -> (r: Self)
        ensures
            r.wf(),
            r@ == Map::<K::V, V::V>::empty(),
            r.keys().len() == 0,
    {
        let r = KeyedMap { entries: Vec::new() };
        assert(r@ =~= Map::<K::V, V::V>::empty());
        r
    }

    /// How many entries there are.
    pub fn len(&self) -> (n: usize)
        ensures
            n == self.keys().len(),
    {
        self.entries.len()
    }

    /// The key at a position.
    pub fn key_at(&self, i: usize) -> (k: &K)
        requires
            i < self.keys().len(),
        ensures
            k@ == self.keys()[i as int],
    {
        &self.entries[i].0
    }

    /// The value at a position.
    pub fn value_at(&self, i: usize) -> (v: &V)
        requires
            i < self.values().len(),
        ensures
            v@ == self.values()[i as int],
    {
        &self.entries[i].1
    }

    /// The first position whose key does not come before `key`, and whether
    /// it holds that key.
    fn locate(&self, key: &K) -> (r: (usize, bool))
        requires
            self.wf(),
        ensures
            r.0 <= self.entries@.len(),
            r.1 ==> r.0 < self.entries@.len() && self.keys()[r.0 as int] == key@,
            !r.1 ==> !self.has(key@),
            forall|i: int|
                0 <= i < r.0 ==> crate::order::precedes(
                    K::rank_of(#[trigger] self.keys()[i]),
                    K::rank_of(key@),
                ),
            !r.1 ==> forall|i: int|
                r.0 <= i < self.keys().len() ==> crate::order::precedes(
                    K::rank_of(key@),
                    K::rank_of(#[trigger] self.keys()[i]),
                ),
    {
        let rank = key.rank_key();
        let mut i: usize = 0;
        while i < self.entries.len() && key_precedes(&self.entries[i].0.rank_key(), &rank)
            invariant
                i <= self.entries@.len(),
                rank@ == K::rank_of(key@),
                forall|j: int|
                    0 <= j < i ==> crate::order::precedes(
                        K::rank_of(#[trigger] self.keys()[j]),
                        K::rank_of(key@),
                    ),
            decreases self.entries@.len() - i,
        {
            assert(self.keys()[i as int] == self.entries@[i as int].0@);
            i = i + 1;
        }
        if i < self.entries.len() && same_key(&self.entries[i].0.rank_key(), &rank) {
            proof {
                assert(self.keys()[i as int] == self.entries@[i as int].0@);
                K::rank_is_injective(self.keys()[i as int], key@);
            }
            return (i, true);
        }
        proof {
            let target = K::rank_of(key@);
            crate::order::precedes_is_irreflexive(target);
            assert forall|j: int| i <= j < self.keys().len() implies crate::order::precedes(
                target,
                K::rank_of(#[trigger] self.keys()[j]),
            ) by {
                assert(self.keys()[i as int] == self.entries@[i as int].0@);
                crate::order::precedes_is_total(K::rank_of(self.keys()[i as int]), target);
                if i < j {
                    crate::order::precedes_is_transitive(
                        target,
                        K::rank_of(self.keys()[i as int]),
                        K::rank_of(self.keys()[j]),
                    );
                }
            }
            if self.has(key@) {
                let p = self.position(key@);
                assert(self.keys()[p] == key@);
            }
        }
        (i, false)
    }

    /// The value of a key.
    pub fn get(&self, key: &K) -> (r: Option<&V>)
        requires
            self.wf(),
        ensures
            r is Some <==> self@.contains_key(key@),
            r matches Some(v) ==> v@ == self@[key@],
    {
        let (i, found) = self.locate(key);
        if found {
            proof {
                self.entry_at(i as int);
            }
            Some(&self.entries[i].1)
        } else {
            None
        }
    }

    /// Whether there is an entry with this key.
    pub fn contains(&self, key: &K) -> (r: bool)
        requires
            self.wf(),
        ensures
            r == self@.contains_key(key@),
    {
        self.get(key).is_some()
    }

    /// Sets the value of a key.
    pub fn insert(&mut self, key: K, value: V)
        requires
            old(self).wf(),
        ensures
            final(self).wf(),
            final(self)@ == old(self)@.insert(key@, value@),
    {
        let (i, found) = self.locate(&key);
        let ghost before = *self;
        let ghost k = key@;
        let ghost v = value@;
        if found {
            self.entries.set(i, (key, value));
        } else {
            self.entries.insert(i, (key, value));
        }
        proof {
            let keys = before.keys();
            if found {
                assert(self.keys() =~= keys);
                assert(self.values() =~= before.values().update(i as int, v));
            } else {
                assert(self.keys() =~= keys.insert(i as int, k));
                assert(self.values() =~= before.values().insert(i as int, v));
            }
            assert(self.wf());
            assert forall|x: K::V| self@.contains_key(x) == before@.insert(k, v).contains_key(x) by {
                if before.has(x) {
                    let p = before.position(x);
                    if found || p < i {
                        assert(self.keys()[p] == x);
                    } else {
                        assert(self.keys()[p + 1] == x);
                    }
                }
                if x == k {
                    assert(self.keys()[i as int] == k);
                }
                if self.has(x) {
                    let p = self.position(x);
                    if p != i {
                        if found || p < i {
                            assert(keys[p] == x);
                        } else {
                            assert(keys[p - 1] == x);
                        }
                    }
                }
            }
            assert forall|x: K::V| #[trigger]
                self@.contains_key(x) implies self@[x] == before@.insert(k, v)[x] by {
                let p = self.position(x);
                self.entry_at(p);
                if x == k {
                    self.lemma_unique(p, i as int);
                } else if found || p < i {
                    before.entry_at(p);
                } else {
                    before.entry_at(p - 1);
                }
            }
            assert(self@ =~= before@.insert(k, v));
        }
    }

    /// Removes a key and gives back its value.
    pub fn remove(&mut self, key: &K) -> (r: Option<V>)
        requires
            old(self).wf(),
        ensures
            final(self).wf(),
            final(self)@ == old(self)@.remove(key@),
            r is Some <==> old(self)@.contains_key(key@),
            r matches Some(v) ==> v@ == old(self)@[key@],
    {
        let (i, found) = self.locate(key);
        let ghost before = *self;
        let ghost k = key@;
        if !found {
            assert(self@ =~= before@.remove(k));
            return None;
        }
        proof {
            self.entry_at(i as int);
        }
        let (_, value) = self.entries.remove(i);
        proof {
            let keys = before.keys();
            assert(self.keys() =~= keys.remove(i as int));
            assert(self.values() =~= before.values().remove(i as int));
            assert(self.wf());
            assert forall|x: K::V| self@.contains_key(x) == before@.remove(k).contains_key(x) by {
                if before.has(x) && x != k {
                    let p = before.position(x);
                    if p < i {
                        assert(self.keys()[p] == x);
                    } else {
                        assert(self.keys()[p - 1] == x);
                    }
                }
                if self.has(x) {
                    let p = self.position(x);
                    if p < i {
                        assert(keys[p] == x);
                        if x == k {
                            before.lemma_unique(p, i as int);
                        }
                    } else {
                        assert(keys[p + 1] == x);
                        if x == k {
                            before.lemma_unique(p + 1, i as int);
                        }
                    }
                }
            }
            assert forall|x: K::V| #[trigger]
                self@.contains_key(x) implies self@[x] == before@.remove(k)[x] by {
                let p = self.position(x);
                self.entry_at(p);
                if p < i {
                    before.entry_at(p);
                } else {
                    before.entry_at(p + 1);
                }
            }
            assert(self@ =~= before@.remove(k));
        }
        Some(value)
    }
}

} // verus!
