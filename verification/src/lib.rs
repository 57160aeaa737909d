//! Least-recently-used caches with constant-time operations.
//!
//! [`LruCache`] holds at most `CAP` key/value pairs. Every operation on it takes
//! amortised constant time: the pairs live in a dense arena, a doubly linked
//! list over the arena's slots keeps them in order of recency, and a hash map
//! leads from each key to its slot. When a new key arrives at a full cache, the
//! pair that was used least recently makes room.
//!
//! To the contracts a cache is the sequence of its pairs, most recently used
//! first; see [`model`].

pub mod fast_lru;
pub mod model;
pub mod simple_lru;
pub mod store;

use std::hash::Hash;
use store::Store;
use vstd::prelude::*;
use vstd::std_specs::hash::obeys_key_model;

verus! {

/// A least-recently-used cache for at most `CAP` pairs.
///
/// A cache of capacity 0 holds nothing: what is put into it leaves at once.
pub struct LruCache<K, V, const CAP: usize> {
    store: Store<K, V>,
}

impl<K, V, const CAP: usize> View for LruCache<K, V, CAP> {
    type V = Seq<(K, V)>;

    /// The pairs of the cache, most recently used first.
    closed spec fn view(&self) -> Seq<(K, V)> {
        self.store@
    }
}

impl<K, V, const CAP: usize> LruCache<K, V, CAP> {
    /// The cache is well formed: its arena, list and index map agree, and it
    /// holds no more than `CAP` pairs.
    pub closed spec fn wf(&self) -> bool {
        &&& self.store.wf()
        &&& self.store@.len() <= CAP
    }

    /// The storage of the cache: arena, recency list and index map.
    pub closed spec fn store(&self) -> Store<K, V> {
        self.store
    }

    /// A well-formed cache is within its capacity, and no key occurs twice in
    /// it. Its storage is well formed, has one slot for each pair, and has the
    /// view of the cache.
    pub proof fn lemma_wf(&self)
        requires
            self.wf(),
        ensures
            self@.len() <= CAP,
            model::distinct_keys(self@),
            self.store().wf(),
            self.store()@ == self@,
            self.store().slots() == self@.len(),
    {
        self.store.lemma_view();
    }
}

impl<K: Hash + Eq + Clone, V, const CAP: usize> LruCache<K, V, CAP> {
    /// An empty cache of capacity `CAP`.
    pub fn new() -> (cache: Self)
        requires
            obeys_key_model::<K>(),
        ensures
            cache.wf(),
            cache@ == Seq::<(K, V)>::empty(),
            cache.store().slots() == 0,
    {
        LruCache { store: Store::new() }
    }

    /// Puts `value` under `key` and makes the pair the most recently used one.
    /// Returns the value that `key` had before, if it was present. If it was
    /// not and the cache is full, the least recently used pair is dropped.
    pub fn put(&mut self, key: K, value: V) -> (previous: Option<V>)
        requires
            old(self).wf(),
        ensures
            final(self).wf(),
            final(self)@ == model::insert(old(self)@, CAP as nat, key, value),
            final(self)@.len() <= CAP,
            previous == model::value_of(old(self)@, key),
            old(self).store().put_layout(final(self).store(), CAP as nat, key),
    {
        proof {
            self.store.lemma_view();
        }
        match self.store.find(&key) {
            Some(index) => {
                proof {
                    model::lemma_insert_present(self@, CAP as nat, key, value);
                }
                let previous = self.store.set_value(index, value);
                self.store.move_to_head(index);
                Some(previous)
            },
            None => {
                if self.store.len() < CAP {
                    proof {
                        model::lemma_insert_with_room(self@, CAP as nat, key, value);
                    }
                    self.store.add_to_head(key, value);
                } else {
                    proof {
                        model::lemma_insert_full(self@, CAP as nat, key, value);
                    }
                    if CAP > 0 {
                        proof {
                            model::lemma_absent_after_drop(self@, key);
                        }
                        let freed = self.store.remove_tail();
                        self.store.add_to_head_indexed(freed, key, value);
                    }
                }
                None
            },
        }
    }

    /// Puts `value` under `key` like [`LruCache::put`] and returns the pair that
    /// made room for it. That is the key with its former value if `key` was
    /// present. Otherwise it is the least recently used pair if the cache was
    /// full, and nothing if it was not. The two cases never coincide, and the
    /// key of the returned pair tells them apart: it is `key` in the first case
    /// only, but for a cache of capacity 0, which hands the new pair back.
    pub fn push(&mut self, key: K, value: V) -> (displaced: Option<(K, V)>)
        requires
            old(self).wf(),
        ensures
            final(self).wf(),
            final(self)@ == model::insert(old(self)@, CAP as nat, key, value),
            final(self)@.len() <= CAP,
            displaced == model::displaced(old(self)@, CAP as nat, key, value),
            old(self).store().put_layout(final(self).store(), CAP as nat, key),
    {
        proof {
            self.store.lemma_view();
        }
        match self.store.find(&key) {
            Some(index) => {
                proof {
                    model::lemma_insert_present(self@, CAP as nat, key, value);
                }
                let previous = self.store.set_value(index, value);
                self.store.move_to_head(index);
                Some((key, previous))
            },
            None => {
                if self.store.len() < CAP {
                    proof {
                        model::lemma_insert_with_room(self@, CAP as nat, key, value);
                    }
                    self.store.add_to_head(key, value);
                    None
                } else {
                    proof {
                        model::lemma_insert_full(self@, CAP as nat, key, value);
                    }
                    if CAP > 0 {
                        proof {
                            model::lemma_absent_after_drop(self@, key);
                        }
                        let freed = self.store.remove_tail();
                        Some(self.store.add_to_head_indexed(freed, key, value))
                    } else {
                        Some((key, value))
                    }
                }
            },
        }
    }

    /// The value under `key`, if present. The lookup counts as a use: the pair
    /// becomes the most recently used one.
    pub fn get(&mut self, key: &K) -> (value: Option<&V>)
        requires
            old(self).wf(),
        ensures
            final(self).wf(),
            final(self)@ == model::touch(old(self)@, *key),
            match value {
                Some(v) => model::value_of(old(self)@, *key) == Some(*v),
                None => !model::has_key(old(self)@, *key),
            },
            final(self).store().slots() == old(self).store().slots(),
            final(self).store().index() == old(self).store().index(),
            value is Some ==> final(self).store().head() == Some(old(self).store().index()[*key]),
            value is None ==> final(self).store().order() == old(self).store().order(),
    {
        proof {
            self.store.lemma_view();
        }
        match self.store.find(key) {
            Some(index) => {
                self.store.move_to_head(index);
                Some(self.store.value(index))
            },
            None => None,
        }
    }

    /// A mutable reference to the value under `key`, if present. The lookup
    /// counts as a use: the pair becomes the most recently used one. What the
    /// caller writes through the reference is the value stored from then on.
    pub fn get_mut(&mut self, key: &K) -> (value: Option<&mut V>)
        requires
            old(self).wf(),
        ensures
            final(self).wf(),
            match value {
                Some(v) => {
                    &&& model::value_of(old(self)@, *key) == Some(*v)
                    &&& final(self)@ == model::with_value(
                        model::touch(old(self)@, *key),
                        *key,
                        *final(v),
                    )
                },
                None => !model::has_key(old(self)@, *key) && final(self)@ == old(self)@,
            },
            final(self).store().slots() == old(self).store().slots(),
            final(self).store().index() == old(self).store().index(),
            value is Some ==> final(self).store().head() == Some(old(self).store().index()[*key]),
            value is None ==> final(self).store().order() == old(self).store().order(),
    {
        proof {
            self.store.lemma_view();
        }
        match self.store.find(key) {
            Some(index) => {
                self.store.move_to_head(index);
                Some(self.store.value_mut(index))
            },
            None => None,
        }
    }

    /// Removes the pair of `key`, wherever it stands in the order of use, and
    /// returns its value. Without effect if `key` is absent.
    pub fn pop(&mut self, key: &K) -> (value: Option<V>)
        requires
            old(self).wf(),
        ensures
            final(self).wf(),
            final(self)@ == model::without(old(self)@, *key),
            value == model::value_of(old(self)@, *key),
            old(self).store().pop_layout(final(self).store(), *key),
    {
        proof {
            self.store.lemma_view();
        }
        match self.store.find(key) {
            Some(index) => {
                let ghost before = self.store;
                self.store.detach(index);
                let ghost detached = self.store;
                let removed = self.store.swap_with_last(index);
                proof {
                    before.lemma_structure();
                    detached.lemma_structure_but(index);
                    let after = self.store;
                    assert(after.index().dom() =~= before.index().dom().remove(*key));
                    assert forall|k: K| #[trigger] after.index().contains_key(k) implies after.index()[k]
                        == (if before.index()[k] + 1 == before.slots() {
                        index
                    } else {
                        before.index()[k]
                    }) by {
                        assert(before.index().contains_key(k));
                        assert(detached.index().contains_key(k));
                    }
                }
                Some(removed.1)
            },
            None => None,
        }
    }

    /// The number of pairs that the cache can hold.
    pub fn capacity(&self) -> (n: usize)
        ensures
            n == CAP,
    {
        CAP
    }

    /// Removes every pair.
    pub fn clear(&mut self)
        requires
            old(self).wf(),
        ensures
            final(self).wf(),
            final(self)@ == Seq::<(K, V)>::empty(),
            final(self).store().slots() == 0,
            final(self).store().index() == Map::<K, usize>::empty(),
            final(self).store().head() is None,
            final(self).store().tail() is None,
    {
        self.store.clear();
    }

    /// The number of pairs in the cache.
    pub fn len(&self) -> (n: usize)
        requires
            self.wf(),
        ensures
            n == self@.len(),
            n <= CAP,
    {
        self.store.len()
    }

    /// Whether the cache holds no pair.
    pub fn is_empty(&self) -> (empty: bool)
        requires
            self.wf(),
        ensures
            empty == (self@.len() == 0),
    {
        self.len() == 0
    }
}

} // verus!
