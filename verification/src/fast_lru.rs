//! A least-recently-used cache whose capacity is chosen when it is made.
//!
//! It keeps its pairs as [`crate::LruCache`] does, in an arena threaded into a
//! recency list with an index map beside it, so that `set` and `get` take
//! amortised constant time. A `get` only looks: it does not count as a use.

use crate::model;
use crate::store::Store;
use std::fmt::Debug;
use std::hash::Hash;
use vstd::prelude::*;
use vstd::std_specs::hash::obeys_key_model;

verus! {

/// A least-recently-used cache for at most `capacity` pairs.
///
/// A cache of capacity 0 holds nothing: what is set in it leaves at once.
pub struct Cache<K, V> {
    capacity: usize,
    store: Store<K, V>,
}

impl<K, V> View for Cache<K, V> {
    type V = Seq<(K, V)>;

    /// The pairs of the cache, most recently set first.
    closed spec fn view(&self) -> Seq<(K, V)> {
        self.store@
    }
}

impl<K, V> Cache<K, V> {
    /// The number of pairs that the cache can hold.
    pub closed spec fn capacity(&self) -> nat {
        self.capacity as nat
    }

    /// The cache is well formed: its arena, list and index map agree, and it
    /// holds no more pairs than its capacity allows.
    pub closed spec fn wf(&self) -> bool {
        &&& self.store.wf()
        &&& self.store@.len() <= self.capacity
    }

    /// The storage of the cache: arena, recency list and index map.
    pub closed spec fn store(&self) -> Store<K, V> {
        self.store
    }

    /// A well-formed cache is within its capacity, and no key occurs twice in
    /// it. Its storage is well formed, has one slot for each pair, and has the
    /// view of the cache.
    pub proof fn lemma_wf(&self)
        requires
            self.wf(),
        ensures
            self@.len() <= self.capacity(),
            model::distinct_keys(self@),
            self.store().wf(),
            self.store()@ == self@,
            self.store().slots() == self@.len(),
    {
        self.store.lemma_view();
    }
}

impl<K: Hash + Eq + Clone + Copy + Debug, V: Debug> Cache<K, V> {
    /// An empty cache that holds at most `capacity` pairs.
    pub fn new(capacity: usize) -> (cache: Self)
        requires
            obeys_key_model::<K>(),
        ensures
            cache.wf(),
            cache@ == Seq::<(K, V)>::empty(),
            cache.capacity() == capacity,
            cache.store().slots() == 0,
    {
        Cache { capacity, store: Store::new() }
    }

    /// Sets `value` under `key` and makes the pair the most recently used one.
    /// A former value of `key` is dropped. If `key` is new and the cache is
    /// full, the least recently used pair is dropped.
    pub fn set(&mut self, key: K, value: V)
        requires
            old(self).wf(),
        ensures
            final(self).wf(),
            final(self)@ == model::insert(old(self)@, old(self).capacity(), key, value),
            final(self)@.len() <= final(self).capacity(),
            final(self).capacity() == old(self).capacity(),
            old(self).store().put_layout(final(self).store(), old(self).capacity(), key),
    {
        proof {
            self.store.lemma_view();
        }
        match self.store.find(&key) {
            Some(index) => {
                proof {
                    model::lemma_insert_present(self@, self.capacity(), key, value);
                }
                self.store.set_value(index, value);
                self.store.move_to_head(index);
            },
            None => {
                if self.store.len() < self.capacity {
                    proof {
                        model::lemma_insert_with_room(self@, self.capacity(), key, value);
                    }
                    self.store.add_to_head(key, value);
                } else {
                    proof {
                        model::lemma_insert_full(self@, self.capacity(), key, value);
                    }
                    if self.capacity > 0 {
                        proof {
                            model::lemma_absent_after_drop(self@, key);
                        }
                        let freed = self.store.remove_tail();
                        self.store.add_to_head_indexed(freed, key, value);
                    }
                }
            },
        }
    }

    /// The value under `key`, if present. The order of use stays as it is.
    pub fn get(&self, key: &K) -> (value: Option<&V>)
        requires
            self.wf(),
        ensures
            match value {
                Some(v) => model::value_of(self@, *key) == Some(*v),
                None => !model::has_key(self@, *key),
            },
    {
        proof {
            self.store.lemma_view();
        }
        match self.store.find(key) {
            Some(index) => Some(self.store.value(index)),
            None => None,
        }
    }
}

} // verus!
