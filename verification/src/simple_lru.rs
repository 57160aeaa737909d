//! The plain least-recently-used cache: a hash map for the values and a list of
//! the keys in order of use, which every `set` scans from end to end.
//!
//! It does in linear time what the caches over an arena do in constant time,
//! and has the same model: it is the yardstick for them.

use crate::model;
use std::collections::HashMap;
use std::hash::Hash;
use vstd::laws_eq::obeys_concrete_eq;
use vstd::prelude::*;
use vstd::std_specs::hash::obeys_key_model;

verus! {

/// A least-recently-used cache for at most `capacity` pairs.
///
/// A cache of capacity 0 holds nothing: what is set in it leaves at once.
pub struct Cache<K, V> {
    capacity: usize,
    entries: HashMap<K, V>,
    keys: Vec<K>,
}

/// The key that stands `p` places before the last one in `keys`.
spec fn from_end<K>(keys: Seq<K>, p: int) -> K {
    keys[keys.len() - 1 - p]
}

/// The pairs of the keys `keys`, last key first, with the values that
/// `entries` has for them.
spec fn pairs<K, V>(keys: Seq<K>, entries: Map<K, V>) -> Seq<(K, V)> {
    Seq::new(keys.len(), |p: int| (from_end(keys, p), entries[from_end(keys, p)]))
}

/// The place of `key` in `keys`, if it occurs there.
fn position<K: Eq>(keys: &Vec<K>, key: &K) -> (place: Option<usize>)
    requires
        obeys_concrete_eq::<K>(),
    ensures
        match place {
            Some(i) => i < keys@.len() && keys@[i as int] == *key,
            None => !keys@.contains(*key),
        },
{
    let mut i: usize = 0;
    while i < keys.len()
        invariant
            i <= keys@.len(),
            obeys_concrete_eq::<K>(),
            forall|j: int| 0 <= j < i ==> keys@[j] != *key,
        decreases keys@.len() - i,
    {
        proof {
            reveal(obeys_concrete_eq);
        }
        if keys[i] == *key {
            return Some(i);
        }
        i += 1;
    }
    None
}

/// What is left of a key list without repetition when the key at place `i` is
/// taken out, and of its pairs, whether or not the value map still has the key.
proof fn lemma_remove_key<K, V>(keys: Seq<K>, entries: Map<K, V>, i: int)
    requires
        keys.no_duplicates(),
        0 <= i < keys.len(),
    ensures
        keys.remove(i).no_duplicates(),
        forall|k: K| #[trigger] keys.remove(i).contains(k) <==> keys.contains(k) && k != keys[i],
        pairs(keys.remove(i), entries) == pairs(keys, entries).remove(keys.len() - 1 - i),
        pairs(keys.remove(i), entries.remove(keys[i])) == pairs(keys, entries).remove(
            keys.len() - 1 - i,
        ),
{
    let kept = keys.remove(i);
    assert forall|k: K| #[trigger] kept.contains(k) <==> keys.contains(k) && k != keys[i] by {
        if kept.contains(k) {
            let j = kept.index_of(k);
            let oj = if j < i { j } else { j + 1 };
            assert(keys[oj] == k);
        }
        if keys.contains(k) && k != keys[i] {
            let j = keys.index_of(k);
            let nj = if j < i { j } else { j - 1 };
            assert(kept[nj] == k);
        }
    }
    assert forall|a: int, b: int| 0 <= a < kept.len() && 0 <= b < kept.len() && a != b implies kept[a]
        != kept[b] by {
        let oa = if a < i { a } else { a + 1 };
        let ob = if b < i { b } else { b + 1 };
        assert(kept[a] == keys[oa] && kept[b] == keys[ob]);
    }
    let r = keys.len() - 1 - i;
    assert forall|p: int| 0 <= p < kept.len() implies #[trigger] from_end(kept, p) == (if p < r {
        from_end(keys, p)
    } else {
        from_end(keys, p + 1)
    }) && from_end(kept, p) != keys[i] by {
        let j = kept.len() - 1 - p;
        let oj = if j < i { j } else { j + 1 };
        assert(kept[j] == keys[oj]);
    }
    assert(pairs(kept, entries) =~= pairs(keys, entries).remove(r));
    assert(pairs(kept, entries.remove(keys[i])) =~= pairs(keys, entries).remove(r));
}

/// A key list without the key `key`, and its pairs, after `key` was added at
/// the end with the value `value`.
proof fn lemma_push_key<K, V>(kept: Seq<K>, entries: Map<K, V>, key: K, value: V)
    requires
        kept.no_duplicates(),
        !kept.contains(key),
    ensures
        kept.push(key).no_duplicates(),
        forall|k: K| #[trigger] kept.push(key).contains(k) <==> kept.contains(k) || k == key,
        pairs(kept.push(key), entries.insert(key, value)) == seq![(key, value)] + pairs(
            kept,
            entries,
        ),
{
    let grown = kept.push(key);
    assert forall|k: K| #[trigger] grown.contains(k) <==> kept.contains(k) || k == key by {
        if grown.contains(k) {
            let j = grown.index_of(k);
            if j < kept.len() {
                assert(kept[j] == k);
            }
        }
        if kept.contains(k) {
            let j = kept.index_of(k);
            assert(grown[j] == k);
        }
        if k == key {
            assert(grown[kept.len() as int] == k);
        }
    }
    assert forall|a: int, b: int|
        0 <= a < grown.len() && 0 <= b < grown.len() && a != b implies grown[a] != grown[b] by {
        if a < kept.len() {
            assert(kept.contains(kept[a]));
        }
        if b < kept.len() {
            assert(kept.contains(kept[b]));
        }
    }
    assert forall|p: int| 1 <= p < grown.len() implies #[trigger] from_end(grown, p) != key
        && from_end(grown, p) == from_end(kept, p - 1) by {
        assert(kept.contains(kept[grown.len() - 1 - p]));
    }
    assert(pairs(grown, entries.insert(key, value)) =~= seq![(key, value)] + pairs(kept, entries));
}

impl<K, V> View for Cache<K, V> {
    type V = Seq<(K, V)>;

    /// The pairs of the cache, most recently set first.
    closed spec fn view(&self) -> Seq<(K, V)> {
        pairs(self.keys@, self.entries@)
    }
}

impl<K, V> Cache<K, V> {
    /// The number of pairs that the cache can hold.
    pub closed spec fn capacity(&self) -> nat {
        self.capacity as nat
    }

    /// The value map and the key list hold the same keys, each once.
    spec fn mirrored(keys: Seq<K>, entries: Map<K, V>) -> bool {
        &&& keys.no_duplicates()
        &&& forall|k: K| #[trigger] entries.contains_key(k) <==> keys.contains(k)
    }

    /// No key occurs twice among the pairs of a key list without repetition.
    proof fn lemma_pairs_distinct(keys: Seq<K>, entries: Map<K, V>)
        requires
            keys.no_duplicates(),
        ensures
            model::distinct_keys(pairs(keys, entries)),
    {
    }

    /// The pairs hold exactly the keys of the key list, each with its value.
    proof fn lemma_pairs_key(keys: Seq<K>, entries: Map<K, V>, key: K)
        requires
            keys.no_duplicates(),
        ensures
            model::has_key(pairs(keys, entries), key) <==> keys.contains(key),
            keys.contains(key) ==> model::rank_of(pairs(keys, entries), key) == keys.len() - 1
                - keys.index_of(key),
            keys.contains(key) ==> model::value_of(pairs(keys, entries), key) == Some(entries[key]),
    {
        let s = pairs(keys, entries);
        if model::has_key(s, key) {
            let p = model::rank_of(s, key);
            assert(keys[keys.len() - 1 - p] == key);
        }
        if keys.contains(key) {
            let i = keys.index_of(key);
            let p = keys.len() - 1 - i;
            assert(s[p].0 == key);
            Self::lemma_pairs_distinct(keys, entries);
            model::lemma_rank_unique(s, p);
        }
    }
}

impl<K: PartialEq, V> Cache<K, V> {
    /// The cache is well formed: the value map and the key list hold the same
    /// keys, each once, and no more of them than the capacity allows.
    pub closed spec fn wf(&self) -> bool {
        &&& obeys_key_model::<K>()
        &&& obeys_concrete_eq::<K>()
        &&& Self::mirrored(self.keys@, self.entries@)
        &&& self.keys@.len() <= self.capacity
    }

    /// A well-formed cache is within its capacity, and no key occurs twice in
    /// it.
    pub proof fn lemma_wf(&self)
        requires
            self.wf(),
        ensures
            self@.len() <= self.capacity(),
            model::distinct_keys(self@),
    {
        Self::lemma_pairs_distinct(self.keys@, self.entries@);
    }
}

impl<K: Hash + Eq + Clone + Copy, V> Cache<K, V> {
    /// An empty cache that holds at most `capacity` pairs.
    pub fn new(capacity: usize) -> (cache: Self)
        requires
            obeys_key_model::<K>(),
            obeys_concrete_eq::<K>(),
        ensures
            cache.wf(),
            cache@ == Seq::<(K, V)>::empty(),
            cache.capacity() == capacity,
    {
        let cache = Cache { capacity, entries: HashMap::new(), keys: Vec::new() };
        assert(cache@ =~= Seq::<(K, V)>::empty());
        cache
    }

    /// Sets `value` under `key` and makes the pair the most recently used one.
    /// A former value of `key` is dropped. If `key` is new and the cache is
    /// full, the least recently used pair is dropped.
    pub fn set(&mut self, key: K, value: V)
        requires
            old(self).wf(),
        ensures
            final(self).wf(),
            final(self)@ == model::insert(old(self)@, old(self).capacity(), key, value),
            final(self)@.len() <= final(self).capacity(),
            final(self).capacity() == old(self).capacity(),
    {
        let ghost keys = self.keys@;
        let ghost entries = self.entries@;
        let ghost s = self@;
        proof {
            Self::lemma_pairs_distinct(keys, entries);
            Self::lemma_pairs_key(keys, entries, key);
        }
        if self.capacity == 0 {
            proof {
                model::lemma_insert_full(s, 0, key, value);
            }
            return;
        }
        match position(&self.keys, &key) {
            Some(i) => {
                self.keys.remove(i);
                proof {
                    model::lemma_insert_present(s, self.capacity(), key, value);
                    lemma_remove_key(keys, entries, i as int);
                }
            },
            None => {
                if self.keys.len() >= self.capacity {
                    let oldest = self.keys.remove(0);
                    self.entries.remove(&oldest);
                    proof {
                        model::lemma_insert_full(s, self.capacity(), key, value);
                        lemma_remove_key(keys, entries, 0);
                        assert(s.remove(s.len() - 1) =~= s.drop_last());
                    }
                } else {
                    proof {
                        model::lemma_insert_with_room(s, self.capacity(), key, value);
                    }
                }
            },
        }
        let ghost kept = self.keys@;
        let ghost kept_entries = self.entries@;
        proof {
            assert(forall|k: K|
                k != key ==> (#[trigger] kept_entries.contains_key(k) <==> kept.contains(k)));
            lemma_push_key(kept, kept_entries, key, value);
        }
        self.keys.push(key);
        self.entries.insert(key, value);
        proof {
            assert forall|k: K| #[trigger]
                self.entries@.contains_key(k) <==> self.keys@.contains(k) by {
                if k != key {
                    assert(kept_entries.contains_key(k) <==> kept.contains(k));
                }
            }
        }
    }

    /// The value under `key`, if present. The order of use stays as it is.
    pub fn get(&mut self, key: &K) -> (value: Option<&V>)
        requires
            old(self).wf(),
        ensures
            final(self).wf(),
            final(self)@ == old(self)@,
            final(self).capacity() == old(self).capacity(),
            match value {
                Some(v) => model::value_of(old(self)@, *key) == Some(*v),
                None => !model::has_key(old(self)@, *key),
            },
    {
        proof {
            Self::lemma_pairs_key(self.keys@, self.entries@, *key);
        }
        self.entries.get(key)
    }
}

} // verus!
