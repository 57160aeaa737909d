//! The storage shared by the constant-time caches: a dense arena of entries
//! threaded into a doubly linked list by slot indices, and a hash map from each
//! key to the slot that holds it.
//!
//! The list runs from the most recently used entry (`head`) to the least
//! recently used one (`tail`). A ghost sequence records the slots in list order;
//! the view of a store is the sequence of `(key, value)` pairs in that order.

use crate::model;
use std::collections::HashMap;
use std::hash::Hash;
use vstd::prelude::*;
use vstd::seq_lib::seq_to_set_is_finite;
use vstd::set_lib::{lemma_int_range, lemma_map_size, lemma_subset_equality, set_int_range};
use vstd::std_specs::hash::obeys_key_model;

verus! {

/// One slot of the arena: a key, its value, and the slots of the neighbours in
/// the recency list. `prev` points towards the head, `next` towards the tail.
struct Entry<K, V> {
    prev: Option<usize>,
    key: K,
    value: V,
    next: Option<usize>,
}

/// Arena, recency list and index map, kept consistent with each other.
pub struct Store<K, V> {
    locations: HashMap<K, usize>,
    head: Option<usize>,
    tail: Option<usize>,
    values: Vec<Entry<K, V>>,
    order: Ghost<Seq<usize>>,
}

/// The slot before position `p` of the list `order`, if there is one.
spec fn prev_at(order: Seq<usize>, p: int) -> Option<usize> {
    if p <= 0 {
        None
    } else {
        Some(order[p - 1])
    }
}

/// The slot after position `p` of the list `order`, if there is one.
spec fn next_at(order: Seq<usize>, p: int) -> Option<usize> {
    if p + 1 >= order.len() {
        None
    } else {
        Some(order[p + 1])
    }
}

/// Slot `order[p]` is a slot of the arena and points at its two neighbours in
/// the list `order`.
spec fn link_ok<K, V>(values: Seq<Entry<K, V>>, order: Seq<usize>, p: int) -> bool {
    &&& order[p] < values.len()
    &&& values[order[p] as int].prev == prev_at(order, p)
    &&& values[order[p] as int].next == next_at(order, p)
}

/// The links stored in `values`, together with `head` and `tail`, spell out
/// exactly the list `order`, in which no slot occurs twice.
spec fn chain_ok<K, V>(
    values: Seq<Entry<K, V>>,
    head: Option<usize>,
    tail: Option<usize>,
    order: Seq<usize>,
) -> bool {
    &&& order.no_duplicates()
    &&& forall|p: int| 0 <= p < order.len() ==> #[trigger] link_ok(values, order, p)
    &&& head == next_at(order, -1)
    &&& tail == prev_at(order, order.len() as int)
}

/// Slot `i` is the detached slot.
spec fn is_hole(hole: Option<usize>, i: int) -> bool {
    hole is Some && hole->0 == i
}

/// Slot `i` is found in the index map under its key.
spec fn slot_indexed<K, V>(values: Seq<Entry<K, V>>, locations: Map<K, usize>, i: int) -> bool {
    &&& locations.contains_key(values[i].key)
    &&& locations[values[i].key] == i
}

/// The index map mirrors the arena: every slot but `hole` is found under its
/// key, and every key of the map leads to a slot, other than `hole`, that holds
/// this key.
spec fn index_ok<K, V>(values: Seq<Entry<K, V>>, locations: Map<K, usize>, hole: Option<usize>) -> bool {
    &&& forall|i: int|
        0 <= i < values.len() && !is_hole(hole, i) ==> #[trigger] slot_indexed(
            values,
            locations,
            i,
        )
    &&& forall|k: K| #[trigger]
        locations.contains_key(k) ==> {
            &&& locations[k] < values.len()
            &&& !is_hole(hole, locations[k] as int)
            &&& values[locations[k] as int].key == k
        }
}

/// A list without repetition over the slots below `n` that has `n` members
/// holds every one of these slots; if it has one less and leaves out `hole`, it
/// holds every other slot.
proof fn lemma_order_covers(order: Seq<usize>, n: nat, hole: Option<usize>)
    requires
        order.no_duplicates(),
        forall|p: int| 0 <= p < order.len() ==> (#[trigger] order[p]) < n,
        match hole {
            Some(h) => h < n && order.len() + 1 == n && !order.contains(h),
            None => order.len() == n,
        },
    ensures
        forall|i: usize| i < n && hole != Some(i) ==> #[trigger] order.contains(i),
{
    let ints = Seq::new(order.len(), |p: int| order[p] as int);
    assert(ints.no_duplicates());
    ints.unique_seq_to_set();
    seq_to_set_is_finite(ints);
    lemma_int_range(0, n as int);
    let range = set_int_range(0, n as int);
    let members = match hole {
        Some(h) => ints.to_set().insert(h as int),
        None => ints.to_set(),
    };
    assert(members.subset_of(range)) by {
        assert forall|x: int| members.contains(x) implies range.contains(x) by {
            if ints.contains(x) {
                let p = choose|p: int| 0 <= p < ints.len() && ints[p] == x;
                assert(order[p] < n);
            }
        }
    }
    if let Some(h) = hole {
        assert(!ints.to_set().contains(h as int)) by {
            if ints.contains(h as int) {
                let p = choose|p: int| 0 <= p < ints.len() && ints[p] == h as int;
                assert(order[p] == h);
            }
        }
    }
    lemma_subset_equality(members, range);
    assert forall|i: usize| i < n && hole != Some(i) implies order.contains(i) by {
        assert(range.contains(i as int));
        assert(members.contains(i as int));
        assert(ints.contains(i as int));
        let p = choose|p: int| 0 <= p < ints.len() && ints[p] == i as int;
        assert(order[p] == i);
    }
}

/// The `(key, value)` pairs of the slots of `order`, in that order.
spec fn pairs<K, V>(values: Seq<Entry<K, V>>, order: Seq<usize>) -> Seq<(K, V)> {
    Seq::new(order.len(), |p: int| (values[order[p] as int].key, values[order[p] as int].value))
}

/// `b` holds the keys and values of `a`, slot by slot; only links may differ.
spec fn same_payload<K, V>(a: Seq<Entry<K, V>>, b: Seq<Entry<K, V>>) -> bool {
    &&& a.len() == b.len()
    &&& forall|i: int|
        0 <= i < a.len() ==> (#[trigger] b[i]).key == a[i].key && b[i].value == a[i].value
}

/// The index map stays a mirror of the arena when only links change.
proof fn lemma_index_ok_payload<K, V>(
    a: Seq<Entry<K, V>>,
    b: Seq<Entry<K, V>>,
    locations: Map<K, usize>,
    hole: Option<usize>,
)
    requires
        index_ok(a, locations, hole),
        same_payload(a, b),
    ensures
        index_ok(b, locations, hole),
{
    assert forall|i: int| 0 <= i < b.len() && !is_hole(hole, i) implies #[trigger] slot_indexed(
        b,
        locations,
        i,
    ) by {
        assert(slot_indexed(a, locations, i));
    }
}

/// The pairs of a list do not depend on the links.
proof fn lemma_pairs_payload<K, V>(a: Seq<Entry<K, V>>, b: Seq<Entry<K, V>>, order: Seq<usize>)
    requires
        same_payload(a, b),
        forall|p: int| 0 <= p < order.len() ==> (#[trigger] order[p]) < a.len(),
    ensures
        pairs(a, order) == pairs(b, order),
{
    assert(pairs(a, order) =~= pairs(b, order));
}

/// `b` is `a` with another value, and nothing else changed, in slot `index`.
spec fn same_but_value<K, V>(a: Seq<Entry<K, V>>, b: Seq<Entry<K, V>>, index: int) -> bool {
    &&& a.len() == b.len()
    &&& b[index].key == a[index].key
    &&& b[index].prev == a[index].prev
    &&& b[index].next == a[index].next
    &&& forall|i: int| 0 <= i < a.len() && i != index ==> #[trigger] b[i] == a[i]
}

/// `written` is the arena `before` with a new entry in slot `slot`: the
/// detached slot `hole` if there is one, else a fresh slot at the end.
spec fn written_at<K, V>(
    before: Seq<Entry<K, V>>,
    written: Seq<Entry<K, V>>,
    hole: Option<usize>,
    slot: usize,
) -> bool {
    &&& match hole {
        Some(h) => h == slot && slot < before.len() && written.len() == before.len(),
        None => slot == before.len() && written.len() == before.len() + 1,
    }
    &&& forall|i: int| 0 <= i < before.len() && i != slot ==> #[trigger] written[i] == before[i]
}

/// A new entry in a slot outside the list leaves the links of the list as they
/// are.
proof fn lemma_written<K, V>(
    before: Seq<Entry<K, V>>,
    written: Seq<Entry<K, V>>,
    head: Option<usize>,
    tail: Option<usize>,
    order: Seq<usize>,
    hole: Option<usize>,
    slot: usize,
)
    requires
        chain_ok(before, head, tail, order),
        written_at(before, written, hole, slot),
        !order.contains(slot),
    ensures
        chain_ok(written, head, tail, order),
{
    assert forall|p: int| 0 <= p < order.len() implies #[trigger] link_ok(written, order, p) by {
        assert(link_ok(before, order, p));
        assert(order.contains(order[p]));
    }
}

/// Once the new entry of slot `slot` is linked at the head, which changes
/// links only, and its key is entered in the index map, the index map mirrors
/// the whole arena, and the pairs of the list are the new pair followed by the
/// former ones.
proof fn lemma_entered<K, V>(
    before: Seq<Entry<K, V>>,
    written: Seq<Entry<K, V>>,
    after: Seq<Entry<K, V>>,
    locations: Map<K, usize>,
    order: Seq<usize>,
    hole: Option<usize>,
    slot: usize,
)
    requires
        index_ok(before, locations, hole),
        written_at(before, written, hole, slot),
        same_payload(written, after),
        !locations.contains_key(written[slot as int].key),
        forall|p: int| 0 <= p < order.len() ==> (#[trigger] order[p]) < before.len(),
        !order.contains(slot),
    ensures
        index_ok(after, locations.insert(written[slot as int].key, slot), None),
        pairs(after, seq![slot] + order) == seq![(written[slot as int].key, written[slot as int].value)]
            + pairs(before, order),
{
    let key = written[slot as int].key;
    let entered = locations.insert(key, slot);
    assert(after[slot as int].key == key);
    assert forall|i: int| 0 <= i < after.len() implies #[trigger] slot_indexed(after, entered, i) by {
        if i != slot {
            assert(slot_indexed(before, locations, i));
            assert(after[i].key == written[i].key);
        }
    }
    assert forall|k: K| #[trigger] entered.contains_key(k) implies {
        &&& entered[k] < after.len()
        &&& after[entered[k] as int].key == k
    } by {
        if k != key {
            assert(locations.contains_key(k));
            assert(after[locations[k] as int].key == written[locations[k] as int].key);
        }
    }
    assert forall|p: int| 0 <= p < order.len() implies (#[trigger] pairs(after, seq![slot] + order)[p
        + 1]) == pairs(before, order)[p] by {
        assert(order.contains(order[p]));
        assert(after[order[p] as int].key == written[order[p] as int].key);
    }
    assert(pairs(after, seq![slot] + order) =~= seq![(key, written[slot as int].value)] + pairs(
        before,
        order,
    ));
}

/// The arena `values` once its last slot has moved into slot `hole`.
spec fn closed_up<K, V>(values: Seq<Entry<K, V>>, hole: int) -> Seq<Entry<K, V>> {
    values.update(hole, values.last()).drop_last()
}

/// Once the last slot `last` has moved into the detached slot `hole` and is
/// entered under its key at the new place, the index map mirrors the whole
/// arena.
proof fn lemma_index_closed<K, V>(
    before: Seq<Entry<K, V>>,
    patched: Seq<Entry<K, V>>,
    locations: Map<K, usize>,
    hole: usize,
    last: usize,
)
    requires
        index_ok(before, locations, Some(hole)),
        same_payload(before, patched),
        last + 1 == before.len(),
        hole < last,
    ensures
        index_ok(closed_up(patched, hole as int), locations.insert(before[last as int].key, hole), None),
{
    let after = closed_up(patched, hole as int);
    let moved = locations.insert(before[last as int].key, hole);
    assert(slot_indexed(before, locations, last as int));
    assert forall|i: int| 0 <= i < after.len() implies #[trigger] slot_indexed(after, moved, i) by {
        if i != hole {
            assert(slot_indexed(before, locations, i));
        }
    }
    assert forall|k: K| #[trigger] moved.contains_key(k) implies {
        &&& moved[k] < after.len()
        &&& after[moved[k] as int].key == k
    } by {
        if k != before[last as int].key {
            assert(locations.contains_key(k));
        }
    }
}

/// The pairs of the list are the same once the last slot `last` has moved into
/// the detached slot `hole` and `hole` stands in the list where `last` stood.
proof fn lemma_pairs_closed<K, V>(
    before: Seq<Entry<K, V>>,
    patched: Seq<Entry<K, V>>,
    order: Seq<usize>,
    hole: usize,
    last: usize,
)
    requires
        same_payload(before, patched),
        last + 1 == before.len(),
        hole < last,
        order.no_duplicates(),
        forall|p: int| 0 <= p < order.len() ==> (#[trigger] order[p]) < before.len(),
        !order.contains(hole),
        order.contains(last),
    ensures
        pairs(closed_up(patched, hole as int), order.update(order.index_of(last), hole)) == pairs(
            before,
            order,
        ),
{
    let moved = order.update(order.index_of(last), hole);
    let after = closed_up(patched, hole as int);
    assert forall|q: int| 0 <= q < order.len() implies (#[trigger] pairs(after, moved)[q]) == pairs(
        before,
        order,
    )[q] by {
        assert(order.contains(order[q]));
    }
    assert(pairs(after, moved) =~= pairs(before, order));
}

/// When the detached slot is the last slot `last` of the arena, list, index
/// map and pairs fit the arena without it as they stand.
proof fn lemma_last_dropped<K, V>(
    before: Seq<Entry<K, V>>,
    head: Option<usize>,
    tail: Option<usize>,
    order: Seq<usize>,
    locations: Map<K, usize>,
    last: usize,
)
    requires
        last + 1 == before.len(),
        chain_ok(before, head, tail, order),
        index_ok(before, locations, Some(last)),
        !order.contains(last),
    ensures
        chain_ok(closed_up(before, last as int), head, tail, order),
        index_ok(closed_up(before, last as int), locations, None),
        pairs(closed_up(before, last as int), order) == pairs(before, order),
{
    let after = closed_up(before, last as int);
    assert forall|q: int| 0 <= q < order.len() implies #[trigger] link_ok(after, order, q) by {
        assert(link_ok(before, order, q));
        assert(order.contains(order[q]));
    }
    assert forall|i: int| 0 <= i < after.len() implies #[trigger] slot_indexed(after, locations, i) by {
        assert(slot_indexed(before, locations, i));
    }
    assert forall|q: int| 0 <= q < order.len() implies (#[trigger] pairs(after, order)[q]) == pairs(
        before,
        order,
    )[q] by {
        assert(link_ok(before, order, q));
        assert(order.contains(order[q]));
    }
    assert(pairs(after, order) =~= pairs(before, order));
}

/// Calls `Clone::clone` on a key. Believed, not proved: for a key type that
/// obeys the hash-table key model of vstd, the clone is identical to the key it
/// was made from. That is the third requirement of the model, beside a
/// deterministic hash and an `==` that holds of identical keys only.
#[verifier::external_body]
fn clone_key<K: Clone>(key: &K) -> (copy: K)
    ensures
        obeys_key_model::<K>() ==> copy == *key,
{
    key.clone()
}

impl<K, V> View for Store<K, V> {
    type V = Seq<(K, V)>;

    /// The stored pairs, most recently used first.
    closed spec fn view(&self) -> Seq<(K, V)> {
        pairs(self.values@, self.order@)
    }
}

impl<K, V> Store<K, V> {
    /// The number of slots of the arena.
    pub closed spec fn slots(&self) -> nat {
        self.values@.len()
    }

    /// The key held by slot `i`.
    pub closed spec fn slot_key(&self, i: usize) -> K {
        self.values@[i as int].key
    }

    /// The value held by slot `i`.
    pub closed spec fn slot_value(&self, i: usize) -> V {
        self.values@[i as int].value
    }

    /// The slot before slot `i` in the list, towards the head, if there is one.
    pub closed spec fn slot_prev(&self, i: usize) -> Option<usize> {
        self.values@[i as int].prev
    }

    /// The slot after slot `i` in the list, towards the tail, if there is one.
    pub closed spec fn slot_next(&self, i: usize) -> Option<usize> {
        self.values@[i as int].next
    }

    /// The slot of the most recently used pair, if the store is not empty.
    pub closed spec fn head(&self) -> Option<usize> {
        self.head
    }

    /// The slot of the least recently used pair, if the store is not empty.
    pub closed spec fn tail(&self) -> Option<usize> {
        self.tail
    }

    /// The slots in the order of the list, from head to tail.
    pub closed spec fn order(&self) -> Seq<usize> {
        self.order@
    }

    /// The index map: the slot of each stored key.
    pub closed spec fn index(&self) -> Map<K, usize> {
        self.locations@
    }

    /// Every slot that `self` and `after` both have, but `except`, holds in
    /// `after` the key and the value that it holds in `self`.
    pub open spec fn slots_kept(self, after: Self, except: Option<usize>) -> bool {
        &&& forall|i: usize|
            i < self.slots() && i < after.slots() && except != Some(i) ==> #[trigger] after.slot_key(i)
                == self.slot_key(i)
        &&& forall|i: usize|
            i < self.slots() && i < after.slots() && except != Some(i) ==> #[trigger] after.slot_value(
                i,
            ) == self.slot_value(i)
    }

    /// What it is for arena, list and index map to agree, slot `hole` being
    /// left out if one is given. The list `order` visits every slot but `hole`
    /// exactly once. It is what one finds by following `slot_next` from `head`
    /// and, backwards, by following `slot_prev` from `tail`; `head` and `tail`
    /// are absent exactly if the list is empty. The index map has one entry for
    /// each slot of the list, under the slot's key. The view holds the pairs of
    /// the slots in list order.
    pub open spec fn structure(&self, hole: Option<usize>) -> bool {
        let order = self.order();
        let n = order.len() as int;
        &&& match hole {
            Some(h) => h < self.slots() && n + 1 == self.slots() && !order.contains(h),
            None => n == self.slots(),
        }
        &&& order.no_duplicates()
        &&& forall|p: int| 0 <= p < n ==> (#[trigger] order[p]) < self.slots()
        &&& forall|i: usize| i < self.slots() && hole != Some(i) ==> #[trigger] order.contains(i)
        &&& self.head() == (if n == 0 {
            None
        } else {
            Some(order[0])
        })
        &&& self.tail() == (if n == 0 {
            None
        } else {
            Some(order[n - 1])
        })
        &&& forall|p: int|
            0 <= p < n ==> #[trigger] self.slot_prev(order[p]) == (if p == 0 {
                None
            } else {
                Some(order[p - 1])
            })
        &&& forall|p: int|
            0 <= p < n ==> #[trigger] self.slot_next(order[p]) == (if p + 1 == n {
                None
            } else {
                Some(order[p + 1])
            })
        &&& self.index().dom().finite()
        &&& self.index().len() == n
        &&& forall|i: usize|
            i < self.slots() && hole != Some(i) ==> self.index().contains_key(
                #[trigger] self.slot_key(i),
            ) && self.index()[self.slot_key(i)] == i
        &&& forall|k: K| #[trigger]
            self.index().contains_key(k) ==> self.index()[k] < self.slots() && hole != Some(
                self.index()[k],
            ) && self.slot_key(self.index()[k]) == k
        &&& self@.len() == n
        &&& forall|p: int|
            0 <= p < n ==> #[trigger] self@[p] == (self.slot_key(order[p]), self.slot_value(order[p]))
    }

    /// How arena and index map of `self` have changed in `after` when a pair
    /// of key `key` was put into a store that may hold `cap` pairs. A key that
    /// was present keeps its slot, and the index map is the same. A new key
    /// gets a fresh slot at the end of the arena while there is room; else it
    /// takes over the slot of the former tail, whose key leaves the index map.
    /// Either way its slot becomes the head. With `cap == 0` nothing changes.
    pub open spec fn put_layout(self, after: Self, cap: nat, key: K) -> bool {
        if self.index().contains_key(key) {
            &&& after.slots() == self.slots()
            &&& after.index() == self.index()
            &&& after.head() == Some(self.index()[key])
        } else if self.slots() < cap {
            &&& after.slots() == self.slots() + 1
            &&& after.index() == self.index().insert(key, self.slots() as usize)
            &&& after.head() == Some(self.slots() as usize)
        } else if cap > 0 {
            &&& after.slots() == self.slots()
            &&& self.tail() is Some
            &&& after.index() == self.index().remove(self.slot_key(self.tail()->0)).insert(
                key,
                self.tail()->0,
            )
            &&& after.head() == self.tail()
        } else {
            &&& after.slots() == self.slots()
            &&& after.index() == self.index()
            &&& after.head() == self.head()
        }
    }

    /// How arena and index map of `self` have changed in `after` when the
    /// pair of key `key` was removed. If the key was absent, nothing has
    /// changed. Else the arena is one slot shorter and the key has left the
    /// index map; the key of the former last slot now leads to the slot that
    /// `key` had, and every other key leads where it led before.
    pub open spec fn pop_layout(self, after: Self, key: K) -> bool {
        if self.index().contains_key(key) {
            &&& after.slots() + 1 == self.slots()
            &&& after.index().dom() == self.index().dom().remove(key)
            &&& forall|k: K| #[trigger]
                after.index().contains_key(k) ==> after.index()[k] == (if self.index()[k] + 1
                    == self.slots() {
                    self.index()[key]
                } else {
                    self.index()[k]
                })
        } else {
            &&& after.slots() == self.slots()
            &&& after.index() == self.index()
            &&& after.order() == self.order()
        }
    }

    /// Arena, list and index map agree, except that slot `hole`, if given, is
    /// neither in the list nor in the index map.
    spec fn consistent(&self, hole: Option<usize>) -> bool {
        &&& obeys_key_model::<K>()
        &&& chain_ok(self.values@, self.head, self.tail, self.order@)
        &&& index_ok(self.values@, self.locations@, hole)
        &&& match hole {
            Some(h) => h < self.values@.len() && self.order@.len() + 1 == self.values@.len()
                && !self.order@.contains(h),
            None => self.order@.len() == self.values@.len(),
        }
    }

    /// The store is well formed: the list visits every slot exactly once, and
    /// the index map leads from each stored key to its slot.
    pub closed spec fn wf(&self) -> bool {
        self.consistent(None)
    }

    /// The store is well formed but for slot `hole`, which is detached: it is in
    /// the arena, but neither in the list nor in the index map.
    pub closed spec fn wf_but(&self, hole: usize) -> bool {
        self.consistent(Some(hole))
    }

    /// Every slot of the list is a slot of the arena.
    proof fn lemma_in_range(&self)
        requires
            chain_ok(self.values@, self.head, self.tail, self.order@),
        ensures
            forall|p: int| 0 <= p < self.order@.len() ==> (#[trigger] self.order@[p]) < self.values@.len(),
    {
        assert forall|p: int| 0 <= p < self.order@.len() implies (#[trigger] self.order@[p])
            < self.values@.len() by {
            assert(link_ok(self.values@, self.order@, p));
        }
    }

    /// The slot at a position of the list is not the hole.
    proof fn lemma_listed(&self, hole: Option<usize>, p: int)
        requires
            self.consistent(hole),
            0 <= p < self.order@.len(),
        ensures
            self.order@[p] < self.values@.len(),
            hole != Some(self.order@[p]),
            slot_indexed(self.values@, self.locations@, self.order@[p] as int),
    {
        assert(link_ok(self.values@, self.order@, p));
        if hole == Some(self.order@[p]) {
            assert(self.order@.contains(self.order@[p]));
        }
    }

    /// A slot other than the hole has a position in the list, and the view
    /// holds the slot's pair there and nowhere else.
    proof fn lemma_slot(&self, hole: Option<usize>, i: usize)
        requires
            self.consistent(hole),
            i < self.values@.len(),
            hole != Some(i),
        ensures
            self.order@.contains(i),
            0 <= self.order@.index_of(i) < self.order@.len(),
            self.order@[self.order@.index_of(i)] == i,
            model::has_key(self@, self.values@[i as int].key),
            model::rank_of(self@, self.values@[i as int].key) == self.order@.index_of(i),
    {
        self.lemma_in_range();
        lemma_order_covers(self.order@, self.values@.len(), hole);
        assert(self.order@.contains(i));
        let p = self.order@.index_of(i);
        assert(self@[p].0 == self.values@[i as int].key);
        self.lemma_distinct(hole);
        model::lemma_rank_unique(self@, p);
    }

    /// The keys of the view are distinct whenever arena, list and index map
    /// agree.
    proof fn lemma_distinct(&self, hole: Option<usize>)
        requires
            self.consistent(hole),
        ensures
            model::distinct_keys(self@),
    {
        assert forall|p: int, q: int|
            0 <= p < self@.len() && 0 <= q < self@.len() && p != q implies (#[trigger] self@[p]).0
            != (#[trigger] self@[q]).0 by {
            self.lemma_listed(hole, p);
            self.lemma_listed(hole, q);
            assert(self.order@[p] != self.order@[q]);
        }
    }

    /// The keys of the view are the keys of the index map.
    proof fn lemma_keys(&self, hole: Option<usize>, key: K)
        requires
            self.consistent(hole),
        ensures
            model::has_key(self@, key) <==> self.locations@.contains_key(key),
    {
        if self.locations@.contains_key(key) {
            self.lemma_slot(hole, self.locations@[key]);
        }
        if model::has_key(self@, key) {
            let p = model::rank_of(self@, key);
            assert(self@[p].0 == key);
            self.lemma_listed(hole, p);
        }
    }

    /// A well-formed store has the structure that [`Store::structure`] spells
    /// out, with no slot detached.
    pub proof fn lemma_structure(&self)
        requires
            self.wf(),
        ensures
            self.structure(None),
    {
        self.lemma_consistent(None);
    }

    /// A store that is well formed but for the detached slot `hole` has the
    /// structure that [`Store::structure`] spells out, with `hole` left out of
    /// list and index map.
    pub proof fn lemma_structure_but(&self, hole: usize)
        requires
            self.wf_but(hole),
        ensures
            self.structure(Some(hole)),
    {
        self.lemma_consistent(Some(hole));
    }

    /// Arena, list and index map that agree have the structure spelt out.
    proof fn lemma_consistent(&self, hole: Option<usize>)
        requires
            self.consistent(hole),
        ensures
            self.structure(hole),
    {
        let n = self.values@.len();
        self.lemma_in_range();
        lemma_order_covers(self.order@, n, hole);
        assert forall|p: int| 0 <= p < self.order@.len() implies self.values@[(
            #[trigger] self.order@[p]) as int].prev == prev_at(self.order@, p) && self.values@[self.order@[p] as int].next
            == next_at(self.order@, p) by {
            assert(link_ok(self.values@, self.order@, p));
        }
        assert forall|i: usize| i < n && hole != Some(i) implies self.locations@.contains_key(
            #[trigger] self.values@[i as int].key,
        ) && self.locations@[self.values@[i as int].key] == i by {
            assert(slot_indexed(self.values@, self.locations@, i as int));
        }
        self.lemma_index_size(hole);
    }

    /// The index map has as many entries as the list has slots.
    proof fn lemma_index_size(&self, hole: Option<usize>)
        requires
            self.consistent(hole),
        ensures
            self.locations@.dom().finite(),
            self.locations@.len() == self.order@.len(),
    {
        let n = self.values@.len();
        let keys = self.locations@.dom();
        let slot = |k: K| self.locations@[k] as int;
        let range = set_int_range(0, n as int);
        let listed = match hole {
            Some(h) => range.remove(h as int),
            None => range,
        };
        lemma_int_range(0, n as int);
        assert(keys.finite());
        assert(keys.map(slot) =~= listed) by {
            assert forall|i: int| listed.contains(i) implies keys.map(slot).contains(i) by {
                assert(slot_indexed(self.values@, self.locations@, i));
                assert(keys.contains(self.values@[i].key) && slot(self.values@[i].key) == i);
            }
            assert forall|i: int| keys.map(slot).contains(i) implies listed.contains(i) by {
                let k = choose|k: K| keys.contains(k) && i == slot(k);
                assert(self.locations@.contains_key(k));
            }
        }
        assert forall|a: K, b: K|
            keys.contains(a) && keys.contains(b) && #[trigger] slot(a) == #[trigger] slot(b) implies a
            == b by {
            assert(self.locations@.contains_key(a) && self.locations@.contains_key(b));
        }
        lemma_map_size(keys, listed, slot);
    }

    /// In a well-formed store the view has one pair for each slot, no key
    /// occurs twice, and each slot's pair is in the view.
    pub proof fn lemma_view(&self)
        requires
            self.wf(),
        ensures
            self@.len() == self.slots(),
            model::distinct_keys(self@),
            forall|i: usize|
                i < self.slots() ==> model::value_of(self@, #[trigger] self.slot_key(i)) == Some(
                    self.slot_value(i),
                ),
    {
        self.lemma_distinct(None);
        assert forall|i: usize| i < self.slots() implies model::value_of(
            self@,
            #[trigger] self.slot_key(i),
        ) == Some(self.slot_value(i)) by {
            self.lemma_slot(None, i);
        }
    }

    /// An empty store.
    pub fn new() -> (store: Self)
        requires
            obeys_key_model::<K>(),
        ensures
            store.wf(),
            store@ == Seq::<(K, V)>::empty(),
            store.slots() == 0,
            store.order() == Seq::<usize>::empty(),
            store.index() == Map::<K, usize>::empty(),
            store.head() is None,
            store.tail() is None,
    {
        let store = Store {
            locations: HashMap::new(),
            head: None,
            tail: None,
            values: Vec::new(),
            order: Ghost(Seq::empty()),
        };
        assert(store@ =~= Seq::<(K, V)>::empty());
        store
    }

    /// The number of stored pairs.
    pub fn len(&self) -> (n: usize)
        requires
            self.wf(),
        ensures
            n == self@.len(),
            n == self.slots(),
    {
        self.values.len()
    }

    /// The value held by slot `index`.
    pub fn value(&self, index: usize) -> (value: &V)
        requires
            self.wf(),
            index < self.slots(),
        ensures
            *value == self.slot_value(index),
    {
        &self.values[index].value
    }

    /// A mutable reference to the value in slot `index`, in terms of the arena.
    fn slot_mut(&mut self, index: usize) -> (value: &mut V)
        requires
            index < old(self).values@.len(),
        ensures
            *value == old(self).values@[index as int].value,
            *final(value) == final(self).values@[index as int].value,
            same_but_value(old(self).values@, final(self).values@, index as int),
            final(self).order@ == old(self).order@,
            final(self).head == old(self).head,
            final(self).tail == old(self).tail,
            final(self).locations == old(self).locations,
    {
        &mut self.values[index].value
    }

    /// When another value is written into slot `index` and nothing else
    /// changes, list and index map still fit the arena, and the pairs are the
    /// former ones with the new value under the slot's key.
    proof fn lemma_value_written(&self, after: Seq<Entry<K, V>>, index: usize)
        requires
            self.wf(),
            index < self.values@.len(),
            same_but_value(self.values@, after, index as int),
        ensures
            chain_ok(after, self.head, self.tail, self.order@),
            index_ok(after, self.locations@, None),
            pairs(after, self.order@) == model::with_value(
                self@,
                self.values@[index as int].key,
                after[index as int].value,
            ),
    {
        let before = self.values@;
        let order = self.order@;
        self.lemma_slot(None, index);
        self.lemma_in_range();
        assert forall|p: int| 0 <= p < order.len() implies #[trigger] link_ok(after, order, p) by {
            assert(link_ok(before, order, p));
        }
        assert forall|i: int| 0 <= i < after.len() implies #[trigger] slot_indexed(
            after,
            self.locations@,
            i,
        ) by {
            assert(slot_indexed(before, self.locations@, i));
        }
        assert(pairs(after, order) =~= pairs(before, order).update(
            order.index_of(index),
            (before[index as int].key, after[index as int].value),
        ));
    }

    /// A mutable reference to the value held by slot `index`. What the caller
    /// writes through it becomes the stored value; nothing else changes.
    pub fn value_mut(&mut self, index: usize) -> (value: &mut V)
        requires
            old(self).wf(),
            index < old(self).slots(),
        ensures
            *value == old(self).slot_value(index),
            final(self).wf(),
            final(self)@ == model::with_value(old(self)@, old(self).slot_key(index), *final(value)),
            final(self).slot_value(index) == *final(value),
            final(self).slot_key(index) == old(self).slot_key(index),
            final(self).order() == old(self).order(),
            final(self).head() == old(self).head(),
            final(self).tail() == old(self).tail(),
            final(self).index() == old(self).index(),
            final(self).slots() == old(self).slots(),
            old(self).slots_kept(*final(self), Some(index)),
    {
        proof {
            assert forall|after: Seq<Entry<K, V>>| #[trigger]
                same_but_value(self.values@, after, index as int) implies {
                &&& chain_ok(after, self.head, self.tail, self.order@)
                &&& index_ok(after, self.locations@, None)
                &&& pairs(after, self.order@) == model::with_value(
                    self@,
                    self.values@[index as int].key,
                    after[index as int].value,
                )
            } by {
                self.lemma_value_written(after, index);
            }
        }
        self.slot_mut(index)
    }

    /// Puts `value` into slot `index` and returns the value that was there.
    /// Nothing else changes.
    pub fn set_value(&mut self, index: usize, value: V) -> (previous: V)
        requires
            old(self).wf(),
            index < old(self).slots(),
        ensures
            final(self).wf(),
            final(self)@ == model::with_value(old(self)@, old(self).slot_key(index), value),
            previous == old(self).slot_value(index),
            final(self).slot_value(index) == value,
            final(self).slot_key(index) == old(self).slot_key(index),
            final(self).order() == old(self).order(),
            final(self).head() == old(self).head(),
            final(self).tail() == old(self).tail(),
            final(self).index() == old(self).index(),
            final(self).slots() == old(self).slots(),
            old(self).slots_kept(*final(self), Some(index)),
    {
        let mut value = value;
        std::mem::swap(&mut self.values[index].value, &mut value);
        proof {
            old(self).lemma_value_written(self.values@, index);
        }
        value
    }

    /// Takes slot `index` out of the list: its two neighbours are joined to
    /// each other, or become the new head or tail. Keys, values and index map
    /// stay as they are.
    fn unlink(&mut self, index: usize)
        requires
            chain_ok(old(self).values@, old(self).head, old(self).tail, old(self).order@),
            old(self).order@.contains(index),
        ensures
            chain_ok(final(self).values@, final(self).head, final(self).tail, final(self).order@),
            final(self).order@ == old(self).order@.remove(old(self).order@.index_of(index)),
            !final(self).order@.contains(index),
            same_payload(old(self).values@, final(self).values@),
            final(self).locations == old(self).locations,
    {
        let ghost order = self.order@;
        let ghost pos = order.index_of(index);
        let ghost before = self.values@;
        proof {
            assert(link_ok(before, order, pos));
            if pos > 0 {
                assert(link_ok(before, order, pos - 1));
            }
            if pos + 1 < order.len() {
                assert(link_ok(before, order, pos + 1));
            }
        }
        let prev = self.values[index].prev;
        let next = self.values[index].next;
        match prev {
            Some(p) => {
                self.values[p].next = next;
            },
            None => {
                self.head = next;
            },
        }
        match next {
            Some(n) => {
                self.values[n].prev = prev;
            },
            None => {
                self.tail = prev;
            },
        }
        proof {
            self.order@ = order.remove(pos);
            let after = self.values@;
            let rest = self.order@;
            assert forall|q: int| 0 <= q < rest.len() implies #[trigger] link_ok(after, rest, q) by {
                let oq = if q < pos { q } else { q + 1 };
                assert(link_ok(before, order, oq));
                assert(rest[q] == order[oq]);
                if q > 0 {
                    let op = if q - 1 < pos { q - 1 } else { q };
                    assert(rest[q - 1] == order[op]);
                }
                if q + 1 < rest.len() {
                    let on = if q + 1 < pos { q + 1 } else { q + 2 };
                    assert(rest[q + 1] == order[on]);
                }
            }
            assert forall|i: int, j: int|
                0 <= i < rest.len() && 0 <= j < rest.len() && i != j implies rest[i] != rest[j] by {
                let oi = if i < pos { i } else { i + 1 };
                let oj = if j < pos { j } else { j + 1 };
                assert(rest[i] == order[oi] && rest[j] == order[oj]);
            }
            assert(!rest.contains(index)) by {
                if rest.contains(index) {
                    let q = choose|q: int| 0 <= q < rest.len() && rest[q] == index;
                    let oq = if q < pos { q } else { q + 1 };
                    assert(rest[q] == order[oq]);
                }
            }
        }
    }

    /// Makes slot `index`, which is not in the list, the new head.
    fn link_at_head(&mut self, index: usize)
        requires
            chain_ok(old(self).values@, old(self).head, old(self).tail, old(self).order@),
            index < old(self).values@.len(),
            !old(self).order@.contains(index),
        ensures
            chain_ok(final(self).values@, final(self).head, final(self).tail, final(self).order@),
            final(self).order@ == seq![index] + old(self).order@,
            final(self).head == Some(index),
            same_payload(old(self).values@, final(self).values@),
            final(self).locations == old(self).locations,
    {
        let ghost order = self.order@;
        let ghost before = self.values@;
        proof {
            if order.len() > 0 {
                assert(link_ok(before, order, 0));
            }
        }
        let old_head = self.head;
        self.values[index].prev = None;
        self.values[index].next = old_head;
        match old_head {
            Some(h) => {
                self.values[h].prev = Some(index);
            },
            None => {
                self.tail = Some(index);
            },
        }
        self.head = Some(index);
        proof {
            self.order@ = seq![index] + order;
            let after = self.values@;
            let grown = self.order@;
            assert forall|q: int| 0 <= q < grown.len() implies #[trigger] link_ok(after, grown, q) by {
                if q > 0 {
                    assert(link_ok(before, order, q - 1));
                    assert(grown[q] == order[q - 1]);
                    assert(order.contains(order[q - 1]));
                    if q > 1 {
                        assert(grown[q - 1] == order[q - 2]);
                    }
                    if q + 1 < grown.len() {
                        assert(grown[q + 1] == order[q]);
                    }
                } else {
                    if grown.len() > 1 {
                        assert(grown[1] == order[0]);
                    }
                }
            }
            assert forall|i: int, j: int|
                0 <= i < grown.len() && 0 <= j < grown.len() && i != j implies grown[i] != grown[j] by {
                if i > 0 {
                    assert(grown[i] == order[i - 1]);
                    assert(order.contains(order[i - 1]));
                }
                if j > 0 {
                    assert(grown[j] == order[j - 1]);
                    assert(order.contains(order[j - 1]));
                }
            }
        }
    }

    /// Prepares the move of the last slot of the arena into the detached slot
    /// `hole`: the neighbours of the last slot, or `head` and `tail`, are made
    /// to point at `hole`, and `hole` takes the last slot's place in the list.
    /// The links then fit the arena as it is once the last slot has moved.
    fn repoint_last(&mut self, hole: usize, last: usize)
        requires
            chain_ok(old(self).values@, old(self).head, old(self).tail, old(self).order@),
            last + 1 == old(self).values@.len(),
            hole < last,
            !old(self).order@.contains(hole),
            old(self).order@.contains(last),
        ensures
            chain_ok(
                closed_up(final(self).values@, hole as int),
                final(self).head,
                final(self).tail,
                final(self).order@,
            ),
            final(self).order@ == old(self).order@.update(old(self).order@.index_of(last), hole),
            same_payload(old(self).values@, final(self).values@),
            final(self).locations == old(self).locations,
    {
        let ghost order = self.order@;
        let ghost before = self.values@;
        let ghost pos = order.index_of(last);
        proof {
            assert(link_ok(before, order, pos));
            if pos > 0 {
                assert(link_ok(before, order, pos - 1));
            }
            if pos + 1 < order.len() {
                assert(link_ok(before, order, pos + 1));
            }
        }
        let prev = self.values[last].prev;
        let next = self.values[last].next;
        match prev {
            Some(p) => {
                self.values[p].next = Some(hole);
            },
            None => {
                self.head = Some(hole);
            },
        }
        match next {
            Some(n) => {
                self.values[n].prev = Some(hole);
            },
            None => {
                self.tail = Some(hole);
            },
        }
        proof {
            self.order@ = order.update(pos, hole);
            let closed = closed_up(self.values@, hole as int);
            let moved = self.order@;
            assert forall|q: int| 0 <= q < moved.len() implies #[trigger] link_ok(closed, moved, q) by {
                assert(link_ok(before, order, q));
                assert(order.contains(order[q]));
                if q > 0 {
                    assert(order.contains(order[q - 1]));
                }
                if q + 1 < order.len() {
                    assert(order.contains(order[q + 1]));
                }
            }
            assert forall|i: int, j: int|
                0 <= i < moved.len() && 0 <= j < moved.len() && i != j implies moved[i] != moved[j] by {
                assert(order.contains(order[i]));
                assert(order.contains(order[j]));
            }
        }
    }

    /// Promotes slot `index` to the head of the list, so that its pair becomes
    /// the most recently used one. A slot that is the head already, as the only
    /// slot of a store always is, stays where it is.
    pub fn move_to_head(&mut self, index: usize)
        requires
            old(self).wf(),
            index < old(self).slots(),
        ensures
            final(self).wf(),
            final(self)@ == model::touch(old(self)@, old(self).slot_key(index)),
            final(self).order() == seq![index] + old(self).order().remove(
                old(self).order().index_of(index),
            ),
            final(self).head() == Some(index),
            final(self).index() == old(self).index(),
            final(self).slots() == old(self).slots(),
            old(self).slots_kept(*final(self), None),
    {
        let ghost order = self.order@;
        let ghost before = self.values@;
        let ghost pos = order.index_of(index);
        proof {
            self.lemma_slot(None, index);
            self.lemma_in_range();
        }
        if self.head == Some(index) {
            proof {
                assert(order[0] == index);
                assert(self@ =~= seq![self@[0]] + self@.remove(0));
                assert(order =~= seq![index] + order.remove(0));
            }
            return;
        }
        self.unlink(index);
        self.link_at_head(index);
        proof {
            let after = self.values@;
            lemma_index_ok_payload(before, after, self.locations@, None);
            lemma_pairs_payload(before, after, self.order@);
            assert(pairs(before, seq![index] + order.remove(pos)) =~= seq![pairs(before, order)[pos]]
                + pairs(before, order).remove(pos));
        }
    }

    /// Empties arena, list and index map.
    pub fn clear(&mut self)
        requires
            old(self).wf(),
        ensures
            final(self).wf(),
            final(self)@ == Seq::<(K, V)>::empty(),
            final(self).slots() == 0,
            final(self).order() == Seq::<usize>::empty(),
            final(self).index() == Map::<K, usize>::empty(),
            final(self).head() is None,
            final(self).tail() is None,
    {
        self.locations.clear();
        self.values.clear();
        self.head = None;
        self.tail = None;
        proof {
            self.order@ = Seq::empty();
            assert(self@ =~= Seq::<(K, V)>::empty());
        }
    }
}

impl<K: Hash + Eq, V> Store<K, V> {
    /// The slot that holds `key`, if the key is stored.
    pub fn find(&self, key: &K) -> (slot: Option<usize>)
        requires
            self.wf(),
        ensures
            match slot {
                Some(i) => {
                    &&& i < self.slots()
                    &&& self.slot_key(i) == *key
                    &&& model::has_key(self@, *key)
                    &&& self.index().contains_key(*key)
                    &&& self.index()[*key] == i
                },
                None => !model::has_key(self@, *key) && !self.index().contains_key(*key),
            },
    {
        let found = self.locations.get(key);
        match found {
            Some(index) => {
                proof {
                    self.lemma_view();
                }
                Some(*index)
            },
            None => {
                proof {
                    if model::has_key(self@, *key) {
                        let p = model::rank_of(self@, *key);
                        assert(self@[p].0 == *key);
                        self.lemma_listed(None, p);
                    }
                }
                None
            },
        }
    }

    /// Takes slot `index` out of the list and its key out of the index map. The
    /// slot stays in the arena, with its key and value, as a hole to be reused
    /// or closed.
    pub fn detach(&mut self, index: usize)
        requires
            old(self).wf(),
            index < old(self).slots(),
        ensures
            final(self).wf_but(index),
            final(self)@ == model::without(old(self)@, old(self).slot_key(index)),
            final(self).order() == old(self).order().remove(old(self).order().index_of(index)),
            final(self).index() == old(self).index().remove(old(self).slot_key(index)),
            final(self).slots() == old(self).slots(),
            old(self).slots_kept(*final(self), None),
    {
        let ghost before = self.values@;
        let ghost order = self.order@;
        let ghost index_before = self.locations@;
        let ghost pos = order.index_of(index);
        proof {
            self.lemma_slot(None, index);
            self.lemma_in_range();
            assert(slot_indexed(before, index_before, index as int));
        }
        self.unlink(index);
        self.locations.remove(&self.values[index].key);
        proof {
            let after = self.values@;
            let key = before[index as int].key;
            assert(self.locations@ == index_before.remove(key));
            assert forall|i: int|
                0 <= i < after.len() && i != index implies #[trigger] slot_indexed(
                after,
                self.locations@,
                i,
            ) by {
                assert(slot_indexed(before, index_before, i));
            }
            assert forall|k: K| #[trigger] self.locations@.contains_key(k) implies {
                &&& self.locations@[k] < after.len()
                &&& self.locations@[k] != index
                &&& after[self.locations@[k] as int].key == k
            } by {
                assert(index_before.contains_key(k));
            }
            assert forall|p: int| 0 <= p < self.order@.len() implies (#[trigger] self.order@[p])
                < before.len() by {
                assert(link_ok(after, self.order@, p));
            }
            lemma_pairs_payload(before, after, self.order@);
            assert(pairs(before, order.remove(pos)) =~= pairs(before, order).remove(pos));
        }
    }

    /// Detaches the least recently used slot, the tail of the list, and returns
    /// its index.
    pub fn remove_tail(&mut self) -> (index: usize)
        requires
            old(self).wf(),
            old(self).slots() > 0,
        ensures
            final(self).wf_but(index),
            Some(index) == old(self).tail(),
            index < final(self).slots(),
            final(self)@ == old(self)@.drop_last(),
            (old(self).slot_key(index), old(self).slot_value(index)) == old(self)@.last(),
            final(self).order() == old(self).order().drop_last(),
            final(self).tail() == old(self).slot_prev(index),
            final(self).index() == old(self).index().remove(old(self).slot_key(index)),
            final(self).slots() == old(self).slots(),
            old(self).slots_kept(*final(self), None),
    {
        let ghost order = self.order@;
        let ghost last = order.len() - 1;
        proof {
            self.lemma_listed(None, last);
            self.lemma_slot(None, order[last]);
            assert(link_ok(self.values@, order, last));
            assert(self@.remove(last) =~= self@.drop_last());
            assert(order.remove(last) =~= order.drop_last());
        }
        let index = self.tail.unwrap();
        self.detach(index);
        index
    }
}

impl<K: Hash + Eq + Clone, V> Store<K, V> {
    /// Appends a slot for the new pair `(key, value)`, makes it the head of the
    /// list and enters it in the index map. Every other slot keeps its pair and
    /// its place in the list.
    pub fn add_to_head(&mut self, key: K, value: V)
        requires
            old(self).wf(),
            !model::has_key(old(self)@, key),
        ensures
            final(self).wf(),
            final(self)@ == seq![(key, value)] + old(self)@,
            final(self).slots() == old(self).slots() + 1,
            final(self).head() == Some(old(self).slots() as usize),
            final(self).slot_key(old(self).slots() as usize) == key,
            final(self).slot_value(old(self).slots() as usize) == value,
            final(self).order() == seq![old(self).slots() as usize] + old(self).order(),
            final(self).index() == old(self).index().insert(key, old(self).slots() as usize),
            old(self).slots_kept(*final(self), None),
    {
        let ghost before = self.values@;
        let ghost order = self.order@;
        let ghost index_before = self.locations@;
        proof {
            self.lemma_keys(None, key);
            self.lemma_in_range();
        }
        let index = self.values.len();
        let copy = clone_key(&key);
        self.values.push(Entry { prev: None, key, value, next: None });
        let ghost written = self.values@;
        proof {
            if order.contains(index) {
                assert(order[order.index_of(index)] < before.len());
            }
            lemma_written(before, written, self.head, self.tail, order, None, index);
        }
        self.link_at_head(index);
        self.locations.insert(copy, index);
        proof {
            lemma_entered(before, written, self.values@, index_before, order, None, index);
        }
    }

    /// Overwrites the detached slot `hole` with the new pair `(key, value)`,
    /// makes it the head of the list and enters it in the index map. Returns the
    /// pair that the slot held. Every other slot keeps its pair and its place
    /// in the list.
    pub fn add_to_head_indexed(&mut self, hole: usize, key: K, value: V) -> (previous: (K, V))
        requires
            old(self).wf_but(hole),
            !model::has_key(old(self)@, key),
        ensures
            final(self).wf(),
            final(self)@ == seq![(key, value)] + old(self)@,
            final(self).slots() == old(self).slots(),
            previous == (old(self).slot_key(hole), old(self).slot_value(hole)),
            final(self).head() == Some(hole),
            final(self).slot_key(hole) == key,
            final(self).slot_value(hole) == value,
            final(self).order() == seq![hole] + old(self).order(),
            final(self).index() == old(self).index().insert(key, hole),
            old(self).slots_kept(*final(self), Some(hole)),
    {
        let ghost before = self.values@;
        let ghost order = self.order@;
        let ghost index_before = self.locations@;
        proof {
            self.lemma_keys(Some(hole), key);
            self.lemma_in_range();
        }
        let copy = clone_key(&key);
        let mut entry = Entry { prev: None, key, value, next: None };
        std::mem::swap(&mut self.values[hole], &mut entry);
        let ghost written = self.values@;
        proof {
            lemma_written(before, written, self.head, self.tail, order, Some(hole), hole);
        }
        self.link_at_head(hole);
        self.locations.insert(copy, hole);
        proof {
            lemma_entered(before, written, self.values@, index_before, order, Some(hole), hole);
        }
        (entry.key, entry.value)
    }

    /// Closes the detached slot `hole` and returns the pair it held. Unless the
    /// hole is the last slot of the arena, the last slot moves into it: its
    /// neighbours in the list and its entry in the index map are pointed at the
    /// new place. The arena shrinks by one slot and stays dense.
    pub fn swap_with_last(&mut self, hole: usize) -> (removed: (K, V))
        requires
            old(self).wf_but(hole),
        ensures
            final(self).wf(),
            final(self)@ == old(self)@,
            final(self).slots() + 1 == old(self).slots(),
            removed == (old(self).slot_key(hole), old(self).slot_value(hole)),
            old(self).slots_kept(*final(self), Some(hole)),
            hole + 1 == old(self).slots() ==> {
                &&& final(self).order() == old(self).order()
                &&& final(self).index() == old(self).index()
            },
            hole + 1 != old(self).slots() ==> {
                let last = (old(self).slots() - 1) as usize;
                &&& final(self).slot_key(hole) == old(self).slot_key(last)
                &&& final(self).slot_value(hole) == old(self).slot_value(last)
                &&& final(self).order() == old(self).order().update(
                    old(self).order().index_of(last),
                    hole,
                )
                &&& final(self).index() == old(self).index().insert(old(self).slot_key(last), hole)
            },
    {
        let ghost before = self.values@;
        let ghost order = self.order@;
        let ghost index_before = self.locations@;
        proof {
            self.lemma_in_range();
        }
        let last = self.values.len() - 1;
        if hole != last {
            proof {
                self.lemma_slot(Some(hole), last);
            }
            self.repoint_last(hole, last);
            let moved = clone_key(&self.values[last].key);
            self.locations.insert(moved, hole);
            proof {
                lemma_index_closed(before, self.values@, index_before, hole, last);
                lemma_pairs_closed(before, self.values@, order, hole, last);
            }
        } else {
            proof {
                lemma_last_dropped(before, self.head, self.tail, order, index_before, last);
            }
        }
        let entry = self.values.swap_remove(hole);
        (entry.key, entry.value)
    }
}

} // verus!
