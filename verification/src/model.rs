//! The mathematical model of a least-recently-used cache.
//!
//! A cache is a sequence of `(key, value)` pairs in order of recency: the pair at
//! index 0 was used most recently, the last pair least recently. No key occurs
//! twice. Every cache of this crate has such a sequence as its view, and the
//! contracts of their operations are stated with the functions of this module.

use vstd::prelude::*;

verus! {

/// Some pair of `s` carries the key `k`.
pub open spec fn has_key<K, V>(s: Seq<(K, V)>, k: K) -> bool {
    exists|i: int| 0 <= i < s.len() && (#[trigger] s[i]).0 == k
}

/// An index at which `s` carries the key `k`: the only one when the keys of `s`
/// are distinct. Arbitrary when `k` is absent.
pub open spec fn rank_of<K, V>(s: Seq<(K, V)>, k: K) -> int {
    choose|i: int| 0 <= i < s.len() && (#[trigger] s[i]).0 == k
}

/// No key occurs at two indices of `s`.
pub open spec fn distinct_keys<K, V>(s: Seq<(K, V)>) -> bool {
    forall|i: int, j: int|
        0 <= i < s.len() && 0 <= j < s.len() && i != j ==> (#[trigger] s[i]).0 != (#[trigger] s[j]).0
}

/// The value stored under `k`, if any.
pub open spec fn value_of<K, V>(s: Seq<(K, V)>, k: K) -> Option<V> {
    if has_key(s, k) {
        Some(s[rank_of(s, k)].1)
    } else {
        None
    }
}

/// `s` without the pair of key `k`; `s` itself when `k` is absent.
pub open spec fn without<K, V>(s: Seq<(K, V)>, k: K) -> Seq<(K, V)> {
    if has_key(s, k) {
        s.remove(rank_of(s, k))
    } else {
        s
    }
}

/// `s` after a use of key `k`: its pair moves to the front, the others keep
/// their order. `s` itself when `k` is absent.
pub open spec fn touch<K, V>(s: Seq<(K, V)>, k: K) -> Seq<(K, V)> {
    if has_key(s, k) {
        seq![s[rank_of(s, k)]] + s.remove(rank_of(s, k))
    } else {
        s
    }
}

/// `s` with the value under `k` replaced by `v`, every pair staying in place.
/// `s` itself when `k` is absent.
pub open spec fn with_value<K, V>(s: Seq<(K, V)>, k: K, v: V) -> Seq<(K, V)> {
    if has_key(s, k) {
        s.update(rank_of(s, k), (k, v))
    } else {
        s
    }
}

/// The pair `(k, v)` in front of what `s` holds under other keys.
pub open spec fn with_front<K, V>(s: Seq<(K, V)>, k: K, v: V) -> Seq<(K, V)> {
    seq![(k, v)] + without(s, k)
}

/// The `cap` most recently used pairs of `s`.
pub open spec fn truncated<K, V>(s: Seq<(K, V)>, cap: nat) -> Seq<(K, V)> {
    if s.len() > cap {
        s.take(cap as int)
    } else {
        s
    }
}

/// The cache `s` of capacity `cap` after `(k, v)` was put into it: the pair
/// stands in front, an older pair of the same key is gone, and what no longer
/// fits has left at the least recently used end.
pub open spec fn insert<K, V>(s: Seq<(K, V)>, cap: nat, k: K, v: V) -> Seq<(K, V)> {
    truncated(with_front(s, k, v), cap)
}

/// The pair that leaves a cache `s` of capacity `cap` and at most `cap` pairs
/// when `(k, v)` is put into it, if one has to leave.
pub open spec fn evicted<K, V>(s: Seq<(K, V)>, cap: nat, k: K, v: V) -> Option<(K, V)> {
    let t = with_front(s, k, v);
    if t.len() > cap {
        Some(t[cap as int])
    } else {
        None
    }
}

/// What a caller gets back who puts `(k, v)` into the cache `s` of capacity
/// `cap` and asks for the pair that made room: the pair that `k` had before, or
/// else the pair that had to leave, if any.
pub open spec fn displaced<K, V>(s: Seq<(K, V)>, cap: nat, k: K, v: V) -> Option<(K, V)> {
    if has_key(s, k) {
        Some((k, s[rank_of(s, k)].1))
    } else {
        evicted(s, cap, k, v)
    }
}

/// The cache `s` of capacity `cap` after the pairs of `items` were put into it
/// one after the other, `items[0]` first.
pub open spec fn insert_all<K, V>(s: Seq<(K, V)>, cap: nat, items: Seq<(K, V)>) -> Seq<(K, V)>
    decreases items.len(),
{
    if items.len() == 0 {
        s
    } else {
        insert(insert_all(s, cap, items.drop_last()), cap, items.last().0, items.last().1)
    }
}

/// The pairs of `items` in reverse order.
pub open spec fn reversed<K, V>(items: Seq<(K, V)>) -> Seq<(K, V)> {
    Seq::new(items.len(), |i: int| items[items.len() - 1 - i])
}

/// In a sequence of distinct keys, the index of a key is the one place where it
/// occurs.
pub proof fn lemma_rank_unique<K, V>(s: Seq<(K, V)>, i: int)
    requires
        distinct_keys(s),
        0 <= i < s.len(),
    ensures
        has_key(s, s[i].0),
        rank_of(s, s[i].0) == i,
        value_of(s, s[i].0) == Some(s[i].1),
{
    let k = s[i].0;
    assert(0 <= i < s.len() && s[i].0 == k);
    let r = rank_of(s, k);
    assert(0 <= r < s.len() && s[r].0 == k);
    if r != i {
        assert(s[r].0 != s[i].0);
    }
}

/// Putting a pair under a key that is present amounts to writing the value in
/// place and then using the key.
pub proof fn lemma_insert_present<K, V>(s: Seq<(K, V)>, cap: nat, k: K, v: V)
    requires
        distinct_keys(s),
        has_key(s, k),
        s.len() <= cap,
    ensures
        insert(s, cap, k, v) == touch(with_value(s, k, v), k),
        insert(s, cap, k, v) == seq![(k, v)] + s.remove(rank_of(s, k)),
        insert(s, cap, k, v).len() == s.len(),
        evicted(s, cap, k, v) is None,
{
    let r = rank_of(s, k);
    let written = s.update(r, (k, v));
    assert(distinct_keys(written)) by {
        assert forall|i: int, j: int|
            0 <= i < written.len() && 0 <= j < written.len() && i != j implies (#[trigger] written[i]).0
            != (#[trigger] written[j]).0 by {
            assert(s[i].0 != s[j].0);
        }
    }
    assert(written[r].0 == k);
    lemma_rank_unique(written, r);
    assert(written.remove(r) =~= s.remove(r));
}

/// Putting a pair under a new key into a cache with room left adds it in front.
pub proof fn lemma_insert_with_room<K, V>(s: Seq<(K, V)>, cap: nat, k: K, v: V)
    requires
        !has_key(s, k),
        s.len() < cap,
    ensures
        insert(s, cap, k, v) == seq![(k, v)] + s,
        evicted(s, cap, k, v) is None,
{
}

/// Putting a pair under a new key into a full cache adds it in front and drops
/// the last pair, the least recently used one. A cache of capacity 0 stays
/// empty, and the pair that leaves is the new one.
pub proof fn lemma_insert_full<K, V>(s: Seq<(K, V)>, cap: nat, k: K, v: V)
    requires
        !has_key(s, k),
        s.len() == cap,
    ensures
        cap > 0 ==> insert(s, cap, k, v) == seq![(k, v)] + s.drop_last(),
        cap > 0 ==> evicted(s, cap, k, v) == Some(s.last()),
        cap == 0 ==> insert(s, cap, k, v) == s,
        cap == 0 ==> evicted(s, cap, k, v) == Some((k, v)),
{
    if cap > 0 {
        assert((seq![(k, v)] + s).take(cap as int) =~= seq![(k, v)] + s.drop_last());
    } else {
        assert((seq![(k, v)] + s).take(0) =~= s);
    }
}

/// A key is absent from what is left when the last pair is dropped, if it was
/// absent before.
pub proof fn lemma_absent_after_drop<K, V>(s: Seq<(K, V)>, k: K)
    requires
        !has_key(s, k),
        s.len() > 0,
    ensures
        !has_key(s.drop_last(), k),
{
    if has_key(s.drop_last(), k) {
        let i = rank_of(s.drop_last(), k);
        assert(s[i].0 == k);
    }
}

/// A key is in `s` without the pair at index `r` exactly if it is in `s` at
/// another index; the keys stay distinct.
pub proof fn lemma_remove<K, V>(s: Seq<(K, V)>, r: int)
    requires
        distinct_keys(s),
        0 <= r < s.len(),
    ensures
        distinct_keys(s.remove(r)),
        !has_key(s.remove(r), s[r].0),
        forall|k: K| k != s[r].0 ==> (has_key(s, k) <==> #[trigger] has_key(s.remove(r), k)),
        forall|k: K| k != s[r].0 ==> value_of(s, k) == #[trigger] value_of(s.remove(r), k),
{
    let t = s.remove(r);
    assert forall|i: int| 0 <= i < t.len() implies #[trigger] t[i] == s[if i < r { i } else { i + 1 }] by {}
    assert forall|i: int, j: int| 0 <= i < t.len() && 0 <= j < t.len() && i != j implies (#[trigger] t[i]).0
        != (#[trigger] t[j]).0 by {
        let oi = if i < r { i } else { i + 1 };
        let oj = if j < r { j } else { j + 1 };
        assert(s[oi].0 != s[oj].0);
    }
    if has_key(t, s[r].0) {
        let i = rank_of(t, s[r].0);
        let oi = if i < r { i } else { i + 1 };
        assert(s[oi].0 != s[r].0);
    }
    assert forall|k: K| k != s[r].0 implies (has_key(s, k) <==> #[trigger] has_key(t, k)) && value_of(s, k)
        == value_of(t, k) by {
        if has_key(s, k) {
            let i = rank_of(s, k);
            let ni = if i < r { i } else { i - 1 };
            assert(t[ni] == s[i]);
            lemma_rank_unique(s, i);
            lemma_rank_unique(t, ni);
        }
        if has_key(t, k) {
            let i = rank_of(t, k);
            let oi = if i < r { i } else { i + 1 };
            assert(s[oi].0 == k);
        }
    }
}

/// With a pair of a new key in front, the keys stay distinct, and the new key
/// leads to its value.
pub proof fn lemma_front<K, V>(s: Seq<(K, V)>, k: K, v: V)
    requires
        distinct_keys(s),
        !has_key(s, k),
    ensures
        distinct_keys(seq![(k, v)] + s),
        value_of(seq![(k, v)] + s, k) == Some(v),
        forall|k2: K| k2 != k ==> (has_key(s, k2) <==> #[trigger] has_key(seq![(k, v)] + s, k2)),
        forall|k2: K| k2 != k ==> value_of(s, k2) == #[trigger] value_of(seq![(k, v)] + s, k2),
{
    let t = seq![(k, v)] + s;
    assert forall|i: int| 1 <= i < t.len() implies #[trigger] t[i] == s[i - 1] by {}
    assert forall|i: int, j: int| 0 <= i < t.len() && 0 <= j < t.len() && i != j implies (#[trigger] t[i]).0
        != (#[trigger] t[j]).0 by {
        if i > 0 {
            assert(s[i - 1].0 == t[i].0);
        }
        if j > 0 {
            assert(s[j - 1].0 == t[j].0);
        }
        if i > 0 && j > 0 {
            assert(s[i - 1].0 != s[j - 1].0);
        }
    }
    assert(t[0] == (k, v));
    lemma_rank_unique(t, 0);
    assert forall|k2: K| k2 != k implies (has_key(s, k2) <==> #[trigger] has_key(t, k2)) && value_of(s, k2)
        == value_of(t, k2) by {
        if has_key(s, k2) {
            let i = rank_of(s, k2);
            assert(t[i + 1] == s[i]);
            lemma_rank_unique(s, i);
            lemma_rank_unique(t, i + 1);
        }
        if has_key(t, k2) {
            let i = rank_of(t, k2);
            assert(s[i - 1].0 == k2);
        }
    }
}

/// The keys of a cache stay distinct under every operation.
pub proof fn law_keys_stay_distinct<K, V>(s: Seq<(K, V)>, cap: nat, k: K, v: V)
    requires
        distinct_keys(s),
    ensures
        distinct_keys(without(s, k)),
        distinct_keys(touch(s, k)),
        distinct_keys(with_value(s, k, v)),
        distinct_keys(with_front(s, k, v)),
        distinct_keys(insert(s, cap, k, v)),
{
    if has_key(s, k) {
        let r = rank_of(s, k);
        lemma_remove(s, r);
        lemma_front(s.remove(r), k, s[r].1);
        assert(seq![(k, s[r].1)] + s.remove(r) =~= seq![s[r]] + s.remove(r));
        let written = s.update(r, (k, v));
        assert forall|i: int, j: int|
            0 <= i < written.len() && 0 <= j < written.len() && i != j implies (#[trigger] written[i]).0
            != (#[trigger] written[j]).0 by {
            assert(s[i].0 != s[j].0);
        }
    }
    lemma_front(without(s, k), k, v);
    let t = with_front(s, k, v);
    let u = insert(s, cap, k, v);
    assert forall|i: int, j: int| 0 <= i < u.len() && 0 <= j < u.len() && i != j implies (#[trigger] u[i]).0
        != (#[trigger] u[j]).0 by {
        assert(t[i].0 != t[j].0);
    }
}

/// Capacity bound. After a pair was put into a cache of capacity `cap`, the
/// cache holds at most `cap` pairs, whatever it held before.
pub proof fn law_capacity_bound<K, V>(s: Seq<(K, V)>, cap: nat, k: K, v: V)
    ensures
        insert(s, cap, k, v).len() <= cap,
{
}

/// Capacity bound, for any number of puts. After each of a sequence of puts
/// into a cache of capacity `cap` that was within its capacity, the cache is
/// within its capacity.
pub proof fn law_capacity_bound_all<K, V>(s: Seq<(K, V)>, cap: nat, items: Seq<(K, V)>)
    requires
        s.len() <= cap,
    ensures
        insert_all(s, cap, items).len() <= cap,
        forall|n: int| 0 <= n <= items.len() ==> (#[trigger] insert_all(s, cap, items.take(n))).len() <= cap,
{
    assert forall|n: int| 0 <= n <= items.len() implies (#[trigger] insert_all(
        s,
        cap,
        items.take(n),
    )).len() <= cap by {
        if n > 0 {
            let prefix = items.take(n);
            law_capacity_bound(
                insert_all(s, cap, prefix.drop_last()),
                cap,
                prefix.last().0,
                prefix.last().1,
            );
        }
    }
    assert(items.take(items.len() as int) =~= items);
}

/// Strict eviction of the least recently used pair. When a pair of a new key
/// is put into a full cache, exactly the last pair of the cache, the one used
/// least recently, leaves. Every other pair stays, and the new one is in.
pub proof fn law_lru_eviction<K, V>(s: Seq<(K, V)>, cap: nat, k: K, v: V)
    requires
        distinct_keys(s),
        s.len() == cap,
        cap > 0,
        !has_key(s, k),
    ensures
        insert(s, cap, k, v) == seq![(k, v)] + s.drop_last(),
        evicted(s, cap, k, v) == Some(s.last()),
        !has_key(insert(s, cap, k, v), s.last().0),
        value_of(insert(s, cap, k, v), k) == Some(v),
        forall|i: int|
            0 <= i < s.len() - 1 ==> value_of(insert(s, cap, k, v), (#[trigger] s[i]).0) == Some(s[i].1),
{
    lemma_insert_full(s, cap, k, v);
    let last = s.len() - 1;
    lemma_remove(s, last);
    assert(s.remove(last) =~= s.drop_last());
    lemma_absent_after_drop(s, k);
    lemma_front(s.drop_last(), k, v);
    assert(s[last].0 != k);
    assert forall|i: int| 0 <= i < s.len() - 1 implies value_of(
        insert(s, cap, k, v),
        (#[trigger] s[i]).0,
    ) == Some(s[i].1) by {
        lemma_rank_unique(s, i);
        assert(s[i].0 != s[last].0);
    }
}

/// Filling an empty cache with pairs of distinct keys, no more than it can
/// hold, leaves them in reverse order of arrival: the first to arrive is the
/// least recently used.
pub proof fn law_fill<K, V>(cap: nat, items: Seq<(K, V)>)
    requires
        distinct_keys(items),
        items.len() <= cap,
    ensures
        insert_all(Seq::empty(), cap, items) == reversed(items),
    decreases items.len(),
{
    if items.len() > 0 {
        let rest = items.drop_last();
        let last = items.last();
        assert forall|i: int, j: int|
            0 <= i < rest.len() && 0 <= j < rest.len() && i != j implies (#[trigger] rest[i]).0
            != (#[trigger] rest[j]).0 by {
            assert(items[i].0 != items[j].0);
        }
        law_fill(cap, rest);
        let before = reversed(rest);
        if has_key(before, last.0) {
            let i = rank_of(before, last.0);
            assert(items[rest.len() - 1 - i].0 != items[items.len() - 1].0);
        }
        lemma_insert_with_room(before, cap, last.0, last.1);
        assert(seq![last] + before =~= reversed(items));
    } else {
        assert(reversed(items) =~= Seq::<(K, V)>::empty());
    }
}

/// Strict eviction after a fill. When `cap` pairs of distinct keys were put
/// into an empty cache of capacity `cap` and a pair of one more key follows,
/// exactly the pair that arrived first leaves.
pub proof fn law_fill_then_evict<K, V>(cap: nat, items: Seq<(K, V)>, k: K, v: V)
    requires
        distinct_keys(items),
        items.len() == cap,
        cap > 0,
        !has_key(items, k),
    ensures
        evicted(insert_all(Seq::empty(), cap, items), cap, k, v) == Some(items[0]),
        !has_key(insert(insert_all(Seq::empty(), cap, items), cap, k, v), items[0].0),
        forall|i: int|
            1 <= i < items.len() ==> value_of(
                insert(insert_all(Seq::empty(), cap, items), cap, k, v),
                (#[trigger] items[i]).0,
            ) == Some(items[i].1),
{
    law_fill(cap, items);
    let full = reversed(items);
    assert(distinct_keys(full)) by {
        assert forall|i: int, j: int|
            0 <= i < full.len() && 0 <= j < full.len() && i != j implies (#[trigger] full[i]).0
            != (#[trigger] full[j]).0 by {
            assert(items[items.len() - 1 - i].0 != items[items.len() - 1 - j].0);
        }
    }
    if has_key(full, k) {
        let i = rank_of(full, k);
        assert(items[items.len() - 1 - i].0 == k);
    }
    law_lru_eviction(full, cap, k, v);
    assert forall|i: int| 1 <= i < items.len() implies value_of(
        insert(full, cap, k, v),
        (#[trigger] items[i]).0,
    ) == Some(items[i].1) by {
        assert(full[items.len() - 1 - i] == items[i]);
    }
}

/// A pair that was just used survives the next eviction, if the cache has room
/// for two.
pub proof fn law_use_protects<K, V>(s: Seq<(K, V)>, cap: nat, used: K, k: K, v: V)
    requires
        distinct_keys(s),
        s.len() <= cap,
        cap >= 2,
        has_key(s, used),
        used != k,
    ensures
        value_of(insert(touch(s, used), cap, k, v), used) == value_of(s, used),
{
    let r = rank_of(s, used);
    lemma_rank_unique(s, r);
    let t = touch(s, used);
    law_keys_stay_distinct(s, cap, used, v);
    assert(t[0] == s[r]);
    let u = insert(t, cap, k, v);
    law_keys_stay_distinct(t, cap, k, v);
    if has_key(t, k) {
        lemma_insert_present(t, cap, k, v);
    } else if t.len() < cap {
        lemma_insert_with_room(t, cap, k, v);
    } else {
        lemma_insert_full(t, cap, k, v);
    }
    assert(u[1] == s[r]);
    lemma_rank_unique(u, 1);
}

/// Round trip. In a cache that can hold anything at all, the value that was
/// just put under a key is the value found under it.
pub proof fn law_put_then_get<K, V>(s: Seq<(K, V)>, cap: nat, k: K, v: V)
    requires
        distinct_keys(s),
        cap > 0,
    ensures
        value_of(insert(s, cap, k, v), k) == Some(v),
        insert(s, cap, k, v)[0] == (k, v),
{
    law_keys_stay_distinct(s, cap, k, v);
    let u = insert(s, cap, k, v);
    assert(u[0] == (k, v));
    lemma_rank_unique(u, 0);
}

/// Removal. Taking out a key that is present makes it absent and the cache one
/// pair smaller; taking out a key that is absent changes nothing. Every other
/// key keeps its value.
pub proof fn law_pop<K, V>(s: Seq<(K, V)>, k: K)
    requires
        distinct_keys(s),
    ensures
        !has_key(without(s, k), k),
        value_of(without(s, k), k) is None,
        has_key(s, k) ==> without(s, k).len() == s.len() - 1,
        !has_key(s, k) ==> without(s, k) == s,
        forall|k2: K| k2 != k ==> value_of(s, k2) == #[trigger] value_of(without(s, k), k2),
{
    if has_key(s, k) {
        lemma_remove(s, rank_of(s, k));
    }
}

/// Clearing. An empty cache has no pair, and no key is found in it.
pub proof fn law_clear<K, V>(k: K)
    ensures
        Seq::<(K, V)>::empty().len() == 0,
        !has_key(Seq::<(K, V)>::empty(), k),
        value_of(Seq::<(K, V)>::empty(), k) is None,
{
}

/// A use changes the order of the pairs and nothing else: every key keeps its
/// value, and the key that was used stands in front.
pub proof fn law_touch<K, V>(s: Seq<(K, V)>, k: K)
    requires
        distinct_keys(s),
    ensures
        touch(s, k).len() == s.len(),
        forall|k2: K| value_of(s, k2) == #[trigger] value_of(touch(s, k), k2),
        has_key(s, k) ==> touch(s, k)[0] == (k, value_of(s, k)->0),
{
    if has_key(s, k) {
        let r = rank_of(s, k);
        lemma_remove(s, r);
        lemma_front(s.remove(r), k, s[r].1);
        assert(seq![(k, s[r].1)] + s.remove(r) =~= touch(s, k));
    }
}

} // verus!
