use lru::LruCache;

#[test]
fn new_cache_is_empty() {
    let mut cache: LruCache<u32, u32, 3> = LruCache::new();
    assert_eq!(cache.len(), 0);
    assert!(cache.is_empty());
    assert_eq!(cache.capacity(), 3);
    assert!(cache.get(&1).is_none());
    assert!(cache.get_mut(&1).is_none());
    assert_eq!(cache.pop(&1), None);
}

#[test]
fn put_returns_previous_value() {
    let mut cache: LruCache<&str, i32, 2> = LruCache::new();
    assert_eq!(cache.put("cow", 3), None);
    assert_eq!(cache.put("pig", 2), None);
    assert_eq!(cache.put("pig", 4), Some(2));
    assert_eq!(cache.put("pig", 5), Some(4));
    assert_eq!(cache.len(), 2);
}

#[test]
fn scenario_two_slots_with_reads() {
    let mut cache: LruCache<&str, i32, 2> = LruCache::new();
    assert_eq!(cache.put("cow", 3), None);
    assert_eq!(cache.put("pig", 2), None);
    assert_eq!(cache.get(&"cow"), Some(&3));
    assert_eq!(cache.get(&"pig"), Some(&2));
    assert_eq!(cache.get(&"dog"), None);
    assert_eq!(cache.put("pig", 4), Some(2));
    assert_eq!(cache.put("dog", 5), None);
    assert_eq!(cache.get(&"dog"), Some(&5));
    assert_eq!(cache.get(&"pig"), Some(&4));
    assert_eq!(cache.get(&"cow"), None);
    assert_eq!(cache.len(), 2);
}

#[test]
fn scenario_update_in_place_then_evict() {
    let mut cache: LruCache<String, String, 2> = LruCache::new();
    assert_eq!(cache.put("foo1".to_string(), "bar1".to_string()), None);
    assert_eq!(cache.put("foo2".to_string(), "bar2".to_string()), None);
    assert_eq!(cache.put("foo3".to_string(), "bar3".to_string()), None);
    assert_eq!(cache.get(&"foo1".to_string()), None);
    assert_eq!(
        cache.put("foo2".to_string(), "bar2update".to_string()),
        Some("bar2".to_string())
    );
    assert_eq!(cache.len(), 2);
    assert_eq!(cache.put("foo4".to_string(), "bar4".to_string()), None);
    assert_eq!(cache.get(&"foo3".to_string()), None);
    assert_eq!(cache.get(&"foo2".to_string()), Some(&"bar2update".to_string()));
    assert_eq!(cache.get(&"foo4".to_string()), Some(&"bar4".to_string()));
}

#[test]
fn scenario_single_slot_update() {
    let mut cache: LruCache<String, Vec<u8>, 1> = LruCache::new();
    assert_eq!(cache.put("1".to_string(), vec![10, 10]), None);
    assert_eq!(cache.put("1".to_string(), vec![10, 19]), Some(vec![10, 10]));
    assert_eq!(cache.get(&"1".to_string()), Some(&vec![10, 19]));
    assert_eq!(cache.len(), 1);
}

#[test]
fn single_slot_evicts_on_every_new_key() {
    let mut cache: LruCache<u8, u8, 1> = LruCache::new();
    assert_eq!(cache.put(1, 10), None);
    assert_eq!(cache.put(2, 20), None);
    assert_eq!(cache.len(), 1);
    assert_eq!(cache.get(&1), None);
    assert_eq!(cache.get(&2), Some(&20));
    assert_eq!(cache.push(3, 30), Some((2, 20)));
    assert_eq!(cache.get(&3), Some(&30));
    assert_eq!(cache.pop(&3), Some(30));
    assert!(cache.is_empty());
    assert_eq!(cache.push(4, 40), None);
    assert_eq!(cache.get(&4), Some(&40));
}

#[test]
fn zero_capacity_holds_nothing() {
    let mut cache: LruCache<u8, u8, 0> = LruCache::new();
    assert_eq!(cache.capacity(), 0);
    assert_eq!(cache.put(1, 10), None);
    assert_eq!(cache.len(), 0);
    assert_eq!(cache.get(&1), None);
    assert_eq!(cache.push(2, 20), Some((2, 20)));
    assert!(cache.is_empty());
    assert_eq!(cache.pop(&2), None);
    cache.clear();
    assert_eq!(cache.len(), 0);
}

#[test]
fn push_returns_nothing_while_there_is_room() {
    let mut cache: LruCache<u8, char, 3> = LruCache::new();
    assert_eq!(cache.push(1, 'a'), None);
    assert_eq!(cache.push(2, 'b'), None);
    assert_eq!(cache.push(3, 'c'), None);
    assert_eq!(cache.len(), 3);
}

#[test]
fn push_returns_key_with_former_value_on_update() {
    let mut cache: LruCache<u8, char, 2> = LruCache::new();
    cache.push(1, 'a');
    cache.push(2, 'b');
    assert_eq!(cache.push(1, 'z'), Some((1, 'a')));
    assert_eq!(cache.len(), 2);
    assert_eq!(cache.get(&1), Some(&'z'));
    assert_eq!(cache.get(&2), Some(&'b'));
}

#[test]
fn push_returns_evicted_pair_when_full() {
    let mut cache: LruCache<u8, char, 2> = LruCache::new();
    cache.push(1, 'a');
    cache.push(2, 'b');
    assert_eq!(cache.push(3, 'c'), Some((1, 'a')));
    assert_eq!(cache.push(4, 'd'), Some((2, 'b')));
    assert_eq!(cache.len(), 2);
    assert_eq!(cache.get(&3), Some(&'c'));
    assert_eq!(cache.push(5, 'e'), Some((4, 'd')));
}

#[test]
fn update_protects_from_eviction() {
    let mut cache: LruCache<u8, char, 3> = LruCache::new();
    cache.put(1, 'a');
    cache.put(2, 'b');
    cache.put(3, 'c');
    cache.put(1, 'A');
    assert_eq!(cache.push(4, 'd'), Some((2, 'b')));
    assert_eq!(cache.push(5, 'e'), Some((3, 'c')));
    assert_eq!(cache.push(6, 'f'), Some((1, 'A')));
}

#[test]
fn get_protects_from_eviction() {
    let mut cache: LruCache<u8, char, 3> = LruCache::new();
    cache.put(1, 'a');
    cache.put(2, 'b');
    cache.put(3, 'c');
    assert_eq!(cache.get(&1), Some(&'a'));
    assert_eq!(cache.get(&2), Some(&'b'));
    assert_eq!(cache.push(4, 'd'), Some((3, 'c')));
    assert_eq!(cache.push(5, 'e'), Some((1, 'a')));
    assert_eq!(cache.push(6, 'f'), Some((2, 'b')));
}

#[test]
fn get_of_the_most_recent_changes_nothing() {
    let mut cache: LruCache<u8, char, 2> = LruCache::new();
    cache.put(1, 'a');
    cache.put(2, 'b');
    assert_eq!(cache.get(&2), Some(&'b'));
    assert_eq!(cache.push(3, 'c'), Some((1, 'a')));
}

#[test]
fn get_mut_writes_through_and_counts_as_use() {
    let mut cache: LruCache<u8, i32, 2> = LruCache::new();
    cache.put(1, 10);
    cache.put(2, 20);
    {
        let v = cache.get_mut(&1).unwrap();
        assert_eq!(*v, 10);
        *v += 5;
    }
    assert_eq!(cache.push(3, 30), Some((2, 20)));
    assert_eq!(cache.get(&1), Some(&15));
    assert_eq!(cache.len(), 2);
}

#[test]
fn fill_then_one_more_evicts_the_first() {
    let mut cache: LruCache<usize, usize, 5> = LruCache::new();
    for i in 0..5 {
        assert_eq!(cache.push(i, i * 10), None);
    }
    assert_eq!(cache.len(), cache.capacity());
    assert_eq!(cache.push(5, 50), Some((0, 0)));
    assert_eq!(cache.get(&0), None);
    for i in 1..6 {
        assert_eq!(cache.get(&i), Some(&(i * 10)));
    }
}

#[test]
fn len_never_exceeds_capacity() {
    let mut cache: LruCache<u32, u32, 4> = LruCache::new();
    let mut x: u32 = 12345;
    for _ in 0..500 {
        x = x.wrapping_mul(1103515245).wrapping_add(12345);
        let key = (x >> 16) % 9;
        if x % 3 == 0 {
            cache.push(key, x);
        } else {
            cache.put(key, x);
        }
        assert!(cache.len() <= cache.capacity());
    }
    assert_eq!(cache.len(), 4);
}

#[test]
fn put_then_get_round_trip() {
    let mut cache: LruCache<u32, u32, 3> = LruCache::new();
    let mut x: u32 = 99;
    for _ in 0..200 {
        x = x.wrapping_mul(1664525).wrapping_add(1013904223);
        let key = (x >> 20) % 7;
        cache.put(key, x);
        assert_eq!(cache.get(&key), Some(&x));
    }
}

#[test]
fn pop_present_key_removes_it() {
    let mut cache: LruCache<u8, char, 3> = LruCache::new();
    cache.put(1, 'a');
    cache.put(2, 'b');
    cache.put(3, 'c');
    assert_eq!(cache.pop(&2), Some('b'));
    assert_eq!(cache.len(), 2);
    assert_eq!(cache.get(&2), None);
    assert_eq!(cache.pop(&2), None);
    assert_eq!(cache.len(), 2);
}

#[test]
fn pop_absent_key_is_no_op() {
    let mut cache: LruCache<u8, char, 3> = LruCache::new();
    cache.put(1, 'a');
    cache.put(2, 'b');
    assert_eq!(cache.pop(&7), None);
    assert_eq!(cache.len(), 2);
    assert_eq!(cache.push(3, 'c'), None);
    assert_eq!(cache.push(4, 'd'), Some((1, 'a')));
}

#[test]
fn pop_keeps_the_order_of_the_others() {
    let mut cache: LruCache<u8, char, 4> = LruCache::new();
    cache.put(1, 'a');
    cache.put(2, 'b');
    cache.put(3, 'c');
    cache.put(4, 'd');
    assert_eq!(cache.pop(&1), Some('a'));
    assert_eq!(cache.put(5, 'e'), None);
    assert_eq!(cache.push(6, 'f'), Some((2, 'b')));
    assert_eq!(cache.pop(&6), Some('f'));
    assert_eq!(cache.pop(&4), Some('d'));
    assert_eq!(cache.len(), 2);
    assert_eq!(cache.push(7, 'g'), None);
    assert_eq!(cache.push(8, 'h'), None);
    assert_eq!(cache.push(9, 'i'), Some((3, 'c')));
    assert_eq!(cache.push(10, 'j'), Some((5, 'e')));
    assert_eq!(cache.push(11, 'k'), Some((7, 'g')));
}

#[test]
fn pop_of_each_position_in_turn() {
    for victim in 0u8..4 {
        let mut cache: LruCache<u8, u8, 4> = LruCache::new();
        for k in 0u8..4 {
            cache.put(k, k + 100);
        }
        assert_eq!(cache.pop(&victim), Some(victim + 100));
        assert_eq!(cache.len(), 3);
        for k in 0u8..4 {
            if k != victim {
                assert_eq!(cache.pop(&k), Some(k + 100));
            } else {
                assert_eq!(cache.pop(&k), None);
            }
        }
        assert!(cache.is_empty());
    }
}

#[test]
fn pop_down_to_empty_and_refill() {
    let mut cache: LruCache<u8, u8, 2> = LruCache::new();
    cache.put(1, 1);
    cache.put(2, 2);
    assert_eq!(cache.pop(&2), Some(2));
    assert_eq!(cache.pop(&1), Some(1));
    assert!(cache.is_empty());
    cache.put(3, 3);
    cache.put(4, 4);
    assert_eq!(cache.push(5, 5), Some((3, 3)));
    assert_eq!(cache.get(&4), Some(&4));
}

#[test]
fn clear_empties_and_keeps_capacity() {
    let mut cache: LruCache<u8, u8, 2> = LruCache::new();
    cache.put(1, 1);
    cache.put(2, 2);
    cache.clear();
    assert_eq!(cache.len(), 0);
    assert!(cache.is_empty());
    assert_eq!(cache.capacity(), 2);
    assert_eq!(cache.get(&1), None);
    assert_eq!(cache.get(&2), None);
    cache.clear();
    assert_eq!(cache.len(), 0);
    assert_eq!(cache.push(3, 3), None);
    assert_eq!(cache.push(4, 4), None);
    assert_eq!(cache.push(5, 5), Some((3, 3)));
}

#[test]
fn string_keys_are_found_by_equal_strings() {
    let mut cache: LruCache<String, usize, 2> = LruCache::new();
    let key = String::from("alpha");
    cache.put(key.clone(), 1);
    let same = format!("al{}", "pha");
    assert_eq!(cache.get(&same), Some(&1));
    assert_eq!(cache.push(same, 2), Some((key, 1)));
    assert_eq!(cache.len(), 1);
}
