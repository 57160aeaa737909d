use lru::fast_lru;
use lru::simple_lru;
use lru::LruCache;

#[test]
fn fast_set_and_get() {
    let mut cache = fast_lru::Cache::new(2);
    cache.set(1, 10);
    cache.set(2, 20);
    assert_eq!(cache.get(&1), Some(&10));
    assert_eq!(cache.get(&2), Some(&20));
    assert_eq!(cache.get(&3), None);
}

#[test]
fn fast_evicts_least_recently_set() {
    let mut cache = fast_lru::Cache::new(2);
    cache.set("a", 1);
    cache.set("b", 2);
    cache.set("c", 3);
    assert_eq!(cache.get(&"a"), None);
    assert_eq!(cache.get(&"b"), Some(&2));
    assert_eq!(cache.get(&"c"), Some(&3));
}

#[test]
fn fast_get_does_not_count_as_use() {
    let mut cache = fast_lru::Cache::new(2);
    cache.set(1, 'a');
    cache.set(2, 'b');
    assert_eq!(cache.get(&1), Some(&'a'));
    cache.set(3, 'c');
    assert_eq!(cache.get(&1), None);
    assert_eq!(cache.get(&2), Some(&'b'));
}

#[test]
fn fast_update_counts_as_use() {
    let mut cache = fast_lru::Cache::new(2);
    cache.set(1, 'a');
    cache.set(2, 'b');
    cache.set(1, 'A');
    cache.set(3, 'c');
    assert_eq!(cache.get(&1), Some(&'A'));
    assert_eq!(cache.get(&2), None);
    assert_eq!(cache.get(&3), Some(&'c'));
}

#[test]
fn fast_update_of_the_only_pair() {
    let mut cache = fast_lru::Cache::new(3);
    cache.set(7, 70);
    cache.set(7, 71);
    assert_eq!(cache.get(&7), Some(&71));
    cache.set(8, 80);
    assert_eq!(cache.get(&7), Some(&71));
    assert_eq!(cache.get(&8), Some(&80));
}

#[test]
fn fast_single_slot() {
    let mut cache = fast_lru::Cache::new(1);
    cache.set(1, 10);
    cache.set(2, 20);
    assert_eq!(cache.get(&1), None);
    assert_eq!(cache.get(&2), Some(&20));
    cache.set(2, 21);
    assert_eq!(cache.get(&2), Some(&21));
}

#[test]
fn fast_zero_capacity_holds_nothing() {
    let mut cache = fast_lru::Cache::new(0);
    cache.set(1, 10);
    cache.set(1, 11);
    cache.set(2, 20);
    assert_eq!(cache.get(&1), None);
    assert_eq!(cache.get(&2), None);
}

#[test]
fn simple_set_and_get() {
    let mut cache = simple_lru::Cache::new(2);
    cache.set(1, 10);
    cache.set(2, 20);
    assert_eq!(cache.get(&1), Some(&10));
    assert_eq!(cache.get(&2), Some(&20));
    assert_eq!(cache.get(&3), None);
}

#[test]
fn simple_evicts_least_recently_set() {
    let mut cache = simple_lru::Cache::new(2);
    cache.set("a", 1);
    cache.set("b", 2);
    cache.set("c", 3);
    assert_eq!(cache.get(&"a"), None);
    assert_eq!(cache.get(&"b"), Some(&2));
    assert_eq!(cache.get(&"c"), Some(&3));
}

#[test]
fn simple_get_does_not_count_as_use() {
    let mut cache = simple_lru::Cache::new(2);
    cache.set(1, 'a');
    cache.set(2, 'b');
    assert_eq!(cache.get(&1), Some(&'a'));
    cache.set(3, 'c');
    assert_eq!(cache.get(&1), None);
    assert_eq!(cache.get(&2), Some(&'b'));
}

#[test]
fn simple_update_counts_as_use() {
    let mut cache = simple_lru::Cache::new(2);
    cache.set(1, 'a');
    cache.set(2, 'b');
    cache.set(1, 'A');
    cache.set(3, 'c');
    assert_eq!(cache.get(&1), Some(&'A'));
    assert_eq!(cache.get(&2), None);
    assert_eq!(cache.get(&3), Some(&'c'));
}

#[test]
fn simple_single_slot() {
    let mut cache = simple_lru::Cache::new(1);
    cache.set(1, 10);
    cache.set(2, 20);
    assert_eq!(cache.get(&1), None);
    assert_eq!(cache.get(&2), Some(&20));
}

#[test]
fn simple_zero_capacity_holds_nothing() {
    let mut cache = simple_lru::Cache::new(0);
    cache.set(1, 10);
    cache.set(2, 20);
    assert_eq!(cache.get(&1), None);
    assert_eq!(cache.get(&2), None);
}

#[test]
fn the_three_caches_agree() {
    let mut x: u64 = 2024;
    for round in 0..20 {
        let mut fast = fast_lru::Cache::new(5);
        let mut simple = simple_lru::Cache::new(5);
        let mut fixed: LruCache<u64, u64, 5> = LruCache::new();
        for _ in 0..(50 + round * 7) {
            x = x.wrapping_mul(6364136223846793005).wrapping_add(1442695040888963407);
            let key = (x >> 33) % 12;
            let value = x >> 40;
            fast.set(key, value);
            simple.set(key, value);
            fixed.put(key, value);
            for probe in 0..12u64 {
                assert_eq!(fast.get(&probe), simple.get(&probe));
            }
        }
        for probe in 0..12u64 {
            let expected = simple.get(&probe).copied();
            assert_eq!(fixed.pop(&probe), expected);
        }
        assert!(fixed.is_empty());
    }
}

#[test]
fn mixed_operations_match_a_plain_list() {
    let mut cache: LruCache<u64, u64, 4> = LruCache::new();
    let mut list: Vec<(u64, u64)> = Vec::new();
    let mut x: u64 = 7;
    for _ in 0..3000 {
        x = x.wrapping_mul(6364136223846793005).wrapping_add(1442695040888963407);
        let key = (x >> 33) % 8;
        let value = x >> 45;
        let place = list.iter().position(|p| p.0 == key);
        match (x >> 20) % 5 {
            0 => {
                let expected = place.map(|i| list.remove(i).1);
                list.insert(0, (key, value));
                list.truncate(4);
                assert_eq!(cache.put(key, value), expected);
            }
            1 => {
                let expected = match place {
                    Some(i) => Some((key, list.remove(i).1)),
                    None => {
                        if list.len() == 4 {
                            list.pop()
                        } else {
                            None
                        }
                    }
                };
                list.insert(0, (key, value));
                assert_eq!(cache.push(key, value), expected);
            }
            2 => {
                let expected = place.map(|i| {
                    let pair = list.remove(i);
                    list.insert(0, pair);
                    pair.1
                });
                assert_eq!(cache.get(&key).copied(), expected);
            }
            3 => {
                let expected = place.map(|i| list.remove(i).1);
                assert_eq!(cache.pop(&key), expected);
            }
            _ => {
                match cache.get_mut(&key) {
                    Some(v) => {
                        let i = place.unwrap();
                        let pair = list.remove(i);
                        assert_eq!(*v, pair.1);
                        *v = value;
                        list.insert(0, (key, value));
                    }
                    None => assert!(place.is_none()),
                }
            }
        }
        assert_eq!(cache.len(), list.len());
        assert!(cache.len() <= cache.capacity());
    }
    for (key, value) in list {
        assert_eq!(cache.pop(&key), Some(value));
    }
    assert!(cache.is_empty());
}
