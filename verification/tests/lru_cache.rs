use lru::LruCache;

fn assert_opt_eq<V: PartialEq>(opt: Option<&V>, v: V) {
    assert!(opt.is_some());
    assert!(opt.unwrap() == &v);
}

#[test]
fn test_put_and_get() {
    let mut cache: LruCache<_, _, 2> = LruCache::new();
    cache.put(1, 10);
    cache.put(2, 20);
    assert_opt_eq(cache.get(&1), 10);
    assert_opt_eq(cache.get(&2), 20);
    assert_eq!(cache.len(), 2);
}

#[test]
fn test_put_update() {
    let mut cache: LruCache<String, Vec<u8>, 1> = LruCache::new();
    cache.put("1".to_string(), vec![10, 10]);
    cache.put("1".to_string(), vec![10, 19]);
    assert_opt_eq(cache.get(&"1".to_string()), vec![10, 19]);
    assert_eq!(cache.len(), 1);
}

#[test]
fn test_expire_lru() {
    let mut cache: LruCache<String, String, 2> = LruCache::new();
    cache.put("foo1".to_string(), "bar1".to_string());
    cache.put("foo2".to_string(), "bar2".to_string());
    cache.put("foo3".to_string(), "bar3".to_string());
    assert!(cache.get(&"foo1".to_string()).is_none());
    cache.put("foo2".to_string(), "bar2update".to_string());
    cache.put("foo4".to_string(), "bar4".to_string());
    assert!(cache.get(&"foo3".to_string()).is_none());
}

#[test]
fn test_pop() {
    let mut cache: LruCache<_, _, 2> = LruCache::new();
    cache.put(1, 10);
    cache.put(2, 20);
    assert_eq!(cache.len(), 2);
    let opt1 = cache.pop(&1);
    assert!(opt1.is_some());
    assert_eq!(opt1.unwrap(), 10);
    assert!(cache.get(&1).is_none());
    assert_eq!(cache.len(), 1);
}

#[test]
fn test_clear() {
    let mut cache: LruCache<_, _, 2> = LruCache::new();
    cache.put(1, 10);
    cache.put(2, 20);
    cache.clear();
    assert!(cache.get(&1).is_none());
    assert!(cache.get(&2).is_none());
    assert_eq!(cache.len(), 0);
}

#[test]
fn example() {
    let mut cache: LruCache<_, _, 2> = LruCache::new();

    cache.put("cow", 3);
    cache.put("pig", 2);

    assert_eq!(*cache.get(&"cow").unwrap(), 3);
    assert_eq!(*cache.get(&"pig").unwrap(), 2);
    assert!(cache.get(&"dog").is_none());

    assert_eq!(cache.put("pig", 4), Some(2));
    assert_eq!(cache.put("dog", 5), None);

    assert_eq!(*cache.get(&"dog").unwrap(), 5);
    assert_eq!(*cache.get(&"pig").unwrap(), 4);
    assert!(cache.get(&"cow").is_none());

    {
        let v = cache.get_mut(&"pig").unwrap();
        *v = 6;
    }

    assert_eq!(*cache.get(&"pig").unwrap(), 6);
}
