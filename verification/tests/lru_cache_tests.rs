use arena_collections::lru_cache::LruCache;

#[test]
fn simple_test() {
    let to_vec = |c: &LruCache<String, i32>| -> Vec<String> {
        c.iter().iter().map(|(k, _v)| k.clone()).collect()
    };

    let tostr = |a| String::from(a);

    let mut lru = LruCache::<String, i32>::new(4);

    lru.put(String::from("a"), 1);
    assert_eq!(to_vec(&lru), [tostr("a")]);

    lru.put(String::from("b"), 1);
    assert_eq!(to_vec(&lru), [tostr("b"), tostr("a")]);

    lru.put(String::from("c"), 1);
    assert_eq!(to_vec(&lru), [tostr("c"), tostr("b"), tostr("a")]);

    lru.put(String::from("d"), 1);
    assert_eq!(to_vec(&lru), [tostr("d"), tostr("c"), tostr("b"), tostr("a")]);

    lru.put(String::from("e"), 1);
    assert_eq!(to_vec(&lru), [tostr("e"), tostr("d"), tostr("c"), tostr("b")]);

    lru.get(&String::from("b"));
    assert_eq!(to_vec(&lru), [tostr("b"), tostr("e"), tostr("d"), tostr("c")]);

    lru.get(&String::from("c"));
    assert_eq!(to_vec(&lru), [tostr("c"), tostr("b"), tostr("e"), tostr("d")]);
}

#[test]
fn update_present_key_keeps_size() {
    let mut lru = LruCache::<String, i32>::new(2);
    lru.put(String::from("a"), 1);
    lru.put(String::from("b"), 2);
    lru.put(String::from("a"), 9);
    assert_eq!(lru.len(), 2);
    let entries = lru.iter();
    assert_eq!(entries[0], (String::from("a"), 9));
    assert_eq!(entries[1], (String::from("b"), 2));
    assert_eq!(lru.get(&String::from("a")), Some(&9));
}

#[test]
fn get_miss_returns_none_and_keeps_order() {
    let mut lru = LruCache::<String, i32>::new(2);
    lru.put(String::from("a"), 1);
    lru.put(String::from("b"), 2);
    assert_eq!(lru.get(&String::from("zzz")), None);
    let entries = lru.iter();
    assert_eq!(entries[0], (String::from("b"), 2));
    assert_eq!(entries[1], (String::from("a"), 1));
}

#[test]
fn zero_capacity_put_is_noop() {
    let mut lru = LruCache::<String, i32>::new(0);
    lru.put(String::from("a"), 1);
    assert_eq!(lru.len(), 0);
    assert!(lru.iter().is_empty());
    assert_eq!(lru.get(&String::from("a")), None);
}

#[test]
fn eviction_drops_least_recently_used() {
    let mut lru = LruCache::<String, i32>::new(2);
    lru.put(String::from("k1"), 1);
    lru.put(String::from("k2"), 2);
    lru.put(String::from("k3"), 3);
    assert_eq!(lru.len(), 2);
    assert_eq!(lru.get(&String::from("k1")), None);
    assert_eq!(lru.get(&String::from("k2")), Some(&2));
    assert_eq!(lru.get(&String::from("k3")), Some(&3));
}

#[test]
fn values_can_be_read_after_promotion() {
    let mut lru = LruCache::<u64, String>::new(3);
    lru.put(10, String::from("ten"));
    lru.put(20, String::from("twenty"));
    lru.put(30, String::from("thirty"));
    assert_eq!(lru.get(&10), Some(&String::from("ten")));
    let entries = lru.iter();
    assert_eq!(entries[0].0, 10);
    assert_eq!(entries[1].0, 30);
    assert_eq!(entries[2].0, 20);
}
