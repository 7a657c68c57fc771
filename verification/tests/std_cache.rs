use mglru::std_impl::MglruCache as StdCache;

#[test]
fn std_basic_insert_and_get() {
    let mut cache = StdCache::new(4);
    cache.insert(1, "one");
    cache.insert(2, "two");
    cache.insert(3, "three");
    assert_eq!(cache.get(&1), Some(&"one"));
    assert_eq!(cache.get(&2), Some(&"two"));
    assert_eq!(cache.get(&3), Some(&"three"));
    assert_eq!(cache.len(), 3);
}

#[test]
fn std_eviction_removes_oldest_gen_tail() {
    let mut cache = StdCache::new(3);
    cache.insert(1, "a");
    cache.insert(2, "b");
    cache.insert(3, "c");
    // Age everything into older generations.
    cache.age();
    cache.age();
    cache.age();
    // Insert a 4th item; should evict 1 (oldest gen tail).
    cache.insert(4, "d");
    assert!(!cache.contains_key(&1));
    assert!(cache.contains_key(&2));
    assert!(cache.contains_key(&3));
    assert!(cache.contains_key(&4));
}

#[test]
fn std_access_promotes() {
    let mut cache = StdCache::new(3);
    cache.insert(1, "a");
    cache.insert(2, "b");
    cache.insert(3, "c");
    cache.age(); // all move to gen 1
    // Access key 1: promotes back to gen 0
    cache.get(&1);
    cache.age(); // gen 0 -> gen 1, gen 1 -> gen 2
    cache.age(); // gen 1 -> gen 2, gen 2 -> gen 3
    // Now 2 and 3 are in gen 3, key 1 is in gen 2.
    // Evict should remove 2 or 3 (oldest gen tail), not 1.
    cache.insert(4, "d");
    assert!(cache.contains_key(&1));
    assert!(cache.contains_key(&4));
    assert_eq!(cache.len(), 3);
}

#[test]
fn std_update_existing_key() {
    let mut cache = StdCache::new(4);
    assert_eq!(cache.insert(1, "old"), None);
    assert_eq!(cache.insert(1, "new"), Some("old"));
    assert_eq!(cache.get(&1), Some(&"new"));
    assert_eq!(cache.len(), 1);
}

#[test]
fn std_remove() {
    let mut cache = StdCache::new(4);
    cache.insert(1, "a");
    cache.insert(2, "b");
    assert_eq!(cache.remove(&1), Some("a"));
    assert!(!cache.contains_key(&1));
    assert_eq!(cache.len(), 1);
    assert_eq!(cache.remove(&1), None);
}

#[test]
fn std_age_shifts_generations() {
    let mut cache = StdCache::new(8);
    cache.insert(1, "a");
    cache.insert(2, "b");
    cache.age();
    cache.age();
    cache.age();
    // After 3 ages, both should be in gen 3 (max).
    // They should still be retrievable.
    assert_eq!(cache.get(&1), Some(&"a"));
    assert_eq!(cache.get(&2), Some(&"b"));
}

#[test]
fn std_heavy_churn() {
    let mut cache = StdCache::new(16);
    for i in 0..1000 {
        cache.insert(i, i * 10);
        if i % 7 == 0 {
            cache.age();
        }
    }
    assert_eq!(cache.len(), 16);
    // The most recently inserted keys should be present.
    for i in 984..1000 {
        assert!(cache.contains_key(&i));
    }
}

#[test]
fn std_new_cache_is_empty() {
    let cache: StdCache<u64, u64> = StdCache::new(5);
    assert!(cache.is_empty());
    assert_eq!(cache.len(), 0);
    assert_eq!(cache.capacity(), 5);
}

#[test]
fn std_get_after_insert_returns_value() {
    let mut cache = StdCache::new(2);
    cache.insert(10u64, 100u64);
    cache.insert(20u64, 200u64);
    // The cache is full: a fresh key evicts one, and is then found.
    cache.insert(30u64, 300u64);
    assert_eq!(cache.get(&30), Some(&300));
    assert_eq!(cache.len(), 2);
}

#[test]
fn std_full_eviction_takes_oldest_insert() {
    // Without lookups or ageing, the last key in the order of all
    // generations is the one inserted first.
    let mut cache = StdCache::new(3);
    cache.insert(1, 'a');
    cache.insert(2, 'b');
    cache.insert(3, 'c');
    cache.insert(4, 'd');
    assert!(!cache.contains_key(&1));
    cache.insert(5, 'e');
    assert!(!cache.contains_key(&2));
    assert!(cache.contains_key(&3));
    assert!(cache.contains_key(&4));
    assert!(cache.contains_key(&5));
}

#[test]
fn std_ageing_keeps_eviction_order() {
    // Ageing keeps the order of all keys, so the first key inserted still
    // leaves first.
    let mut cache = StdCache::new(3);
    cache.insert(1, 'a');
    cache.age();
    cache.insert(2, 'b');
    cache.age();
    cache.age();
    cache.insert(3, 'c');
    cache.age();
    cache.age();
    cache.insert(4, 'd');
    assert!(!cache.contains_key(&1));
    assert!(cache.contains_key(&2));
    assert!(cache.contains_key(&3));
    assert!(cache.contains_key(&4));
    assert_eq!(cache.get(&2), Some(&'b'));
}

#[test]
fn std_overwrite_when_full_keeps_all_keys() {
    let mut cache = StdCache::new(2);
    cache.insert(1, 1);
    cache.insert(2, 2);
    assert_eq!(cache.insert(1, 11), Some(1));
    assert_eq!(cache.len(), 2);
    assert_eq!(cache.get(&1), Some(&11));
    assert_eq!(cache.get(&2), Some(&2));
}

#[test]
fn std_lookup_of_absent_key() {
    let mut cache = StdCache::new(2);
    cache.insert(1, 1);
    assert_eq!(cache.get(&7), None);
    assert!(cache.get_mut(&7).is_none());
    assert!(!cache.contains_key(&7));
    assert_eq!(cache.len(), 1);
}

#[test]
fn std_get_mut_writes_value() {
    let mut cache = StdCache::new(3);
    cache.insert(1, 10);
    cache.insert(2, 20);
    if let Some(v) = cache.get_mut(&1) {
        *v = 15;
    }
    assert_eq!(cache.get(&1), Some(&15));
    assert_eq!(cache.get(&2), Some(&20));
}

#[test]
fn std_promoted_key_survives_eviction() {
    // A lookup moves the key to a younger generation than the others.
    let mut cache = StdCache::new(2);
    cache.insert(1, 'a');
    cache.insert(2, 'b');
    cache.age();
    cache.age();
    cache.get(&1);
    cache.insert(3, 'c');
    assert!(cache.contains_key(&1));
    assert!(!cache.contains_key(&2));
}

#[test]
fn std_remove_then_insert_again() {
    let mut cache = StdCache::new(2);
    cache.insert(1, 'a');
    cache.insert(2, 'b');
    assert_eq!(cache.remove(&2), Some('b'));
    assert_eq!(cache.insert(2, 'z'), None);
    assert_eq!(cache.get(&2), Some(&'z'));
    assert_eq!(cache.len(), 2);
}
