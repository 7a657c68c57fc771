use mglru::no_std_impl::Hash as NoStdHash;
use mglru::no_std_impl::MglruCache as NoStdCache;

#[derive(Debug, PartialEq, Eq)]
struct NoStdConstHashKey(i32);

impl NoStdHash for NoStdConstHashKey {
    fn hash_spec(&self) -> usize {
        14
    }

    fn hash_value(&self) -> usize {
        14
    }
}

#[test]
fn nostd_basic_insert_and_get() {
    let mut cache = NoStdCache::<i32, &str, 4>::new();
    cache.insert(1, "one");
    cache.insert(2, "two");
    cache.insert(3, "three");
    assert_eq!(cache.get(&1), Some(&"one"));
    assert_eq!(cache.get(&2), Some(&"two"));
    assert_eq!(cache.get(&3), Some(&"three"));
    assert_eq!(cache.len(), 3);
}

#[test]
fn nostd_eviction_removes_oldest_gen_tail() {
    let mut cache = NoStdCache::<i32, &str, 3>::new();
    cache.insert(1, "a");
    cache.insert(2, "b");
    cache.insert(3, "c");
    cache.age();
    cache.age();
    cache.age();
    cache.insert(4, "d");
    assert!(!cache.contains_key(&1));
    assert!(cache.contains_key(&2));
    assert!(cache.contains_key(&3));
    assert!(cache.contains_key(&4));
}

#[test]
fn nostd_access_promotes() {
    let mut cache = NoStdCache::<i32, &str, 3>::new();
    cache.insert(1, "a");
    cache.insert(2, "b");
    cache.insert(3, "c");
    cache.age();
    cache.get(&1);
    cache.age();
    cache.age();
    cache.insert(4, "d");
    assert!(cache.contains_key(&1));
    assert!(cache.contains_key(&4));
    assert_eq!(cache.len(), 3);
}

#[test]
fn nostd_update_existing_key() {
    let mut cache = NoStdCache::<i32, &str, 4>::new();
    assert_eq!(cache.insert(1, "old"), None);
    assert_eq!(cache.insert(1, "new"), Some("old"));
    assert_eq!(cache.get(&1), Some(&"new"));
    assert_eq!(cache.len(), 1);
}

#[test]
fn nostd_remove() {
    let mut cache = NoStdCache::<i32, &str, 4>::new();
    cache.insert(1, "a");
    cache.insert(2, "b");
    assert_eq!(cache.remove(&1), Some("a"));
    assert!(!cache.contains_key(&1));
    assert_eq!(cache.len(), 1);
    assert_eq!(cache.remove(&1), None);
}

#[test]
fn nostd_age_shifts_generations() {
    let mut cache = NoStdCache::<i32, &str, 8>::new();
    cache.insert(1, "a");
    cache.insert(2, "b");
    cache.age();
    cache.age();
    cache.age();
    assert_eq!(cache.get(&1), Some(&"a"));
    assert_eq!(cache.get(&2), Some(&"b"));
}

#[test]
fn nostd_heavy_churn() {
    let mut cache = NoStdCache::<i32, i32, 16>::new();
    for i in 0..1000 {
        cache.insert(i, i * 10);
        if i % 7 == 0 {
            cache.age();
        }
    }
    assert_eq!(cache.len(), 16);
    for i in 984..1000 {
        assert!(cache.contains_key(&i));
    }
}

#[test]
fn nostd_remove_insert_reuse_slots() {
    let mut cache = NoStdCache::<i32, i32, 32>::new();

    for i in 0..32 {
        cache.insert(i, i);
    }
    for i in 0..16 {
        assert_eq!(cache.remove(&i), Some(i));
    }
    for i in 100..116 {
        cache.insert(i, i * 2);
    }

    assert_eq!(cache.len(), 32);
    for i in 0..16 {
        assert!(!cache.contains_key(&i));
    }
    for i in 16..32 {
        assert!(cache.contains_key(&i));
    }
    for i in 100..116 {
        assert_eq!(cache.get(&i), Some(&(i * 2)));
    }
}

#[test]
fn nostd_capacity_one_edge_behavior() {
    let mut cache = NoStdCache::<i32, i32, 1>::new();

    assert_eq!(cache.capacity(), 1);
    assert!(cache.is_empty());

    assert_eq!(cache.insert(1, 10), None);
    assert_eq!(cache.len(), 1);
    assert_eq!(cache.get(&1), Some(&10));

    assert_eq!(cache.insert(1, 11), Some(10));
    assert_eq!(cache.get(&1), Some(&11));

    cache.age();
    cache.age();
    assert_eq!(cache.get(&1), Some(&11));

    assert_eq!(cache.insert(2, 20), None);
    assert_eq!(cache.len(), 1);
    assert!(!cache.contains_key(&1));
    assert_eq!(cache.get(&2), Some(&20));

    assert_eq!(cache.remove(&2), Some(20));
    assert_eq!(cache.len(), 0);
    assert!(cache.is_empty());
    assert_eq!(cache.remove(&2), None);

    assert_eq!(cache.insert(3, 30), None);
    assert_eq!(cache.len(), 1);
    assert_eq!(cache.get(&3), Some(&30));
}

#[test]
fn nostd_remove_cluster_wraparound_integrity() {
    let mut cache = NoStdCache::<NoStdConstHashKey, i32, 8>::new();

    for i in 0..8 {
        cache.insert(NoStdConstHashKey(i), i * 10);
    }

    assert_eq!(cache.remove(&NoStdConstHashKey(3)), Some(30));
    assert_eq!(cache.remove(&NoStdConstHashKey(6)), Some(60));

    for i in [0, 1, 2, 4, 5, 7] {
        assert_eq!(cache.get(&NoStdConstHashKey(i)), Some(&(i * 10)));
    }

    assert_eq!(cache.insert(NoStdConstHashKey(100), 1000), None);
    assert_eq!(cache.insert(NoStdConstHashKey(101), 1010), None);
    assert_eq!(cache.len(), 8);
    assert_eq!(cache.get(&NoStdConstHashKey(100)), Some(&1000));
    assert_eq!(cache.get(&NoStdConstHashKey(101)), Some(&1010));
}

#[test]
fn nostd_hash_values() {
    assert_eq!(0i32.hash_value(), 0);
    assert_eq!(1u64.hash_value() as u64, 16294208416658607535u64 as usize as u64);
    assert_eq!(42u64.hash_value() as u64, 1391454601869358542u64 as usize as u64);
    assert_eq!((-1i32).hash_value() as u64, 3703370420611038912u64 as usize as u64);
    assert_eq!(7usize.hash_value(), 7u64.hash_value());
    assert_eq!("".hash_value(), 5381);
    assert_eq!("a".hash_value(), 177670);
    assert_eq!("hello".hash_value() as u64, 210714636441u64 as usize as u64);
}

#[test]
fn nostd_u64_hashes_are_distinct() {
    let mut seen = std::collections::HashSet::new();
    for k in 0u64..5000 {
        assert!(seen.insert(k.hash_value()));
    }
    for k in [u64::MAX, u64::MAX - 1, 1u64 << 63, 0x9E3779B97F4A7C15] {
        assert!(seen.insert(k.hash_value()));
    }
}

#[test]
fn nostd_colliding_keys_all_found_after_removals() {
    // Every key has the same home bucket, so they form one run of buckets.
    let mut cache = NoStdCache::<NoStdConstHashKey, i32, 4>::new();
    for i in 0..4 {
        cache.insert(NoStdConstHashKey(i), i);
    }
    assert_eq!(cache.remove(&NoStdConstHashKey(0)), Some(0));
    assert_eq!(cache.remove(&NoStdConstHashKey(2)), Some(2));
    assert_eq!(cache.get(&NoStdConstHashKey(1)), Some(&1));
    assert_eq!(cache.get(&NoStdConstHashKey(3)), Some(&3));
    assert!(!cache.contains_key(&NoStdConstHashKey(0)));
    assert!(!cache.contains_key(&NoStdConstHashKey(2)));
    assert_eq!(cache.insert(NoStdConstHashKey(9), 9), None);
    assert_eq!(cache.get(&NoStdConstHashKey(9)), Some(&9));
    assert_eq!(cache.len(), 3);
}

#[test]
fn nostd_full_eviction_takes_oldest_insert() {
    let mut cache = NoStdCache::<u64, char, 3>::new();
    cache.insert(1, 'a');
    cache.insert(2, 'b');
    cache.insert(3, 'c');
    cache.insert(4, 'd');
    assert!(!cache.contains_key(&1));
    cache.insert(5, 'e');
    assert!(!cache.contains_key(&2));
    assert!(cache.contains_key(&3));
    assert!(cache.contains_key(&4));
    assert!(cache.contains_key(&5));
}

#[test]
fn nostd_ageing_keeps_eviction_order() {
    let mut cache = NoStdCache::<u64, char, 3>::new();
    cache.insert(1, 'a');
    cache.age();
    cache.insert(2, 'b');
    cache.age();
    cache.age();
    cache.insert(3, 'c');
    cache.age();
    cache.age();
    cache.insert(4, 'd');
    assert!(!cache.contains_key(&1));
    assert!(cache.contains_key(&2));
    assert!(cache.contains_key(&3));
    assert!(cache.contains_key(&4));
}

#[test]
fn nostd_get_mut_writes_value() {
    let mut cache = NoStdCache::<i32, i32, 3>::new();
    cache.insert(1, 10);
    cache.insert(2, 20);
    if let Some(v) = cache.get_mut(&1) {
        *v = 15;
    }
    assert_eq!(cache.get(&1), Some(&15));
    assert!(cache.get_mut(&9).is_none());
    assert_eq!(cache.get(&2), Some(&20));
}

#[test]
fn nostd_overwrite_when_full_keeps_all_keys() {
    let mut cache = NoStdCache::<i32, i32, 2>::new();
    cache.insert(1, 1);
    cache.insert(2, 2);
    assert_eq!(cache.insert(1, 11), Some(1));
    assert_eq!(cache.len(), 2);
    assert_eq!(cache.get(&1), Some(&11));
    assert_eq!(cache.get(&2), Some(&2));
}

#[test]
fn nostd_str_keys() {
    let mut cache = NoStdCache::<&str, i32, 2>::new();
    cache.insert("x", 1);
    cache.insert("y", 2);
    cache.insert("z", 3);
    assert!(!cache.contains_key(&"x"));
    assert_eq!(cache.get(&"y"), Some(&2));
    assert_eq!(cache.get(&"z"), Some(&3));
}
