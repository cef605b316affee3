use qos_core::lru::LRUCache;

#[test]
fn test_insert_and_retrieve() {
    let mut cache = LRUCache::<i32, &str, 2>::new_boxed();
    assert_eq!(cache.put(1, "one"), (None, false));
    assert_eq!(cache.put(2, "two"), (None, false));

    assert_eq!(cache.get(1), Some(&"one"));
    assert_eq!(cache.get(2), Some(&"two"));
}

#[test]
fn test_eviction() {
    let mut cache = LRUCache::<i32, &str, 2>::new_boxed();
    assert_eq!(cache.put(1, "one"), (None, false));
    assert_eq!(cache.put(2, "two"), (None, false));

    assert_eq!(cache.get(1), Some(&"one"));

    assert_eq!(cache.put(3, "three"), (Some((2, "two")), false));

    assert_eq!(cache.get(1), Some(&"one"));
    assert_eq!(cache.get(2), None);
    assert_eq!(cache.get(3), Some(&"three"));
}

#[test]
fn test_update_existing_key() {
    let mut cache = LRUCache::<i32, &str, 2>::new_boxed();
    assert_eq!(cache.put(1, "one"), (None, false));
    assert_eq!(cache.put(2, "two"), (None, false));

    assert_eq!(cache.put(1, "uno"), (None, true));

    assert_eq!(cache.get(1), Some(&"uno"));
    assert_eq!(cache.get(2), Some(&"two"));
}

#[test]
fn test_lru_property() {
    let mut cache = LRUCache::<i32, &str, 3>::new_boxed();
    assert_eq!(cache.put(1, "one"), (None, false));
    assert_eq!(cache.put(2, "two"), (None, false));
    assert_eq!(cache.put(3, "three"), (None, false));

    cache.get(2);
    cache.get(1);
    cache.get(3);

    assert_eq!(cache.put(4, "four"), (Some((2, "two")), false));

    assert_eq!(cache.get(1), Some(&"one"));
    assert_eq!(cache.get(2), None);
    assert_eq!(cache.get(3), Some(&"three"));
    assert_eq!(cache.get(4), Some(&"four"));
}

#[test]
fn test_eviction_edge_case() {
    let mut cache = LRUCache::<i32, &str, 1>::new_boxed();
    assert_eq!(cache.put(1, "one"), (None, false));

    assert_eq!(cache.put(2, "two"), (Some((1, "one")), false));

    assert_eq!(cache.get(1), None);
    assert_eq!(cache.get(2), Some(&"two"));
}

#[test]
fn test_empty_cache() {
    let mut cache = LRUCache::<i32, &str, 1>::new_boxed();
    assert_eq!(cache.get(1), None);
}

#[test]
fn test_insert_same_key_multiple_times() {
    let mut cache = LRUCache::<i32, &str, 2>::new_boxed();
    assert_eq!(cache.put(1, "one"), (None, false));
    assert_eq!(cache.put(1, "uno"), (None, true));

    assert_eq!(cache.get(1), Some(&"uno"));
}

#[test]
fn test_multiple_evictions() {
    let mut cache = LRUCache::<i32, &str, 2>::new_boxed();
    assert_eq!(cache.put(1, "one"), (None, false));
    assert_eq!(cache.put(2, "two"), (None, false));
    assert_eq!(cache.put(3, "three"), (Some((1, "one")), false));

    assert_eq!(cache.get(1), None);
    assert_eq!(cache.get(2), Some(&"two"));
    assert_eq!(cache.get(3), Some(&"three"));

    assert_eq!(cache.put(4, "four"), (Some((2, "two")), false));

    assert_eq!(cache.get(2), None);
    assert_eq!(cache.get(3), Some(&"three"));
    assert_eq!(cache.get(4), Some(&"four"));
}

#[test]
fn test_large_capacity() {
    let mut cache = LRUCache::<i32, i32, 1000>::new_boxed();
    for i in 0..1000 {
        assert_eq!(cache.put(i, i), (None, false));
    }

    for i in 0..1000 {
        assert_eq!(cache.get(i), Some(&i));
    }

    assert_eq!(cache.put(1000, 1000), (Some((0, 0)), false));
    assert_eq!(cache.get(0), None);
    assert_eq!(cache.get(1000), Some(&1000));
}

#[test]
fn test_get_updates_lru_order() {
    let mut cache = LRUCache::<i32, &str, 2>::new_boxed();
    assert_eq!(cache.put(1, "one"), (None, false));
    assert_eq!(cache.put(2, "two"), (None, false));

    assert_eq!(cache.get(1), Some(&"one"));

    assert_eq!(cache.put(3, "three"), (Some((2, "two")), false));

    assert_eq!(cache.get(1), Some(&"one"));
    assert_eq!(cache.get(2), None);
    assert_eq!(cache.get(3), Some(&"three"));
}

#[test]
fn test_no_eviction_on_existing_key_update() {
    let mut cache = LRUCache::<i32, &str, 2>::new_boxed();
    assert_eq!(cache.put(1, "one"), (None, false));
    assert_eq!(cache.put(2, "two"), (None, false));

    assert_eq!(cache.put(1, "uno"), (None, true));

    assert_eq!(cache.get(1), Some(&"uno"));
    assert_eq!(cache.get(2), Some(&"two"));
}

#[test]
fn test_pop() {
    let mut cache = LRUCache::<i32, &str, 3>::new_boxed();
    cache.put(1, "one");
    cache.put(2, "two");
    cache.put(3, "three");

    assert_eq!(cache.pop(&2), Some((2, "two")));
    assert_eq!(cache.get(2), None);
    assert_eq!(cache.get(1), Some(&"one"));
    assert_eq!(cache.get(3), Some(&"three"));

    assert_eq!(cache.pop(&4), None);
}

#[test]
fn overflow_by_one_evicts_exactly_the_first_key() {
    let mut cache = LRUCache::<u64, u64, 4>::new();
    for k in 10..14u64 {
        assert_eq!(cache.put(k, k * 2), (None, false));
    }
    assert_eq!(cache.put(14, 28), (Some((10, 20)), false));
    assert!(!cache.contains(10));
    for k in 11..15u64 {
        assert!(cache.contains(k));
    }
}

#[test]
fn contains_does_not_reorder() {
    let mut cache = LRUCache::<u64, (), 2>::new();
    cache.put(1, ());
    cache.put(2, ());
    assert!(cache.contains(1));
    assert_eq!(cache.put(3, ()), (Some((1, ())), false));
}

#[test]
fn put_then_get_round_trip() {
    let mut cache = LRUCache::<u64, &str, 2>::new();
    cache.put(5, "five");
    cache.put(6, "six");
    cache.put(7, "seven");
    assert_eq!(cache.get(7), Some(&"seven"));
    assert_eq!(cache.pop(&6), Some((6, "six")));
    cache.put(8, "eight");
    assert_eq!(cache.get(8), Some(&"eight"));
    assert_eq!(cache.get(7), Some(&"seven"));
}

#[test]
fn popped_slots_are_reused_without_eviction() {
    let mut cache = LRUCache::<u64, u64, 3>::new();
    for k in 0..3u64 {
        cache.put(k, k);
    }
    assert_eq!(cache.pop(&1), Some((1, 1)));
    assert_eq!(cache.pop(&0), Some((0, 0)));
    assert_eq!(cache.put(7, 7), (None, false));
    assert_eq!(cache.put(8, 8), (None, false));
    assert_eq!(cache.put(9, 9), (Some((2, 2)), false));
    assert_eq!(cache.pop(&2), None);
}
