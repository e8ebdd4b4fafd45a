use lru_cache::LRUCache;

#[test]
fn scenario_capacity_two_integer_keys() {
    let mut lru = LRUCache::new(2);
    lru.put(1, 1);
    lru.put(2, 2);
    lru.put(3, 3);

    assert_eq!(lru.get(1), None);
    assert_eq!(lru.get(2), Some(&2));
    assert_eq!(lru.get(3), Some(&3));
}

#[test]
fn scenario_touch_shields_from_eviction() {
    let mut lru = LRUCache::new(3);
    lru.put("A", "a");
    lru.put("B", "b");
    lru.put("C", "c");

    // Touching A makes B the least recently used.
    lru.get("A");
    lru.put("D", "d");

    assert_eq!(lru.get("B"), None);
    assert_eq!(lru.get("A"), Some(&"a"));
    assert_eq!(lru.get("C"), Some(&"c"));
    assert_eq!(lru.get("D"), Some(&"d"));
}

#[test]
fn scenario_recency_order_observed() {
    let mut lru = LRUCache::new(3);
    lru.put("A", "a");
    lru.put("B", "b");
    lru.put("C", "c");
    lru.put("D", "d");
    assert_eq!(lru.keys_in_order(), vec!["B", "C", "D"]);

    assert_eq!(lru.get("A"), None);
    lru.get("D");
    lru.get("B");
    lru.get("C");
    assert_eq!(lru.keys_in_order(), vec!["D", "B", "C"]);

    // D is now the least recently used and is evicted.
    lru.put("A", "a");
    assert_eq!(lru.keys_in_order(), vec!["B", "C", "A"]);

    lru.put("X", "x");
    assert_eq!(lru.keys_in_order(), vec!["C", "A", "X"]);

    assert_eq!(lru.get("B"), None);
    assert_eq!(lru.get("D"), None);
}

#[test]
fn update_existing_key_keeps_size() {
    let mut lru = LRUCache::new(2);
    lru.put("K", "v1");
    lru.put("K", "v2");

    assert_eq!(lru.get("K"), Some(&"v2"));
    assert_eq!(lru.len(), 1);
}

#[test]
fn delete_present_key_shrinks() {
    let mut lru = LRUCache::new(3);
    lru.put(1, "one");
    lru.put(2, "two");
    lru.put(3, "three");

    lru.delete(2);

    assert_eq!(lru.get(2), None);
    assert_eq!(lru.get(1), Some(&"one"));
    assert_eq!(lru.get(3), Some(&"three"));
    assert_eq!(lru.len(), 2);
}

#[test]
fn delete_absent_key_changes_nothing() {
    let mut lru = LRUCache::new(2);
    lru.put("a", 1);
    lru.put("b", 2);

    lru.delete("missing");

    assert_eq!(lru.keys_in_order(), vec!["a", "b"]);
    assert_eq!(lru.len(), 2);
    assert_eq!(lru.peek(&"a"), Some(&1));
    assert_eq!(lru.peek(&"b"), Some(&2));
}

#[test]
fn size_never_exceeds_capacity() {
    let mut lru = LRUCache::new(2);
    for i in 0..10u64 {
        lru.put(i, i);
        assert!(lru.len() <= lru.capacity());
    }
    assert_eq!(lru.len(), 2);
}

#[test]
fn tracked_keys_match_stored_keys() {
    let mut lru = LRUCache::new(3);
    lru.put(10u64, "ten");
    lru.put(20u64, "twenty");
    lru.put(30u64, "thirty");
    lru.get(10);
    lru.delete(20);
    lru.put(40u64, "forty");

    let keys = lru.keys_in_order();
    assert_eq!(keys.len(), lru.len());
    for k in &keys {
        assert!(lru.peek(k).is_some());
    }
    assert_eq!(lru.peek(&20), None);
}

#[test]
fn zero_capacity_rejected() {
    assert!(LRUCache::<u64, u64>::try_new(0).is_none());
    assert!(LRUCache::<u64, u64>::try_new(1).is_some());
}

#[test]
fn capacity_one_evicts_each_insert() {
    let mut lru = LRUCache::new(1);
    lru.put("a", 1);
    lru.put("b", 2);

    assert_eq!(lru.get("a"), None);
    assert_eq!(lru.get("b"), Some(&2));
    assert_eq!(lru.len(), 1);
}

#[test]
fn peek_does_not_touch_recency() {
    let mut lru = LRUCache::new(2);
    lru.put("a", 1);
    lru.put("b", 2);

    // A peek must not promote "a": it stays least recently used.
    assert_eq!(lru.peek(&"a"), Some(&1));
    lru.put("c", 3);

    assert_eq!(lru.get("a"), None);
    assert_eq!(lru.get("b"), Some(&2));
    assert_eq!(lru.get("c"), Some(&3));
}

#[test]
fn update_order_promotes_key() {
    let mut lru = LRUCache::new(2);
    lru.put("a", 1);
    lru.put("b", 2);

    lru.update_order("a");
    assert_eq!(lru.keys_in_order(), vec!["b", "a"]);

    // "b" is now the least recently used and is evicted.
    lru.put("c", 3);
    assert_eq!(lru.get("b"), None);
    assert_eq!(lru.get("a"), Some(&1));
}

#[test]
fn string_keys_compare_by_content() {
    let mut lru = LRUCache::new(2);
    lru.put("key1", 1);

    // A key equal in content but from another allocation still hits.
    let owned = String::from("key1");
    assert_eq!(lru.get(owned.as_str()), Some(&1));

    // A rearrangement of the same characters does not.
    assert_eq!(lru.get("1key"), None);
}
