use hashlife::lru::LRUCache;

#[test]
fn test_lru_cache() {
    let mut cache = LRUCache::new(2);
    cache.put(1, "one");
    cache.put(2, "two");
    assert_eq!(cache.get(&1), Some("one"));
    cache.put(3, "three");
    // 2 should be evicted
    assert_eq!(cache.get(&2), None);
    cache.put(4, "four");
    // 1 should be evicted
    assert_eq!(cache.get(&1), None);
    assert_eq!(cache.get(&3), Some("three"));
    assert_eq!(cache.get(&4), Some("four"));
}

#[test]
fn lru_update_existing_key_moves_to_front() {
    let mut cache = LRUCache::new(2);
    cache.put(1, 10);
    cache.put(2, 20);
    cache.put(1, 11);
    // updating key 1 refreshed it, so key 2 is now the oldest
    cache.put(3, 30);
    assert_eq!(cache.get(&2), None);
    assert_eq!(cache.get(&1), Some(11));
    assert_eq!(cache.get(&3), Some(30));
}

#[test]
fn lru_len_and_is_empty() {
    let mut cache = LRUCache::new(3);
    assert!(cache.is_empty());
    assert_eq!(cache.len(), 0);
    cache.put(7, 70);
    assert!(!cache.is_empty());
    assert_eq!(cache.len(), 1);
    cache.put(8, 80);
    cache.put(9, 90);
    cache.put(10, 100);
    // capacity is 3: inserting a fourth key evicted one
    assert_eq!(cache.len(), 3);
}
