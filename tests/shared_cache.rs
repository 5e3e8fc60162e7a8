use lru_cache::SharedLruCache;

#[test]
fn shared_cache_refuses_zero_capacity() {
    assert!(SharedLruCache::<u64, u64>::new(0).is_err());
}

#[test]
fn shared_cache_serial_operations() {
    let c = SharedLruCache::new(2).unwrap();
    assert_eq!(c.put("banana", 1), None);
    assert_eq!(c.put("pear", 2), None);
    assert_eq!(c.put("apple", 3), None);
    assert_eq!(c.len(), 2);
    assert_eq!(c.get(&"banana"), None);
    assert_eq!(c.get(&"pear"), Some(2));
    assert_eq!(c.get_mru(), Some(2));
    assert_eq!(c.get_lru(), Some(3));
    assert_eq!(c.put("pear", 5), Some(2));
    assert_eq!(c.pop_lru(), Some(3));
    assert_eq!(c.pop_mru(), Some(5));
    assert_eq!(c.pop_mru(), None);
    assert_eq!(c.len(), 0);
}
