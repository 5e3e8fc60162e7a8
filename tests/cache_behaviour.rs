use lru_cache::test_utils::{gen_item_key, gen_item_value};
use lru_cache::{ConfigError, LruCache};

fn prefilled(capacity: usize, count: usize) -> LruCache<String, String> {
    let mut c = LruCache::new(capacity).unwrap();
    for i in 0..count {
        assert_eq!(c.put(gen_item_key(i), gen_item_value(i as u32)), None);
    }
    c
}

#[test]
fn zero_capacity_is_refused() {
    assert!(matches!(
        LruCache::<u64, u64>::new(0),
        Err(ConfigError::ZeroCapacity)
    ));
}

#[test]
fn new_cache_is_empty_with_its_capacity() {
    let c = LruCache::<u64, u64>::new(3).unwrap();
    assert_eq!(c.len(), 0);
    assert_eq!(c.capacity(), 3);
    assert_eq!(c.get_mru(), None);
    assert_eq!(c.get_lru(), None);
}

#[test]
fn third_put_evicts_oldest_of_two() {
    let mut c = LruCache::new(2).unwrap();
    c.put("banana", 1);
    c.put("pear", 2);
    c.put("apple", 3);
    assert_eq!(c.len(), 2);
    assert_eq!(c.get(&"banana"), None);
    assert_eq!(c.get(&"pear"), Some(2));
    assert_eq!(c.get_mru(), Some(2));
    assert_eq!(c.get(&"apple"), Some(3));
    assert_eq!(c.get_mru(), Some(3));
}

#[test]
fn get_then_pop_mru_on_full_cache() {
    let mut c = prefilled(10, 10);
    assert_eq!(c.get(&gen_item_key(6)), Some(String::from("value-6")));
    assert_eq!(c.pop_mru(), Some(String::from("value-6")));
    assert_eq!(c.len(), 9);
    assert_eq!(c.get(&gen_item_key(6)), None);
    for i in (0..10).filter(|i| *i != 6) {
        assert_eq!(c.get(&gen_item_key(i)), Some(gen_item_value(i as u32)));
    }
}

#[test]
fn put_on_full_cache_evicts_never_reused_key() {
    let mut c = prefilled(10, 10);
    assert_eq!(c.put(gen_item_key(10), gen_item_value(10)), None);
    assert_eq!(c.len(), 10);
    assert_eq!(c.get_mru(), Some(String::from("value-10")));
    assert_eq!(c.get_lru(), Some(String::from("value-1")));
    assert_eq!(c.get(&gen_item_key(0)), None);
    assert_eq!(c.get_mru(), Some(String::from("value-10")));
}

#[test]
fn put_on_held_key_replaces_and_promotes() {
    let mut c = prefilled(3, 3);
    assert_eq!(c.put(gen_item_key(0), String::from("fresh")), Some(gen_item_value(0)));
    assert_eq!(c.len(), 3);
    assert_eq!(c.get_mru(), Some(String::from("fresh")));
    assert_eq!(c.get_lru(), Some(gen_item_value(1)));
    // The promoted key is no longer the eviction candidate.
    c.put(gen_item_key(3), gen_item_value(3));
    assert_eq!(c.get(&gen_item_key(1)), None);
    assert_eq!(c.get(&gen_item_key(0)), Some(String::from("fresh")));
}

#[test]
fn get_promotes_and_miss_changes_nothing() {
    let mut c = prefilled(3, 3);
    assert_eq!(c.get_lru(), Some(gen_item_value(0)));
    assert_eq!(c.get(&gen_item_key(0)), Some(gen_item_value(0)));
    assert_eq!(c.get_mru(), Some(gen_item_value(0)));
    assert_eq!(c.get_lru(), Some(gen_item_value(1)));
    assert_eq!(c.get(&gen_item_key(42)), None);
    assert_eq!(c.get_mru(), Some(gen_item_value(0)));
    assert_eq!(c.get_lru(), Some(gen_item_value(1)));
    assert_eq!(c.len(), 3);
}

#[test]
fn pops_on_empty_cache_yield_nothing() {
    let mut c = LruCache::<u64, u64>::new(2).unwrap();
    assert_eq!(c.pop_mru(), None);
    assert_eq!(c.pop_lru(), None);
    assert_eq!(c.len(), 0);
    c.put(1, 10);
    assert_eq!(c.pop_lru(), Some(10));
    assert_eq!(c.pop_lru(), None);
    assert_eq!(c.pop_mru(), None);
    assert_eq!(c.len(), 0);
}

#[test]
fn pops_take_both_ends_in_order() {
    let mut c = prefilled(4, 4);
    assert_eq!(c.pop_lru(), Some(gen_item_value(0)));
    assert_eq!(c.pop_mru(), Some(gen_item_value(3)));
    assert_eq!(c.pop_lru(), Some(gen_item_value(1)));
    assert_eq!(c.pop_mru(), Some(gen_item_value(2)));
    assert_eq!(c.pop_mru(), None);
    // Freed slots are reused.
    c.put(gen_item_key(7), gen_item_value(7));
    assert_eq!(c.get_lru(), Some(gen_item_value(7)));
    assert_eq!(c.len(), 1);
}

#[test]
fn distinct_puts_retain_the_newest() {
    let mut c = prefilled(3, 7);
    assert_eq!(c.len(), 3);
    for i in 0..4 {
        assert_eq!(c.get(&gen_item_key(i)), None);
    }
    assert_eq!(c.pop_mru(), Some(gen_item_value(6)));
    assert_eq!(c.pop_mru(), Some(gen_item_value(5)));
    assert_eq!(c.pop_mru(), Some(gen_item_value(4)));
    assert_eq!(c.pop_mru(), None);
}

#[test]
fn capacity_one_keeps_only_last_key() {
    let mut c = LruCache::new(1).unwrap();
    c.put(5u64, 50u64);
    c.put(6, 60);
    assert_eq!(c.get(&5), None);
    assert_eq!(c.get(&6), Some(60));
    assert_eq!(c.put(6, 61), Some(60));
    assert_eq!(c.len(), 1);
}

#[test]
fn both_orders_of_two_writers_keep_pear_and_one_other() {
    // The two serial orders that a lock allows for the writers
    // {put apple} and {put banana; put pear}.
    let mut first = LruCache::new(2).unwrap();
    first.put("apple", 3);
    first.put("banana", 1);
    first.put("pear", 2);
    let mut second = LruCache::new(2).unwrap();
    second.put("banana", 1);
    second.put("pear", 2);
    second.put("apple", 3);
    for c in [&mut first, &mut second] {
        assert_eq!(c.len(), 2);
        assert_eq!(c.get(&"pear"), Some(2));
        let apple = c.get(&"apple").is_some();
        let banana = c.get(&"banana").is_some();
        assert!(apple != banana);
    }
}

#[test]
fn generated_keys_and_values_are_decimal() {
    assert_eq!(gen_item_key(0), "item-0");
    assert_eq!(gen_item_key(6), "item-6");
    assert_eq!(gen_item_key(1203), "item-1203");
    assert_eq!(gen_item_value(10), "value-10");
    assert_eq!(gen_item_value(4294967295), "value-4294967295");
}
