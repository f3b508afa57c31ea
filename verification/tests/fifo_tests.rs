use rustycache::rustycache::Rustycache;
use rustycache::strategy::fifo::{FIFOCache, FIFOState};
use std::time::Duration;

fn create_cache(
    capacity: usize,
    ttl_secs: u64,
    clean_interval_secs: u64,
    _start_cleaner: bool,
) -> Rustycache<String, FIFOCache<String>> {
    let ttl = Duration::from_secs(ttl_secs);
    let interval = Duration::from_secs(clean_interval_secs);
    let s = FIFOCache::new(capacity, ttl, interval);
    Rustycache::new(1, move || s.clone())
}

const SEC: i128 = 1_000_000_000;

#[test]
fn fifo_tests_test_put_and_get_sync() {
    let cache = create_cache(2, 5, 60, false);
    cache.put("key1".to_string(), "value1".to_string());
    assert_eq!(cache.get(&"key1".to_string()), Some("value1".to_string()));
}

#[test]
fn fifo_tests_test_put_and_get_basic() {
    let cache = create_cache(2, 5, 60, true);
    cache.put("key1".to_string(), "value1".to_string());

    assert_eq!(cache.get(&"key1".to_string()), Some("value1".to_string()));
    assert!(cache.contains(&"key1".to_string()));
    assert_eq!(cache.len(), 1);
    assert!(!cache.is_empty());
}

#[test]
fn test_put_does_not_update_existing_value() {
    let cache = create_cache(2, 5, 60, true);
    cache.put("key1".to_string(), "value1".to_string());
    cache.put("key1".to_string(), "value2".to_string()); // should be ignored

    assert_eq!(cache.get(&"key1".to_string()), Some("value1".to_string()));
}

#[test]
fn test_fifo_eviction_order() {
    let cache = create_cache(2, 5, 60, true);
    cache.put("a".to_string(), "A".to_string());
    cache.put("b".to_string(), "B".to_string());
    cache.put("c".to_string(), "C".to_string()); // should evict "a"

    assert!(!cache.contains(&"a".to_string()));
    assert!(cache.contains(&"b".to_string()));
    assert!(cache.contains(&"c".to_string()));
    assert_eq!(cache.len(), 2);
}

#[test]
fn test_expiration_removes_entry() {
    // The clock is given explicitly:
    // the entry lives 1 s and is read again 2 s after it was put.
    let mut state: FIFOState<String> = FIFOState::new(2, SEC as u128);
    let t0: i128 = 1_700_000_000 * SEC;
    state.put("x".to_string(), "expire_me".to_string(), t0);

    assert_eq!(state.get("x", t0), Some("expire_me".to_string()));

    // Now expired, get returns None and removes it internally
    assert_eq!(state.get("x", t0 + 2 * SEC), None);
    assert!(!state.contains("x"));
}

#[test]
fn fifo_tests_test_remove_and_clear() {
    let cache = create_cache(3, 5, 60, true);
    cache.put("a".to_string(), "1".to_string());
    cache.put("b".to_string(), "2".to_string());
    cache.put("c".to_string(), "3".to_string());

    cache.remove(&"b".to_string());
    assert_eq!(cache.get(&"b".to_string()), None);
    assert_eq!(cache.len(), 2);

    cache.clear();
    assert_eq!(cache.len(), 0);
    assert!(cache.is_empty());
}

#[test]
fn test_fifo_sync_constructor() {
    let cache = Rustycache::fifo_sync(1, 10, Duration::from_secs(60));

    cache.put("a".to_string(), "b".to_string());

    assert_eq!(cache.get(&"a".to_string()), Some("b".to_string()));
}

#[test]
fn test_explicit_stop_cleaner() {
    let cache = create_cache(2, 1, 1, true);
    drop(cache);
}
