use rustycache::rustycache::{all_empty, shard_capacity, shard_for_hash, total_count, Rustycache};
use rustycache::strategy::fifo::FIFOCache;
use rustycache::strategy::lfu::LFUCache;
use rustycache::strategy::lru::LRUCache;
use rustycache::strategy::CacheStrategy;
use std::time::Duration;

#[test]
fn every_key_is_found_in_its_shard() {
    let cache = Rustycache::lru_sync(16, 10_000, Duration::from_secs(300));
    for i in 0..1000 {
        cache.put(format!("key-{}", i), i);
    }
    for i in 0..1000 {
        assert_eq!(cache.get(&format!("key-{}", i)), Some(i));
    }
    assert_eq!(cache.len(), 1000);
}

#[test]
fn sharded_cache_stays_within_its_bound() {
    let cache = Rustycache::fifo_sync(4, 10, Duration::from_secs(60));
    for i in 0..100 {
        cache.put(i.to_string(), i);
    }
    // shards of 3, 3, 2 and 2 entries: 10 in all
    assert!(cache.len() <= 10);
    assert!(!cache.is_empty());
}

#[test]
fn zero_ttl_entries_expire_at_once() {
    let cache = Rustycache::fifo_sync(1, 10, Duration::from_secs(0));
    cache.put("a".to_string(), 1);
    assert!(cache.contains(&"a".to_string()));
    assert_eq!(cache.get(&"a".to_string()), None);
    assert!(!cache.contains(&"a".to_string()));
}

#[test]
fn purge_empties_a_cache_of_expired_entries() {
    let cache = Rustycache::lfu_sync(2, 10, Duration::from_secs(0));
    cache.put("a".to_string(), 1);
    cache.put("b".to_string(), 2);
    cache.purge_expired();
    assert_eq!(cache.len(), 0);
    assert!(cache.is_empty());
}

#[test]
fn remove_and_clear_across_shards() {
    let cache = Rustycache::lru_sync(8, 100, Duration::from_secs(60));
    for i in 0..50 {
        cache.put(i.to_string(), i);
    }
    cache.remove(&"7".to_string());
    assert!(!cache.contains(&"7".to_string()));
    assert_eq!(cache.len(), 49);
    cache.clear();
    assert!(cache.is_empty());
    assert_eq!(cache.len(), 0);
}

#[test]
fn shard_clones_share_one_state() {
    let shard: LFUCache<u32> = LFUCache::new(2, Duration::from_secs(60), Duration::from_secs(1));
    let other = shard.clone();
    shard.put("a".to_string(), 1);
    assert_eq!(other.get("a"), Some(1));
    assert_eq!(other.len(), 1);
    other.clear();
    assert!(shard.is_empty());
}

#[test]
fn shards_behave_as_their_strategies() {
    let lru: LRUCache<u32> = LRUCache::new(2, Duration::from_secs(60), Duration::from_secs(1));
    lru.put("a".to_string(), 1);
    lru.put("b".to_string(), 2);
    assert_eq!(lru.get("a"), Some(1));
    lru.put("c".to_string(), 3);
    assert!(lru.contains("a"));
    assert!(!lru.contains("b"));

    let fifo: FIFOCache<u32> = FIFOCache::new(2, Duration::from_secs(60), Duration::from_secs(1));
    fifo.put("a".to_string(), 1);
    fifo.put("b".to_string(), 2);
    assert_eq!(fifo.get("a"), Some(1));
    fifo.put("c".to_string(), 3);
    assert!(!fifo.contains("a"));
    assert!(fifo.contains("b"));
}

#[test]
fn shard_for_hash_takes_the_hash_modulo_the_shard_count() {
    assert_eq!(shard_for_hash(10, 4), 2);
    assert_eq!(shard_for_hash(7, 1), 0);
    assert_eq!(shard_for_hash(u32::MAX as u64, 1000), (u32::MAX % 1000) as usize);
}

#[test]
fn a_cache_without_shards_is_empty() {
    let cache: Rustycache<u32, FIFOCache<u32>> =
        Rustycache::new(0, || FIFOCache::new(1, Duration::from_secs(1), Duration::from_secs(1)));
    assert!(cache.is_empty());
    assert_eq!(cache.len(), 0);
}

#[test]
fn one_shard_holds_exactly_the_total_capacity() {
    let cache = Rustycache::fifo_sync(1, 2, Duration::from_secs(60));
    cache.put("a".to_string(), 1);
    cache.put("b".to_string(), 2);
    cache.put("c".to_string(), 3);
    assert_eq!(cache.len(), 2);
    assert!(!cache.contains("a"));
    assert!(cache.contains("b"));
    assert!(cache.contains("c"));
}

#[test]
fn shard_capacities_add_up_to_the_total() {
    let shares: Vec<usize> = (0..4).map(|i| shard_capacity(10, 4, i)).collect();
    assert_eq!(shares, vec![3, 3, 2, 2]);
    let total: usize = (0..8).map(|i| shard_capacity(100, 8, i)).sum();
    assert_eq!(total, 100);
    assert_eq!(shard_capacity(usize::MAX, 1, 0), usize::MAX);
    assert_eq!(shard_capacity(1, 3, 2), 0);
}

#[test]
fn total_count_adds_up_and_stops_at_the_limit() {
    assert_eq!(total_count(&vec![]), 0);
    assert_eq!(total_count(&vec![1, 2, 3]), 6);
    assert_eq!(total_count(&vec![usize::MAX, 1]), usize::MAX);
    assert_eq!(total_count(&vec![usize::MAX - 1, 1, 0]), usize::MAX);
}

#[test]
fn all_empty_needs_every_flag() {
    assert!(all_empty(&vec![]));
    assert!(all_empty(&vec![true, true]));
    assert!(!all_empty(&vec![true, false, true]));
}

#[test]
fn len_counts_entries_over_all_shards() {
    let cache = Rustycache::fifo_sync(4, 100, Duration::from_secs(60));
    cache.put("session_1".to_string(), "user_data_A");
    cache.put("session_2".to_string(), "user_data_B");
    assert_eq!(cache.len(), 2);
    assert!(!cache.is_empty());
    cache.clear();
    assert_eq!(cache.len(), 0);
    assert!(cache.is_empty());
    assert!(!cache.contains("session_1"));
    assert_eq!(cache.get("session_2"), None);
}
