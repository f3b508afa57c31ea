use rustycache::strategy::fifo::FIFOState;
use rustycache::strategy::lfu::LFUState;
use rustycache::strategy::lru::{LRUState, BATCH_SIZE};

const SEC: i128 = 1_000_000_000;
const T0: i128 = 1_700_000_000 * SEC;
const TTL: u128 = 60 * SEC as u128;

#[test]
fn fifo_capacity_zero_keeps_the_latest_entry() {
    let mut s: FIFOState<u32> = FIFOState::new(0, TTL);
    s.put("a".to_string(), 1, T0);
    s.put("b".to_string(), 2, T0);
    assert_eq!(s.len(), 1);
    assert!(!s.contains("a"));
    assert_eq!(s.get("b", T0), Some(2));
}

#[test]
fn fifo_read_does_not_save_an_entry_from_eviction() {
    let mut s: FIFOState<u32> = FIFOState::new(2, TTL);
    s.put("a".to_string(), 1, T0);
    s.put("b".to_string(), 2, T0);
    assert_eq!(s.get("a", T0), Some(1));
    s.put("c".to_string(), 3, T0);
    assert!(!s.contains("a"));
    assert!(s.contains("b"));
    assert!(s.contains("c"));
}

#[test]
fn fifo_entry_expires_exactly_at_its_ttl() {
    let mut s: FIFOState<u32> = FIFOState::new(2, SEC as u128);
    s.put("a".to_string(), 1, T0);
    assert_eq!(s.get("a", T0 + SEC - 1), Some(1));
    // an expired entry is still counted until something removes it
    assert!(s.contains("a"));
    assert_eq!(s.get("a", T0 + SEC), None);
    assert!(!s.contains("a"));
    assert!(s.is_empty());
}

#[test]
fn fifo_purge_keeps_unexpired_entries_in_order() {
    let mut s: FIFOState<u32> = FIFOState::new(3, 10 * SEC as u128);
    s.put("a".to_string(), 1, T0);
    s.put("b".to_string(), 2, T0 + 5 * SEC);
    s.put("c".to_string(), 3, T0);
    s.purge_expired(T0 + 10 * SEC);
    assert_eq!(s.len(), 1);
    assert!(s.contains("b"));
    // "b" is now the oldest: the next two new keys push it out last
    s.put("d".to_string(), 4, T0 + 10 * SEC);
    s.put("e".to_string(), 5, T0 + 10 * SEC);
    s.put("f".to_string(), 6, T0 + 10 * SEC);
    assert!(!s.contains("b"));
    assert_eq!(s.len(), 3);
}

#[test]
fn fifo_remove_then_clear() {
    let mut s: FIFOState<u32> = FIFOState::new(3, TTL);
    s.put("a".to_string(), 1, T0);
    s.put("b".to_string(), 2, T0);
    s.remove("a");
    s.remove("missing");
    assert_eq!(s.len(), 1);
    s.clear();
    assert!(s.is_empty());
    assert_eq!(s.get("b", T0), None);
}

#[test]
fn lru_evicts_the_least_recently_used() {
    let mut s: LRUState<u32> = LRUState::new(2, TTL);
    let mut buf: Vec<usize> = Vec::new();
    s.put(&mut buf, "a".to_string(), 1, T0);
    s.put(&mut buf, "b".to_string(), 2, T0);
    assert_eq!(s.get(&mut buf, "a", T0), Some(1));
    s.put(&mut buf, "c".to_string(), 3, T0);
    assert!(s.contains("a"));
    assert!(!s.contains("b"));
    assert!(s.contains("c"));
    assert_eq!(s.len(), 2);
}

#[test]
fn lru_put_updates_and_refreshes_an_entry() {
    let mut s: LRUState<u32> = LRUState::new(2, TTL);
    let mut buf: Vec<usize> = Vec::new();
    s.put(&mut buf, "a".to_string(), 1, T0);
    s.put(&mut buf, "b".to_string(), 2, T0);
    s.put(&mut buf, "a".to_string(), 10, T0);
    assert_eq!(s.len(), 2);
    s.put(&mut buf, "c".to_string(), 3, T0);
    assert_eq!(s.get(&mut buf, "a", T0), Some(10));
    assert!(!s.contains("b"));
}

#[test]
fn lru_batch_of_reads_is_replayed() {
    let mut s: LRUState<u32> = LRUState::new(2, TTL);
    let mut buf: Vec<usize> = Vec::new();
    s.put(&mut buf, "a".to_string(), 1, T0);
    s.put(&mut buf, "b".to_string(), 2, T0);
    for _ in 0..BATCH_SIZE {
        assert_eq!(s.get(&mut buf, "a", T0), Some(1));
    }
    // the buffer was full and has been replayed
    assert!(buf.is_empty());
    s.put(&mut buf, "c".to_string(), 3, T0);
    assert!(s.contains("a"));
    assert!(!s.contains("b"));
}

#[test]
fn lru_removed_entry_leaves_a_harmless_recorded_read() {
    let mut s: LRUState<u32> = LRUState::new(2, TTL);
    let mut buf: Vec<usize> = Vec::new();
    s.put(&mut buf, "a".to_string(), 1, T0);
    s.put(&mut buf, "b".to_string(), 2, T0);
    assert_eq!(s.get(&mut buf, "a", T0), Some(1));
    s.remove("a");
    assert_eq!(buf.len(), 1);
    s.put(&mut buf, "c".to_string(), 3, T0);
    s.put(&mut buf, "d".to_string(), 4, T0);
    assert!(!s.contains("b"));
    assert!(s.contains("c"));
    assert!(s.contains("d"));
}

#[test]
fn lru_expired_entry_is_dropped_on_read() {
    let mut s: LRUState<u32> = LRUState::new(2, SEC as u128);
    let mut buf: Vec<usize> = Vec::new();
    s.put(&mut buf, "a".to_string(), 1, T0);
    assert_eq!(s.get(&mut buf, "a", T0 + 2 * SEC), None);
    assert!(s.is_empty());
    assert_eq!(s.get_or_expire("a", T0), None);
}

#[test]
fn lru_purge_and_clear() {
    let mut s: LRUState<u32> = LRUState::new(3, 10 * SEC as u128);
    let mut buf: Vec<usize> = Vec::new();
    s.put(&mut buf, "a".to_string(), 1, T0);
    s.put(&mut buf, "b".to_string(), 2, T0 + 5 * SEC);
    s.purge_expired(T0 + 10 * SEC);
    assert_eq!(s.len(), 1);
    assert!(s.contains("b"));
    s.clear(&mut buf);
    assert!(s.is_empty());
}

#[test]
fn lfu_evicts_the_least_frequently_read() {
    let mut s: LFUState<u32> = LFUState::new(2, TTL);
    s.put("a".to_string(), 1, T0);
    s.put("b".to_string(), 2, T0);
    assert_eq!(s.get("a", T0), Some(1));
    assert_eq!(s.get("a", T0), Some(1));
    assert_eq!(s.get("b", T0), Some(2));
    s.put("c".to_string(), 3, T0);
    assert!(s.contains("a"));
    assert!(!s.contains("b"));
    assert!(s.contains("c"));
}

#[test]
fn lfu_put_of_a_present_key_keeps_its_count() {
    let mut s: LFUState<u32> = LFUState::new(2, TTL);
    s.put("a".to_string(), 1, T0);
    assert_eq!(s.get("a", T0), Some(1));
    s.put("b".to_string(), 2, T0);
    s.put("a".to_string(), 10, T0);
    s.put("c".to_string(), 3, T0);
    assert_eq!(s.get("a", T0), Some(10));
    assert!(!s.contains("b"));
}

#[test]
fn lfu_ties_drop_exactly_one_entry() {
    let mut s: LFUState<u32> = LFUState::new(2, TTL);
    s.put("a".to_string(), 1, T0);
    s.put("b".to_string(), 2, T0);
    s.put("c".to_string(), 3, T0);
    assert_eq!(s.len(), 2);
    assert!(s.contains("c"));
    assert!(s.contains("a") != s.contains("b"));
}

#[test]
fn lfu_purge_remove_and_clear() {
    let mut s: LFUState<u32> = LFUState::new(3, 10 * SEC as u128);
    s.put("a".to_string(), 1, T0);
    s.put("b".to_string(), 2, T0 + 5 * SEC);
    s.put("c".to_string(), 3, T0 + 5 * SEC);
    s.purge_expired(T0 + 10 * SEC);
    assert_eq!(s.len(), 2);
    s.remove("b");
    assert!(!s.contains("b"));
    assert_eq!(s.get("c", T0 + 10 * SEC), Some(3));
    s.clear();
    assert!(s.is_empty());
}

#[test]
fn lfu_slot_of_a_removed_entry_is_used_again() {
    let mut s: LFUState<String> = LFUState::new(2, TTL);
    s.put("a".to_string(), "x".to_string(), T0);
    s.remove("a");
    s.put("b".to_string(), "y".to_string(), T0);
    s.put("ü".to_string(), "z".to_string(), T0);
    assert_eq!(s.get("b", T0), Some("y".to_string()));
    assert_eq!(s.get("ü", T0), Some("z".to_string()));
    assert_eq!(s.len(), 2);
}

#[test]
fn lru_reads_do_not_extend_the_expiry() {
    let mut s: LRUState<u32> = LRUState::new(3, TTL);
    let mut buf: Vec<usize> = Vec::new();
    s.put(&mut buf, "k".to_string(), 7, T0);
    for i in 0..100 {
        let now = T0 + (i as i128) * SEC / 2;
        assert_eq!(s.get(&mut buf, "k", now), Some(7));
        s.put(&mut buf, format!("other-{}", i % 2), i, now);
        s.remove("missing");
        s.purge_expired(now);
    }
    assert_eq!(s.get(&mut buf, "k", T0 + TTL as i128 - 1), Some(7));
    assert_eq!(s.get(&mut buf, "k", T0 + TTL as i128), None);
    assert!(!s.contains("k"));
}

#[test]
fn fifo_read_after_write_survives_other_operations() {
    let mut s: FIFOState<u32> = FIFOState::new(3, TTL);
    s.put("k".to_string(), 7, T0);
    s.put("a".to_string(), 1, T0 + SEC);
    assert_eq!(s.get("a", T0 + 2 * SEC), Some(1));
    s.remove("a");
    s.purge_expired(T0 + 3 * SEC);
    assert_eq!(s.get("k", T0 + 4 * SEC), Some(7));
}

#[test]
fn lfu_read_after_write_survives_other_operations() {
    let mut s: LFUState<u32> = LFUState::new(3, TTL);
    s.put("k".to_string(), 7, T0);
    s.put("a".to_string(), 1, T0 + SEC);
    assert_eq!(s.get("k", T0 + 2 * SEC), Some(7));
    s.remove("a");
    s.purge_expired(T0 + 3 * SEC);
    assert_eq!(s.get("k", T0 + 4 * SEC), Some(7));
    assert_eq!(s.get("k", T0 + TTL as i128), None);
}
