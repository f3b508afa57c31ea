//! The eviction strategies and the interface that the sharded cache drives.
use vstd::prelude::*;
use std::sync::Arc;

pub mod arena;
pub mod fifo;
pub mod lfu;
pub mod lru;

verus! {

/// A cache that many threads share: the sharded cache drives its shards
/// through these methods. Keys are strings; values are cloned out. Each
/// method holds the cache's lock while it runs, values' `clone` included; a
/// `clone` that panics leaves the lock held.
pub trait CacheStrategy<V>: Sized {
    /// The most entries the cache ever holds.
    spec fn max_len(&self) -> nat;

    /// Stores `value` under `key`, following the strategy's rules. The entry
    /// expires at the current instant plus the cache's time to live, counted
    /// exactly in nanoseconds: every time to live that a `Duration` holds is
    /// accepted, however far past the calendar's range the expiry falls.
    fn put(&self, key: String, value: V);

    /// The value under `key`, cloned, unless there is none or it has
    /// expired.
    fn get(&self, key: &str) -> Option<V>;

    /// Removes the entry under `key`, if there is one.
    fn remove(&self, key: &str);

    /// Whether an entry has key `key`, expired or not.
    fn contains(&self, key: &str) -> bool;

    /// The number of entries, expired ones included.
    fn len(&self) -> (n: usize)
        ensures
            n <= self.max_len(),
    ;

    /// Whether there is no entry.
    fn is_empty(&self) -> bool;

    /// Removes every entry.
    fn clear(&self);

    /// Removes every entry that has expired by now: one round of the
    /// background cleaner.
    fn purge_expired(&self);
}

/// `Arc::clone`: another handle to the same shared value.
#[verifier::external_body]
pub(crate) fn share<T>(a: &Arc<T>) -> (r: Arc<T>)
    ensures
        r == *a,
{
    Arc::clone(a)
}

} // verus!
