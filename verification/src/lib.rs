//! A sharded, thread-safe cache with LRU, LFU and FIFO eviction and
//! time-to-live expiration, verified with Verus.
use vstd::prelude::*;

pub mod clock;
pub mod keys;
pub mod laws;
pub mod rustycache;
pub mod strategy;

verus! {

} // verus!
