//! First in, first out: a full cache drops the entry that came in first.
//! Putting a key that is already there changes nothing.
use vstd::prelude::*;
use vstd::rwlock::{RwLock, RwLockPredicate};
use std::sync::Arc;
use std::time::Duration;
use crate::clock::{duration_nanos, nanos_of, now_nanos, MAX_DURATION_NANOS};
use crate::strategy::{share, CacheStrategy};
use crate::strategy::arena::{
    drop_if_expired, has_key, instant_ok, key_pos, lemma_key_pos, lookup_outcome, remove_key,
    unexpired, Arena, Entry,
};

verus! {

/// The entries after `put` of `key` with `value`, expiring at `expires_at`,
/// into a FIFO cache of the given capacity: nothing changes when the key is
/// there; otherwise, when the cache is full, the oldest entry leaves, and the
/// new entry comes in last.
pub open spec fn fifo_put<V>(
    s: Seq<Entry<V>>,
    capacity: nat,
    key: Seq<char>,
    value: V,
    expires_at: int,
) -> Seq<Entry<V>> {
    if has_key(s, key) {
        s
    } else {
        let kept = if s.len() >= capacity && s.len() > 0 {
            s.drop_first()
        } else {
            s
        };
        kept.push(Entry { key, value, expires_at })
    }
}

/// The most entries a cache of the given capacity holds: the capacity, or
/// one when the capacity is zero (a put always stores its entry).
pub open spec fn max_entries(capacity: nat) -> nat {
    if capacity == 0 {
        1
    } else {
        capacity
    }
}

/// The state of a FIFO cache: its entries from oldest to newest.
pub struct FIFOState<V> {
    capacity: usize,
    ttl_nanos: u128,
    list: Arena<V>,
}

impl<V> FIFOState<V> {
    /// The entries, oldest first.
    pub closed spec fn entries(&self) -> Seq<Entry<V>> {
        self.list.entries()
    }

    /// The capacity the cache was made with.
    pub closed spec fn capacity(&self) -> nat {
        self.capacity as nat
    }

    /// The time to live of an entry, in nanoseconds.
    pub closed spec fn ttl(&self) -> nat {
        self.ttl_nanos as nat
    }

    /// The state is well formed.
    pub closed spec fn wf(&self) -> bool {
        &&& self.list.wf()
        &&& self.ttl_nanos <= MAX_DURATION_NANOS
        &&& self.list.entries().len() <= max_entries(self.capacity as nat)
    }

    /// In a well-formed state the keys are distinct and there are at most
    /// `max_entries(capacity)` entries.
    pub proof fn lemma_wf(&self)
        requires
            self.wf(),
        ensures
            crate::strategy::arena::unique_keys(self.entries()),
            self.entries().len() <= max_entries(self.capacity()),
            self.ttl() <= MAX_DURATION_NANOS,
    {
        self.list.lemma_unique();
    }

    /// An empty cache.
    pub fn new(capacity: usize, ttl_nanos: u128) -> (s: Self)
        requires
            ttl_nanos <= MAX_DURATION_NANOS,
        ensures
            s.wf(),
            s.entries() == Seq::<Entry<V>>::empty(),
            s.capacity() == capacity,
            s.ttl() == ttl_nanos,
    {
        FIFOState { capacity, ttl_nanos, list: Arena::new(capacity) }
    }

    /// Stores `value` under `key` at instant `now`, unless the key is
    /// already there; a full cache first drops its oldest entry. The entry
    /// expires `ttl` nanoseconds after `now`.
    pub fn put(&mut self, key: String, value: V, now: i128)
        requires
            old(self).wf(),
            instant_ok(now),
        ensures
            final(self).wf(),
            final(self).capacity() == old(self).capacity(),
            final(self).ttl() == old(self).ttl(),
            final(self).entries() == fifo_put(
                old(self).entries(),
                old(self).capacity(),
                key@,
                value,
                now + old(self).ttl(),
            ),
    {
        proof {
            self.list.lemma_unique();
        }
        if self.list.contains_key(key.as_str()) {
            return;
        }
        if self.list.len() >= self.capacity {
            match self.list.head_slot() {
                Some(oldest) => {
                    self.list.remove_at(oldest, Ghost(0));
                    proof {
                        assert(old(self).entries().remove(0) =~= old(self).entries().drop_first());
                        self.list.lemma_unique();
                    }
                },
                None => {},
            }
        }
        proof {
            assert(!has_key(self.list.entries(), key@)) by {
                if has_key(self.list.entries(), key@) {
                    let i = choose|i: int|
                        0 <= i < self.list.entries().len() && self.list.entries()[i].key == key@;
                    assert(self.list.entries()[i] == old(self).entries()[i + 1]);
                }
            }
        }
        let expires_at = now + self.ttl_nanos as i128;
        self.list.insert_back(key, value, expires_at);
    }

    /// Removes the entry under `key`, if there is one.
    pub fn remove(&mut self, key: &str)
        requires
            old(self).wf(),
        ensures
            final(self).wf(),
            final(self).capacity() == old(self).capacity(),
            final(self).ttl() == old(self).ttl(),
            final(self).entries() == remove_key(old(self).entries(), key@),
    {
        proof {
            self.list.lemma_unique();
            lemma_key_pos(self.list.entries(), key@);
        }
        match self.list.find(key) {
            Some(slot) => {
                let ghost p = key_pos(self.list.entries(), key@);
                self.list.remove_at(slot, Ghost(p));
            },
            None => {},
        }
    }

    /// Whether an entry has key `key`, expired or not.
    pub fn contains(&self, key: &str) -> (r: bool)
        requires
            self.wf(),
        ensures
            r == has_key(self.entries(), key@),
    {
        self.list.contains_key(key)
    }

    /// The number of entries, expired ones included.
    pub fn len(&self) -> (n: usize)
        requires
            self.wf(),
        ensures
            n == self.entries().len(),
    {
        self.list.len()
    }

    /// Whether there is no entry.
    pub fn is_empty(&self) -> (r: bool)
        requires
            self.wf(),
        ensures
            r == (self.entries().len() == 0),
    {
        self.list.len() == 0
    }

    /// Removes every entry.
    pub fn clear(&mut self)
        requires
            old(self).wf(),
        ensures
            final(self).wf(),
            final(self).capacity() == old(self).capacity(),
            final(self).ttl() == old(self).ttl(),
            final(self).entries() == Seq::<Entry<V>>::empty(),
    {
        self.list.clear();
    }

    /// Removes every entry that has expired at `now`.
    pub fn purge_expired(&mut self, now: i128)
        requires
            old(self).wf(),
        ensures
            final(self).wf(),
            final(self).capacity() == old(self).capacity(),
            final(self).ttl() == old(self).ttl(),
            final(self).entries() == unexpired(old(self).entries(), now as int),
    {
        self.list.purge_expired(now);
        proof {
            crate::strategy::arena::lemma_unexpired_len(old(self).entries(), now as int);
        }
    }
}

impl<V: Clone> FIFOState<V> {
    /// The value under `key` at instant `now`, cloned, if it has not
    /// expired. An expired entry found on the way is removed.
    pub fn get(&mut self, key: &str, now: i128) -> (r: Option<V>)
        requires
            old(self).wf(),
        ensures
            final(self).wf(),
            final(self).capacity() == old(self).capacity(),
            final(self).ttl() == old(self).ttl(),
            lookup_outcome(old(self).entries(), key@, now as int, r),
            final(self).entries() == drop_if_expired(old(self).entries(), key@, now as int),
    {
        proof {
            self.list.lemma_unique();
            lemma_key_pos(self.list.entries(), key@);
        }
        match self.list.find(key) {
            Some(slot) => {
                let ghost p = key_pos(self.list.entries(), key@);
                if self.list.expiry_at(slot, Ghost(p)) > now {
                    Some(self.list.value_at(slot, Ghost(p)).clone())
                } else {
                    self.list.remove_at(slot, Ghost(p));
                    None
                }
            },
            None => None,
        }
    }
}

/// What the lock of a FIFO cache keeps true of the state it guards: it is
/// well formed, with the cache's capacity and time to live.
pub struct FifoBounds {
    pub capacity: usize,
    pub ttl_nanos: u128,
}

impl<V> RwLockPredicate<FIFOState<V>> for FifoBounds {
    open spec fn inv(self, s: FIFOState<V>) -> bool {
        &&& s.wf()
        &&& s.capacity() == self.capacity
        &&& s.ttl() == self.ttl_nanos
    }
}

/// A FIFO cache that threads share. Clones share one state, guarded by a
/// lock.
pub struct FIFOCache<V> {
    capacity: usize,
    ttl: Duration,
    state: Arc<RwLock<FIFOState<V>, FifoBounds>>,
}

impl<V> FIFOCache<V> {
    #[verifier::type_invariant]
    spec fn bounds_match(self) -> bool {
        self.state.pred().capacity == self.capacity
    }

    /// The capacity the cache was made with.
    pub closed spec fn capacity(&self) -> nat {
        self.capacity as nat
    }

    /// The time to live of an entry, in nanoseconds, that the cache was made
    /// with.
    pub closed spec fn ttl_of(&self) -> nat {
        self.state.pred().ttl_nanos as nat
    }

    /// An empty cache of `capacity` entries whose entries live for `ttl`.
    /// The cleaning interval is used by the background cleaner, which runs
    /// outside this type.
    pub fn new(capacity: usize, ttl: Duration, _clean_interval: Duration) -> (c: Self)
        ensures
            c.capacity() == capacity,
            c.ttl_of() == nanos_of(ttl),
    {
        let ttl_nanos = duration_nanos(&ttl);
        let state = FIFOState::new(capacity, ttl_nanos);
        let bounds = Ghost(FifoBounds { capacity, ttl_nanos });
        FIFOCache { capacity, ttl, state: Arc::new(RwLock::new(state, bounds)) }
    }

}

impl<V> Clone for FIFOCache<V> {
    /// Another handle to the same cache: both share one state.
    fn clone(&self) -> (c: Self)
        ensures
            c.capacity() == self.capacity(),
            c.ttl_of() == self.ttl_of(),
    {
        proof {
            use_type_invariant(self);
        }
        FIFOCache { capacity: self.capacity, ttl: self.ttl, state: share(&self.state) }
    }
}

impl<V: Clone> CacheStrategy<V> for FIFOCache<V> {
    open spec fn max_len(&self) -> nat {
        max_entries(self.capacity())
    }

    fn put(&self, key: String, value: V) {
        let now = now_nanos();
        let (mut s, handle) = self.state.acquire_write();
        s.put(key, value, now);
        handle.release_write(s);
    }

    fn get(&self, key: &str) -> Option<V> {
        let now = now_nanos();
        let (mut s, handle) = self.state.acquire_write();
        let r = s.get(key, now);
        handle.release_write(s);
        r
    }

    fn remove(&self, key: &str) {
        let (mut s, handle) = self.state.acquire_write();
        s.remove(key);
        handle.release_write(s);
    }

    fn contains(&self, key: &str) -> bool {
        let (s, handle) = self.state.acquire_write();
        let r = s.contains(key);
        handle.release_write(s);
        r
    }

    fn len(&self) -> (n: usize) {
        proof {
            use_type_invariant(self);
        }
        let (s, handle) = self.state.acquire_write();
        let n = s.len();
        proof {
            s.lemma_wf();
        }
        handle.release_write(s);
        n
    }

    fn is_empty(&self) -> bool {
        let (s, handle) = self.state.acquire_write();
        let r = s.is_empty();
        handle.release_write(s);
        r
    }

    fn clear(&self) {
        let (mut s, handle) = self.state.acquire_write();
        s.clear();
        handle.release_write(s);
    }

    fn purge_expired(&self) {
        let now = now_nanos();
        let (mut s, handle) = self.state.acquire_write();
        s.purge_expired(now);
        handle.release_write(s);
    }
}

} // verus!
