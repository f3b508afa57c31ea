//! The sharded cache: keys are spread over independent shards by their
//! hash, so threads that use different keys seldom wait on the same lock.
use vstd::prelude::*;
use ahash::RandomState;
use std::marker::PhantomData;
use std::time::Duration;
use crate::clock::{nanos_of, seconds};
use crate::strategy::fifo::max_entries;
use crate::keys::{hash_key, hasher_new};
use crate::strategy::fifo::FIFOCache;
use crate::strategy::lfu::LFUCache;
use crate::strategy::lru::LRUCache;
use crate::strategy::CacheStrategy;

verus! {

/// The most entries that the shards in `shards` hold together.
pub open spec fn total_max_len<V, S: CacheStrategy<V>>(shards: Seq<S>) -> nat
    decreases shards.len(),
{
    if shards.len() == 0 {
        0
    } else {
        total_max_len::<V, S>(shards.drop_last()) + shards.last().max_len()
    }
}

/// The capacity of shard `i` when `capacity` entries are spread over
/// `shard_count` shards: an equal share, and one more for each of the
/// first `capacity % shard_count` shards, so that the shares add up to
/// `capacity`.
pub open spec fn share_of(capacity: nat, shard_count: nat, i: nat) -> nat {
    capacity / shard_count + if i < capacity % shard_count {
        1nat
    } else {
        0nat
    }
}

/// The shares of the first `k` shards, added up.
pub open spec fn shares_total(capacity: nat, shard_count: nat, k: nat) -> nat
    decreases k,
{
    if k == 0 {
        0
    } else {
        shares_total(capacity, shard_count, (k - 1) as nat) + share_of(
            capacity,
            shard_count,
            (k - 1) as nat,
        )
    }
}

/// The most entries that `capacity` entries spread over `shard_count`
/// shards let the shards hold together: `capacity`, unless there are fewer
/// entries than shards, for a shard always takes at least one entry.
pub open spec fn spread_max_len(capacity: nat, shard_count: nat) -> nat {
    if capacity >= shard_count {
        capacity
    } else {
        shard_count
    }
}

/// The first `k` shares add up to `k` equal shares and one more for each of
/// those among the first `capacity % shard_count`.
proof fn lemma_shares_prefix(capacity: nat, shard_count: nat, k: nat)
    requires
        shard_count > 0,
    ensures
        shares_total(capacity, shard_count, k) == k * (capacity / shard_count) + if k < capacity
            % shard_count {
            k
        } else {
            capacity % shard_count
        },
    decreases k,
{
    let q = capacity / shard_count;
    let r = capacity % shard_count;
    if k > 0 {
        let km = (k - 1) as nat;
        lemma_shares_prefix(capacity, shard_count, km);
        assert(k * q == km * q + q) by (nonlinear_arith)
            requires
                km + 1 == k,
        ;
        assert(shares_total(capacity, shard_count, k) == shares_total(capacity, shard_count, km)
            + share_of(capacity, shard_count, km));
    } else {
        assert(k * q == 0) by (nonlinear_arith)
            requires
                k == 0,
        ;
    }
}

/// The shares of all the shards add up to `capacity`.
pub proof fn lemma_shares_sum(capacity: nat, shard_count: nat)
    requires
        shard_count > 0,
    ensures
        shares_total(capacity, shard_count, shard_count) == capacity,
{
    lemma_shares_prefix(capacity, shard_count, shard_count);
    vstd::arithmetic::div_mod::lemma_fundamental_div_mod(capacity as int, shard_count as int);
}

/// Shards whose capacities are the shares of `capacity` hold at most
/// `spread_max_len(capacity, shard_count)` entries together.
proof fn lemma_spread_total<V, S: CacheStrategy<V>>(shards: Seq<S>, capacity: nat, shard_count: nat)
    requires
        shard_count > 0,
        shards.len() == shard_count,
        forall|i: int|
            0 <= i < shard_count ==> #[trigger] shards[i].max_len() == max_entries(
                share_of(capacity, shard_count, i as nat),
            ),
    ensures
        total_max_len::<V, S>(shards) == spread_max_len(capacity, shard_count),
{
    let q = capacity / shard_count;
    if capacity >= shard_count {
        assert(q >= 1) by (nonlinear_arith)
            requires
                capacity >= shard_count,
                shard_count > 0,
                q == capacity / shard_count,
        ;
    } else {
        assert(q == 0) by (nonlinear_arith)
            requires
                capacity < shard_count,
                q == capacity / shard_count,
        ;
    }
    lemma_spread_prefix::<V, S>(shards, capacity, shard_count, shard_count);
    assert(shards.take(shard_count as int) =~= shards);
    lemma_shares_sum(capacity, shard_count);
}

/// The first `k` shards hold together what their shares let them: the
/// shares themselves when each share is at least one, else one entry per
/// shard.
proof fn lemma_spread_prefix<V, S: CacheStrategy<V>>(
    shards: Seq<S>,
    capacity: nat,
    shard_count: nat,
    k: nat,
)
    requires
        shard_count > 0,
        shards.len() == shard_count,
        k <= shard_count,
        capacity >= shard_count ==> capacity / shard_count >= 1,
        capacity < shard_count ==> capacity / shard_count == 0,
        forall|i: int|
            0 <= i < shard_count ==> #[trigger] shards[i].max_len() == max_entries(
                share_of(capacity, shard_count, i as nat),
            ),
    ensures
        total_max_len::<V, S>(shards.take(k as int)) == if capacity >= shard_count {
            shares_total(capacity, shard_count, k)
        } else {
            k
        },
    decreases k,
{
    if k == 0 {
        assert(shards.take(0) =~= Seq::<S>::empty());
    } else {
        let km = (k - 1) as nat;
        lemma_spread_prefix::<V, S>(shards, capacity, shard_count, km);
        assert(shards.take(k as int).drop_last() =~= shards.take(km as int));
        assert(shards.take(k as int).last() == shards[km as int]);
        assert(shards[km as int].max_len() == max_entries(share_of(capacity, shard_count, km)));
    }
}

/// The shard, among `shard_count`, that a key of hash `hash` belongs to: the
/// hash taken as a `usize`, modulo the number of shards.
pub open spec fn shard_of_hash(hash: u64, shard_count: nat) -> nat {
    ((hash as usize) as nat) % shard_count
}

/// The shard, among `shard_count`, that a key of hash `hash` belongs to.
pub fn shard_for_hash(hash: u64, shard_count: usize) -> (i: usize)
    requires
        shard_count > 0,
    ensures
        i == shard_of_hash(hash, shard_count as nat),
        i < shard_count,
{
    (hash as usize) % shard_count
}

/// The capacity of shard `i` when `capacity` entries are spread over
/// `shard_count` shards.
pub fn shard_capacity(capacity: usize, shard_count: usize, i: usize) -> (c: usize)
    requires
        shard_count > 0,
    ensures
        c == share_of(capacity as nat, shard_count as nat, i as nat),
{
    let q = capacity / shard_count;
    if i < capacity % shard_count {
        assert(q < capacity) by (nonlinear_arith)
            requires
                q == capacity / shard_count,
                capacity % shard_count > 0,
                shard_count > 0,
        ;
        q + 1
    } else {
        q
    }
}

/// The sum of the counts in `counts`.
pub open spec fn count_sum(counts: Seq<usize>) -> nat
    decreases counts.len(),
{
    if counts.len() == 0 {
        0
    } else {
        count_sum(counts.drop_last()) + counts.last() as nat
    }
}

/// The sum of `counts`, or `usize::MAX` where the sum goes past it.
pub open spec fn saturated_sum(counts: Seq<usize>) -> nat {
    if count_sum(counts) <= usize::MAX {
        count_sum(counts)
    } else {
        usize::MAX as nat
    }
}

/// Adds up the entry counts of the shards; the total stops at `usize::MAX`.
pub fn total_count(counts: &Vec<usize>) -> (n: usize)
    ensures
        n == saturated_sum(counts@),
{
    let mut total: usize = 0;
    let mut i: usize = 0;
    proof {
        assert(counts@.take(0) =~= Seq::<usize>::empty());
    }
    while i < counts.len()
        invariant
            0 <= i <= counts@.len(),
            total == saturated_sum(counts@.take(i as int)),
        decreases counts@.len() - i,
    {
        proof {
            assert(counts@.take(i + 1).drop_last() =~= counts@.take(i as int));
            assert(counts@.take(i + 1).last() == counts@[i as int]);
        }
        total = total.saturating_add(counts[i]);
        i = i + 1;
    }
    proof {
        assert(counts@.take(i as int) =~= counts@);
    }
    total
}

/// Whether every flag in `flags` is set: every shard reported empty.
pub fn all_empty(flags: &Vec<bool>) -> (r: bool)
    ensures
        r == forall|i: int| 0 <= i < flags@.len() ==> #[trigger] flags@[i],
{
    let mut i: usize = 0;
    while i < flags.len()
        invariant
            0 <= i <= flags@.len(),
            forall|j: int| 0 <= j < i ==> #[trigger] flags@[j],
        decreases flags@.len() - i,
    {
        if !flags[i] {
            return false;
        }
        i = i + 1;
    }
    true
}

/// Counts that each stay within their shard's bound add up to at most the
/// shards' bound together.
proof fn lemma_counts_bounded<V, S: CacheStrategy<V>>(counts: Seq<usize>, shards: Seq<S>)
    requires
        counts.len() == shards.len(),
        forall|j: int| 0 <= j < counts.len() ==> #[trigger] counts[j] <= shards[j].max_len(),
    ensures
        count_sum(counts) <= total_max_len::<V, S>(shards),
        saturated_sum(counts) <= total_max_len::<V, S>(shards),
    decreases counts.len(),
{
    if counts.len() > 0 {
        let c = counts.drop_last();
        let d = shards.drop_last();
        assert forall|j: int| 0 <= j < c.len() implies #[trigger] c[j] <= d[j].max_len() by {
            assert(c[j] == counts[j] && d[j] == shards[j]);
        }
        lemma_counts_bounded::<V, S>(c, d);
        assert(counts.last() <= shards.last().max_len()) by {
            assert(counts[counts.len() - 1] <= shards[shards.len() - 1].max_len());
        }
    }
}

/// A sharded, thread-safe cache.
pub struct Rustycache<V, S> {
    shards: Vec<S>,
    hasher: RandomState,
    _phantom: PhantomData<V>,
}

impl<V, S: CacheStrategy<V>> Rustycache<V, S> {
    /// The shards.
    pub closed spec fn shards(&self) -> Seq<S> {
        self.shards@
    }

    /// The most entries the cache holds.
    pub open spec fn max_len(&self) -> nat {
        total_max_len::<V, S>(self.shards())
    }

    /// A cache of `num_shards` shards, each made by `shard_factory`.
    pub fn new(num_shards: usize, shard_factory: impl Fn() -> S) -> (c: Self)
        requires
            shard_factory.requires(()),
        ensures
            c.shards().len() == num_shards,
            forall|i: int| 0 <= i < num_shards ==> shard_factory.ensures((), #[trigger] c.shards()[i]),
    {
        let mut shards: Vec<S> = Vec::with_capacity(num_shards);
        let mut i: usize = 0;
        while i < num_shards
            invariant
                0 <= i <= num_shards,
                shards@.len() == i,
                shard_factory.requires(()),
                forall|j: int| 0 <= j < i ==> shard_factory.ensures((), #[trigger] shards@[j]),
            decreases num_shards - i,
        {
            shards.push(shard_factory());
            i = i + 1;
        }
        Self::from_shards(shards)
    }

    /// A cache of the given shards, with a freshly seeded hasher.
    fn from_shards(shards: Vec<S>) -> (c: Self)
        ensures
            c.shards() == shards@,
    {
        Rustycache { shards, hasher: hasher_new(), _phantom: PhantomData }
    }

    /// The shard that holds `key`: its hash, modulo the number of shards.
    /// The hasher is seeded at random when the cache is made, so which
    /// shard that is is not known here; it is the shard of some hash.
    fn shard_index(&self, key: &str) -> (i: usize)
        requires
            self.shards().len() > 0,
        ensures
            i < self.shards().len(),
            exists|hash: u64| i == shard_of_hash(hash, self.shards().len()),
    {
        let hash = hash_key(&self.hasher, key);
        shard_for_hash(hash, self.shards.len())
    }

    /// Stores `value` under `key` in the shard of the key.
    pub fn put(&self, key: String, value: V)
        requires
            self.shards().len() > 0,
    {
        let i = self.shard_index(key.as_str());
        self.shards[i].put(key, value);
    }

    /// The value under `key`, cloned, from the shard of the key, unless
    /// there is none or it has expired.
    pub fn get(&self, key: &str) -> Option<V>
        requires
            self.shards().len() > 0,
    {
        let i = self.shard_index(key);
        self.shards[i].get(key)
    }

    /// Removes the entry under `key` from the shard of the key.
    pub fn remove(&self, key: &str)
        requires
            self.shards().len() > 0,
    {
        let i = self.shard_index(key);
        self.shards[i].remove(key)
    }

    /// Whether the shard of `key` has an entry under it.
    pub fn contains(&self, key: &str) -> bool
        requires
            self.shards().len() > 0,
    {
        let i = self.shard_index(key);
        self.shards[i].contains(key)
    }

    /// The number of entries over all shards (a sum of counts taken one
    /// shard at a time; it stops at `usize::MAX`).
    pub fn len(&self) -> (n: usize)
        ensures
            n <= self.max_len(),
            self.shards().len() == 0 ==> n == 0,
    {
        let mut counts: Vec<usize> = Vec::with_capacity(self.shards.len());
        let mut i: usize = 0;
        while i < self.shards.len()
            invariant
                0 <= i <= self.shards@.len(),
                counts@.len() == i,
                forall|j: int| 0 <= j < i ==> #[trigger] counts@[j] <= self.shards@[j].max_len(),
            decreases self.shards@.len() - i,
        {
            counts.push(self.shards[i].len());
            i = i + 1;
        }
        proof {
            lemma_counts_bounded::<V, S>(counts@, self.shards@);
        }
        total_count(&counts)
    }

    /// Whether every shard is empty.
    pub fn is_empty(&self) -> (r: bool)
        ensures
            self.shards().len() == 0 ==> r,
    {
        let mut flags: Vec<bool> = Vec::with_capacity(self.shards.len());
        let mut i: usize = 0;
        while i < self.shards.len()
            invariant
                0 <= i <= self.shards@.len(),
                flags@.len() == i,
            decreases self.shards@.len() - i,
        {
            flags.push(self.shards[i].is_empty());
            i = i + 1;
        }
        all_empty(&flags)
    }

    /// Empties every shard.
    pub fn clear(&self) {
        let mut i: usize = 0;
        while i < self.shards.len()
            invariant
                0 <= i <= self.shards@.len(),
            decreases self.shards@.len() - i,
        {
            self.shards[i].clear();
            i = i + 1;
        }
    }

    /// Removes from every shard the entries that have expired by now.
    pub fn purge_expired(&self) {
        let mut i: usize = 0;
        while i < self.shards.len()
            invariant
                0 <= i <= self.shards@.len(),
            decreases self.shards@.len() - i,
        {
            self.shards[i].purge_expired();
            i = i + 1;
        }
    }
}

impl<V: Clone> Rustycache<V, LRUCache<V>> {
    /// A cache of `num_shards` LRU shards that hold `capacity` entries
    /// between them (shard `i` holds `share_of(capacity, num_shards, i)`),
    /// whose entries live for `ttl`. Expired entries are removed when they
    /// are read, or by `purge_expired`.
    pub fn lru_sync(num_shards: usize, capacity: usize, ttl: Duration) -> (c: Self)
        requires
            num_shards > 0,
        ensures
            c.shards().len() == num_shards,
            forall|i: int|
                0 <= i < num_shards ==> #[trigger] c.shards()[i].capacity() == share_of(
                    capacity as nat,
                    num_shards as nat,
                    i as nat,
                ),
            forall|i: int| 0 <= i < num_shards ==> #[trigger] c.shards()[i].ttl_of() == nanos_of(ttl),
            c.max_len() == spread_max_len(capacity as nat, num_shards as nat),
    {
        let mut shards: Vec<LRUCache<V>> = Vec::with_capacity(num_shards);
        let mut i: usize = 0;
        while i < num_shards
            invariant
                0 <= i <= num_shards,
                shards@.len() == i,
                forall|j: int|
                    0 <= j < i ==> #[trigger] shards@[j].capacity() == share_of(
                        capacity as nat,
                        num_shards as nat,
                        j as nat,
                    ) && shards@[j].ttl_of() == nanos_of(ttl),
            decreases num_shards - i,
        {
            let shard = LRUCache::new(shard_capacity(capacity, num_shards, i), ttl, seconds(0));
            shards.push(shard);
            i = i + 1;
        }
        let c = Self::from_shards(shards);
        proof {
            assert forall|j: int| 0 <= j < num_shards implies #[trigger] c.shards()[j].max_len()
                == max_entries(share_of(capacity as nat, num_shards as nat, j as nat)) by {
                assert(c.shards()[j] == shards@[j]);
            }
            assert forall|j: int| 0 <= j < num_shards implies #[trigger] c.shards()[j].ttl_of()
                == nanos_of(ttl) by {
                assert(c.shards()[j] == shards@[j]);
                assert(shards@[j].capacity() == share_of(capacity as nat, num_shards as nat, j as nat));
            }
            lemma_spread_total::<V, LRUCache<V>>(c.shards(), capacity as nat, num_shards as nat);
        }
        c
    }
}

impl<V: Clone> Rustycache<V, FIFOCache<V>> {
    /// A cache of `num_shards` FIFO shards that hold `capacity` entries
    /// between them (shard `i` holds `share_of(capacity, num_shards, i)`),
    /// whose entries live for `ttl`. Expired entries are removed when they
    /// are read, or by `purge_expired`.
    pub fn fifo_sync(num_shards: usize, capacity: usize, ttl: Duration) -> (c: Self)
        requires
            num_shards > 0,
        ensures
            c.shards().len() == num_shards,
            forall|i: int|
                0 <= i < num_shards ==> #[trigger] c.shards()[i].capacity() == share_of(
                    capacity as nat,
                    num_shards as nat,
                    i as nat,
                ),
            forall|i: int| 0 <= i < num_shards ==> #[trigger] c.shards()[i].ttl_of() == nanos_of(ttl),
            c.max_len() == spread_max_len(capacity as nat, num_shards as nat),
    {
        let mut shards: Vec<FIFOCache<V>> = Vec::with_capacity(num_shards);
        let mut i: usize = 0;
        while i < num_shards
            invariant
                0 <= i <= num_shards,
                shards@.len() == i,
                forall|j: int|
                    0 <= j < i ==> #[trigger] shards@[j].capacity() == share_of(
                        capacity as nat,
                        num_shards as nat,
                        j as nat,
                    ) && shards@[j].ttl_of() == nanos_of(ttl),
            decreases num_shards - i,
        {
            let shard = FIFOCache::new(shard_capacity(capacity, num_shards, i), ttl, seconds(0));
            shards.push(shard);
            i = i + 1;
        }
        let c = Self::from_shards(shards);
        proof {
            assert forall|j: int| 0 <= j < num_shards implies #[trigger] c.shards()[j].max_len()
                == max_entries(share_of(capacity as nat, num_shards as nat, j as nat)) by {
                assert(c.shards()[j] == shards@[j]);
            }
            assert forall|j: int| 0 <= j < num_shards implies #[trigger] c.shards()[j].ttl_of()
                == nanos_of(ttl) by {
                assert(c.shards()[j] == shards@[j]);
                assert(shards@[j].capacity() == share_of(capacity as nat, num_shards as nat, j as nat));
            }
            lemma_spread_total::<V, FIFOCache<V>>(c.shards(), capacity as nat, num_shards as nat);
        }
        c
    }
}

impl<V: Clone> Rustycache<V, LFUCache<V>> {
    /// A cache of `num_shards` LFU shards that hold `capacity` entries
    /// between them (shard `i` holds `share_of(capacity, num_shards, i)`),
    /// whose entries live for `ttl`. Expired entries are removed when they
    /// are read, or by `purge_expired`.
    pub fn lfu_sync(num_shards: usize, capacity: usize, ttl: Duration) -> (c: Self)
        requires
            num_shards > 0,
        ensures
            c.shards().len() == num_shards,
            forall|i: int|
                0 <= i < num_shards ==> #[trigger] c.shards()[i].capacity() == share_of(
                    capacity as nat,
                    num_shards as nat,
                    i as nat,
                ),
            forall|i: int| 0 <= i < num_shards ==> #[trigger] c.shards()[i].ttl_of() == nanos_of(ttl),
            c.max_len() == spread_max_len(capacity as nat, num_shards as nat),
    {
        let mut shards: Vec<LFUCache<V>> = Vec::with_capacity(num_shards);
        let mut i: usize = 0;
        while i < num_shards
            invariant
                0 <= i <= num_shards,
                shards@.len() == i,
                forall|j: int|
                    0 <= j < i ==> #[trigger] shards@[j].capacity() == share_of(
                        capacity as nat,
                        num_shards as nat,
                        j as nat,
                    ) && shards@[j].ttl_of() == nanos_of(ttl),
            decreases num_shards - i,
        {
            let shard = LFUCache::new(shard_capacity(capacity, num_shards, i), ttl, seconds(0));
            shards.push(shard);
            i = i + 1;
        }
        let c = Self::from_shards(shards);
        proof {
            assert forall|j: int| 0 <= j < num_shards implies #[trigger] c.shards()[j].max_len()
                == max_entries(share_of(capacity as nat, num_shards as nat, j as nat)) by {
                assert(c.shards()[j] == shards@[j]);
            }
            assert forall|j: int| 0 <= j < num_shards implies #[trigger] c.shards()[j].ttl_of()
                == nanos_of(ttl) by {
                assert(c.shards()[j] == shards@[j]);
                assert(shards@[j].capacity() == share_of(capacity as nat, num_shards as nat, j as nat));
            }
            lemma_spread_total::<V, LFUCache<V>>(c.shards(), capacity as nat, num_shards as nat);
        }
        c
    }
}

} // verus!
