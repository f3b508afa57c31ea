//! Least frequently used: a full cache drops an entry that has been read
//! the fewest times.
//!
//! Each entry counts its reads. The keys are grouped by that count in
//! `freq_map`, whose first group gives the entries that may be dropped; which
//! key of the group goes follows the iteration order of its hash set.
use vstd::prelude::*;
use vstd::rwlock::{RwLock, RwLockPredicate};
use std::collections::BTreeMap;
use std::sync::Arc;
use std::time::Duration;
use crate::clock::{duration_nanos, nanos_of, now_nanos, MAX_DURATION_NANOS};
use crate::strategy::{share, CacheStrategy};
use crate::keys::{
    index_clear, index_get, index_insert, index_len, index_new, index_remove, members_of, set_first,
    set_insert, set_is_empty, set_new, set_remove, slots_of, KeyIndex, KeySet,
};
use crate::strategy::arena::instant_ok;
use crate::strategy::fifo::max_entries;

verus! {

/// An entry as the contracts see it: its value, the instant (in
/// nanoseconds) at which it expires, and how often it has been read, plus
/// one.
pub struct Counted<V> {
    pub value: V,
    pub expires_at: int,
    pub frequency: nat,
}

/// The count after one more read: one more, except at `usize::MAX`, where
/// it stays.
pub open spec fn bumped(f: nat) -> nat {
    if f < usize::MAX {
        f + 1
    } else {
        f
    }
}

/// `k` is an entry of `m` that has been read no more often than any other.
pub open spec fn least_frequent<V>(m: Map<Seq<char>, Counted<V>>, k: Seq<char>) -> bool {
    &&& m.contains_key(k)
    &&& forall|j: Seq<char>| #[trigger] m.contains_key(j) ==> m[k].frequency <= m[j].frequency
}

/// Whether `after` is what `put` of `key` with `value`, expiring at
/// `expires_at`, may leave of `before` in an LFU cache of the given
/// capacity: an entry already under the key gets the new value and expiry
/// and keeps its count; otherwise a full cache first drops one of its least
/// frequently read entries, and the new entry comes in with a count of one.
pub open spec fn lfu_put<V>(
    before: Map<Seq<char>, Counted<V>>,
    capacity: nat,
    key: Seq<char>,
    value: V,
    expires_at: int,
    after: Map<Seq<char>, Counted<V>>,
) -> bool {
    if before.contains_key(key) {
        after == before.insert(
            key,
            Counted { value, expires_at, frequency: before[key].frequency },
        )
    } else if before.len() >= capacity && before.len() > 0 {
        exists|victim: Seq<char>|
            #![trigger before.remove(victim)]
            least_frequent(before, victim) && after == before.remove(victim).insert(
                key,
                Counted { value, expires_at, frequency: 1 },
            )
    } else {
        after == before.insert(key, Counted { value, expires_at, frequency: 1 })
    }
}

/// Whether `m` holds an entry under `k` that has not expired at `now`.
pub open spec fn lfu_fresh<V>(m: Map<Seq<char>, Counted<V>>, k: Seq<char>, now: int) -> bool {
    m.contains_key(k) && m[k].expires_at > now
}

/// What a lookup of `k` at `now` may hand back: a clone of the value of the
/// unexpired entry under that key, or nothing when there is none.
pub open spec fn lfu_lookup_outcome<V: Clone>(
    m: Map<Seq<char>, Counted<V>>,
    k: Seq<char>,
    now: int,
    r: Option<V>,
) -> bool {
    match r {
        Some(v) => lfu_fresh(m, k, now) && cloned(m[k].value, v),
        None => !lfu_fresh(m, k, now),
    }
}

/// The entries after a lookup of `k` at `now`: an unexpired entry counts
/// one more read; an expired one is dropped.
pub open spec fn lfu_after_get<V>(m: Map<Seq<char>, Counted<V>>, k: Seq<char>, now: int) -> Map<
    Seq<char>,
    Counted<V>,
> {
    if lfu_fresh(m, k, now) {
        m.insert(
            k,
            Counted {
                value: m[k].value,
                expires_at: m[k].expires_at,
                frequency: bumped(m[k].frequency),
            },
        )
    } else if m.contains_key(k) {
        m.remove(k)
    } else {
        m
    }
}

/// The entries of `m` that have not expired at `now`.
pub open spec fn lfu_unexpired<V>(m: Map<Seq<char>, Counted<V>>, now: int) -> Map<
    Seq<char>,
    Counted<V>,
> {
    Map::new(|k: Seq<char>| m.contains_key(k) && m[k].expires_at > now, |k: Seq<char>| m[k])
}

/// A stored entry.
pub struct CacheEntry<V> {
    key: String,
    value: V,
    expires_at: i128,
    frequency: usize,
}

impl<V> CacheEntry<V> {
    /// The entry as the contracts see it.
    pub closed spec fn counted(self) -> Counted<V> {
        Counted {
            value: self.value,
            expires_at: self.expires_at as int,
            frequency: self.frequency as nat,
        }
    }
}

/// The keys grouped under count `f`; none when there is no group.
pub open spec fn members_at(fm: Map<usize, KeySet>, f: usize) -> Set<Seq<char>> {
    if fm.contains_key(f) {
        members_of(fm[f])
    } else {
        Set::empty()
    }
}

/// `BTreeMap::first_key_value`: the smallest count that has a group. std
/// documents the first pair of the map as the one with the minimum key.
#[verifier::external_body]
fn lowest_frequency(fm: &BTreeMap<usize, KeySet>) -> (r: Option<usize>)
    ensures
        match r {
            Some(f) => fm@.contains_key(f) && forall|g: usize| #[trigger]
                fm@.contains_key(g) ==> f <= g,
            None => fm@.dom().is_empty(),
        },
{
    fm.first_key_value().map(|(f, _)| *f)
}

/// Adds `key` to the group of count `f`, making the group if there is none.
fn group_add(fm: &mut BTreeMap<usize, KeySet>, f: usize, key: String)
    ensures
        final(fm)@.dom() == old(fm)@.dom().insert(f),
        members_at(final(fm)@, f) == members_at(old(fm)@, f).insert(key@),
        forall|g: usize| g != f ==> #[trigger] members_at(final(fm)@, g) == members_at(old(fm)@, g),
{
    let mut set = match fm.remove(&f) {
        Some(s) => s,
        None => set_new(),
    };
    set_insert(&mut set, key);
    fm.insert(f, set);
    proof {
        assert(final(fm)@.dom() =~= old(fm)@.dom().insert(f));
    }
}

/// Drops `key` from the group of count `f`; a group left empty goes.
fn group_drop(fm: &mut BTreeMap<usize, KeySet>, f: usize, key: &str)
    ensures
        members_at(final(fm)@, f) == members_at(old(fm)@, f).remove(key@),
        final(fm)@.contains_key(f) == !members_at(final(fm)@, f).is_empty(),
        forall|g: usize| g != f ==> #[trigger] members_at(final(fm)@, g) == members_at(old(fm)@, g),
        forall|g: usize| g != f ==> (#[trigger] final(fm)@.contains_key(g) == old(fm)@.contains_key(g)),
{
    match fm.remove(&f) {
        Some(s) => {
            let mut set = s;
            set_remove(&mut set, key);
            if !set_is_empty(&set) {
                fm.insert(f, set);
            }
        },
        None => {},
    }
}

/// The state of an LFU cache: a key index into a vector of entry slots, and
/// the keys grouped by their read counts.
pub struct LFUState<V> {
    capacity: usize,
    ttl_nanos: u128,
    map: KeyIndex,
    entries: Vec<Option<CacheEntry<V>>>,
    free_indices: Vec<usize>,
    freq_map: BTreeMap<usize, KeySet>,
}

impl<V> LFUState<V> {
    /// Whether slot `j` holds an entry.
    spec fn live(&self, j: int) -> bool {
        0 <= j < self.entries@.len() && self.entries@[j] is Some
    }

    /// The entry in slot `j`.
    spec fn ent(&self, j: int) -> CacheEntry<V> {
        self.entries@[j]->Some_0
    }

    /// The entries by key.
    pub closed spec fn view(&self) -> Map<Seq<char>, Counted<V>> {
        Map::new(
            |k: Seq<char>| slots_of(self.map).contains_key(k),
            |k: Seq<char>| self.ent(slots_of(self.map)[k] as int).counted(),
        )
    }

    /// The capacity the cache was made with.
    pub closed spec fn capacity(&self) -> nat {
        self.capacity as nat
    }

    /// The time to live of an entry, in nanoseconds.
    pub closed spec fn ttl(&self) -> nat {
        self.ttl_nanos as nat
    }

    /// The key index names exactly the stored entries.
    spec fn index_ok(&self) -> bool {
        let m = slots_of(self.map);
        &&& m.dom().finite()
        &&& forall|k: Seq<char>| #[trigger]
            m.contains_key(k) ==> self.live(m[k] as int) && self.ent(m[k] as int).key@ == k
        &&& forall|j: int| #[trigger]
            self.live(j) ==> m.contains_key(self.ent(j).key@) && m[self.ent(j).key@] == j
    }

    /// The free slots are distinct empty slots.
    spec fn free_ok(&self) -> bool {
        let f = self.free_indices@;
        &&& f.no_duplicates()
        &&& forall|i: int|
            0 <= i < f.len() ==> #[trigger] f[i] < self.entries@.len() && self.entries@[f[i] as int]
                is None
    }

    /// Each group holds exactly the keys with its count, and no group is
    /// empty.
    spec fn groups_ok(&self) -> bool {
        let fm = self.freq_map@;
        let m = slots_of(self.map);
        &&& forall|f: usize, k: Seq<char>| #[trigger]
            members_at(fm, f).contains(k) <==> (m.contains_key(k) && self.ent(m[k] as int).frequency
                == f)
        &&& forall|f: usize| #[trigger] fm.contains_key(f) ==> members_at(fm, f).len() > 0
        &&& forall|f: usize| #[trigger] members_at(fm, f).finite()
    }

    /// The state is well formed.
    pub closed spec fn wf(&self) -> bool {
        &&& self.index_ok()
        &&& self.free_ok()
        &&& self.groups_ok()
        &&& self.ttl_nanos <= MAX_DURATION_NANOS
        &&& slots_of(self.map).len() <= max_entries(self.capacity as nat)
    }

    /// In a well-formed state there are at most `max_entries(capacity)`
    /// entries, and their keys form a finite set.
    pub proof fn lemma_wf(&self)
        requires
            self.wf(),
        ensures
            self.view().dom().finite(),
            self.view().len() <= max_entries(self.capacity()),
            self.ttl() <= MAX_DURATION_NANOS,
    {
        assert(self.view().dom() =~= slots_of(self.map).dom());
    }

    /// An empty cache.
    pub fn new(capacity: usize, ttl_nanos: u128) -> (s: Self)
        requires
            ttl_nanos <= MAX_DURATION_NANOS,
        ensures
            s.wf(),
            s.view() == Map::<Seq<char>, Counted<V>>::empty(),
            s.capacity() == capacity,
            s.ttl() == ttl_nanos,
    {
        let s = LFUState {
            capacity,
            ttl_nanos,
            map: index_new(),
            entries: Vec::new(),
            free_indices: Vec::new(),
            freq_map: BTreeMap::new(),
        };
        proof {
            assert(slots_of(s.map) =~= Map::empty());
            assert(s.view() =~= Map::<Seq<char>, Counted<V>>::empty());
            assert forall|f: usize| #[trigger] members_at(s.freq_map@, f).finite() by {}
        }
        s
    }
    /// Drops the entry under `key`, whose count is `freq`: from the key
    /// index, from its slot (which goes to the free list) and from its group.
    /// A key that is not there leaves the state as it is.
    fn remove_entry_internal(&mut self, key: &str, freq: usize)
        requires
            old(self).wf(),
            old(self).view().contains_key(key@) ==> old(self).view()[key@].frequency == freq,
        ensures
            final(self).wf(),
            final(self).capacity == old(self).capacity,
            final(self).ttl_nanos == old(self).ttl_nanos,
            final(self).view() == old(self).view().remove(key@),
            slots_of(final(self).map) == slots_of(old(self).map).remove(key@),
            !old(self).view().contains_key(key@) ==> *final(self) == *old(self),
            old(self).view().contains_key(key@) ==> final(self).entries@
                == old(self).entries@.update(slots_of(old(self).map)[key@] as int, None),
    {
        let ghost m = slots_of(self.map);
        let ghost fm = self.freq_map@;
        let ghost j = m[key@];
        let slot = match index_get(&self.map, key) {
            Some(i) => i,
            None => {
                proof {
                    assert(self.view().remove(key@) =~= self.view());
                    assert(m.remove(key@) =~= m);
                }
                return;
            },
        };
        assert(m.contains_key(key@));
        let _taken = self.entries[slot].take();
        index_remove(&mut self.map, key);
        self.free_indices.push(slot);
        group_drop(&mut self.freq_map, freq, key);
        proof {
            let m2 = slots_of(self.map);
            let fm2 = self.freq_map@;
            assert(m2 == m.remove(key@));
            assert forall|k: Seq<char>| #[trigger] m2.contains_key(k) implies self.live(m2[k] as int)
                && self.ent(m2[k] as int).key@ == k by {
                assert(m.contains_key(k));
                assert(old(self).live(m[k] as int));
            }
            assert forall|i: int| #[trigger] self.live(i) implies m2.contains_key(self.ent(i).key@)
                && m2[self.ent(i).key@] == i by {
                assert(i != j);
                assert(old(self).live(i));
            }
            let f = self.free_indices@;
            assert forall|i: int| 0 <= i < f.len() implies #[trigger] f[i] < self.entries@.len()
                && self.entries@[f[i] as int] is None by {
                if i < f.len() - 1 {
                    assert(old(self).free_indices@[i] == f[i]);
                }
            }
            assert(f.no_duplicates()) by {
                assert forall|a: int, b: int| 0 <= a < b < f.len() implies f[a] != f[b] by {
                    if b == f.len() - 1 {
                        assert(old(self).free_indices@[a] == f[a]);
                    }
                }
            }
            assert forall|g: usize, k: Seq<char>| #[trigger]
                members_at(fm2, g).contains(k) <==> (m2.contains_key(k) && self.ent(
                    m2[k] as int,
                ).frequency == g) by {
                assert(members_at(fm, g).contains(k) <==> (m.contains_key(k) && old(self).ent(
                    m[k] as int,
                ).frequency == g));
                if m.contains_key(k) && k != key@ {
                    assert(m[k] != j);
                }
            }
            assert forall|g: usize| #[trigger] fm2.contains_key(g) implies members_at(fm2, g).len()
                > 0 by {
                assert(members_at(fm, g).finite());
                if g != freq {
                    assert(fm.contains_key(g));
                } else {
                    assert(members_at(fm2, g).finite());
                    if members_at(fm2, g).len() == 0 {
                        assert(members_at(fm2, g) =~= Set::empty());
                    }
                }
            }
            assert forall|g: usize| #[trigger] members_at(fm2, g).finite() by {
                assert(members_at(fm, g).finite());
            }
            assert(self.view() =~= old(self).view().remove(key@)) by {
                assert forall|k: Seq<char>| #[trigger] self.view().contains_key(k) implies self.view()[k]
                    == old(self).view().remove(key@)[k] by {
                    assert(m[k] != j);
                }
            }
        }
    }
    /// A key of the lowest count, and that count, when there is an entry.
    fn pick_victim(&self) -> (r: Option<(String, usize)>)
        requires
            self.wf(),
        ensures
            match r {
                Some((k, f)) => least_frequent(self.view(), k@) && self.view()[k@].frequency == f,
                None => self.view().dom().is_empty(),
            },
    {
        let ghost fm = self.freq_map@;
        let ghost m = slots_of(self.map);
        match lowest_frequency(&self.freq_map) {
            Some(f) => {
                match self.freq_map.get(&f) {
                    Some(set) => {
                        assert(members_at(fm, f) == members_of(*set));
                        assert(members_at(fm, f).len() > 0);
                        match set_first(set) {
                            Some(k) => {
                                proof {
                                    assert(members_at(fm, f).contains(k@));
                                    assert forall|j: Seq<char>| #[trigger]
                                        self.view().contains_key(j) implies self.view()[k@].frequency
                                        <= self.view()[j].frequency by {
                                        let g = self.ent(m[j] as int).frequency;
                                        assert(members_at(fm, g).contains(j));
                                        assert(fm.contains_key(g));
                                    }
                                }
                                Some((k, f))
                            },
                            None => {
                                assert(members_at(fm, f).len() == 0);
                                None
                            },
                        }
                    },
                    None => None,
                }
            },
            None => {
                proof {
                    assert forall|k: Seq<char>| !self.view().contains_key(k) by {
                        if self.view().contains_key(k) {
                            let g = self.ent(m[k] as int).frequency;
                            assert(members_at(fm, g).contains(k));
                        }
                    }
                    assert(self.view().dom() =~= Set::empty());
                }
                None
            },
        }
    }

    /// Stores `value` under `key` at instant `now`. An entry already under
    /// the key gets the new value and expiry and keeps its count; otherwise
    /// a full cache first drops one of its least frequently read entries,
    /// and the new entry comes in with a count of one. The entry expires
    /// `ttl` nanoseconds after `now`.
    pub fn put(&mut self, key: String, value: V, now: i128)
        requires
            old(self).wf(),
            instant_ok(now),
        ensures
            final(self).wf(),
            final(self).capacity() == old(self).capacity(),
            final(self).ttl() == old(self).ttl(),
            lfu_put(
                old(self).view(),
                old(self).capacity(),
                key@,
                value,
                now + old(self).ttl(),
                final(self).view(),
            ),
    {
        let expires_at = now + self.ttl_nanos as i128;
        let ghost v0 = self.view();
        let ghost m0 = slots_of(self.map);
        match index_get(&self.map, key.as_str()) {
            Some(slot) => {
                let ghost before = *self;
                match &mut self.entries[slot] {
                    Some(e) => {
                        e.value = value;
                        e.expires_at = expires_at;
                    },
                    None => {},
                }
                proof {
                    assert(before.live(slot as int));
                    self.lemma_same_shape(&before, slot as int);
                    assert(self.view() =~= v0.insert(
                        key@,
                        Counted {
                            value,
                            expires_at: expires_at as int,
                            frequency: v0[key@].frequency,
                        },
                    )) by {
                        assert forall|k: Seq<char>| #[trigger] self.view().contains_key(k) && k
                            != key@ implies self.view()[k] == v0[k] by {
                            assert(m0[k] != slot);
                        }
                    }
                }
                return ;
            },
            None => {},
        }
        let ghost mut evicted: Option<Seq<char>> = None;
        if index_len(&self.map) >= self.capacity {
            match self.pick_victim() {
                Some((k, f)) => {
                    proof {
                        evicted = Some(k@);
                    }
                    self.remove_entry_internal(k.as_str(), f);
                },
                None => {},
            }
        }
        let ghost v1 = self.view();
        proof {
            assert(v0.dom() =~= m0.dom());
            match evicted {
                Some(vk) => {
                    assert(v1 == v0.remove(vk));
                    assert(v0.contains_key(vk));
                },
                None => {},
            }
            assert(!v1.contains_key(key@));
            assert(v1.dom() =~= slots_of(self.map).dom());
        }
        self.insert_new(key, value, expires_at);
        proof {
            match evicted {
                Some(vk) => {
                    assert(v0.len() > 0);
                    assert(least_frequent(v0, vk));
                    assert(v0.remove(vk) == v1);
                },
                None => {
                    if v0.len() >= self.capacity && v0.len() > 0 {
                        assert(v0.dom().finite());
                        assert(v0.dom() =~= Set::empty());
                    }
                },
            }
        }
    }

    /// Two states that differ only inside the payload of one stored slot
    /// keep the key index, free list and groups as they were.
    proof fn lemma_same_shape(&self, before: &Self, slot: int)
        requires
            before.wf(),
            before.live(slot),
            self.map == before.map,
            self.free_indices == before.free_indices,
            self.freq_map == before.freq_map,
            self.capacity == before.capacity,
            self.ttl_nanos == before.ttl_nanos,
            self.entries@.len() == before.entries@.len(),
            self.live(slot),
            self.ent(slot).key == before.ent(slot).key,
            self.ent(slot).frequency == before.ent(slot).frequency,
            forall|j: int|
                0 <= j < self.entries@.len() && j != slot ==> #[trigger] self.entries@[j]
                    == before.entries@[j],
        ensures
            self.wf(),
    {
        let m = slots_of(self.map);
        assert forall|k: Seq<char>| #[trigger] m.contains_key(k) implies self.live(m[k] as int)
            && self.ent(m[k] as int).key@ == k by {
            assert(before.live(m[k] as int));
        }
        assert forall|j: int| #[trigger] self.live(j) implies m.contains_key(self.ent(j).key@)
            && m[self.ent(j).key@] == j by {
            assert(before.live(j));
        }
        let f = self.free_indices@;
        assert forall|i: int| 0 <= i < f.len() implies #[trigger] f[i] < self.entries@.len()
            && self.entries@[f[i] as int] is None by {
            assert(before.entries@[f[i] as int] is None);
        }
        let fm = self.freq_map@;
        assert forall|g: usize, k: Seq<char>| #[trigger]
            members_at(fm, g).contains(k) <==> (m.contains_key(k) && self.ent(m[k] as int).frequency
                == g) by {
            assert(members_at(fm, g).contains(k) <==> (m.contains_key(k) && before.ent(
                m[k] as int,
            ).frequency == g));
        }
    }

    /// Stores a new entry for a key that has none, with a count of one, in a
    /// free slot or a new one, and adds the key to the group of count one.
    fn insert_new(&mut self, key: String, value: V, expires_at: i128)
        requires
            old(self).index_ok(),
            old(self).free_ok(),
            old(self).groups_ok(),
            old(self).ttl_nanos <= MAX_DURATION_NANOS,
            slots_of(old(self).map).len() < max_entries(old(self).capacity as nat),
            !slots_of(old(self).map).contains_key(key@),
        ensures
            final(self).wf(),
            final(self).capacity == old(self).capacity,
            final(self).ttl_nanos == old(self).ttl_nanos,
            final(self).view() == old(self).view().insert(
                key@,
                Counted { value, expires_at: expires_at as int, frequency: 1 },
            ),
    {
        let ghost m = slots_of(self.map);
        let ghost fm = self.freq_map@;
        let ghost f0 = self.free_indices@;
        let entry = CacheEntry { key: key.clone(), value, expires_at, frequency: 1 };
        let slot = match self.free_indices.pop() {
            Some(i) => {
                assert(f0[f0.len() - 1] == i);
                self.entries.set(i, Some(entry));
                i
            },
            None => {
                let i = self.entries.len();
                self.entries.push(Some(entry));
                i
            },
        };
        index_insert(&mut self.map, key.clone(), slot);
        group_add(&mut self.freq_map, 1, key);
        proof {
            let m2 = slots_of(self.map);
            let fm2 = self.freq_map@;
            assert(!old(self).live(slot as int));
            assert forall|k: Seq<char>| #[trigger] m2.contains_key(k) implies self.live(m2[k] as int)
                && self.ent(m2[k] as int).key@ == k by {
                if k != key@ {
                    assert(old(self).live(m[k] as int));
                }
            }
            assert forall|i: int| #[trigger] self.live(i) implies m2.contains_key(self.ent(i).key@)
                && m2[self.ent(i).key@] == i by {
                if i != slot {
                    assert(old(self).live(i));
                }
            }
            let f = self.free_indices@;
            assert forall|i: int| 0 <= i < f.len() implies #[trigger] f[i] < self.entries@.len()
                && self.entries@[f[i] as int] is None by {
                assert(f[i] == f0[i]);
                if f0.len() > 0 && slot == f0[f0.len() - 1] {
                    assert(f0[i] != f0[f0.len() - 1]);
                }
            }
            assert forall|g: usize, k: Seq<char>| #[trigger]
                members_at(fm2, g).contains(k) <==> (m2.contains_key(k) && self.ent(
                    m2[k] as int,
                ).frequency == g) by {
                assert(members_at(fm, g).contains(k) <==> (m.contains_key(k) && old(self).ent(
                    m[k] as int,
                ).frequency == g));
                if m.contains_key(k) {
                    assert(old(self).live(m[k] as int));
                }
            }
            assert forall|g: usize| #[trigger] fm2.contains_key(g) implies members_at(fm2, g).len()
                > 0 by {
                assert(members_at(fm, g).finite());
                if g == 1 {
                    assert(members_at(fm2, g).contains(key@));
                } else {
                    assert(fm.contains_key(g));
                }
            }
            assert forall|g: usize| #[trigger] members_at(fm2, g).finite() by {
                assert(members_at(fm, g).finite());
            }
            assert(self.view() =~= old(self).view().insert(
                key@,
                Counted { value, expires_at: expires_at as int, frequency: 1 },
            )) by {
                assert forall|k: Seq<char>| #[trigger] self.view().contains_key(k) && k
                    != key@ implies self.view()[k] == old(self).view()[k] by {
                    assert(old(self).live(m[k] as int));
                }
            }
        }
    }
    /// Removes the entry under `key`, if there is one.
    pub fn remove(&mut self, key: &str)
        requires
            old(self).wf(),
        ensures
            final(self).wf(),
            final(self).capacity() == old(self).capacity(),
            final(self).ttl() == old(self).ttl(),
            final(self).view() == old(self).view().remove(key@),
    {
        match index_get(&self.map, key) {
            Some(slot) => {
                assert(self.live(slot as int));
                let freq = self.entries[slot].as_ref().unwrap().frequency;
                self.remove_entry_internal(key, freq);
            },
            None => {
                assert(self.view().remove(key@) =~= self.view());
            },
        }
    }

    /// Whether an entry has key `key`, expired or not.
    pub fn contains(&self, key: &str) -> (r: bool)
        requires
            self.wf(),
        ensures
            r == self.view().contains_key(key@),
    {
        crate::keys::index_contains(&self.map, key)
    }

    /// The number of entries, expired ones included.
    pub fn len(&self) -> (n: usize)
        requires
            self.wf(),
        ensures
            n == self.view().len(),
            n <= max_entries(self.capacity()),
    {
        assert(self.view().dom() =~= slots_of(self.map).dom());
        index_len(&self.map)
    }

    /// Whether there is no entry.
    pub fn is_empty(&self) -> (r: bool)
        requires
            self.wf(),
        ensures
            r == (self.view().len() == 0),
    {
        self.len() == 0
    }

    /// Removes every entry and every group.
    pub fn clear(&mut self)
        requires
            old(self).wf(),
        ensures
            final(self).wf(),
            final(self).capacity() == old(self).capacity(),
            final(self).ttl() == old(self).ttl(),
            final(self).view() == Map::<Seq<char>, Counted<V>>::empty(),
    {
        index_clear(&mut self.map);
        self.entries.clear();
        self.free_indices.clear();
        self.freq_map.clear();
        proof {
            assert(slots_of(self.map) =~= Map::empty());
            assert(self.view() =~= Map::<Seq<char>, Counted<V>>::empty());
            assert forall|g: usize| #[trigger] members_at(self.freq_map@, g).finite() by {}
        }
    }

    /// Removes every entry that has expired at `now`.
    pub fn purge_expired(&mut self, now: i128)
        requires
            old(self).wf(),
        ensures
            final(self).wf(),
            final(self).capacity() == old(self).capacity(),
            final(self).ttl() == old(self).ttl(),
            final(self).view() == lfu_unexpired(old(self).view(), now as int),
    {
        let ghost v0 = self.view();
        let ghost m0 = slots_of(self.map);
        assert(v0.dom() =~= m0.dom());
        let n = self.entries.len();
        let mut j: usize = 0;
        proof {
            assert forall|k1: Seq<char>, k2: Seq<char>|
                m0.contains_key(k1) && m0.contains_key(k2) && #[trigger] m0[k1] == #[trigger] m0[k2]
                implies k1 == k2 by {
                assert(self.live(m0[k1] as int));
            }
            assert forall|k: Seq<char>| #[trigger] m0.contains_key(k) implies m0[k] < n by {
                assert(self.live(m0[k] as int));
            }
        }
        while j < n
            invariant
                self.wf(),
                self.capacity == old(self).capacity,
                self.ttl_nanos == old(self).ttl_nanos,
                n == self.entries@.len(),
                0 <= j <= n,
                forall|k1: Seq<char>, k2: Seq<char>|
                    m0.contains_key(k1) && m0.contains_key(k2) && #[trigger] m0[k1] == #[trigger] m0[k2]
                        ==> k1 == k2,
                forall|k: Seq<char>| #[trigger] m0.contains_key(k) ==> m0[k] < n,
                v0.dom() == m0.dom(),
                forall|k: Seq<char>| #[trigger]
                    slots_of(self.map).contains_key(k) ==> m0.contains_key(k)
                        && slots_of(self.map)[k] == m0[k],
                self.view() == Map::new(
                    |k: Seq<char>| v0.contains_key(k) && (v0[k].expires_at > now || m0[k] >= j),
                    |k: Seq<char>| v0[k],
                ),
            decreases n - j,
        {
            let ghost before = self.view();
            let ghost mb = slots_of(self.map);
            let expired_key = match &self.entries[j] {
                Some(e) => if e.expires_at <= now {
                    Some((e.key.clone(), e.frequency))
                } else {
                    None
                },
                None => None,
            };
            match expired_key {
                Some((k, f)) => {
                    proof {
                        assert(self.live(j as int));
                        assert(mb.contains_key(k@) && mb[k@] == j);
                        assert(self.view().contains_key(k@));
                    }
                    self.remove_entry_internal(k.as_str(), f);
                    proof {
                        assert(self.view() =~= Map::new(
                            |kk: Seq<char>| v0.contains_key(kk) && (v0[kk].expires_at > now || m0[kk]
                                >= j + 1),
                            |kk: Seq<char>| v0[kk],
                        )) by {
                            assert forall|kk: Seq<char>| #[trigger] v0.contains_key(kk) && m0[kk] == j
                                implies kk == k@ by {
                                assert(m0[k@] == j);
                            }
                        }
                    }
                },
                None => {
                    proof {
                        assert(self.view() =~= Map::new(
                            |kk: Seq<char>| v0.contains_key(kk) && (v0[kk].expires_at > now || m0[kk]
                                >= j + 1),
                            |kk: Seq<char>| v0[kk],
                        )) by {
                            assert forall|kk: Seq<char>| #[trigger] v0.contains_key(kk) && m0[kk] == j
                                && before.contains_key(kk) implies v0[kk].expires_at > now by {
                                assert(mb.contains_key(kk));
                                assert(mb[kk] == j);
                                assert(self.live(j as int));
                                assert(before[kk] == self.ent(j as int).counted());
                                assert(before[kk] == v0[kk]);
                            }
                        }
                    }
                },
            }
            j = j + 1;
        }
        proof {
            assert(self.view() =~= lfu_unexpired(v0, now as int));
        }
    }
}

impl<V: Clone> LFUState<V> {
    /// The value under `key` at instant `now`, cloned, if it has not
    /// expired; the entry's count goes up by one and it moves to the group
    /// of its new count. An expired entry found on the way is removed.
    pub fn get(&mut self, key: &str, now: i128) -> (r: Option<V>)
        requires
            old(self).wf(),
        ensures
            final(self).wf(),
            final(self).capacity() == old(self).capacity(),
            final(self).ttl() == old(self).ttl(),
            lfu_lookup_outcome(old(self).view(), key@, now as int, r),
            final(self).view() == lfu_after_get(old(self).view(), key@, now as int),
    {
        let ghost v0 = self.view();
        let ghost m = slots_of(self.map);
        let ghost fm = self.freq_map@;
        match index_get(&self.map, key) {
            None => None,
            Some(slot) => {
                assert(self.live(slot as int));
                let cur = self.entries[slot].as_ref().unwrap();
                let freq = cur.frequency;
                if cur.expires_at <= now {
                    self.remove_entry_internal(key, freq);
                    return None;
                }
                let v = cur.value.clone();
                let k = cur.key.clone();
                let nf = if freq < usize::MAX {
                    freq + 1
                } else {
                    freq
                };
                let ghost before = *self;
                match &mut self.entries[slot] {
                    Some(e) => {
                        e.frequency = nf;
                    },
                    None => {},
                }
                group_drop(&mut self.freq_map, freq, key);
                group_add(&mut self.freq_map, nf, k);
                proof {
                    let fm2 = self.freq_map@;
                    assert forall|kk: Seq<char>| #[trigger] m.contains_key(kk) implies self.live(
                        m[kk] as int,
                    ) && self.ent(m[kk] as int).key@ == kk by {
                        assert(before.live(m[kk] as int));
                    }
                    assert forall|i: int| #[trigger] self.live(i) implies m.contains_key(
                        self.ent(i).key@,
                    ) && m[self.ent(i).key@] == i by {
                        assert(before.live(i));
                    }
                    let f = self.free_indices@;
                    assert forall|i: int| 0 <= i < f.len() implies #[trigger] f[i]
                        < self.entries@.len() && self.entries@[f[i] as int] is None by {
                        assert(before.entries@[f[i] as int] is None);
                    }
                    assert forall|g: usize, kk: Seq<char>| #[trigger]
                        members_at(fm2, g).contains(kk) <==> (m.contains_key(kk) && self.ent(
                            m[kk] as int,
                        ).frequency == g) by {
                        assert(members_at(fm, g).contains(kk) <==> (m.contains_key(kk) && before.ent(
                            m[kk] as int,
                        ).frequency == g));
                        if m.contains_key(kk) && kk != key@ {
                            assert(m[kk] != slot);
                        }
                    }
                    assert forall|g: usize| #[trigger] fm2.contains_key(g) implies members_at(
                        fm2,
                        g,
                    ).len() > 0 by {
                        assert(members_at(fm, g).finite());
                        if g == nf {
                            assert(members_at(fm2, g).contains(key@));
                        } else if g != freq {
                            assert(fm.contains_key(g));
                        }
                    }
                    assert forall|g: usize| #[trigger] members_at(fm2, g).finite() by {
                        assert(members_at(fm, g).finite());
                        assert(members_at(fm, freq).finite());
                    }
                    assert(self.view() =~= lfu_after_get(v0, key@, now as int)) by {
                        assert forall|kk: Seq<char>| #[trigger] self.view().contains_key(kk) && kk
                            != key@ implies self.view()[kk] == v0[kk] by {
                            assert(m[kk] != slot);
                        }
                    }
                }
                Some(v)
            },
        }
    }
}

/// What the lock of an LFU cache keeps true of the state it guards: it is
/// well formed, with the cache's capacity and time to live.
pub struct LfuBounds {
    pub capacity: usize,
    pub ttl_nanos: u128,
}

impl<V> RwLockPredicate<LFUState<V>> for LfuBounds {
    open spec fn inv(self, s: LFUState<V>) -> bool {
        &&& s.wf()
        &&& s.capacity() == self.capacity
        &&& s.ttl() == self.ttl_nanos
    }
}

/// An LFU cache that threads share. Clones share one state, guarded by a
/// lock.
pub struct LFUCache<V> {
    capacity: usize,
    ttl: Duration,
    state: Arc<RwLock<LFUState<V>, LfuBounds>>,
}

impl<V> LFUCache<V> {
    #[verifier::type_invariant]
    spec fn bounds_match(self) -> bool {
        self.state.pred().capacity == self.capacity
    }

    /// The capacity the cache was made with.
    pub closed spec fn capacity(&self) -> nat {
        self.capacity as nat
    }

    /// The time to live of an entry, in nanoseconds, that the cache was made
    /// with.
    pub closed spec fn ttl_of(&self) -> nat {
        self.state.pred().ttl_nanos as nat
    }

    /// An empty cache of `capacity` entries whose entries live for `ttl`.
    /// The cleaning interval is used by the background cleaner, which runs
    /// outside this type.
    pub fn new(capacity: usize, ttl: Duration, _clean_interval: Duration) -> (c: Self)
        ensures
            c.capacity() == capacity,
            c.ttl_of() == nanos_of(ttl),
    {
        let ttl_nanos = duration_nanos(&ttl);
        let state = LFUState::new(capacity, ttl_nanos);
        let bounds = Ghost(LfuBounds { capacity, ttl_nanos });
        LFUCache { capacity, ttl, state: Arc::new(RwLock::new(state, bounds)) }
    }
}

impl<V> Clone for LFUCache<V> {
    /// Another handle to the same cache: both share one state.
    fn clone(&self) -> (c: Self)
        ensures
            c.capacity() == self.capacity(),
            c.ttl_of() == self.ttl_of(),
    {
        proof {
            use_type_invariant(self);
        }
        LFUCache { capacity: self.capacity, ttl: self.ttl, state: share(&self.state) }
    }
}

impl<V: Clone> CacheStrategy<V> for LFUCache<V> {
    open spec fn max_len(&self) -> nat {
        max_entries(self.capacity())
    }

    fn put(&self, key: String, value: V) {
        let now = now_nanos();
        let (mut s, handle) = self.state.acquire_write();
        s.put(key, value, now);
        handle.release_write(s);
    }

    fn get(&self, key: &str) -> Option<V> {
        let now = now_nanos();
        let (mut s, handle) = self.state.acquire_write();
        let r = s.get(key, now);
        handle.release_write(s);
        r
    }

    fn remove(&self, key: &str) {
        let (mut s, handle) = self.state.acquire_write();
        s.remove(key);
        handle.release_write(s);
    }

    fn contains(&self, key: &str) -> bool {
        let read_handle = self.state.acquire_read();
        let r = read_handle.borrow().contains(key);
        read_handle.release_read();
        r
    }

    fn len(&self) -> (n: usize) {
        proof {
            use_type_invariant(self);
        }
        let read_handle = self.state.acquire_read();
        let n = read_handle.borrow().len();
        read_handle.release_read();
        n
    }

    fn is_empty(&self) -> bool {
        let read_handle = self.state.acquire_read();
        let r = read_handle.borrow().is_empty();
        read_handle.release_read();
        r
    }

    fn clear(&self) {
        let (mut s, handle) = self.state.acquire_write();
        s.clear();
        handle.release_write(s);
    }

    fn purge_expired(&self) {
        let now = now_nanos();
        let (mut s, handle) = self.state.acquire_write();
        s.purge_expired(now);
        handle.release_write(s);
    }
}

} // verus!
