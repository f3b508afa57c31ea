//! Least recently used: a full cache drops the entry that was put or read
//! longest ago.
//!
//! A read does not reorder the list at once: it records the slot it read in
//! an access buffer, and the buffer is replayed onto the list when it holds
//! `BATCH_SIZE` slots or before any put. As the contracts see it, the cache is
//! the list with the buffer replayed: its entries from most to least recently
//! used.
use vstd::prelude::*;
use vstd::rwlock::{RwLock, RwLockPredicate};
use std::sync::Arc;
use std::time::Duration;
use crate::clock::{duration_nanos, nanos_of, now_nanos, MAX_DURATION_NANOS};
use crate::strategy::{share, CacheStrategy};
use crate::strategy::arena::{
    drop_if_expired, has_fresh, has_key, instant_ok, is_expired, key_pos, lemma_key_pos, lookup_outcome,
    lemma_same_payload_refl, lemma_same_payload_trans, remove_key, same_payload, unexpired, unique_keys, Arena, Entry,
};
use crate::strategy::fifo::max_entries;

verus! {

/// How many reads are recorded before they are replayed onto the list.
pub const BATCH_SIZE: usize = 64;

/// One recorded read replayed: a slot that is still listed moves to the
/// front; any other slot is passed over.
pub open spec fn touch(r: Seq<usize>, x: usize) -> Seq<usize> {
    if r.contains(x) {
        let i = choose|i: int| 0 <= i < r.len() && r[i] == x;
        seq![x].add(r.remove(i))
    } else {
        r
    }
}

/// The list order `o` with the recorded reads `buf` replayed, oldest first.
pub open spec fn replay(o: Seq<usize>, buf: Seq<usize>) -> Seq<usize>
    decreases buf.len(),
{
    if buf.len() == 0 {
        o
    } else {
        touch(replay(o, buf.drop_last()), buf.last())
    }
}

/// The entries after `put` of `key` with `value`, expiring at `expires_at`,
/// into an LRU cache of the given capacity: the entry comes in (or is
/// updated) at the front; a new key in a full cache first drops the entry at
/// the back, the least recently used.
pub open spec fn lru_put<V>(
    s: Seq<Entry<V>>,
    capacity: nat,
    key: Seq<char>,
    value: V,
    expires_at: int,
) -> Seq<Entry<V>> {
    let e = Entry { key, value, expires_at };
    if has_key(s, key) {
        seq![e].add(s.remove(key_pos(s, key)))
    } else {
        let kept = if s.len() >= capacity && s.len() > 0 {
            s.drop_last()
        } else {
            s
        };
        seq![e].add(kept)
    }
}

/// The entries after a read of `key`: the entry with that key moves to the
/// front.
pub open spec fn lru_touch<V>(s: Seq<Entry<V>>, key: Seq<char>) -> Seq<Entry<V>> {
    if has_key(s, key) {
        seq![s[key_pos(s, key)]].add(s.remove(key_pos(s, key)))
    } else {
        s
    }
}

/// The entries after a lookup of `key` at `now`: an unexpired entry moves
/// to the front; an expired one is dropped.
pub open spec fn lru_after_get<V>(s: Seq<Entry<V>>, key: Seq<char>, now: int) -> Seq<Entry<V>> {
    if has_fresh(s, key, now) {
        lru_touch(s, key)
    } else {
        drop_if_expired(s, key, now)
    }
}

/// Replaying one read keeps the slots and their distinctness.
proof fn lemma_touch_perm(r: Seq<usize>, x: usize)
    requires
        r.no_duplicates(),
    ensures
        touch(r, x).no_duplicates(),
        touch(r, x).len() == r.len(),
        forall|y: usize| touch(r, x).contains(y) <==> r.contains(y),
{
    if r.contains(x) {
        let i = choose|i: int| 0 <= i < r.len() && r[i] == x;
        let t = touch(r, x);
        let rm = r.remove(i);
        assert(t == seq![x].add(rm));
        assert forall|a: int, b: int| 0 <= a < b < t.len() implies t[a] != t[b] by {
            if a == 0 {
                if b - 1 < i {
                    assert(t[b] == r[b - 1]);
                } else {
                    assert(t[b] == r[b]);
                }
            } else {
                let qa = if a - 1 < i {
                    a - 1
                } else {
                    a
                };
                let qb = if b - 1 < i {
                    b - 1
                } else {
                    b
                };
                assert(t[a] == r[qa]);
                assert(t[b] == r[qb]);
            }
        }
        assert forall|y: usize| t.contains(y) <==> r.contains(y) by {
            if r.contains(y) {
                let q = choose|q: int| 0 <= q < r.len() && r[q] == y;
                if q == i {
                    assert(t[0] == y);
                } else if q < i {
                    assert(t[q + 1] == y);
                } else {
                    assert(t[q] == y);
                }
            }
            if t.contains(y) {
                let q = choose|q: int| 0 <= q < t.len() && t[q] == y;
                if q == 0 {
                    assert(r[i] == y);
                } else if q - 1 < i {
                    assert(r[q - 1] == y);
                } else {
                    assert(r[q] == y);
                }
            }
        }
    }
}

/// Replaying reads keeps the slots of the list and their distinctness.
proof fn lemma_replay_perm(o: Seq<usize>, buf: Seq<usize>)
    requires
        o.no_duplicates(),
    ensures
        replay(o, buf).no_duplicates(),
        replay(o, buf).len() == o.len(),
        forall|y: usize| replay(o, buf).contains(y) <==> o.contains(y),
    decreases buf.len(),
{
    if buf.len() > 0 {
        lemma_replay_perm(o, buf.drop_last());
        lemma_touch_perm(replay(o, buf.drop_last()), buf.last());
    }
}

/// Filtering keeps the elements of a sequence distinct.
proof fn lemma_filter_distinct(s: Seq<usize>, keep: spec_fn(usize) -> bool)
    requires
        s.no_duplicates(),
    ensures
        s.filter(keep).no_duplicates(),
    decreases s.len(),
{
    if s.len() > 0 {
        let d = s.drop_last();
        let x = s.last();
        assert(s == d.push(x));
        assert(d.no_duplicates()) by {
            assert forall|a: int, b: int| 0 <= a < b < d.len() implies d[a] != d[b] by {
                assert(s[a] == d[a] && s[b] == d[b]);
            }
        }
        lemma_filter_distinct(d, keep);
        d.lemma_filter_push(x, keep);
        if keep(x) {
            let f = d.filter(keep);
            assert(!f.contains(x)) by {
                if f.contains(x) {
                    d.lemma_filter_contains_rev(keep, x);
                    let i = choose|i: int| 0 <= i < d.len() && d[i] == x;
                    assert(s[i] == s[s.len() - 1]);
                }
            }
            assert forall|a: int, b: int| 0 <= a < b < f.push(x).len() implies f.push(x)[a]
                != f.push(x)[b] by {
                if b == f.len() {
                    assert(f.contains(f[a]));
                }
            }
        }
    }
}

/// Filtering with a test that every element passes changes nothing.
proof fn lemma_filter_all(s: Seq<usize>, keep: spec_fn(usize) -> bool)
    requires
        forall|i: int| 0 <= i < s.len() ==> keep(#[trigger] s[i]),
    ensures
        s.filter(keep) == s,
    decreases s.len(),
{
    if s.len() > 0 {
        let d = s.drop_last();
        assert(s == d.push(s.last()));
        lemma_filter_all(d, keep);
        d.lemma_filter_push(s.last(), keep);
    } else {
        reveal(Seq::filter);
    }
}

/// In a sequence of distinct slots, removing position `i` is filtering out
/// the slot there.
proof fn lemma_remove_as_filter(r: Seq<usize>, i: int)
    requires
        r.no_duplicates(),
        0 <= i < r.len(),
    ensures
        r.remove(i) == r.filter(|j: usize| j != r[i]),
{
    let x = r[i];
    let keep = |j: usize| j != x;
    let a = r.subrange(0, i);
    let b = r.subrange(i + 1, r.len() as int);
    assert(r == a + seq![x] + b);
    assert forall|t: int| 0 <= t < a.len() implies keep(#[trigger] a[t]) by {
        assert(a[t] == r[t]);
    }
    assert forall|t: int| 0 <= t < b.len() implies keep(#[trigger] b[t]) by {
        assert(b[t] == r[i + 1 + t]);
    }
    lemma_filter_all(a, keep);
    lemma_filter_all(b, keep);
    Seq::filter_distributes_over_add(a + seq![x], b, keep);
    Seq::filter_distributes_over_add(a, seq![x], keep);
    assert(seq![x] =~= Seq::<usize>::empty().push(x));
    Seq::<usize>::empty().lemma_filter_push(x, keep);
    reveal(Seq::filter);
    assert(Seq::<usize>::empty().filter(keep) =~= Seq::<usize>::empty());
    assert(r.remove(i) =~= a + b);
    assert(keep =~= |j: usize| j != r[i]);
}

/// Replaying one read commutes with filtering out slots.
proof fn lemma_touch_filter(r: Seq<usize>, x: usize, keep: spec_fn(usize) -> bool)
    requires
        r.no_duplicates(),
    ensures
        touch(r.filter(keep), x) == touch(r, x).filter(keep),
{
    let rf = r.filter(keep);
    lemma_filter_distinct(r, keep);
    if r.contains(x) {
        let i = choose|i: int| 0 <= i < r.len() && r[i] == x;
        let a = r.subrange(0, i);
        let b = r.subrange(i + 1, r.len() as int);
        assert(r == a + seq![x] + b);
        assert(r.remove(i) =~= a + b);
        Seq::filter_distributes_over_add(a + seq![x], b, keep);
        Seq::filter_distributes_over_add(a, seq![x], keep);
        Seq::filter_distributes_over_add(a, b, keep);
        r.remove(i).lemma_filter_prepend(x, keep);
        reveal(Seq::filter);
        assert(seq![x].drop_last() =~= Seq::<usize>::empty());
        if keep(x) {
            assert(seq![x].filter(keep) =~= seq![x]);
            let fa = a.filter(keep);
            let j = fa.len() as int;
            assert(rf == fa + seq![x] + b.filter(keep));
            assert(rf[j] == x);
            assert(rf.contains(x));
            let j2 = choose|t: int| 0 <= t < rf.len() && rf[t] == x;
            assert(j2 == j);
            assert(rf.remove(j) =~= fa + b.filter(keep));
        } else {
            assert(seq![x].filter(keep) =~= Seq::<usize>::empty());
            assert(!rf.contains(x)) by {
                if rf.contains(x) {
                    let t = choose|t: int| 0 <= t < rf.len() && rf[t] == x;
                    r.lemma_filter_pred(keep, t);
                }
            }
            assert(rf =~= a.filter(keep) + b.filter(keep));
        }
    } else {
        assert(!rf.contains(x)) by {
            if rf.contains(x) {
                r.lemma_filter_contains_rev(keep, x);
            }
        }
    }
}

/// Replaying reads commutes with filtering out slots of the list.
proof fn lemma_replay_filter(o: Seq<usize>, buf: Seq<usize>, keep: spec_fn(usize) -> bool)
    requires
        o.no_duplicates(),
    ensures
        replay(o.filter(keep), buf) == replay(o, buf).filter(keep),
    decreases buf.len(),
{
    if buf.len() > 0 {
        lemma_replay_filter(o, buf.drop_last(), keep);
        lemma_replay_perm(o, buf.drop_last());
        lemma_touch_filter(replay(o, buf.drop_last()), buf.last(), keep);
    }
}

/// Filtering slots by a test on their entries, then taking the entries, is
/// taking the entries, then filtering them.
proof fn lemma_map_filter<V>(s: Seq<usize>, f: spec_fn(usize) -> Entry<V>, keep: spec_fn(Entry<V>) -> bool)
    ensures
        s.filter(|j: usize| keep(f(j))).map_values(f) == s.map_values(f).filter(keep),
    decreases s.len(),
{
    let sk = |j: usize| keep(f(j));
    if s.len() > 0 {
        let d = s.drop_last();
        let x = s.last();
        assert(s == d.push(x));
        lemma_map_filter(d, f, keep);
        d.lemma_filter_push(x, sk);
        assert(s.map_values(f) =~= d.map_values(f).push(f(x)));
        d.map_values(f).lemma_filter_push(f(x), keep);
        if keep(f(x)) {
            assert(d.filter(sk).push(x).map_values(f) =~= d.filter(sk).map_values(f).push(f(x)));
        }
    } else {
        reveal(Seq::filter);
        assert(s.filter(sk).map_values(f) =~= s.map_values(f).filter(keep));
    }
}

/// The state of an LRU cache. Reads recorded but not yet replayed are kept
/// beside it, in an access buffer of slots.
pub struct LRUState<V> {
    capacity: usize,
    ttl_nanos: u128,
    list: Arena<V>,
}

impl<V> LRUState<V> {
    /// The entries, most recently used first, with the reads in `buffer`
    /// replayed.
    #[verifier::opaque]
    pub closed spec fn view(&self, buffer: Seq<usize>) -> Seq<Entry<V>> {
        replay(self.list.order(), buffer).map_values(|j: usize| self.list.slot_entry(j))
    }

    /// The list and key index that hold the entries.
    pub closed spec fn arena(&self) -> Arena<V> {
        self.list
    }

    /// The capacity the cache was made with.
    pub closed spec fn capacity(&self) -> nat {
        self.capacity as nat
    }

    /// The time to live of an entry, in nanoseconds.
    pub closed spec fn ttl(&self) -> nat {
        self.ttl_nanos as nat
    }

    /// The state is well formed.
    pub closed spec fn wf(&self) -> bool {
        &&& self.list.wf()
        &&& self.ttl_nanos <= MAX_DURATION_NANOS
        &&& self.list.entries().len() <= max_entries(self.capacity as nat)
    }

    /// In a well-formed state, whatever reads are pending, the keys of the
    /// view are distinct and there are at most `max_entries(capacity)` of
    /// them.
    pub proof fn lemma_view_unique(&self, buffer: Seq<usize>)
        requires
            self.wf(),
        ensures
            unique_keys(self.view(buffer)),
            self.view(buffer).len() <= max_entries(self.capacity()),
    {
        self.lemma_view(buffer);
    }

    /// With any buffer, the view holds the same entries as the list: the
    /// same keys, distinct, each with the same entry, and as many.
    proof fn lemma_view(&self, buffer: Seq<usize>)
        requires
            self.wf(),
        ensures
            self.view(buffer).len() == self.list.entries().len(),
            self.view(buffer).len() <= max_entries(self.capacity()),
            unique_keys(self.view(buffer)),
            forall|k: Seq<char>|
                #![trigger has_key(self.view(buffer), k)]
                has_key(self.view(buffer), k) == has_key(self.list.entries(), k),
            forall|k: Seq<char>|
                #![trigger key_pos(self.view(buffer), k)]
                has_key(self.view(buffer), k) ==> self.view(buffer)[key_pos(self.view(buffer), k)]
                    == self.list.entries()[key_pos(self.list.entries(), k)],
            self.ttl() <= MAX_DURATION_NANOS,
    {
        reveal(LRUState::view);
        let o = self.list.order();
        let r = replay(o, buffer);
        let v = self.view(buffer);
        let e = self.list.entries();
        self.list.lemma_unique();
        self.list.lemma_slot_entries();
        lemma_replay_perm(o, buffer);
        // each listed slot sits at some position of the order
        assert forall|i: int| #![trigger r[i]] 0 <= i < r.len() implies exists|q: int|
            0 <= q < o.len() && #[trigger] o[q] == r[i] by {
            assert(r.contains(r[i]));
            assert(o.contains(r[i]));
        }
        assert forall|i: int, j: int| 0 <= i < v.len() && 0 <= j < v.len() && i != j implies v[i].key
            != v[j].key by {
            let qi = choose|q: int| 0 <= q < o.len() && o[q] == r[i];
            let qj = choose|q: int| 0 <= q < o.len() && o[q] == r[j];
            assert(e[qi] == v[i]);
            assert(e[qj] == v[j]);
        }
        assert forall|k: Seq<char>| has_key(v, k) == has_key(e, k) by {
            if has_key(v, k) {
                let i = choose|i: int| 0 <= i < v.len() && v[i].key == k;
                let q = choose|q: int| 0 <= q < o.len() && o[q] == r[i];
                assert(e[q].key == k);
            }
            if has_key(e, k) {
                let q = choose|q: int| 0 <= q < e.len() && e[q].key == k;
                assert(o.contains(o[q]));
                assert(r.contains(o[q]));
                let i = choose|i: int| 0 <= i < r.len() && r[i] == o[q];
                assert(v[i].key == k);
            }
        }
        assert forall|k: Seq<char>| has_key(v, k) implies v[key_pos(v, k)] == e[key_pos(e, k)] by {
            lemma_key_pos(v, k);
            lemma_key_pos(e, k);
            let i = key_pos(v, k);
            let q = choose|q: int| 0 <= q < o.len() && o[q] == r[i];
            assert(e[q].key == k);
        }
    }

    /// With no read waiting, the view is the list itself.
    proof fn lemma_view_empty(&self)
        ensures
            self.view(Seq::<usize>::empty()) == self.list.entries(),
    {
        reveal(LRUState::view);
        self.list.lemma_slot_entries();
        assert(self.view(Seq::<usize>::empty()) =~= self.list.entries());
    }

    /// An empty cache.
    pub fn new(capacity: usize, ttl_nanos: u128) -> (s: Self)
        requires
            ttl_nanos <= MAX_DURATION_NANOS,
        ensures
            s.wf(),
            forall|b: Seq<usize>| s.view(b) == Seq::<Entry<V>>::empty(),
            s.capacity() == capacity,
            s.ttl() == ttl_nanos,
    {
        let s = LRUState { capacity, ttl_nanos, list: Arena::new(capacity) };
        proof {
            assert forall|b: Seq<usize>| s.view(b) == Seq::<Entry<V>>::empty() by {
                s.lemma_view(b);
            }
        }
        s
    }

    /// Replays the recorded reads onto the list and empties the buffer; the
    /// view does not change.
    pub fn apply_access_batch(&mut self, buffer: &mut Vec<usize>)
        requires
            old(self).wf(),
        ensures
            final(self).wf(),
            final(self).capacity() == old(self).capacity(),
            final(self).ttl() == old(self).ttl(),
            final(buffer)@ == Seq::<usize>::empty(),
            final(self).view(final(buffer)@) == old(self).view(old(buffer)@),
            final(self).arena().key_slots() == old(self).arena().key_slots(),
            final(self).arena().free_slots() == old(self).arena().free_slots(),
            final(self).arena().slot_count() == old(self).arena().slot_count(),
            forall|j: int|
                0 <= j < final(self).arena().slot_count() ==> same_payload(
                    #[trigger] final(self).arena().slot(j),
                    old(self).arena().slot(j),
                ),
    {
        let ghost o = self.list.order();
        let ghost buf = buffer@;
        let ghost se = |j: usize| old(self).list.slot_entry(j);
        let n = buffer.len();
        let mut i: usize = 0;
        proof {
            self.list.lemma_unique();
            self.list.lemma_slot_entries();
            assert(buf.take(0) =~= Seq::<usize>::empty());
            assert forall|j: int| 0 <= j < self.list.slot_count() implies same_payload(
                #[trigger] self.list.slot(j),
                old(self).list.slot(j),
            ) by {
                lemma_same_payload_refl(self.list.slot(j));
            }
        }
        while i < n
            invariant
                self.wf(),
                self.capacity == old(self).capacity,
                self.ttl_nanos == old(self).ttl_nanos,
                buffer@ == buf,
                n == buf.len(),
                0 <= i <= n,
                o.no_duplicates(),
                self.list.order() == replay(o, buf.take(i as int)),
                forall|j: usize| #[trigger]
                    self.list.order().contains(j) ==> self.list.slot_entry(j) == se(j),
                self.list.key_slots() == old(self).list.key_slots(),
                self.list.free_slots() == old(self).list.free_slots(),
                self.list.slot_count() == old(self).list.slot_count(),
                forall|j: int|
                    0 <= j < self.list.slot_count() ==> same_payload(
                        #[trigger] self.list.slot(j),
                        old(self).list.slot(j),
                    ),
            decreases n - i,
        {
            let x = buffer[i];
            let ghost r = self.list.order();
            proof {
                self.list.lemma_unique();
                assert(buf.take(i + 1).drop_last() =~= buf.take(i as int));
                assert(buf.take(i + 1).last() == x);
            }
            if self.list.is_live(x) {
                let ghost p = choose|q: int| 0 <= q < r.len() && r[q] == x;
                let ghost before = self.list;
                self.list.move_to_front(x, Ghost(p));
                proof {
                    assert forall|j: int| 0 <= j < self.list.slot_count() implies same_payload(
                        #[trigger] self.list.slot(j),
                        old(self).list.slot(j),
                    ) by {
                        lemma_same_payload_trans(self.list.slot(j), before.slot(j), old(self).list.slot(j));
                    }
                    before.lemma_slot_entries();
                    self.list.lemma_slot_entries();
                    lemma_touch_perm(r, x);
                    assert forall|j: usize| #[trigger]
                        self.list.order().contains(j) implies self.list.slot_entry(j) == se(j) by {
                        let t = choose|t: int| 0 <= t < self.list.order().len()
                            && self.list.order()[t] == j;
                        assert(self.list.entries()[t] == self.list.slot_entry(j));
                        if t == 0 {
                            assert(before.entries()[p] == before.slot_entry(x));
                            assert(r.contains(x));
                        } else if t - 1 < p {
                            assert(before.entries()[t - 1] == before.slot_entry(r[t - 1]));
                            assert(r.contains(r[t - 1]));
                        } else {
                            assert(before.entries()[t] == before.slot_entry(r[t]));
                            assert(r.contains(r[t]));
                        }
                    }
                }
            }
            i = i + 1;
        }
        buffer.clear();
        proof {
            reveal(LRUState::view);
            assert(buf.take(n as int) =~= buf);
            self.list.lemma_slot_entries();
            lemma_replay_perm(o, buf);
            assert forall|t: int| 0 <= t < self.list.order().len() implies self.list.entries()[t]
                == old(self).view(buf)[t] by {
                assert(self.list.order().contains(self.list.order()[t]));
            }
            assert(self.list.entries() =~= old(self).view(buf));
            assert(replay(self.list.order(), Seq::<usize>::empty()) == self.list.order());
            assert(self.view(buffer@) =~= self.list.entries());
        }
    }
    /// Stores `value` under `key` at instant `now`: the recorded reads are
    /// replayed first; an entry already under the key gets the new value and
    /// expiry, otherwise a full cache first drops its least recently used
    /// entry; either way the entry moves to the front. It expires `ttl`
    /// nanoseconds after `now`.
    pub fn put(&mut self, buffer: &mut Vec<usize>, key: String, value: V, now: i128)
        requires
            old(self).wf(),
            instant_ok(now),
        ensures
            final(self).wf(),
            final(self).capacity() == old(self).capacity(),
            final(self).ttl() == old(self).ttl(),
            final(buffer)@ == Seq::<usize>::empty(),
            final(self).view(final(buffer)@) == lru_put(
                old(self).view(old(buffer)@),
                old(self).capacity(),
                key@,
                value,
                now + old(self).ttl(),
            ),
    {
        self.apply_access_batch(buffer);
        let ghost s0 = self.list.entries();
        proof {
            self.lemma_view_empty();
            self.list.lemma_unique();
            lemma_key_pos(s0, key@);
        }
        let expires_at = now + self.ttl_nanos as i128;
        match self.list.find(key.as_str()) {
            Some(slot) => {
                let ghost p = key_pos(s0, key@);
                self.list.update_to_front(slot, Ghost(p), value, expires_at);
            },
            None => {
                if self.list.len() >= self.capacity {
                    match self.list.tail_slot() {
                        Some(last) => {
                            let ghost p = s0.len() - 1;
                            self.list.remove_at(last, Ghost(p));
                            proof {
                                assert(s0.remove(p) =~= s0.drop_last());
                                assert(!has_key(self.list.entries(), key@)) by {
                                    if has_key(self.list.entries(), key@) {
                                        let i = choose|i: int|
                                            0 <= i < self.list.entries().len()
                                                && self.list.entries()[i].key == key@;
                                        assert(self.list.entries()[i] == s0[i]);
                                    }
                                }
                            }
                        },
                        None => {},
                    }
                }
                self.list.insert_front(key, value, expires_at);
            },
        }
        proof {
            self.lemma_view_empty();
            self.list.lemma_unique();
        }
    }

    /// Records a read of slot `slot` in the access buffer; says whether the
    /// buffer is now due to be replayed.
    pub fn record_access(buffer: &mut Vec<usize>, slot: usize) -> (flush: bool)
        ensures
            final(buffer)@ == old(buffer)@.push(slot),
            flush == (final(buffer)@.len() >= BATCH_SIZE),
    {
        buffer.push(slot);
        buffer.len() >= BATCH_SIZE
    }

    /// Reading the entry in slot `x`, which sits at position `p` of the list,
    /// moves it to the front of the view.
    proof fn lemma_touch_view(&self, buffer: Seq<usize>, x: usize, p: int, key: Seq<char>)
        requires
            self.wf(),
            0 <= p < self.list.order().len(),
            self.list.order()[p] == x,
            self.list.entries()[p].key == key,
        ensures
            self.view(buffer.push(x)) == lru_touch(self.view(buffer), key),
    {
        reveal(LRUState::view);
        let o = self.list.order();
        let r = replay(o, buffer);
        let v = self.view(buffer);
        self.list.lemma_unique();
        self.list.lemma_slot_entries();
        self.lemma_view(buffer);
        lemma_replay_perm(o, buffer);
        assert(buffer.push(x).drop_last() =~= buffer);
        assert(replay(o, buffer.push(x)) == touch(r, x));
        assert(o.contains(x));
        assert(r.contains(x));
        let i = choose|i: int| 0 <= i < r.len() && r[i] == x;
        assert(v[i].key == key);
        lemma_key_pos(v, key);
        assert(key_pos(v, key) == i);
        assert(self.view(buffer.push(x)) =~= seq![v[i]].add(v.remove(i)));
    }

    /// After the entry at position `p` of the list is taken out of it, the
    /// view, with any reads recorded, has lost the entry with that key.
    proof fn lemma_removed_view(before: &Self, after: &Self, p: int, buf: Seq<usize>)
        requires
            before.wf(),
            after.wf(),
            0 <= p < before.list.order().len(),
            after.list.order() == before.list.order().remove(p),
            after.list.entries() == before.list.entries().remove(p),
        ensures
            after.view(buf) == remove_key(before.view(buf), before.list.entries()[p].key),
    {
        reveal(LRUState::view);
        let o = before.list.order();
        let x = o[p];
        let k = before.list.entries()[p].key;
        let keep = |j: usize| j != x;
        let r = replay(o, buf);
        let v = before.view(buf);
        before.list.lemma_unique();
        before.list.lemma_slot_entries();
        after.list.lemma_slot_entries();
        lemma_replay_perm(o, buf);
        lemma_remove_as_filter(o, p);
        assert((|j: usize| j != o[p]) =~= keep);
        lemma_replay_filter(o, buf, keep);
        let r2 = replay(after.list.order(), buf);
        assert(r2 == r.filter(keep));
        assert(o.contains(x));
        assert(r.contains(x));
        let q = choose|q: int| 0 <= q < r.len() && r[q] == x;
        lemma_remove_as_filter(r, q);
        assert((|j: usize| j != r[q]) =~= keep);
        assert(r2 == r.remove(q));
        before.lemma_view(buf);
        assert(v[q].key == k);
        lemma_key_pos(v, k);
        // slots that stay keep their entries
        assert forall|t: int| 0 <= t < r2.len() implies after.list.slot_entry(r2[t])
            == before.list.slot_entry(r2[t]) by {
            lemma_replay_perm(after.list.order(), buf);
            assert(r2.contains(r2[t]));
            assert(after.list.order().contains(r2[t]));
            let i = choose|i: int|
                0 <= i < after.list.order().len() && after.list.order()[i] == r2[t];
            assert(after.list.entries()[i] == after.list.slot_entry(after.list.order()[i]));
            if i < p {
                assert(after.list.order()[i] == o[i]);
                assert(after.list.entries()[i] == before.list.entries()[i]);
                assert(before.list.entries()[i] == before.list.slot_entry(o[i]));
            } else {
                assert(after.list.order()[i] == o[i + 1]);
                assert(after.list.entries()[i] == before.list.entries()[i + 1]);
                assert(before.list.entries()[i + 1] == before.list.slot_entry(o[i + 1]));
            }
        }
        assert(after.view(buf) =~= v.remove(q));
    }

    /// Removes the entry under `key`, if there is one. The recorded reads
    /// stay as they are: the entry leaves the view whatever they are.
    pub fn remove(&mut self, key: &str)
        requires
            old(self).wf(),
        ensures
            final(self).wf(),
            final(self).capacity() == old(self).capacity(),
            final(self).ttl() == old(self).ttl(),
            forall|b: Seq<usize>|
                #![trigger final(self).view(b)]
                final(self).view(b) == remove_key(old(self).view(b), key@),
    {
        let ghost s0 = self.list.entries();
        proof {
            self.list.lemma_unique();
            lemma_key_pos(s0, key@);
        }
        match self.list.find(key) {
            Some(slot) => {
                let ghost p = key_pos(s0, key@);
                self.list.remove_at(slot, Ghost(p));
                proof {
                    assert forall|b: Seq<usize>|
                        self.view(b) == remove_key(old(self).view(b), key@) by {
                        Self::lemma_removed_view(&*old(self), &*self, p, b);
                    }
                }
            },
            None => {
                proof {
                    assert forall|b: Seq<usize>|
                        self.view(b) == remove_key(old(self).view(b), key@) by {
                        self.lemma_view(b);
                    }
                }
            },
        }
    }

    /// Whether an entry has key `key`, expired or not.
    pub fn contains(&self, key: &str) -> (r: bool)
        requires
            self.wf(),
        ensures
            forall|b: Seq<usize>| #![trigger self.view(b)] r == has_key(self.view(b), key@),
    {
        let r = self.list.contains_key(key);
        proof {
            assert forall|b: Seq<usize>| r == has_key(self.view(b), key@) by {
                self.lemma_view(b);
            }
        }
        r
    }

    /// The number of entries, expired ones included.
    pub fn len(&self) -> (n: usize)
        requires
            self.wf(),
        ensures
            forall|b: Seq<usize>| #![trigger self.view(b)] n == self.view(b).len(),
            n <= max_entries(self.capacity()),
    {
        let n = self.list.len();
        proof {
            assert forall|b: Seq<usize>| n == self.view(b).len() by {
                self.lemma_view(b);
            }
        }
        n
    }

    /// Whether there is no entry.
    pub fn is_empty(&self) -> (r: bool)
        requires
            self.wf(),
        ensures
            forall|b: Seq<usize>| #![trigger self.view(b)] r == (self.view(b).len() == 0),
    {
        let n = self.len();
        n == 0
    }

    /// Removes every entry and every recorded read.
    pub fn clear(&mut self, buffer: &mut Vec<usize>)
        requires
            old(self).wf(),
        ensures
            final(self).wf(),
            final(self).capacity() == old(self).capacity(),
            final(self).ttl() == old(self).ttl(),
            final(buffer)@ == Seq::<usize>::empty(),
            final(self).view(final(buffer)@) == Seq::<Entry<V>>::empty(),
    {
        self.list.clear();
        buffer.clear();
        proof {
            self.lemma_view_empty();
        }
    }

    /// Removes every entry that has expired at `now`; the others keep their
    /// recency order. The recorded reads stay as they are.
    pub fn purge_expired(&mut self, now: i128)
        requires
            old(self).wf(),
        ensures
            final(self).wf(),
            final(self).capacity() == old(self).capacity(),
            final(self).ttl() == old(self).ttl(),
            forall|b: Seq<usize>|
                #![trigger final(self).view(b)]
                final(self).view(b) == unexpired(old(self).view(b), now as int),
    {
        self.list.purge_expired(now);
        proof {
            crate::strategy::arena::lemma_unexpired_len(old(self).list.entries(), now as int);
            assert forall|b: Seq<usize>| self.view(b) == unexpired(old(self).view(b), now as int) by {
                Self::lemma_purged_view(&*old(self), &*self, now as int, b);
            }
        }
    }

    /// After the expired entries are taken out of the list, the view, with
    /// any reads recorded, holds the unexpired entries in their order.
    proof fn lemma_purged_view(before: &Self, after: &Self, now: int, buf: Seq<usize>)
        requires
            before.wf(),
            after.wf(),
            after.list.order() == before.list.order().filter(
                |j: usize| !is_expired(before.list.slot_entry(j), now),
            ),
            after.list.entries() == unexpired(before.list.entries(), now),
        ensures
            after.view(buf) == unexpired(before.view(buf), now),
    {
        reveal(LRUState::view);
        let o = before.list.order();
        let f = |j: usize| before.list.slot_entry(j);
        let keep_e = |e: Entry<V>| !is_expired(e, now);
        let keep = |j: usize| keep_e(f(j));
        assert(keep =~= (|j: usize| !is_expired(before.list.slot_entry(j), now)));
        before.list.lemma_unique();
        before.list.lemma_slot_entries();
        after.list.lemma_slot_entries();
        lemma_replay_filter(o, buf, keep);
        let r = replay(o, buf);
        let r2 = replay(after.list.order(), buf);
        assert(r2 == r.filter(keep));
        lemma_map_filter(r, f, keep_e);
        lemma_filter_distinct(o, keep);
        lemma_replay_perm(after.list.order(), buf);
        // slots that stay keep their entries
        assert forall|t: int| 0 <= t < r2.len() implies after.list.slot_entry(r2[t])
            == before.list.slot_entry(r2[t]) by {
            assert(r2.contains(r2[t]));
            let o2 = after.list.order();
            assert(o2.contains(r2[t]));
            let i = choose|i: int| 0 <= i < o2.len() && o2[i] == r2[t];
            assert(after.list.entries()[i] == after.list.slot_entry(o2[i]));
            lemma_map_filter(o, f, keep_e);
            assert(o.map_values(f) =~= before.list.entries());
            assert(o.filter(keep).map_values(f)[i] == f(o2[i]));
        }
        assert(after.view(buf) =~= r.filter(keep).map_values(f));
        assert(r.map_values(f) =~= before.view(buf));
    }
}

/// What a lookup finds under a key.
pub enum Lookup<V> {
    /// An unexpired entry, in the given slot, and a clone of its value.
    Hit(usize, V),
    /// An entry that has expired.
    Expired,
    /// No entry.
    Missing,
}

impl<V: Clone> LRUState<V> {
    /// Looks `key` up at instant `now` without changing anything.
    pub fn lookup(&self, key: &str, now: i128) -> (r: Lookup<V>)
        requires
            self.wf(),
        ensures
            forall|b: Seq<usize>|
                #![trigger self.view(b)]
                match r {
                    Lookup::Hit(slot, v) => {
                        &&& has_fresh(self.view(b), key@, now as int)
                        &&& cloned(self.view(b)[key_pos(self.view(b), key@)].value, v)
                        &&& self.view(b.push(slot)) == lru_touch(self.view(b), key@)
                    },
                    Lookup::Expired => has_key(self.view(b), key@) && !has_fresh(
                        self.view(b),
                        key@,
                        now as int,
                    ),
                    Lookup::Missing => !has_key(self.view(b), key@),
                },
    {
        let ghost s0 = self.list.entries();
        proof {
            self.list.lemma_unique();
            lemma_key_pos(s0, key@);
        }
        match self.list.find(key) {
            Some(slot) => {
                let ghost p = key_pos(s0, key@);
                if self.list.expiry_at(slot, Ghost(p)) > now {
                    let v = self.list.value_at(slot, Ghost(p)).clone();
                    proof {
                        assert forall|b: Seq<usize>|
                            #![trigger self.view(b)]
                            has_fresh(self.view(b), key@, now as int) && cloned(
                                self.view(b)[key_pos(self.view(b), key@)].value,
                                v,
                            ) && self.view(b.push(slot)) == lru_touch(self.view(b), key@) by {
                            self.lemma_view(b);
                            self.lemma_touch_view(b, slot, p, key@);
                        }
                    }
                    Lookup::Hit(slot, v)
                } else {
                    proof {
                        assert forall|b: Seq<usize>| has_key(self.view(b), key@) && !has_fresh(
                            self.view(b),
                            key@,
                            now as int,
                        ) by {
                            self.lemma_view(b);
                        }
                    }
                    Lookup::Expired
                }
            },
            None => {
                proof {
                    assert forall|b: Seq<usize>| !has_key(self.view(b), key@) by {
                        self.lemma_view(b);
                    }
                }
                Lookup::Missing
            },
        }
    }

    /// The value under `key` at instant `now`, cloned, if it has not
    /// expired; the read is recorded, and the buffer replayed when it is
    /// full. An expired entry found on the way is removed.
    #[verifier::rlimit(30)]
    pub fn get(&mut self, buffer: &mut Vec<usize>, key: &str, now: i128) -> (r: Option<V>)
        requires
            old(self).wf(),
        ensures
            final(self).wf(),
            final(self).capacity() == old(self).capacity(),
            final(self).ttl() == old(self).ttl(),
            lookup_outcome(old(self).view(old(buffer)@), key@, now as int, r),
            final(self).view(final(buffer)@) == lru_after_get(
                old(self).view(old(buffer)@),
                key@,
                now as int,
            ),
    {
        let ghost b0 = buffer@;
        let ghost v0 = self.view(b0);
        let found = self.lookup(key, now);
        proof {
            assert(v0 == self.view(b0));
        }
        match found {
            Lookup::Hit(slot, v) => {
                proof {
                    assert(self.view(b0.push(slot)) == lru_touch(v0, key@));
                }
                if Self::record_access(buffer, slot) {
                    self.apply_access_batch(buffer);
                }
                Some(v)
            },
            Lookup::Expired => {
                self.remove(key);
                None
            },
            Lookup::Missing => None,
        }
    }

    /// At instant `now`: the value under `key`, cloned, if it has not
    /// expired; an expired entry is removed instead. The read is not
    /// recorded, and the recorded reads stay as they are.
    pub fn get_or_expire(&mut self, key: &str, now: i128) -> (r: Option<V>)
        requires
            old(self).wf(),
        ensures
            final(self).wf(),
            final(self).capacity() == old(self).capacity(),
            final(self).ttl() == old(self).ttl(),
            forall|b: Seq<usize>|
                #![trigger old(self).view(b)]
                lookup_outcome(old(self).view(b), key@, now as int, r) && final(self).view(b)
                    == drop_if_expired(old(self).view(b), key@, now as int),
    {
        match self.lookup(key, now) {
            Lookup::Hit(slot, v) => Some(v),
            Lookup::Expired => {
                self.remove(key);
                None
            },
            Lookup::Missing => None,
        }
    }
}

/// What the lock of an LRU cache keeps true of the state it guards: it is
/// well formed, with the cache's capacity and time to live.
pub struct LruBounds {
    pub capacity: usize,
    pub ttl_nanos: u128,
}

impl<V> RwLockPredicate<LRUState<V>> for LruBounds {
    open spec fn inv(self, s: LRUState<V>) -> bool {
        &&& s.wf()
        &&& s.capacity() == self.capacity
        &&& s.ttl() == self.ttl_nanos
    }
}

/// The lock of an access buffer keeps nothing in particular true: any slot
/// may be recorded, and slots no longer listed are passed over on replay.
pub struct AnySlots;

impl RwLockPredicate<Vec<usize>> for AnySlots {
    open spec fn inv(self, b: Vec<usize>) -> bool {
        true
    }
}

/// An LRU cache that threads share. Clones share one state and one access
/// buffer, each guarded by a lock; reads take the state's lock for reading
/// only and record the slot they read in the buffer.
pub struct LRUCache<V> {
    capacity: usize,
    ttl: Duration,
    state: Arc<RwLock<LRUState<V>, LruBounds>>,
    access_buffer: Arc<RwLock<Vec<usize>, AnySlots>>,
}

impl<V> LRUCache<V> {
    #[verifier::type_invariant]
    spec fn bounds_match(self) -> bool {
        self.state.pred().capacity == self.capacity
    }

    /// The capacity the cache was made with.
    pub closed spec fn capacity(&self) -> nat {
        self.capacity as nat
    }

    /// The time to live of an entry, in nanoseconds, that the cache was made
    /// with.
    pub closed spec fn ttl_of(&self) -> nat {
        self.state.pred().ttl_nanos as nat
    }

    /// An empty cache of `capacity` entries whose entries live for `ttl`.
    /// The cleaning interval is used by the background cleaner, which runs
    /// outside this type.
    pub fn new(capacity: usize, ttl: Duration, _clean_interval: Duration) -> (c: Self)
        ensures
            c.capacity() == capacity,
            c.ttl_of() == nanos_of(ttl),
    {
        let ttl_nanos = duration_nanos(&ttl);
        let state = LRUState::new(capacity, ttl_nanos);
        let bounds = Ghost(LruBounds { capacity, ttl_nanos });
        let buffer: Vec<usize> = Vec::with_capacity(BATCH_SIZE);
        LRUCache {
            capacity,
            ttl,
            state: Arc::new(RwLock::new(state, bounds)),
            access_buffer: Arc::new(RwLock::new(buffer, Ghost(AnySlots))),
        }
    }

    /// Takes both locks and replays the recorded reads onto the list.
    fn flush(&self)
        where V: Clone
    {
        let (mut s, state_handle) = self.state.acquire_write();
        let (mut b, buffer_handle) = self.access_buffer.acquire_write();
        s.apply_access_batch(&mut b);
        buffer_handle.release_write(b);
        state_handle.release_write(s);
    }
}

impl<V> Clone for LRUCache<V> {
    /// Another handle to the same cache: both share one state and buffer.
    fn clone(&self) -> (c: Self)
        ensures
            c.capacity() == self.capacity(),
            c.ttl_of() == self.ttl_of(),
    {
        proof {
            use_type_invariant(self);
        }
        LRUCache {
            capacity: self.capacity,
            ttl: self.ttl,
            state: share(&self.state),
            access_buffer: share(&self.access_buffer),
        }
    }
}

impl<V: Clone> CacheStrategy<V> for LRUCache<V> {
    open spec fn max_len(&self) -> nat {
        max_entries(self.capacity())
    }

    fn put(&self, key: String, value: V) {
        let now = now_nanos();
        let (mut s, state_handle) = self.state.acquire_write();
        let (mut b, buffer_handle) = self.access_buffer.acquire_write();
        s.put(&mut b, key, value, now);
        buffer_handle.release_write(b);
        state_handle.release_write(s);
    }

    fn get(&self, key: &str) -> Option<V> {
        let now = now_nanos();
        let read_handle = self.state.acquire_read();
        match read_handle.borrow().lookup(key, now) {
            Lookup::Hit(slot, v) => {
                let (mut b, buffer_handle) = self.access_buffer.acquire_write();
                let should_flush = LRUState::<V>::record_access(&mut b, slot);
                buffer_handle.release_write(b);
                read_handle.release_read();
                if should_flush {
                    self.flush();
                }
                return Some(v);
            },
            Lookup::Missing => {
                read_handle.release_read();
                return None;
            },
            Lookup::Expired => {
                read_handle.release_read();
            },
        }
        let now = now_nanos();
        let (mut s, state_handle) = self.state.acquire_write();
        let r = s.get_or_expire(key, now);
        state_handle.release_write(s);
        r
    }

    fn remove(&self, key: &str) {
        let (mut s, state_handle) = self.state.acquire_write();
        s.remove(key);
        state_handle.release_write(s);
    }

    fn contains(&self, key: &str) -> bool {
        let read_handle = self.state.acquire_read();
        let r = read_handle.borrow().contains(key);
        read_handle.release_read();
        r
    }

    fn len(&self) -> (n: usize) {
        proof {
            use_type_invariant(self);
        }
        let read_handle = self.state.acquire_read();
        let n = read_handle.borrow().len();
        read_handle.release_read();
        n
    }

    fn is_empty(&self) -> bool {
        let read_handle = self.state.acquire_read();
        let r = read_handle.borrow().is_empty();
        read_handle.release_read();
        r
    }

    fn clear(&self) {
        let (mut s, state_handle) = self.state.acquire_write();
        let (mut b, buffer_handle) = self.access_buffer.acquire_write();
        s.clear(&mut b);
        buffer_handle.release_write(b);
        state_handle.release_write(s);
    }

    fn purge_expired(&self) {
        let now = now_nanos();
        let (mut s, state_handle) = self.state.acquire_write();
        s.purge_expired(now);
        state_handle.release_write(s);
    }
}

} // verus!
