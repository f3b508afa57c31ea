//! What holds of the caches across calls, proved over the spec functions
//! that the operations' contracts are written in: what a read gives back
//! after a write, which entry a full cache drops, that a cache never grows
//! past its capacity, and what expiry, removal and purging leave.
use vstd::prelude::*;
use crate::strategy::arena::{
    drop_if_expired, has_fresh, has_key, is_expired, key_pos, lemma_key_pos, lookup_outcome,
    remove_key, unexpired, unique_keys, Entry,
};
use crate::strategy::fifo::{fifo_put, max_entries};
use crate::strategy::lfu::{
    bumped, least_frequent, lfu_after_get, lfu_fresh, lfu_lookup_outcome, lfu_put, lfu_unexpired,
    Counted,
};
use crate::strategy::lru::{lru_after_get, lru_put, lru_touch};

verus! {

/// Appending an entry whose key is new keeps the keys distinct.
proof fn lemma_push_unique<V>(s: Seq<Entry<V>>, e: Entry<V>)
    requires
        unique_keys(s),
        !has_key(s, e.key),
    ensures
        unique_keys(s.push(e)),
        has_key(s.push(e), e.key),
        key_pos(s.push(e), e.key) == s.len(),
{
    let t = s.push(e);
    assert(t[s.len() as int].key == e.key);
    lemma_key_pos(t, e.key);
}

/// Putting an entry in front of entries whose keys differ from its key
/// keeps the keys distinct, and puts its key at position 0.
proof fn lemma_prepend_unique<V>(s: Seq<Entry<V>>, e: Entry<V>)
    requires
        unique_keys(s),
        !has_key(s, e.key),
    ensures
        unique_keys(seq![e].add(s)),
        has_key(seq![e].add(s), e.key),
        key_pos(seq![e].add(s), e.key) == 0,
{
    let t = seq![e].add(s);
    assert forall|i: int, j: int| 0 <= i < t.len() && 0 <= j < t.len() && i != j implies t[i].key
        != t[j].key by {
        if i == 0 {
            assert(t[j] == s[j - 1]);
        } else if j == 0 {
            assert(t[i] == s[i - 1]);
        } else {
            assert(t[i] == s[i - 1] && t[j] == s[j - 1]);
        }
    }
    assert(t[0].key == e.key);
    lemma_key_pos(t, e.key);
}

/// Removing position `i` keeps the keys distinct, and drops exactly the key
/// that was there.
proof fn lemma_remove_unique<V>(s: Seq<Entry<V>>, i: int)
    requires
        unique_keys(s),
        0 <= i < s.len(),
    ensures
        unique_keys(s.remove(i)),
        !has_key(s.remove(i), s[i].key),
        forall|k: Seq<char>| k != s[i].key ==> has_key(s.remove(i), k) == has_key(s, k),
{
    let t = s.remove(i);
    assert forall|a: int, b: int| 0 <= a < t.len() && 0 <= b < t.len() && a != b implies t[a].key
        != t[b].key by {
        let qa = if a < i {
            a
        } else {
            a + 1
        };
        let qb = if b < i {
            b
        } else {
            b + 1
        };
        assert(t[a] == s[qa] && t[b] == s[qb]);
    }
    assert(!has_key(t, s[i].key)) by {
        if has_key(t, s[i].key) {
            let a = choose|a: int| 0 <= a < t.len() && t[a].key == s[i].key;
            let qa = if a < i {
                a
            } else {
                a + 1
            };
            assert(t[a] == s[qa]);
        }
    }
    assert forall|k: Seq<char>| k != s[i].key implies has_key(t, k) == has_key(s, k) by {
        if has_key(s, k) {
            let q = choose|q: int| 0 <= q < s.len() && s[q].key == k;
            if q < i {
                assert(t[q] == s[q]);
            } else {
                assert(q != i);
                assert(t[q - 1] == s[q]);
            }
        }
        if has_key(t, k) {
            let a = choose|a: int| 0 <= a < t.len() && t[a].key == k;
            let qa = if a < i {
                a
            } else {
                a + 1
            };
            assert(t[a] == s[qa]);
        }
    }
}

/// FIFO: reading a key that was new when it was put, before its entry
/// expires, gives back (a clone of) the value put; the keys stay distinct.
pub proof fn fifo_get_after_put<V: Clone>(
    s: Seq<Entry<V>>,
    capacity: nat,
    k: Seq<char>,
    v: V,
    expires_at: int,
    now: int,
    r: Option<V>,
)
    requires
        unique_keys(s),
        !has_key(s, k),
        now < expires_at,
        lookup_outcome(fifo_put(s, capacity, k, v, expires_at), k, now, r),
    ensures
        unique_keys(fifo_put(s, capacity, k, v, expires_at)),
        r is Some && cloned(v, r->0),
{
    let e = Entry { key: k, value: v, expires_at };
    let kept = if s.len() >= capacity && s.len() > 0 {
        s.drop_first()
    } else {
        s
    };
    if s.len() >= capacity && s.len() > 0 {
        assert(s.drop_first() =~= s.remove(0));
        lemma_remove_unique(s, 0);
    }
    lemma_push_unique(kept, e);
}

/// FIFO: putting a key that is already there changes nothing; its first
/// value stays.
pub proof fn fifo_put_keeps_existing<V>(
    s: Seq<Entry<V>>,
    capacity: nat,
    k: Seq<char>,
    v: V,
    expires_at: int,
)
    requires
        has_key(s, k),
    ensures
        fifo_put(s, capacity, k, v, expires_at) == s,
{
}

/// FIFO: a full cache that takes a new key drops its oldest entry; every
/// other entry stays, in order, and the new one comes last.
pub proof fn fifo_evicts_oldest<V>(
    s: Seq<Entry<V>>,
    capacity: nat,
    k: Seq<char>,
    v: V,
    expires_at: int,
)
    requires
        unique_keys(s),
        !has_key(s, k),
        s.len() >= capacity,
        s.len() > 0,
    ensures
        ({
            let t = fifo_put(s, capacity, k, v, expires_at);
            &&& t.len() == s.len()
            &&& !has_key(t, s[0].key)
            &&& forall|i: int| 1 <= i < s.len() ==> #[trigger] t[i - 1] == s[i]
            &&& t[t.len() - 1] == Entry { key: k, value: v, expires_at }
        }),
{
    let t = fifo_put(s, capacity, k, v, expires_at);
    assert(!has_key(t, s[0].key)) by {
        if has_key(t, s[0].key) {
            let a = choose|a: int| 0 <= a < t.len() && t[a].key == s[0].key;
            if a < t.len() - 1 {
                assert(t[a] == s[a + 1]);
            } else {
                assert(has_key(s, k)) by {
                    assert(s[0].key == k);
                }
            }
        }
    }
}

/// FIFO: a put never takes the cache past `max_entries(capacity)`.
pub proof fn fifo_put_bounded<V>(
    s: Seq<Entry<V>>,
    capacity: nat,
    k: Seq<char>,
    v: V,
    expires_at: int,
)
    requires
        s.len() <= max_entries(capacity),
    ensures
        fifo_put(s, capacity, k, v, expires_at).len() <= max_entries(capacity),
{
}

/// A lookup of an expired entry gives back nothing, and the entry is gone
/// afterwards; the other keys stay.
pub proof fn expired_entry_is_dropped<V: Clone>(s: Seq<Entry<V>>, k: Seq<char>, now: int, r: Option<V>)
    requires
        unique_keys(s),
        has_key(s, k),
        is_expired(s[key_pos(s, k)], now),
        lookup_outcome(s, k, now, r),
    ensures
        r is None,
        !has_key(drop_if_expired(s, k, now), k),
        forall|j: Seq<char>| j != k ==> has_key(drop_if_expired(s, k, now), j) == has_key(s, j),
{
    lemma_key_pos(s, k);
    lemma_remove_unique(s, key_pos(s, k));
}

/// After a removal the key is gone and every other key stays.
pub proof fn remove_drops_only_the_key<V>(s: Seq<Entry<V>>, k: Seq<char>)
    requires
        unique_keys(s),
    ensures
        unique_keys(remove_key(s, k)),
        !has_key(remove_key(s, k), k),
        forall|j: Seq<char>| j != k ==> has_key(remove_key(s, k), j) == has_key(s, j),
{
    lemma_key_pos(s, k);
    if has_key(s, k) {
        lemma_remove_unique(s, key_pos(s, k));
    }
}

/// A lookup right after a removal finds nothing.
pub proof fn get_after_remove_is_none<V: Clone>(s: Seq<Entry<V>>, k: Seq<char>, now: int, r: Option<V>)
    requires
        unique_keys(s),
        lookup_outcome(remove_key(s, k), k, now, r),
    ensures
        r is None,
{
    remove_drops_only_the_key(s, k);
}

/// Purging at `now` leaves exactly the entries that have not expired, in
/// their order.
pub proof fn purge_keeps_exactly_unexpired<V>(s: Seq<Entry<V>>, now: int)
    ensures
        forall|i: int|
            0 <= i < unexpired(s, now).len() ==> !is_expired(#[trigger] unexpired(s, now)[i], now),
        forall|i: int|
            0 <= i < s.len() && !is_expired(s[i], now) ==> #[trigger] unexpired(s, now).contains(
                s[i],
            ),
{
    let keep = |e: Entry<V>| !is_expired(e, now);
    assert forall|i: int| 0 <= i < unexpired(s, now).len() implies !is_expired(
        #[trigger] unexpired(s, now)[i],
        now,
    ) by {
        s.lemma_filter_pred(keep, i);
    }
    assert forall|i: int| 0 <= i < s.len() && !is_expired(s[i], now) implies #[trigger] unexpired(
        s,
        now,
    ).contains(s[i]) by {
        s.lemma_filter_contains(keep, i);
    }
}

/// LRU: reading a key right after putting it, before its entry expires,
/// gives back (a clone of) the value put, whether the key was new or not;
/// the entry is the most recently used and the keys stay distinct.
pub proof fn lru_get_after_put<V: Clone>(
    s: Seq<Entry<V>>,
    capacity: nat,
    k: Seq<char>,
    v: V,
    expires_at: int,
    now: int,
    r: Option<V>,
)
    requires
        unique_keys(s),
        now < expires_at,
        lookup_outcome(lru_put(s, capacity, k, v, expires_at), k, now, r),
    ensures
        unique_keys(lru_put(s, capacity, k, v, expires_at)),
        lru_put(s, capacity, k, v, expires_at)[0].key == k,
        r is Some && cloned(v, r->0),
{
    let e = Entry { key: k, value: v, expires_at };
    lemma_key_pos(s, k);
    if has_key(s, k) {
        lemma_remove_unique(s, key_pos(s, k));
        lemma_prepend_unique(s.remove(key_pos(s, k)), e);
    } else if s.len() >= capacity && s.len() > 0 {
        assert(s.drop_last() =~= s.remove(s.len() - 1));
        lemma_remove_unique(s, s.len() - 1);
        lemma_prepend_unique(s.drop_last(), e);
    } else {
        lemma_prepend_unique(s, e);
    }
}

/// LRU: a full cache that takes a new key drops its least recently used
/// entry, the last; the others stay, in order, behind the new one.
pub proof fn lru_evicts_least_recent<V>(
    s: Seq<Entry<V>>,
    capacity: nat,
    k: Seq<char>,
    v: V,
    expires_at: int,
)
    requires
        unique_keys(s),
        !has_key(s, k),
        s.len() >= capacity,
        s.len() > 0,
    ensures
        ({
            let t = lru_put(s, capacity, k, v, expires_at);
            &&& t.len() == s.len()
            &&& !has_key(t, s[s.len() - 1].key)
            &&& t[0] == Entry { key: k, value: v, expires_at }
            &&& forall|i: int| 0 <= i < s.len() - 1 ==> #[trigger] t[i + 1] == s[i]
        }),
{
    let t = lru_put(s, capacity, k, v, expires_at);
    let last = s[s.len() - 1].key;
    assert(!has_key(t, last)) by {
        if has_key(t, last) {
            let a = choose|a: int| 0 <= a < t.len() && t[a].key == last;
            if a == 0 {
                assert(has_key(s, k));
            } else {
                assert(t[a] == s[a - 1]);
            }
        }
    }
}

/// LRU: reading an unexpired entry makes it the most recently used; the
/// others keep their order and nothing is dropped.
pub proof fn lru_read_refreshes<V>(s: Seq<Entry<V>>, k: Seq<char>, now: int)
    requires
        unique_keys(s),
        has_fresh(s, k, now),
    ensures
        lru_after_get(s, k, now).len() == s.len(),
        lru_after_get(s, k, now)[0] == s[key_pos(s, k)],
        lru_after_get(s, k, now) == lru_touch(s, k),
        forall|j: Seq<char>| has_key(lru_after_get(s, k, now), j) == has_key(s, j),
{
    lemma_key_pos(s, k);
    let p = key_pos(s, k);
    lemma_remove_unique(s, p);
    let t = lru_after_get(s, k, now);
    assert forall|j: Seq<char>| has_key(t, j) == has_key(s, j) by {
        if j != k {
            if has_key(s.remove(p), j) {
                let a = choose|a: int| 0 <= a < s.remove(p).len() && s.remove(p)[a].key == j;
                assert(t[a + 1] == s.remove(p)[a]);
            }
            if has_key(t, j) {
                let a = choose|a: int| 0 <= a < t.len() && t[a].key == j;
                assert(a != 0);
                assert(t[a] == s.remove(p)[a - 1]);
            }
        } else {
            assert(t[0].key == k);
        }
    }
}

/// One operation on a cache state, with the instant it runs at.
pub enum CacheOp<V> {
    /// `put(key, value)` at `now`.
    Put { key: Seq<char>, value: V, now: int },
    /// `get(key)` at `now`.
    Get { key: Seq<char>, now: int },
    /// `remove(key)`.
    Remove { key: Seq<char> },
    /// `purge_expired()` at `now`.
    Purge { now: int },
}

/// The entries after one operation, as the state functions' contracts give
/// them, in a cache of capacity `capacity` whose entries live for `ttl`.
pub open spec fn lru_step<V>(s: Seq<Entry<V>>, capacity: nat, ttl: nat, op: CacheOp<V>) -> Seq<Entry<V>> {
    match op {
        CacheOp::Put { key, value, now } => lru_put(s, capacity, key, value, now + ttl),
        CacheOp::Get { key, now } => lru_after_get(s, key, now),
        CacheOp::Remove { key } => remove_key(s, key),
        CacheOp::Purge { now } => unexpired(s, now),
    }
}

/// The entries after the operations `ops`, in order.
pub open spec fn lru_run<V>(s: Seq<Entry<V>>, capacity: nat, ttl: nat, ops: Seq<CacheOp<V>>) -> Seq<Entry<V>>
    decreases ops.len(),
{
    if ops.len() == 0 {
        s
    } else {
        lru_step(lru_run(s, capacity, ttl, ops.drop_last()), capacity, ttl, ops.last())
    }
}

/// Whether `op` puts key `k`.
pub open spec fn puts_key<V>(op: CacheOp<V>, k: Seq<char>) -> bool {
    op matches CacheOp::Put { key, .. } && key == k
}

/// If `t` holds an entry with key `k`, it is the entry that `s` held under
/// that key.
pub open spec fn keeps_entry<V>(s: Seq<Entry<V>>, t: Seq<Entry<V>>, k: Seq<char>) -> bool {
    has_key(t, k) ==> has_key(s, k) && t[key_pos(t, k)] == s[key_pos(s, k)]
}

/// Entries with key `k` that all come from `s` leave the entry of `k` as
/// `s` held it.
proof fn lemma_sub_keeps<V>(s: Seq<Entry<V>>, t: Seq<Entry<V>>, k: Seq<char>)
    requires
        unique_keys(s),
        forall|i: int| 0 <= i < t.len() && (#[trigger] t[i]).key == k ==> s.contains(t[i]),
    ensures
        keeps_entry(s, t, k),
{
    if has_key(t, k) {
        let p = key_pos(t, k);
        assert(0 <= p < t.len() && t[p].key == k);
        assert(s.contains(t[p]));
        let q = choose|q: int| 0 <= q < s.len() && s[q] == t[p];
        assert(s[q].key == k);
        lemma_key_pos(s, k);
    }
}

/// Every entry after a removal was there before.
proof fn lemma_remove_sub<V>(s: Seq<Entry<V>>, i: int)
    requires
        0 <= i < s.len(),
    ensures
        forall|a: int| 0 <= a < s.remove(i).len() ==> s.contains(#[trigger] s.remove(i)[a]),
{
    assert forall|a: int| 0 <= a < s.remove(i).len() implies s.contains(#[trigger] s.remove(i)[a]) by {
        if a < i {
            assert(s.remove(i)[a] == s[a]);
        } else {
            assert(s.remove(i)[a] == s[a + 1]);
        }
    }
}

/// Filtering keeps the keys distinct, and keeps only entries that were
/// there.
proof fn lemma_filter_unique<V>(s: Seq<Entry<V>>, keep: spec_fn(Entry<V>) -> bool)
    requires
        unique_keys(s),
    ensures
        unique_keys(s.filter(keep)),
        forall|a: int| 0 <= a < s.filter(keep).len() ==> s.contains(#[trigger] s.filter(keep)[a]),
    decreases s.len(),
{
    if s.len() == 0 {
        assert(s.filter(keep).len() == 0) by {
            s.lemma_filter_len(keep);
        }
    } else {
        let d = s.drop_last();
        let x = s.last();
        assert(s == d.push(x));
        assert(unique_keys(d)) by {
            assert forall|a: int, b: int| 0 <= a < d.len() && 0 <= b < d.len() && a != b implies d[a].key
                != d[b].key by {
                assert(d[a] == s[a] && d[b] == s[b]);
            }
        }
        lemma_filter_unique(d, keep);
        d.lemma_filter_push(x, keep);
        let f = d.filter(keep);
        assert forall|a: int| 0 <= a < f.len() implies (#[trigger] f[a]).key != x.key by {
            assert(d.contains(f[a]));
            let q = choose|q: int| 0 <= q < d.len() && d[q] == f[a];
            assert(s[q] == d[q]);
            assert(s[s.len() - 1] == x);
        }
        assert forall|a: int| 0 <= a < f.len() implies s.contains(#[trigger] f[a]) by {
            assert(d.contains(f[a]));
            let q = choose|q: int| 0 <= q < d.len() && d[q] == f[a];
            assert(s[q] == d[q]);
        }
        if keep(x) {
            let g = f.push(x);
            assert forall|a: int, b: int| 0 <= a < g.len() && 0 <= b < g.len() && a != b implies g[a].key
                != g[b].key by {
                if a < f.len() && b < f.len() {
                    assert(g[a] == f[a] && g[b] == f[b]);
                } else if a < f.len() {
                    assert(g[a] == f[a] && g[b] == x);
                } else {
                    assert(g[b] == f[b] && g[a] == x);
                }
            }
            assert forall|a: int| 0 <= a < g.len() implies s.contains(#[trigger] g[a]) by {
                if a < f.len() {
                    assert(g[a] == f[a]);
                } else {
                    assert(s[s.len() - 1] == x);
                }
            }
        }
    }
}

/// One operation other than a put of `k` keeps the keys distinct, and any
/// entry it leaves under `k` was there before.
proof fn lemma_step_keeps<V>(s: Seq<Entry<V>>, capacity: nat, ttl: nat, op: CacheOp<V>, k: Seq<char>)
    requires
        unique_keys(s),
        !puts_key(op, k),
    ensures
        unique_keys(lru_step(s, capacity, ttl, op)),
        keeps_entry(s, lru_step(s, capacity, ttl, op), k),
{
    let t = lru_step(s, capacity, ttl, op);
    match op {
        CacheOp::Put { key, value, now } => {
            let e = Entry { key, value, expires_at: now + ttl };
            lemma_key_pos(s, key);
            let rest = if has_key(s, key) {
                s.remove(key_pos(s, key))
            } else if s.len() >= capacity && s.len() > 0 {
                s.drop_last()
            } else {
                s
            };
            if has_key(s, key) {
                lemma_remove_unique(s, key_pos(s, key));
                lemma_remove_sub(s, key_pos(s, key));
            } else if s.len() >= capacity && s.len() > 0 {
                assert(s.drop_last() =~= s.remove(s.len() - 1));
                lemma_remove_unique(s, s.len() - 1);
                lemma_remove_sub(s, s.len() - 1);
            }
            lemma_prepend_unique(rest, e);
            assert(t == seq![e].add(rest));
            assert forall|i: int| 0 <= i < t.len() && (#[trigger] t[i]).key == k implies s.contains(
                t[i],
            ) by {
                assert(i != 0);
                assert(t[i] == rest[i - 1]);
            }
            lemma_sub_keeps(s, t, k);
        },
        CacheOp::Get { key, now } => {
            lemma_key_pos(s, key);
            if has_key(s, key) {
                let p = key_pos(s, key);
                lemma_remove_unique(s, p);
                lemma_remove_sub(s, p);
                if has_fresh(s, key, now) {
                    lemma_prepend_unique(s.remove(p), s[p]);
                    assert(t == seq![s[p]].add(s.remove(p)));
                    assert forall|i: int| 0 <= i < t.len() && (#[trigger] t[i]).key == k implies s.contains(
                        t[i],
                    ) by {
                        if i > 0 {
                            assert(t[i] == s.remove(p)[i - 1]);
                        }
                    }
                } else {
                    assert(t == s.remove(p));
                }
            } else {
                assert(t == s);
                assert forall|i: int| 0 <= i < t.len() && (#[trigger] t[i]).key == k implies s.contains(
                    t[i],
                ) by {
                    assert(t[i] == s[i]);
                }
            }
            lemma_sub_keeps(s, t, k);
        },
        CacheOp::Remove { key } => {
            lemma_key_pos(s, key);
            remove_drops_only_the_key(s, key);
            if has_key(s, key) {
                lemma_remove_sub(s, key_pos(s, key));
            } else {
                assert forall|i: int| 0 <= i < t.len() && (#[trigger] t[i]).key == k implies s.contains(
                    t[i],
                ) by {
                    assert(t[i] == s[i]);
                }
            }
            lemma_sub_keeps(s, t, k);
        },
        CacheOp::Purge { now } => {
            lemma_filter_unique(s, |e: Entry<V>| !is_expired(e, now));
            lemma_sub_keeps(s, t, k);
        },
    }
}

/// LRU: over any run of operations in which `k` is not put again, the
/// keys stay distinct, and whenever `k` is still held its entry is the one
/// it had at the start, expiry included. Reads of `k`, hits or not, never
/// extend that expiry.
pub proof fn lru_entry_kept_until_put<V>(
    s: Seq<Entry<V>>,
    capacity: nat,
    ttl: nat,
    ops: Seq<CacheOp<V>>,
    k: Seq<char>,
)
    requires
        unique_keys(s),
        forall|i: int| 0 <= i < ops.len() ==> !puts_key(#[trigger] ops[i], k),
    ensures
        unique_keys(lru_run(s, capacity, ttl, ops)),
        keeps_entry(s, lru_run(s, capacity, ttl, ops), k),
    decreases ops.len(),
{
    if ops.len() > 0 {
        let d = ops.drop_last();
        assert forall|i: int| 0 <= i < d.len() implies !puts_key(#[trigger] d[i], k) by {
            assert(d[i] == ops[i]);
        }
        lru_entry_kept_until_put(s, capacity, ttl, d, k);
        let prev = lru_run(s, capacity, ttl, d);
        assert(!puts_key(ops[ops.len() - 1], k));
        lemma_step_keeps(prev, capacity, ttl, ops.last(), k);
    }
}

/// LRU: after a put of `k` whose entry expires at `e`, and any run of
/// operations that does not put `k` again (reads of `k` included), a read
/// of `k` at or after `e` finds nothing.
pub proof fn lru_expiry_not_extended<V: Clone>(
    s: Seq<Entry<V>>,
    capacity: nat,
    ttl: nat,
    ops: Seq<CacheOp<V>>,
    k: Seq<char>,
    later: int,
    r: Option<V>,
)
    requires
        unique_keys(s),
        has_key(s, k),
        forall|i: int| 0 <= i < ops.len() ==> !puts_key(#[trigger] ops[i], k),
        later >= s[key_pos(s, k)].expires_at,
        lookup_outcome(lru_run(s, capacity, ttl, ops), k, later, r),
    ensures
        r is None,
{
    lru_entry_kept_until_put(s, capacity, ttl, ops, k);
}

/// LRU: after `put(k, v)` at `now`, and any run of operations that does not
/// put `k` again, a read of `k` before the entry expires gives back (a clone
/// of) `v` if the entry is still held (it was not evicted, removed or
/// purged), and nothing otherwise.
pub proof fn lru_read_after_write<V: Clone>(
    s: Seq<Entry<V>>,
    capacity: nat,
    ttl: nat,
    k: Seq<char>,
    v: V,
    now: int,
    ops: Seq<CacheOp<V>>,
    later: int,
    r: Option<V>,
)
    requires
        unique_keys(s),
        forall|i: int| 0 <= i < ops.len() ==> !puts_key(#[trigger] ops[i], k),
        later < now + ttl,
        lookup_outcome(
            lru_run(lru_put(s, capacity, k, v, now + ttl), capacity, ttl, ops),
            k,
            later,
            r,
        ),
    ensures
        r is Some <==> has_key(
            lru_run(lru_put(s, capacity, k, v, now + ttl), capacity, ttl, ops),
            k,
        ),
        r is Some ==> cloned(v, r->0),
{
    let p = lru_put(s, capacity, k, v, now + ttl);
    let e = Entry { key: k, value: v, expires_at: now + ttl };
    lemma_key_pos(s, k);
    if has_key(s, k) {
        lemma_remove_unique(s, key_pos(s, k));
        lemma_prepend_unique(s.remove(key_pos(s, k)), e);
    } else if s.len() >= capacity && s.len() > 0 {
        assert(s.drop_last() =~= s.remove(s.len() - 1));
        lemma_remove_unique(s, s.len() - 1);
        lemma_prepend_unique(s.drop_last(), e);
    } else {
        lemma_prepend_unique(s, e);
    }
    lemma_key_pos(p, k);
    assert(p[0].key == k);
    lru_entry_kept_until_put(p, capacity, ttl, ops, k);
}

/// The entries of a FIFO cache after one operation, as the state
/// functions' contracts give them.
pub open spec fn fifo_step<V>(s: Seq<Entry<V>>, capacity: nat, ttl: nat, op: CacheOp<V>) -> Seq<Entry<V>> {
    match op {
        CacheOp::Put { key, value, now } => fifo_put(s, capacity, key, value, now + ttl),
        CacheOp::Get { key, now } => drop_if_expired(s, key, now),
        CacheOp::Remove { key } => remove_key(s, key),
        CacheOp::Purge { now } => unexpired(s, now),
    }
}

/// The entries of a FIFO cache after the operations `ops`, in order.
pub open spec fn fifo_run<V>(s: Seq<Entry<V>>, capacity: nat, ttl: nat, ops: Seq<CacheOp<V>>) -> Seq<Entry<V>>
    decreases ops.len(),
{
    if ops.len() == 0 {
        s
    } else {
        fifo_step(fifo_run(s, capacity, ttl, ops.drop_last()), capacity, ttl, ops.last())
    }
}

/// One FIFO operation other than a put of `k` keeps the keys distinct, and
/// any entry it leaves under `k` was there before.
proof fn lemma_fifo_step_keeps<V>(s: Seq<Entry<V>>, capacity: nat, ttl: nat, op: CacheOp<V>, k: Seq<char>)
    requires
        unique_keys(s),
        !puts_key(op, k),
    ensures
        unique_keys(fifo_step(s, capacity, ttl, op)),
        keeps_entry(s, fifo_step(s, capacity, ttl, op), k),
{
    let t = fifo_step(s, capacity, ttl, op);
    match op {
        CacheOp::Put { key, value, now } => {
            let e = Entry { key, value, expires_at: now + ttl };
            if has_key(s, key) {
                assert(t == s);
                assert forall|i: int| 0 <= i < t.len() && (#[trigger] t[i]).key == k implies s.contains(
                    t[i],
                ) by {
                    assert(t[i] == s[i]);
                }
            } else {
                let kept = if s.len() >= capacity && s.len() > 0 {
                    s.drop_first()
                } else {
                    s
                };
                if s.len() >= capacity && s.len() > 0 {
                    assert(s.drop_first() =~= s.remove(0));
                    lemma_remove_unique(s, 0);
                    lemma_remove_sub(s, 0);
                } else {
                    assert forall|a: int| 0 <= a < kept.len() implies s.contains(#[trigger] kept[a]) by {
                        assert(kept[a] == s[a]);
                    }
                }
                assert(!has_key(kept, key)) by {
                    if has_key(kept, key) {
                        let a = choose|a: int| 0 <= a < kept.len() && kept[a].key == key;
                        assert(s.contains(kept[a]));
                    }
                }
                lemma_push_unique(kept, e);
                assert(t == kept.push(e));
                assert forall|i: int| 0 <= i < t.len() && (#[trigger] t[i]).key == k implies s.contains(
                    t[i],
                ) by {
                    assert(i < kept.len());
                    assert(t[i] == kept[i]);
                }
            }
            lemma_sub_keeps(s, t, k);
        },
        CacheOp::Get { key, now } => {
            lemma_key_pos(s, key);
            if has_key(s, key) && is_expired(s[key_pos(s, key)], now) {
                lemma_remove_unique(s, key_pos(s, key));
                lemma_remove_sub(s, key_pos(s, key));
            } else {
                assert(t == s);
                assert forall|i: int| 0 <= i < t.len() && (#[trigger] t[i]).key == k implies s.contains(
                    t[i],
                ) by {
                    assert(t[i] == s[i]);
                }
            }
            lemma_sub_keeps(s, t, k);
        },
        CacheOp::Remove { key } => {
            lemma_key_pos(s, key);
            remove_drops_only_the_key(s, key);
            if has_key(s, key) {
                lemma_remove_sub(s, key_pos(s, key));
            } else {
                assert forall|i: int| 0 <= i < t.len() && (#[trigger] t[i]).key == k implies s.contains(
                    t[i],
                ) by {
                    assert(t[i] == s[i]);
                }
            }
            lemma_sub_keeps(s, t, k);
        },
        CacheOp::Purge { now } => {
            lemma_filter_unique(s, |e: Entry<V>| !is_expired(e, now));
            lemma_sub_keeps(s, t, k);
        },
    }
}

/// FIFO: over any run of operations in which `k` is not put again, the
/// keys stay distinct, and whenever `k` is still held its entry is the one
/// it had at the start.
pub proof fn fifo_entry_kept_until_put<V>(
    s: Seq<Entry<V>>,
    capacity: nat,
    ttl: nat,
    ops: Seq<CacheOp<V>>,
    k: Seq<char>,
)
    requires
        unique_keys(s),
        forall|i: int| 0 <= i < ops.len() ==> !puts_key(#[trigger] ops[i], k),
    ensures
        unique_keys(fifo_run(s, capacity, ttl, ops)),
        keeps_entry(s, fifo_run(s, capacity, ttl, ops), k),
    decreases ops.len(),
{
    if ops.len() > 0 {
        let d = ops.drop_last();
        assert forall|i: int| 0 <= i < d.len() implies !puts_key(#[trigger] d[i], k) by {
            assert(d[i] == ops[i]);
        }
        fifo_entry_kept_until_put(s, capacity, ttl, d, k);
        assert(!puts_key(ops[ops.len() - 1], k));
        lemma_fifo_step_keeps(fifo_run(s, capacity, ttl, d), capacity, ttl, ops.last(), k);
    }
}

/// FIFO: after a put of a new key `k` with `v` at `now`, and any run of
/// operations that does not put `k` again, a read of `k` before the entry
/// expires gives back (a clone of) `v` if the entry is still held, and
/// nothing otherwise.
pub proof fn fifo_read_after_write<V: Clone>(
    s: Seq<Entry<V>>,
    capacity: nat,
    ttl: nat,
    k: Seq<char>,
    v: V,
    now: int,
    ops: Seq<CacheOp<V>>,
    later: int,
    r: Option<V>,
)
    requires
        unique_keys(s),
        !has_key(s, k),
        forall|i: int| 0 <= i < ops.len() ==> !puts_key(#[trigger] ops[i], k),
        later < now + ttl,
        lookup_outcome(
            fifo_run(fifo_put(s, capacity, k, v, now + ttl), capacity, ttl, ops),
            k,
            later,
            r,
        ),
    ensures
        r is Some <==> has_key(
            fifo_run(fifo_put(s, capacity, k, v, now + ttl), capacity, ttl, ops),
            k,
        ),
        r is Some ==> cloned(v, r->0),
{
    let p = fifo_put(s, capacity, k, v, now + ttl);
    let e = Entry { key: k, value: v, expires_at: now + ttl };
    let kept = if s.len() >= capacity && s.len() > 0 {
        s.drop_first()
    } else {
        s
    };
    if s.len() >= capacity && s.len() > 0 {
        assert(s.drop_first() =~= s.remove(0));
        lemma_remove_unique(s, 0);
    }
    assert(!has_key(kept, k)) by {
        if has_key(kept, k) {
            let a = choose|a: int| 0 <= a < kept.len() && kept[a].key == k;
            if s.len() >= capacity && s.len() > 0 {
                assert(kept[a] == s[a + 1]);
            } else {
                assert(kept[a] == s[a]);
            }
        }
    }
    lemma_push_unique(kept, e);
    lemma_key_pos(p, k);
    fifo_entry_kept_until_put(p, capacity, ttl, ops, k);
}

/// LRU: a put never takes the cache past `max_entries(capacity)`.
pub proof fn lru_put_bounded<V>(
    s: Seq<Entry<V>>,
    capacity: nat,
    k: Seq<char>,
    v: V,
    expires_at: int,
)
    requires
        unique_keys(s),
        s.len() <= max_entries(capacity),
    ensures
        lru_put(s, capacity, k, v, expires_at).len() <= max_entries(capacity),
{
    lemma_key_pos(s, k);
}

/// LFU: reading a key right after putting it, before its entry expires,
/// gives back (a clone of) the value put, whether the key was new or not.
pub proof fn lfu_get_after_put<V: Clone>(
    before: Map<Seq<char>, Counted<V>>,
    capacity: nat,
    k: Seq<char>,
    v: V,
    expires_at: int,
    after: Map<Seq<char>, Counted<V>>,
    now: int,
    r: Option<V>,
)
    requires
        lfu_put(before, capacity, k, v, expires_at, after),
        now < expires_at,
        lfu_lookup_outcome(after, k, now, r),
    ensures
        lfu_fresh(after, k, now),
        after[k].value == v,
        r is Some && cloned(v, r->0),
{
    if !before.contains_key(k) && before.len() >= capacity && before.len() > 0 {
        let victim = choose|victim: Seq<char>|
            least_frequent(before, victim) && after == before.remove(victim).insert(
                k,
                Counted { value: v, expires_at, frequency: 1 },
            );
    }
}

/// LFU: a full cache that takes a new key drops one entry, of the lowest
/// read count; every other entry stays as it was, and the new one comes in
/// with a count of one.
pub proof fn lfu_evicts_least_frequent<V>(
    before: Map<Seq<char>, Counted<V>>,
    capacity: nat,
    k: Seq<char>,
    v: V,
    expires_at: int,
    after: Map<Seq<char>, Counted<V>>,
)
    requires
        before.dom().finite(),
        !before.contains_key(k),
        before.len() >= capacity,
        before.len() > 0,
        lfu_put(before, capacity, k, v, expires_at, after),
    ensures
        after.len() == before.len(),
        after[k].frequency == 1,
        exists|victim: Seq<char>|
            {
                &&& least_frequent(before, victim)
                &&& !after.contains_key(victim)
                &&& forall|j: Seq<char>|
                    j != victim && #[trigger] before.contains_key(j) ==> after.contains_key(j)
                        && after[j] == before[j]
            },
{
    let victim = choose|victim: Seq<char>|
        least_frequent(before, victim) && after == before.remove(victim).insert(
            k,
            Counted { value: v, expires_at, frequency: 1 },
        );
    assert(before.remove(victim).len() == before.len() - 1);
    assert(victim != k);
}

/// LFU: reading an unexpired entry counts one more read of it and changes
/// nothing else.
pub proof fn lfu_read_counts<V>(m: Map<Seq<char>, Counted<V>>, k: Seq<char>, now: int)
    requires
        lfu_fresh(m, k, now),
    ensures
        lfu_after_get(m, k, now)[k].frequency == bumped(m[k].frequency),
        lfu_after_get(m, k, now)[k].value == m[k].value,
        lfu_after_get(m, k, now).dom() == m.dom(),
        forall|j: Seq<char>| j != k && #[trigger] m.contains_key(j) ==> lfu_after_get(m, k, now)[j] == m[j],
{
    assert(lfu_after_get(m, k, now).dom() =~= m.dom());
}

/// LFU: a put never takes the cache past `max_entries(capacity)`.
pub proof fn lfu_put_bounded<V>(
    before: Map<Seq<char>, Counted<V>>,
    capacity: nat,
    k: Seq<char>,
    v: V,
    expires_at: int,
    after: Map<Seq<char>, Counted<V>>,
)
    requires
        before.dom().finite(),
        before.len() <= max_entries(capacity),
        lfu_put(before, capacity, k, v, expires_at, after),
    ensures
        after.dom().finite(),
        after.len() <= max_entries(capacity),
{
    if before.contains_key(k) {
    } else if before.len() >= capacity && before.len() > 0 {
        let victim = choose|victim: Seq<char>|
            least_frequent(before, victim) && after == before.remove(victim).insert(
                k,
                Counted { value: v, expires_at, frequency: 1 },
            );
        assert(victim != k);
    }
}

/// LFU: purging at `now` keeps exactly the entries that have not expired,
/// unchanged.
pub proof fn lfu_purge_keeps_exactly_unexpired<V>(m: Map<Seq<char>, Counted<V>>, now: int)
    ensures
        forall|k: Seq<char>|
            #[trigger] lfu_unexpired(m, now).contains_key(k) <==> lfu_fresh(m, k, now),
        forall|k: Seq<char>|
            #[trigger] lfu_unexpired(m, now).contains_key(k) ==> lfu_unexpired(m, now)[k] == m[k],
{
}

/// Whether `after` is what one operation may leave of `before` in an LFU
/// cache, as the state functions' contracts give it.
pub open spec fn lfu_step<V>(
    before: Map<Seq<char>, Counted<V>>,
    capacity: nat,
    ttl: nat,
    op: CacheOp<V>,
    after: Map<Seq<char>, Counted<V>>,
) -> bool {
    match op {
        CacheOp::Put { key, value, now } => lfu_put(before, capacity, key, value, now + ttl, after),
        CacheOp::Get { key, now } => after == lfu_after_get(before, key, now),
        CacheOp::Remove { key } => after == before.remove(key),
        CacheOp::Purge { now } => after == lfu_unexpired(before, now),
    }
}

/// Whether `states` is a run of the operations `ops` on an LFU cache:
/// each state is what the operation at its place may leave of the one
/// before it.
pub open spec fn lfu_run<V>(
    states: Seq<Map<Seq<char>, Counted<V>>>,
    capacity: nat,
    ttl: nat,
    ops: Seq<CacheOp<V>>,
) -> bool {
    &&& states.len() == ops.len() + 1
    &&& forall|i: int|
        0 <= i < ops.len() ==> lfu_step(states[i], capacity, ttl, #[trigger] ops[i], states[i + 1])
}

/// If `t` holds an entry under `k`, it has the value and expiry that `m`
/// held under `k`.
pub open spec fn lfu_keeps<V>(m: Map<Seq<char>, Counted<V>>, t: Map<Seq<char>, Counted<V>>, k: Seq<char>) -> bool {
    t.contains_key(k) ==> m.contains_key(k) && t[k].value == m[k].value && t[k].expires_at
        == m[k].expires_at
}

/// One LFU operation other than a put of `k` keeps the value and expiry of
/// any entry it leaves under `k`.
proof fn lemma_lfu_step_keeps<V>(
    before: Map<Seq<char>, Counted<V>>,
    capacity: nat,
    ttl: nat,
    op: CacheOp<V>,
    after: Map<Seq<char>, Counted<V>>,
    k: Seq<char>,
)
    requires
        lfu_step(before, capacity, ttl, op, after),
        !puts_key(op, k),
    ensures
        lfu_keeps(before, after, k),
{
    match op {
        CacheOp::Put { key, value, now } => {
            if !before.contains_key(key) && before.len() >= capacity && before.len() > 0 {
                let victim = choose|victim: Seq<char>|
                    #![trigger before.remove(victim)]
                    least_frequent(before, victim) && after == before.remove(victim).insert(
                        key,
                        Counted { value, expires_at: now + ttl, frequency: 1 },
                    );
                assert(after == before.remove(victim).insert(
                    key,
                    Counted { value, expires_at: now + ttl, frequency: 1 },
                ));
            }
        },
        _ => {},
    }
}

/// Along an LFU run in which `k` is not put, every state keeps the value
/// and expiry that the first state held under `k`.
proof fn lemma_lfu_run_keeps<V>(
    states: Seq<Map<Seq<char>, Counted<V>>>,
    capacity: nat,
    ttl: nat,
    ops: Seq<CacheOp<V>>,
    k: Seq<char>,
    i: int,
)
    requires
        lfu_run(states, capacity, ttl, ops),
        forall|j: int| 0 <= j < ops.len() ==> !puts_key(#[trigger] ops[j], k),
        0 <= i < states.len(),
    ensures
        lfu_keeps(states[0], states[i], k),
    decreases i,
{
    if i > 0 {
        lemma_lfu_run_keeps(states, capacity, ttl, ops, k, i - 1);
        assert(lfu_step(states[i - 1], capacity, ttl, ops[i - 1], states[i]));
        assert(!puts_key(ops[i - 1], k));
        lemma_lfu_step_keeps(states[i - 1], capacity, ttl, ops[i - 1], states[i], k);
    }
}

/// LFU: after `put(k, v)` at `now`, and any run of operations that does not
/// put `k` again, every state that still holds `k` holds `v` under it with
/// the expiry that put set, and a read of `k` before that expiry gives back
/// (a clone of) `v` if the entry is still held, and nothing otherwise.
pub proof fn lfu_read_after_write<V: Clone>(
    m: Map<Seq<char>, Counted<V>>,
    capacity: nat,
    ttl: nat,
    k: Seq<char>,
    v: V,
    now: int,
    states: Seq<Map<Seq<char>, Counted<V>>>,
    ops: Seq<CacheOp<V>>,
    later: int,
    r: Option<V>,
)
    requires
        lfu_put(m, capacity, k, v, now + ttl, states[0]),
        lfu_run(states, capacity, ttl, ops),
        forall|j: int| 0 <= j < ops.len() ==> !puts_key(#[trigger] ops[j], k),
        later < now + ttl,
        lfu_lookup_outcome(states.last(), k, later, r),
    ensures
        forall|i: int|
            0 <= i < states.len() && (#[trigger] states[i]).contains_key(k) ==> states[i][k].value == v
                && states[i][k].expires_at == now + ttl,
        r is Some <==> states.last().contains_key(k),
        r is Some ==> cloned(v, r->0),
{
    let m0 = states[0];
    if !m.contains_key(k) && m.len() >= capacity && m.len() > 0 {
        let victim = choose|victim: Seq<char>|
            #![trigger m.remove(victim)]
            least_frequent(m, victim) && m0 == m.remove(victim).insert(
                k,
                Counted { value: v, expires_at: now + ttl, frequency: 1 },
            );
        assert(m0 == m.remove(victim).insert(
            k,
            Counted { value: v, expires_at: now + ttl, frequency: 1 },
        ));
    }
    assert(m0.contains_key(k) && m0[k].value == v && m0[k].expires_at == now + ttl);
    assert forall|i: int|
        0 <= i < states.len() && (#[trigger] states[i]).contains_key(k) implies states[i][k].value
        == v && states[i][k].expires_at == now + ttl by {
        lemma_lfu_run_keeps(states, capacity, ttl, ops, k, i);
    }
    lemma_lfu_run_keeps(states, capacity, ttl, ops, k, states.len() - 1);
}

/// LRU: a read hit of `a` in a cache of at least two entries saves it from
/// the next eviction: a put of a new key into the full cache that follows
/// keeps `a`, with its entry unchanged.
pub proof fn lru_read_saves_from_eviction<V: Clone>(
    s: Seq<Entry<V>>,
    capacity: nat,
    a: Seq<char>,
    now: int,
    c: Seq<char>,
    v: V,
    expires_at: int,
)
    requires
        unique_keys(s),
        has_fresh(s, a, now),
        !has_key(s, c),
        s.len() >= capacity,
        s.len() >= 2,
    ensures
        has_key(lru_put(lru_after_get(s, a, now), capacity, c, v, expires_at), a),
        ({
            let t = lru_put(lru_after_get(s, a, now), capacity, c, v, expires_at);
            t[key_pos(t, a)] == s[key_pos(s, a)]
        }),
{
    lemma_key_pos(s, a);
    lru_read_refreshes(s, a, now);
    let t1 = lru_after_get(s, a, now);
    let p = key_pos(s, a);
    lemma_remove_unique(s, p);
    lemma_prepend_unique(s.remove(p), s[p]);
    assert(t1 == seq![s[p]].add(s.remove(p)));
    assert(!has_key(t1, c));
    lru_evicts_least_recent(t1, capacity, c, v, expires_at);
    let t = lru_put(t1, capacity, c, v, expires_at);
    assert(t[1] == t1[0]);
    assert(t[1].key == a);
    assert(t1.drop_last() =~= t1.remove(t1.len() - 1));
    lemma_remove_unique(t1, t1.len() - 1);
    assert(!has_key(t1.drop_last(), c)) by {
        if has_key(t1.drop_last(), c) {
            let q = choose|q: int| 0 <= q < t1.drop_last().len() && t1.drop_last()[q].key == c;
            assert(t1[q].key == c);
        }
    }
    lemma_prepend_unique(t1.drop_last(), Entry { key: c, value: v, expires_at });
    assert(t == seq![Entry { key: c, value: v, expires_at }].add(t1.drop_last()));
    lemma_key_pos(t, a);
}

/// LFU: a put under a key that is already held keeps its read count and
/// every other entry; only its value and expiry change.
pub proof fn lfu_update_keeps_count<V>(
    m: Map<Seq<char>, Counted<V>>,
    capacity: nat,
    k: Seq<char>,
    v: V,
    expires_at: int,
    after: Map<Seq<char>, Counted<V>>,
)
    requires
        m.contains_key(k),
        lfu_put(m, capacity, k, v, expires_at, after),
    ensures
        after.dom() == m.dom(),
        after[k].frequency == m[k].frequency,
        after[k].value == v,
        after[k].expires_at == expires_at,
        forall|j: Seq<char>| #[trigger] after.contains_key(j) && j != k ==> after[j] == m[j],
{
    assert(after.dom() =~= m.dom());
}

/// LFU: a put of a new key into a full cache never drops an entry that has
/// been read more often than some other entry; that entry stays unchanged.
pub proof fn lfu_never_evicts_more_read<V>(
    m: Map<Seq<char>, Counted<V>>,
    capacity: nat,
    c: Seq<char>,
    v: V,
    expires_at: int,
    after: Map<Seq<char>, Counted<V>>,
    i: Seq<char>,
    j: Seq<char>,
)
    requires
        !m.contains_key(c),
        lfu_put(m, capacity, c, v, expires_at, after),
        m.contains_key(i),
        m.contains_key(j),
        m[i].frequency < m[j].frequency,
    ensures
        after.contains_key(j),
        after[j] == m[j],
{
    if m.len() >= capacity && m.len() > 0 {
        let victim = choose|victim: Seq<char>|
            #![trigger m.remove(victim)]
            least_frequent(m, victim) && after == m.remove(victim).insert(
                c,
                Counted { value: v, expires_at, frequency: 1 },
            );
        assert(m[victim].frequency <= m[i].frequency);
        assert(victim != j);
        assert(j != c);
    }
}

/// LFU: a read of an entry whose expiry is not after `now` finds nothing,
/// and the entry is gone afterwards; the other entries stay.
pub proof fn lfu_expired_read_is_none<V: Clone>(
    m: Map<Seq<char>, Counted<V>>,
    k: Seq<char>,
    now: int,
    r: Option<V>,
)
    requires
        m.contains_key(k),
        m[k].expires_at <= now,
        lfu_lookup_outcome(m, k, now, r),
    ensures
        r is None,
        !lfu_after_get(m, k, now).contains_key(k),
        forall|j: Seq<char>| j != k ==> lfu_after_get(m, k, now).contains_key(j) == m.contains_key(j),
{
}

/// FIFO: the entry of a new key put at `now` lives exactly `ttl`: a read of
/// it right after the put finds its value before `now + ttl`, and nothing
/// from then on.
pub proof fn fifo_entry_lives_for_ttl<V: Clone>(
    s: Seq<Entry<V>>,
    capacity: nat,
    k: Seq<char>,
    v: V,
    now: int,
    ttl: nat,
    later: int,
    r: Option<V>,
)
    requires
        unique_keys(s),
        !has_key(s, k),
        lookup_outcome(fifo_put(s, capacity, k, v, now + ttl), k, later, r),
    ensures
        r is Some <==> later < now + ttl,
        r is Some ==> cloned(v, r->0),
{
    let kept = if s.len() >= capacity && s.len() > 0 {
        s.drop_first()
    } else {
        s
    };
    if s.len() >= capacity && s.len() > 0 {
        assert(s.drop_first() =~= s.remove(0));
        lemma_remove_unique(s, 0);
    }
    assert(!has_key(kept, k)) by {
        if has_key(kept, k) {
            let a = choose|a: int| 0 <= a < kept.len() && kept[a].key == k;
            if s.len() >= capacity && s.len() > 0 {
                assert(kept[a] == s[a + 1]);
            } else {
                assert(kept[a] == s[a]);
            }
        }
    }
    lemma_push_unique(kept, Entry { key: k, value: v, expires_at: now + ttl });
}

} // verus!
