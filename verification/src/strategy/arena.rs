//! A doubly linked list of entries kept in a `Vec` and linked by slot
//! indices, with a key index beside it: the storage under the LRU and FIFO
//! strategies.
//!
//! Slots freed by a removal are kept in `free_indices` and used again before
//! the vector grows. The list runs from `head` to `tail`; as the contracts see
//! it, the arena is the sequence of its entries in that order.
use vstd::prelude::*;
use crate::keys::{
    index_clear, index_contains, index_get, index_insert, index_len, index_new, index_remove,
    slots_of, KeyIndex,
};

verus! {

/// An entry as the contracts see it: its key (the characters of the key
/// string), its value and the instant, in nanoseconds, at which it expires.
pub struct Entry<V> {
    pub key: Seq<char>,
    pub value: V,
    pub expires_at: int,
}

/// Whether some entry of `s` has key `k`.
pub open spec fn has_key<V>(s: Seq<Entry<V>>, k: Seq<char>) -> bool {
    exists|i: int| 0 <= i < s.len() && s[i].key == k
}

/// The position of the entry with key `k` in `s`, or -1 if there is none.
pub open spec fn key_pos<V>(s: Seq<Entry<V>>, k: Seq<char>) -> int {
    if has_key(s, k) {
        choose|i: int| 0 <= i < s.len() && s[i].key == k
    } else {
        -1
    }
}

/// No two entries of `s` have the same key.
pub open spec fn unique_keys<V>(s: Seq<Entry<V>>) -> bool {
    forall|i: int, j: int| 0 <= i < s.len() && 0 <= j < s.len() && i != j ==> s[i].key != s[j].key
}

/// Whether an entry has expired at instant `now`: its expiry is not after
/// `now`.
pub open spec fn is_expired<V>(e: Entry<V>, now: int) -> bool {
    e.expires_at <= now
}

/// The entries of `s` that have not expired at `now`, in order.
pub open spec fn unexpired<V>(s: Seq<Entry<V>>, now: int) -> Seq<Entry<V>> {
    s.filter(|e: Entry<V>| !is_expired(e, now))
}

/// With unique keys, the position that `key_pos` gives holds the key, and
/// it is the only position that does.
pub proof fn lemma_key_pos<V>(s: Seq<Entry<V>>, k: Seq<char>)
    requires
        unique_keys(s),
    ensures
        has_key(s, k) ==> 0 <= key_pos(s, k) < s.len() && s[key_pos(s, k)].key == k,
        forall|i: int| 0 <= i < s.len() && s[i].key == k ==> i == key_pos(s, k),
        !has_key(s, k) ==> key_pos(s, k) == -1,
{
}

/// A node of the list: an entry and the slots of its neighbours.
pub struct Node<V> {
    key: String,
    value: V,
    expires_at: i128,
    prev: Option<usize>,
    next: Option<usize>,
}

/// The list and its key index.
pub struct Arena<V> {
    map: KeyIndex,
    nodes: Vec<Option<Node<V>>>,
    free_indices: Vec<usize>,
    head: Option<usize>,
    tail: Option<usize>,
    /// The slots of the list, from head to tail.
    order: Ghost<Seq<usize>>,
}

/// The neighbour before position `i` of `o`.
pub open spec fn prev_of(o: Seq<usize>, i: int) -> Option<usize> {
    if i == 0 {
        None
    } else {
        Some(o[i - 1])
    }
}

/// The neighbour after position `i` of `o`.
pub open spec fn next_of(o: Seq<usize>, i: int) -> Option<usize> {
    if i + 1 == o.len() {
        None
    } else {
        Some(o[i + 1])
    }
}

/// Both slots are empty, or both hold the same key, value and expiry.
pub closed spec fn same_payload<V>(a: Option<Node<V>>, b: Option<Node<V>>) -> bool {
    match (a, b) {
        (None, None) => true,
        (Some(x), Some(y)) => x.key == y.key && x.value == y.value && x.expires_at == y.expires_at,
        _ => false,
    }
}

/// A slot keeps its own payload.
pub proof fn lemma_same_payload_refl<V>(a: Option<Node<V>>)
    ensures
        same_payload(a, a),
{
}

/// Keeping the payload twice keeps it.
pub proof fn lemma_same_payload_trans<V>(a: Option<Node<V>>, b: Option<Node<V>>, c: Option<Node<V>>)
    requires
        same_payload(a, b),
        same_payload(b, c),
    ensures
        same_payload(a, c),
{
}

impl<V> Node<V> {
    /// The entry that this node holds.
    pub closed spec fn entry(self) -> Entry<V> {
        Entry { key: self.key@, value: self.value, expires_at: self.expires_at as int }
    }

    /// The slot of the node before this one, if any.
    pub closed spec fn prev_slot(self) -> Option<usize> {
        self.prev
    }

    /// The slot of the node after this one, if any.
    pub closed spec fn next_slot(self) -> Option<usize> {
        self.next
    }
}

impl<V> Arena<V> {
    /// Whether slot `j` holds a node.
    pub closed spec fn live(&self, j: int) -> bool {
        0 <= j < self.nodes@.len() && self.nodes@[j] is Some
    }

    /// The node in slot `j`.
    pub closed spec fn node(&self, j: int) -> Node<V> {
        self.nodes@[j]->Some_0
    }

    /// The slots of the list, from head to tail.
    pub closed spec fn order(&self) -> Seq<usize> {
        self.order@
    }

    /// What slot `j` holds.
    pub closed spec fn slot(&self, j: int) -> Option<Node<V>> {
        self.nodes@[j]
    }

    /// The number of slots, empty or not.
    pub closed spec fn slot_count(&self) -> nat {
        self.nodes@.len()
    }

    /// The key index: the slot of each stored key.
    pub closed spec fn key_slots(&self) -> Map<Seq<char>, usize> {
        slots_of(self.map)
    }

    /// The slots free for new entries.
    pub closed spec fn free_slots(&self) -> Seq<usize> {
        self.free_indices@
    }

    /// The slot the head link names.
    pub closed spec fn head_link(&self) -> Option<usize> {
        self.head
    }

    /// The slot the tail link names.
    pub closed spec fn tail_link(&self) -> Option<usize> {
        self.tail
    }

    /// The entries of the list, from head to tail.
    pub closed spec fn entries(&self) -> Seq<Entry<V>> {
        Seq::new(self.order@.len(), |i: int| self.node(self.order@[i] as int).entry())
    }

    /// The entry held in slot `j`.
    pub closed spec fn slot_entry(&self, j: usize) -> Entry<V> {
        self.node(j as int).entry()
    }

    /// The entry at each position is the one held in the slot listed there.
    pub proof fn lemma_slot_entries(&self)
        ensures
            self.entries().len() == self.order().len(),
            forall|i: int|
                0 <= i < self.order().len() ==> #[trigger] self.entries()[i] == self.slot_entry(
                    self.order()[i],
                ),
    {
    }

    /// The node at position `i` of the list is linked to its neighbours.
    spec fn linked_at(&self, i: int) -> bool {
        let o = self.order@;
        &&& self.live(o[i] as int)
        &&& self.node(o[i] as int).prev == prev_of(o, i)
        &&& self.node(o[i] as int).next == next_of(o, i)
    }

    /// The links agree with `order`: each listed slot holds a node linked to
    /// its neighbours, and `head` and `tail` are the ends.
    pub closed spec fn links_ok(&self) -> bool {
        let o = self.order@;
        &&& o.no_duplicates()
        &&& forall|i: int| 0 <= i < o.len() ==> #[trigger] self.linked_at(i)
        &&& self.head == (if o.len() == 0 {
            None
        } else {
            Some(o[0])
        })
        &&& self.tail == (if o.len() == 0 {
            None
        } else {
            Some(o.last())
        })
    }

    /// The key index names exactly the listed nodes, by their keys.
    spec fn index_ok(&self) -> bool {
        let o = self.order@;
        let m = slots_of(self.map);
        &&& m.dom().finite()
        &&& m.len() == o.len()
        &&& forall|k: Seq<char>| #[trigger]
            m.contains_key(k) ==> self.live(m[k] as int) && self.node(m[k] as int).key@ == k
        &&& forall|i: int|
            0 <= i < o.len() ==> #[trigger] m.contains_key(self.node(o[i] as int).key@) && m[self.node(
                o[i] as int,
            ).key@] == o[i]
    }

    /// Every node is listed, and the free slots are distinct empty slots.
    spec fn slots_ok(&self) -> bool {
        let f = self.free_indices@;
        &&& forall|j: int| #[trigger] self.live(j) ==> self.order@.contains(j as usize)
        &&& f.no_duplicates()
        &&& forall|i: int|
            0 <= i < f.len() ==> #[trigger] f[i] < self.nodes@.len() && self.nodes@[f[i] as int] is None
    }

    /// What it means for the links to agree with the list: no slot is listed
    /// twice, each listed slot holds a node whose links name its neighbours
    /// in the list, and the head and tail links name its ends.
    pub proof fn lemma_links(&self)
        requires
            self.links_ok(),
        ensures
            self.order().no_duplicates(),
            forall|i: int|
                0 <= i < self.order().len() ==> {
                    &&& self.live(#[trigger] self.order()[i] as int)
                    &&& self.node(self.order()[i] as int).prev_slot() == prev_of(self.order(), i)
                    &&& self.node(self.order()[i] as int).next_slot() == next_of(self.order(), i)
                },
            self.head_link() == (if self.order().len() == 0 {
                None
            } else {
                Some(self.order()[0])
            }),
            self.tail_link() == (if self.order().len() == 0 {
                None
            } else {
                Some(self.order().last())
            }),
    {
        assert forall|i: int| 0 <= i < self.order().len() implies {
            &&& self.live(#[trigger] self.order()[i] as int)
            &&& self.node(self.order()[i] as int).prev_slot() == prev_of(self.order(), i)
            &&& self.node(self.order()[i] as int).next_slot() == next_of(self.order(), i)
        } by {
            assert(self.linked_at(i));
        }
    }

    /// A slot holds a node exactly when it is live.
    pub proof fn lemma_live(&self, j: int)
        ensures
            self.live(j) <==> (0 <= j < self.slot_count() && self.slot(j) is Some),
            self.live(j) ==> self.slot(j) == Some(self.node(j)),
    {
    }

    /// A relinking that kept every slot's payload keeps it slot by slot.
    proof fn lemma_payloads_kept(&self, before: &Self)
        requires
            self.slot_count() == before.slot_count(),
            forall|j: int|
                0 <= j < self.slot_count() ==> same_payload(
                    #[trigger] self.slot(j),
                    before.slot(j),
                ),
        ensures
            self.nodes@.len() == before.nodes@.len(),
            forall|j: int|
                0 <= j < self.nodes@.len() ==> same_payload(
                    #[trigger] self.nodes@[j],
                    before.nodes@[j],
                ),
    {
        assert forall|j: int| 0 <= j < self.nodes@.len() implies same_payload(
            #[trigger] self.nodes@[j],
            before.nodes@[j],
        ) by {
            assert(same_payload(self.slot(j), before.slot(j)));
        }
    }

    /// The arena is well formed.
    pub closed spec fn wf(&self) -> bool {
        self.links_ok() && self.index_ok() && self.slots_ok()
    }

    /// In a well-formed arena the keys of the entries are distinct.
    pub proof fn lemma_unique(&self)
        requires
            self.wf(),
        ensures
            unique_keys(self.entries()),
            self.entries().len() == self.order().len(),
            self.order().no_duplicates(),
    {
        let o = self.order@;
        let m = slots_of(self.map);
        assert forall|i: int, j: int|
            0 <= i < self.entries().len() && 0 <= j < self.entries().len() && i != j implies
            self.entries()[i].key != self.entries()[j].key by {
            assert(m.contains_key(self.node(o[i] as int).key@));
            assert(m.contains_key(self.node(o[j] as int).key@));
            assert(o[i] != o[j]);
        }
    }

    /// An empty arena.
    pub fn new(capacity: usize) -> (a: Self)
        ensures
            a.wf(),
            a.entries() =~= Seq::<Entry<V>>::empty(),
    {
        let a = Arena {
            map: index_new(),
            nodes: Vec::with_capacity(capacity),
            free_indices: Vec::new(),
            head: None,
            tail: None,
            order: Ghost(Seq::empty()),
        };
        assert(slots_of(a.map) =~= Map::empty());
        a
    }

    /// The number of entries.
    pub fn len(&self) -> (n: usize)
        requires
            self.wf(),
        ensures
            n == self.entries().len(),
    {
        index_len(&self.map)
    }

    /// Whether an entry has key `key`.
    pub fn contains_key(&self, key: &str) -> (r: bool)
        requires
            self.wf(),
        ensures
            r == has_key(self.entries(), key@),
    {
        let r = index_contains(&self.map, key);
        proof {
            self.lemma_find(key@);
        }
        r
    }

    /// Where the entry with key `k` sits: the key index gives its slot
    /// exactly when an entry has that key, and the slot is the one at its
    /// position.
    proof fn lemma_find(&self, k: Seq<char>)
        requires
            self.wf(),
        ensures
            slots_of(self.map).contains_key(k) == has_key(self.entries(), k),
            has_key(self.entries(), k) ==> {
                let p = key_pos(self.entries(), k);
                &&& 0 <= p < self.order@.len()
                &&& self.entries()[p].key == k
                &&& self.order@[p] == slots_of(self.map)[k]
            },
    {
        let o = self.order@;
        let m = slots_of(self.map);
        self.lemma_unique();
        if m.contains_key(k) {
            let j = m[k];
            assert(self.live(j as int));
            assert(o.contains(j));
            let p = choose|p: int| 0 <= p < o.len() && o[p] == j;
            assert(self.entries()[p].key == k);
            lemma_key_pos(self.entries(), k);
        }
        if has_key(self.entries(), k) {
            let p = choose|p: int| 0 <= p < self.entries().len() && self.entries()[p].key == k;
            assert(m.contains_key(self.node(o[p] as int).key@));
            lemma_key_pos(self.entries(), k);
        }
    }

    /// The slot of the entry with key `key`, if there is one.
    pub fn find(&self, key: &str) -> (r: Option<usize>)
        requires
            self.wf(),
        ensures
            r is Some == has_key(self.entries(), key@),
            r is Some ==> {
                let p = key_pos(self.entries(), key@);
                &&& 0 <= p < self.order().len()
                &&& self.entries()[p].key == key@
                &&& self.order()[p] == r->0
            },
    {
        proof {
            self.lemma_find(key@);
        }
        index_get(&self.map, key)
    }
    /// Unlinks the node at position `p` of the list (slot `idx`): its
    /// neighbours are joined, and the node itself stays in its slot,
    /// unchanged.
    pub fn detach_node(&mut self, idx: usize, Ghost(p): Ghost<int>)
        requires
            old(self).links_ok(),
            0 <= p < old(self).order().len(),
            old(self).order()[p] == idx,
        ensures
            final(self).order() == old(self).order().remove(p),
            final(self).links_ok(),
            final(self).key_slots() == old(self).key_slots(),
            final(self).free_slots() == old(self).free_slots(),
            final(self).slot_count() == old(self).slot_count(),
            final(self).slot(idx as int) == old(self).slot(idx as int),
            forall|j: int|
                0 <= j < final(self).slot_count() ==> same_payload(
                    #[trigger] final(self).slot(j),
                    old(self).slot(j),
                ),
    {
        let ghost o = self.order@;
        let ghost old_nodes = self.nodes@;
        assert(self.linked_at(p));
        let (prev, next) = match &self.nodes[idx] {
            Some(n) => (n.prev, n.next),
            None => (None, None),
        };
        match prev {
            Some(a) => {
                assert(self.linked_at(p - 1));
                match &mut self.nodes[a] {
                    Some(n) => {
                        n.next = next;
                    },
                    None => {},
                }
            },
            None => {
                self.head = next;
            },
        }
        match next {
            Some(b) => {
                assert(old(self).linked_at(p + 1));
                match &mut self.nodes[b] {
                    Some(n) => {
                        n.prev = prev;
                    },
                    None => {},
                }
            },
            None => {
                self.tail = prev;
            },
        }
        proof {
            let o2 = o.remove(p);
            self.order@ = o2;
            assert forall|j: int| 0 <= j < self.nodes@.len() implies same_payload(
                #[trigger] self.nodes@[j],
                old_nodes[j],
            ) by {}
            assert forall|i: int| 0 <= i < o2.len() implies #[trigger] self.linked_at(i) by {
                if i < p {
                    assert(o2[i] == o[i]);
                    assert(old(self).linked_at(i));
                    if i > 0 {
                        assert(o2[i - 1] == o[i - 1]);
                    }
                    if i + 1 < p {
                        assert(o2[i + 1] == o[i + 1]);
                    } else if i + 1 < o2.len() {
                        assert(o2[i + 1] == o[i + 2]);
                    }
                } else {
                    assert(o2[i] == o[i + 1]);
                    assert(old(self).linked_at(i + 1));
                    if i > p {
                        assert(o2[i - 1] == o[i]);
                    } else if i > 0 {
                        assert(o2[i - 1] == o[i - 1]);
                    }
                    if i + 1 < o2.len() {
                        assert(o2[i + 1] == o[i + 2]);
                    }
                }
            }
            assert(o2.no_duplicates());
        }
    }

    /// Links the unlisted node in slot `idx` in at the head of the list.
    pub fn push_front(&mut self, idx: usize)
        requires
            old(self).links_ok(),
            old(self).live(idx as int),
            !old(self).order().contains(idx),
        ensures
            final(self).order() == seq![idx].add(old(self).order()),
            final(self).links_ok(),
            final(self).key_slots() == old(self).key_slots(),
            final(self).free_slots() == old(self).free_slots(),
            final(self).slot_count() == old(self).slot_count(),
            forall|j: int|
                0 <= j < final(self).slot_count() ==> same_payload(
                    #[trigger] final(self).slot(j),
                    old(self).slot(j),
                ),
    {
        let ghost o = self.order@;
        let ghost old_nodes = self.nodes@;
        let old_head = self.head;
        match old_head {
            Some(h) => {
                assert(self.linked_at(0));
                match &mut self.nodes[h] {
                    Some(n) => {
                        n.prev = Some(idx);
                    },
                    None => {},
                }
            },
            None => {
                self.tail = Some(idx);
            },
        }
        match &mut self.nodes[idx] {
            Some(n) => {
                n.prev = None;
                n.next = old_head;
            },
            None => {},
        }
        self.head = Some(idx);
        proof {
            let o2 = seq![idx].add(o);
            self.order@ = o2;
            assert forall|j: int| 0 <= j < self.nodes@.len() implies same_payload(
                #[trigger] self.nodes@[j],
                old_nodes[j],
            ) by {}
            assert forall|i: int| 0 <= i < o2.len() implies #[trigger] self.linked_at(i) by {
                if i > 0 {
                    assert(o2[i] == o[i - 1]);
                    assert(old(self).linked_at(i - 1));
                    if i > 1 {
                        assert(o2[i - 1] == o[i - 2]);
                    }
                    if i + 1 < o2.len() {
                        assert(o2[i + 1] == o[i]);
                    }
                } else if o2.len() > 1 {
                    assert(o2[1] == o[0]);
                }
            }
            assert(o2.no_duplicates()) by {
                assert forall|a: int, b: int| 0 <= a < b < o2.len() implies o2[a] != o2[b] by {
                    if a == 0 {
                        assert(o.contains(o2[b]));
                    }
                }
            }
            if o.len() > 0 {
                assert(o2.last() == o.last());
            }
        }
    }

    /// Links the unlisted node in slot `idx` in at the tail of the list.
    pub fn push_back(&mut self, idx: usize)
        requires
            old(self).links_ok(),
            old(self).live(idx as int),
            !old(self).order().contains(idx),
        ensures
            final(self).order() == old(self).order().push(idx),
            final(self).links_ok(),
            final(self).key_slots() == old(self).key_slots(),
            final(self).free_slots() == old(self).free_slots(),
            final(self).slot_count() == old(self).slot_count(),
            forall|j: int|
                0 <= j < final(self).slot_count() ==> same_payload(
                    #[trigger] final(self).slot(j),
                    old(self).slot(j),
                ),
    {
        let ghost o = self.order@;
        let ghost old_nodes = self.nodes@;
        let old_tail = self.tail;
        match old_tail {
            Some(t) => {
                assert(self.linked_at(o.len() - 1));
                match &mut self.nodes[t] {
                    Some(n) => {
                        n.next = Some(idx);
                    },
                    None => {},
                }
            },
            None => {
                self.head = Some(idx);
            },
        }
        match &mut self.nodes[idx] {
            Some(n) => {
                n.next = None;
                n.prev = old_tail;
            },
            None => {},
        }
        self.tail = Some(idx);
        proof {
            let o2 = o.push(idx);
            self.order@ = o2;
            assert forall|j: int| 0 <= j < self.nodes@.len() implies same_payload(
                #[trigger] self.nodes@[j],
                old_nodes[j],
            ) by {}
            assert forall|i: int| 0 <= i < o2.len() implies #[trigger] self.linked_at(i) by {
                if i < o.len() {
                    assert(o2[i] == o[i]);
                    assert(old(self).linked_at(i));
                    if i > 0 {
                        assert(o2[i - 1] == o[i - 1]);
                    }
                    if i + 1 < o.len() {
                        assert(o2[i + 1] == o[i + 1]);
                    }
                }
            }
            assert(o2.no_duplicates()) by {
                assert forall|a: int, b: int| 0 <= a < b < o2.len() implies o2[a] != o2[b] by {
                    if b == o.len() {
                        assert(o.contains(o2[a]));
                    }
                }
            }
            if o.len() > 0 {
                assert(o2[0] == o[0]);
            }
        }
    }
    /// Unlinks the node at position `p` (slot `idx`), empties its slot, drops
    /// its key from the index and gives the slot to the free list.
    pub fn remove_node_internal(&mut self, idx: usize, Ghost(p): Ghost<int>)
        requires
            old(self).wf(),
            0 <= p < old(self).order().len(),
            old(self).order()[p] == idx,
        ensures
            final(self).wf(),
            final(self).entries() == old(self).entries().remove(p),
            final(self).order() == old(self).order().remove(p),
    {
        let ghost o = self.order@;
        let ghost m = slots_of(self.map);
        let ghost key = self.node(idx as int).key@;
        assert(self.linked_at(p));
        assert(m.contains_key(self.node(o[p] as int).key@));
        self.detach_node(idx, Ghost(p));
        proof {
            self.lemma_payloads_kept(&*old(self));
        }
        let ghost detached = *self;
        let taken = self.nodes[idx].take();
        match taken {
            Some(node) => {
                index_remove(&mut self.map, node.key.as_str());
                self.free_indices.push(idx);
            },
            None => {},
        }
        proof {
            let o2 = self.order@;
            let m2 = slots_of(self.map);
            assert(m2 == m.remove(key));
            assert(self.nodes@ == detached.nodes@.update(idx as int, None));
            assert forall|i: int| 0 <= i < o2.len() implies #[trigger] self.linked_at(i) by {
                assert(detached.linked_at(i));
                assert(o2[i] != idx) by {
                    if i < p {
                        assert(o2[i] == o[i]);
                    } else {
                        assert(o2[i] == o[i + 1]);
                    }
                }
            }
            assert forall|i: int| 0 <= i < o2.len() implies #[trigger] m2.contains_key(
                self.node(o2[i] as int).key@,
            ) && m2[self.node(o2[i] as int).key@] == o2[i] by {
                let q = if i < p {
                    i
                } else {
                    i + 1
                };
                assert(o2[i] == o[q]);
                assert(old(self).linked_at(q));
                assert(m.contains_key(old(self).node(o[q] as int).key@));
                assert(o[q] != idx);
            }
            assert forall|k: Seq<char>| #[trigger] m2.contains_key(k) implies self.live(m2[k] as int)
                && self.node(m2[k] as int).key@ == k by {
                assert(m.contains_key(k));
                assert(old(self).live(m[k] as int));
                assert(m[k] != idx);
            }
            assert forall|j: int| #[trigger] self.live(j) implies o2.contains(j as usize) by {
                assert(j != idx);
                assert(0 <= j < self.nodes@.len());
                assert(self.nodes.len() == self.nodes@.len());
                assert((j as usize) as int == j);
                assert(same_payload(detached.nodes@[j], old(self).nodes@[j]));
                assert(old(self).live(j));
                assert(o.contains(j as usize));
                let q = choose|q: int| 0 <= q < o.len() && o[q] == j as usize;
                assert(q != p);
                if q < p {
                    assert(o2[q] == o[q]);
                } else {
                    assert(o2[q - 1] == o[q]);
                }
            }
            let f = self.free_indices@;
            assert forall|i: int| 0 <= i < f.len() implies #[trigger] f[i] < self.nodes@.len()
                && self.nodes@[f[i] as int] is None by {
                if i < f.len() - 1 {
                    assert(old(self).free_indices@[i] == f[i]);
                }
            }
            assert(f.no_duplicates()) by {
                assert forall|a: int, b: int| 0 <= a < b < f.len() implies f[a] != f[b] by {
                    if b == f.len() - 1 {
                        assert(old(self).free_indices@[a] == f[a]);
                    }
                }
            }
            assert(self.entries() =~= old(self).entries().remove(p)) by {
                assert forall|i: int| 0 <= i < o2.len() implies self.entries()[i]
                    == old(self).entries().remove(p)[i] by {
                    let q = if i < p {
                        i
                    } else {
                        i + 1
                    };
                    assert(o2[i] == o[q]);
                    assert(o[q] != idx);
                    assert(old(self).linked_at(q));
                    assert(same_payload(
                        detached.nodes@[o[q] as int],
                        old(self).nodes@[o[q] as int],
                    ));
                }
            }
        }
    }

    /// Puts a new node for `key` in a free slot, or in a new one at the end,
    /// and indexes it. The node is not linked in yet.
    fn place(&mut self, key: String, value: V, expires_at: i128) -> (slot: usize)
        requires
            old(self).wf(),
            !has_key(old(self).entries(), key@),
        ensures
            final(self).links_ok(),
            final(self).order@ == old(self).order@,
            final(self).live(slot as int),
            !final(self).order@.contains(slot),
            final(self).node(slot as int).entry() == (Entry {
                key: key@,
                value,
                expires_at: expires_at as int,
            }),
            slots_of(final(self).map) == slots_of(old(self).map).insert(key@, slot),
            forall|j: int|
                0 <= j < old(self).nodes@.len() && j != slot ==> #[trigger] final(self).nodes@[j]
                    == old(self).nodes@[j],
            final(self).nodes@.len() >= old(self).nodes@.len(),
            final(self).nodes@.len() <= old(self).nodes@.len() + 1,
            final(self).nodes@.len() > old(self).nodes@.len() ==> slot == old(self).nodes@.len(),
            final(self).free_indices@.no_duplicates(),
            forall|i: int|
                0 <= i < final(self).free_indices@.len() ==> #[trigger] final(self).free_indices@[i]
                    < final(self).nodes@.len() && final(self).nodes@[final(self).free_indices@[i] as int]
                    is None && final(self).free_indices@[i] != slot,
    {
        proof {
            self.lemma_find(key@);
        }
        let node = Node { key: key.clone(), value, expires_at, prev: None, next: None };
        let ghost o = self.order@;
        let ghost f = self.free_indices@;
        let slot = match self.free_indices.pop() {
            Some(i) => {
                assert(f[f.len() - 1] == i);
                self.nodes.set(i, Some(node));
                i
            },
            None => {
                let i = self.nodes.len();
                self.nodes.push(Some(node));
                i
            },
        };
        index_insert(&mut self.map, key, slot);
        proof {
            assert(!o.contains(slot)) by {
                if o.contains(slot) {
                    let q = choose|q: int| 0 <= q < o.len() && o[q] == slot;
                    assert(old(self).linked_at(q));
                }
            }
            assert forall|i: int| 0 <= i < o.len() implies #[trigger] self.linked_at(i) by {
                assert(old(self).linked_at(i));
            }
            let f2 = self.free_indices@;
            assert forall|i: int| 0 <= i < f2.len() implies #[trigger] f2[i] < self.nodes@.len()
                && self.nodes@[f2[i] as int] is None && f2[i] != slot by {
                assert(f2[i] == f[i]);
                if slot == f[f.len() - 1] && f.len() > 0 {
                    assert(f[i] != f[f.len() - 1]);
                }
            }
        }
        slot
    }

    /// Adds an entry for a key that no entry has, at the head of the list.
    pub fn insert_front(&mut self, key: String, value: V, expires_at: i128)
        requires
            old(self).wf(),
            !has_key(old(self).entries(), key@),
        ensures
            final(self).wf(),
            final(self).entries() == seq![
                Entry { key: key@, value, expires_at: expires_at as int },
            ].add(old(self).entries()),
    {
        let ghost k = key@;
        let slot = self.place(key, value, expires_at);
        let ghost placed = *self;
        self.push_front(slot);
        proof {
            self.lemma_payloads_kept(&placed);
        }
        proof {
            self.lemma_relinked(&*old(self), &placed, slot, k, true);
        }
    }

    /// Adds an entry for a key that no entry has, at the tail of the list.
    pub fn insert_back(&mut self, key: String, value: V, expires_at: i128)
        requires
            old(self).wf(),
            !has_key(old(self).entries(), key@),
        ensures
            final(self).wf(),
            final(self).entries() == old(self).entries().push(
                Entry { key: key@, value, expires_at: expires_at as int },
            ),
    {
        let ghost k = key@;
        let slot = self.place(key, value, expires_at);
        let ghost placed = *self;
        self.push_back(slot);
        proof {
            self.lemma_payloads_kept(&placed);
        }
        proof {
            self.lemma_relinked(&*old(self), &placed, slot, k, false);
        }
    }

    /// After `place` and a push at one end, the arena is well formed again
    /// and holds the new entry at that end.
    proof fn lemma_relinked(&self, before: &Self, placed: &Self, slot: usize, k: Seq<char>, front: bool)
        requires
            before.wf(),
            !has_key(before.entries(), k),
            placed.links_ok(),
            placed.order@ == before.order@,
            placed.live(slot as int),
            !placed.order@.contains(slot),
            placed.node(slot as int).key@ == k,
            slots_of(placed.map) == slots_of(before.map).insert(k, slot),
            forall|j: int|
                0 <= j < before.nodes@.len() && j != slot ==> #[trigger] placed.nodes@[j]
                    == before.nodes@[j],
            placed.nodes@.len() >= before.nodes@.len(),
            placed.nodes@.len() <= before.nodes@.len() + 1,
            placed.nodes@.len() > before.nodes@.len() ==> slot == before.nodes@.len(),
            placed.free_indices@.no_duplicates(),
            forall|i: int|
                0 <= i < placed.free_indices@.len() ==> #[trigger] placed.free_indices@[i]
                    < placed.nodes@.len() && placed.nodes@[placed.free_indices@[i] as int] is None
                    && placed.free_indices@[i] != slot,
            self.links_ok(),
            slots_of(self.map) == slots_of(placed.map),
            self.free_indices@ == placed.free_indices@,
            self.nodes@.len() == placed.nodes@.len(),
            forall|j: int|
                0 <= j < self.nodes@.len() ==> same_payload(
                    #[trigger] self.nodes@[j],
                    placed.nodes@[j],
                ),
            front ==> self.order@ == seq![slot].add(before.order@),
            !front ==> self.order@ == before.order@.push(slot),
        ensures
            self.wf(),
            front ==> self.entries() == seq![placed.node(slot as int).entry()].add(before.entries()),
            !front ==> self.entries() == before.entries().push(placed.node(slot as int).entry()),
    {
        let o = before.order@;
        let o2 = self.order@;
        let m = slots_of(before.map);
        let m2 = slots_of(self.map);
        before.lemma_find(k);
        assert(!m.contains_key(k));
        // position in the new order of the old position q
        assert forall|q: int| 0 <= q < o.len() implies #[trigger] o[q] != slot && before.live(
            o[q] as int,
        ) && same_payload(self.nodes@[o[q] as int], before.nodes@[o[q] as int]) by {
            assert(before.linked_at(q));
            assert(placed.nodes@[o[q] as int] == before.nodes@[o[q] as int]);
        }
        assert forall|i: int| 0 <= i < o2.len() implies #[trigger] m2.contains_key(
            self.node(o2[i] as int).key@,
        ) && m2[self.node(o2[i] as int).key@] == o2[i] by {
            let q = if front {
                i - 1
            } else {
                i
            };
            if o2[i] != slot {
                assert(o2[i] == o[q]);
                assert(m.contains_key(before.node(o[q] as int).key@));
            }
        }
        assert forall|kk: Seq<char>| #[trigger] m2.contains_key(kk) implies self.live(m2[kk] as int)
            && self.node(m2[kk] as int).key@ == kk by {
            if kk != k {
                assert(m.contains_key(kk));
                assert(before.live(m[kk] as int));
                assert(placed.nodes@[m[kk] as int] == before.nodes@[m[kk] as int]);
            }
        }
        assert forall|j: int| #[trigger] self.live(j) implies o2.contains(j as usize) by {
            if j == slot {
                if front {
                    assert(o2[0] == slot);
                } else {
                    assert(o2[o2.len() - 1] == slot);
                }
            } else {
                assert(j < before.nodes@.len());
                assert(placed.nodes@[j] == before.nodes@[j]);
                assert(before.live(j));
                assert(o.contains(j as usize));
                let q = choose|q: int| 0 <= q < o.len() && o[q] == j as usize;
                if front {
                    assert(o2[q + 1] == o[q]);
                } else {
                    assert(o2[q] == o[q]);
                }
            }
        }
        let f = self.free_indices@;
        assert forall|i: int| 0 <= i < f.len() implies #[trigger] f[i] < self.nodes@.len()
            && self.nodes@[f[i] as int] is None by {
            assert(placed.nodes@[f[i] as int] is None);
        }
        assert(m2.len() == o2.len());
        let e = placed.node(slot as int).entry();
        if front {
            assert(self.entries() =~= seq![e].add(before.entries())) by {
                assert forall|i: int| 0 <= i < o2.len() implies self.entries()[i] == seq![e].add(
                    before.entries(),
                )[i] by {
                    if i > 0 {
                        assert(o2[i] == o[i - 1]);
                    }
                }
            }
        } else {
            assert(self.entries() =~= before.entries().push(e)) by {
                assert forall|i: int| 0 <= i < o2.len() implies self.entries()[i]
                    == before.entries().push(e)[i] by {
                    if i < o.len() {
                        assert(o2[i] == o[i]);
                    }
                }
            }
        }
    }
    /// Removes the entry at position `p` of the list, which sits in slot
    /// `slot`.
    pub fn remove_at(&mut self, slot: usize, Ghost(p): Ghost<int>)
        requires
            old(self).wf(),
            0 <= p < old(self).order().len(),
            old(self).order()[p] == slot,
        ensures
            final(self).wf(),
            final(self).entries() == old(self).entries().remove(p),
            final(self).order() == old(self).order().remove(p),
    {
        self.remove_node_internal(slot, Ghost(p));
    }

    /// Moves the entry at position `p` (slot `slot`) to the head of the list,
    /// giving it `value` and `expires_at` when `update` is given.
    fn relink_front(&mut self, slot: usize, Ghost(p): Ghost<int>, update: Option<(V, i128)>)
        requires
            old(self).wf(),
            0 <= p < old(self).order@.len(),
            old(self).order@[p] == slot,
        ensures
            final(self).wf(),
            final(self).entries() == seq![
                match update {
                    Some(u) => Entry {
                        key: old(self).entries()[p].key,
                        value: u.0,
                        expires_at: u.1 as int,
                    },
                    None => old(self).entries()[p],
                },
            ].add(old(self).entries().remove(p)),
            final(self).order@ == seq![slot].add(old(self).order@.remove(p)),
            final(self).key_slots() == old(self).key_slots(),
            final(self).free_slots() == old(self).free_slots(),
            final(self).slot_count() == old(self).slot_count(),
            forall|j: int|
                0 <= j < final(self).slot_count() && (j != slot || update is None) ==> same_payload(
                    #[trigger] final(self).slot(j),
                    old(self).slot(j),
                ),
    {
        let ghost o = self.order@;
        let ghost m = slots_of(self.map);
        assert(self.linked_at(p));
        assert(m.contains_key(self.node(o[p] as int).key@));
        self.detach_node(slot, Ghost(p));
        proof {
            self.lemma_payloads_kept(&*old(self));
        }
        let ghost detached = *self;
        let ghost upd = update;
        match update {
            Some((value, expires_at)) => {
                match &mut self.nodes[slot] {
                    Some(n) => {
                        n.value = value;
                        n.expires_at = expires_at;
                    },
                    None => {},
                }
            },
            None => {},
        }
        let ghost updated = *self;
        assert forall|i: int| 0 <= i < self.order@.len() implies #[trigger] self.linked_at(i) by {
            assert(detached.linked_at(i));
        }
        assert(!self.order@.contains(slot)) by {
            assert(o.no_duplicates());
            if self.order@.contains(slot) {
                let q = choose|q: int| 0 <= q < self.order@.len() && self.order@[q] == slot;
                if q < p {
                    assert(o[q] == slot);
                } else {
                    assert(o[q + 1] == slot);
                }
            }
        }
        self.push_front(slot);
        proof {
            self.lemma_payloads_kept(&updated);
        }
        proof {
            let o2 = self.order@;
            let m2 = slots_of(self.map);
            assert(m2 == m);
            assert forall|i: int| 0 <= i < o2.len() implies self.nodes@[o2[i] as int] is Some && (
            o2[i] != slot ==> self.node(o2[i] as int).entry() == old(self).node(
                o2[i] as int,
            ).entry()) && self.node(o2[i] as int).key == old(self).node(o2[i] as int).key by {
                if i > 0 {
                    let q = if i - 1 < p {
                        i - 1
                    } else {
                        i
                    };
                    assert(o2[i] == o[q]);
                    assert(old(self).linked_at(q));
                    assert(same_payload(self.nodes@[o[q] as int], updated.nodes@[o[q] as int]));
                    assert(same_payload(
                        detached.nodes@[o[q] as int],
                        old(self).nodes@[o[q] as int],
                    ));
                } else {
                    assert(same_payload(self.nodes@[slot as int], updated.nodes@[slot as int]));
                }
            }
            assert forall|i: int| 0 <= i < o2.len() implies #[trigger] m2.contains_key(
                self.node(o2[i] as int).key@,
            ) && m2[self.node(o2[i] as int).key@] == o2[i] by {
                if i > 0 {
                    let q = if i - 1 < p {
                        i - 1
                    } else {
                        i
                    };
                    assert(o2[i] == o[q]);
                    assert(m.contains_key(old(self).node(o[q] as int).key@));
                } else {
                    assert(o2[0] == o[p]);
                }
            }
            assert forall|k: Seq<char>| #[trigger] m2.contains_key(k) implies self.live(m2[k] as int)
                && self.node(m2[k] as int).key@ == k by {
                assert(old(self).live(m[k] as int));
                assert(o.contains(m[k]));
                let q = choose|q: int| 0 <= q < o.len() && o[q] == m[k];
                if q == p {
                    assert(o2[0] == m[k]);
                } else if q < p {
                    assert(o2[q + 1] == m[k]);
                } else {
                    assert(o2[q] == m[k]);
                }
            }
            assert forall|j: int| #[trigger] self.live(j) implies o2.contains(j as usize) by {
                assert(same_payload(self.nodes@[j], updated.nodes@[j]));
                assert(same_payload(detached.nodes@[j], old(self).nodes@[j]));
                assert(old(self).live(j));
                assert(o.contains(j as usize));
                let q = choose|q: int| 0 <= q < o.len() && o[q] == j as usize;
                if q == p {
                    assert(o2[0] == o[q]);
                } else if q < p {
                    assert(o2[q + 1] == o[q]);
                } else {
                    assert(o2[q] == o[q]);
                }
            }
            let f = self.free_indices@;
            assert forall|i: int| 0 <= i < f.len() implies #[trigger] f[i] < self.nodes@.len()
                && self.nodes@[f[i] as int] is None by {
                assert(old(self).free_indices@[i] == f[i]);
                assert(same_payload(self.nodes@[f[i] as int], updated.nodes@[f[i] as int]));
                assert(same_payload(
                    detached.nodes@[f[i] as int],
                    old(self).nodes@[f[i] as int],
                ));
            }
            assert forall|j: int|
                0 <= j < self.slot_count() && (j != slot || upd is None) implies same_payload(
                #[trigger] self.slot(j),
                old(self).slot(j),
            ) by {
                assert(same_payload(self.nodes@[j], updated.nodes@[j]));
                assert(same_payload(detached.nodes@[j], old(self).nodes@[j]));
                assert(updated.nodes@[j] == detached.nodes@[j]);
            }
            let e = match upd {
                Some(u) => Entry {
                    key: old(self).entries()[p].key,
                    value: u.0,
                    expires_at: u.1 as int,
                },
                None => old(self).entries()[p],
            };
            assert(self.entries() =~= seq![e].add(old(self).entries().remove(p))) by {
                assert forall|i: int| 0 <= i < o2.len() implies self.entries()[i] == seq![e].add(
                    old(self).entries().remove(p),
                )[i] by {
                    if i > 0 {
                        let q = if i - 1 < p {
                            i - 1
                        } else {
                            i
                        };
                        assert(o2[i] == o[q]);
                    } else {
                        assert(same_payload(self.nodes@[slot as int], updated.nodes@[slot as int]));
                    }
                }
            }
        }
    }

    /// Moves the entry at position `p` (slot `slot`) to the head of the list.
    pub fn move_to_front(&mut self, slot: usize, Ghost(p): Ghost<int>)
        requires
            old(self).wf(),
            0 <= p < old(self).order().len(),
            old(self).order()[p] == slot,
        ensures
            final(self).wf(),
            final(self).entries() == seq![old(self).entries()[p]].add(
                old(self).entries().remove(p),
            ),
            final(self).order() == seq![slot].add(old(self).order().remove(p)),
            final(self).key_slots() == old(self).key_slots(),
            final(self).free_slots() == old(self).free_slots(),
            final(self).slot_count() == old(self).slot_count(),
            forall|j: int|
                0 <= j < final(self).slot_count() ==> same_payload(
                    #[trigger] final(self).slot(j),
                    old(self).slot(j),
                ),
    {
        self.relink_front(slot, Ghost(p), None);
    }

    /// Gives the entry at position `p` (slot `slot`) a new value and expiry
    /// and moves it to the head of the list.
    pub fn update_to_front(&mut self, slot: usize, Ghost(p): Ghost<int>, value: V, expires_at: i128)
        requires
            old(self).wf(),
            0 <= p < old(self).order().len(),
            old(self).order()[p] == slot,
        ensures
            final(self).wf(),
            final(self).entries() == seq![
                Entry { key: old(self).entries()[p].key, value, expires_at: expires_at as int },
            ].add(old(self).entries().remove(p)),
    {
        self.relink_front(slot, Ghost(p), Some((value, expires_at)));
    }

    /// The value of the entry at position `p` (slot `slot`).
    pub fn value_at(&self, slot: usize, Ghost(p): Ghost<int>) -> (v: &V)
        requires
            self.wf(),
            0 <= p < self.order().len(),
            self.order()[p] == slot,
        ensures
            *v == self.entries()[p].value,
    {
        assert(self.linked_at(p));
        let n = self.nodes[slot].as_ref().unwrap();
        &n.value
    }

    /// The expiry of the entry at position `p` (slot `slot`).
    pub fn expiry_at(&self, slot: usize, Ghost(p): Ghost<int>) -> (t: i128)
        requires
            self.wf(),
            0 <= p < self.order().len(),
            self.order()[p] == slot,
        ensures
            t == self.entries()[p].expires_at,
    {
        assert(self.linked_at(p));
        match &self.nodes[slot] {
            Some(n) => n.expires_at,
            None => 0,
        }
    }

    /// The slot at the head of the list, if it is not empty.
    pub fn head_slot(&self) -> (r: Option<usize>)
        requires
            self.wf(),
        ensures
            r is Some == (self.order().len() > 0),
            r is Some ==> r->0 == self.order()[0],
    {
        self.head
    }

    /// The slot at the tail of the list, if it is not empty.
    pub fn tail_slot(&self) -> (r: Option<usize>)
        requires
            self.wf(),
        ensures
            r is Some == (self.order().len() > 0),
            r is Some ==> r->0 == self.order()[self.order().len() - 1],
    {
        self.tail
    }

    /// Whether slot `slot` holds a listed entry.
    pub fn is_live(&self, slot: usize) -> (r: bool)
        requires
            self.wf(),
        ensures
            r == self.order().contains(slot),
    {
        let r = slot < self.nodes.len() && self.nodes[slot].is_some();
        proof {
            if self.order@.contains(slot) {
                let q = choose|q: int| 0 <= q < self.order@.len() && self.order@[q] == slot;
                assert(self.linked_at(q));
            }
            if r {
                assert(self.live(slot as int));
            }
        }
        r
    }

    /// Removes every entry and every slot.
    pub fn clear(&mut self)
        requires
            old(self).wf(),
        ensures
            final(self).wf(),
            final(self).entries() =~= Seq::<Entry<V>>::empty(),
    {
        index_clear(&mut self.map);
        self.nodes.clear();
        self.free_indices.clear();
        self.head = None;
        self.tail = None;
        self.order = Ghost(Seq::empty());
        assert(slots_of(self.map) =~= Map::empty());
    }
    /// The slot after position `p` (slot `slot`) in the list, if any.
    fn next_slot(&self, slot: usize, Ghost(p): Ghost<int>) -> (r: Option<usize>)
        requires
            self.wf(),
            0 <= p < self.order@.len(),
            self.order@[p] == slot,
        ensures
            r == next_of(self.order@, p),
    {
        assert(self.linked_at(p));
        match &self.nodes[slot] {
            Some(n) => n.next,
            None => None,
        }
    }

    /// Removes every entry that has expired at `now`; the others keep their
    /// order.
    pub fn purge_expired(&mut self, now: i128)
        requires
            old(self).wf(),
        ensures
            final(self).wf(),
            final(self).entries() == unexpired(old(self).entries(), now as int),
            final(self).order() == old(self).order().filter(
                |j: usize| !is_expired(old(self).slot_entry(j), now as int),
            ),
    {
        let ghost orig = self.entries();
        let ghost oo = self.order@;
        let ghost start = *self;
        let ghost keep = |j: usize| !is_expired(start.slot_entry(j), now as int);
        let ghost mut k: int = 0;
        let mut cur = self.head;
        proof {
            self.lemma_unique();
            self.lemma_slot_entries();
            assert(orig.take(0) =~= Seq::<Entry<V>>::empty());
            assert(oo.take(0) =~= Seq::<usize>::empty());
            reveal(Seq::filter);
            assert(self.entries() =~= unexpired(orig.take(0), now as int).add(
                orig.subrange(0, orig.len() as int),
            ));
            assert(self.order@ =~= oo.take(0).filter(keep).add(oo.subrange(0, oo.len() as int)));
        }
        while cur.is_some()
            invariant
                self.wf(),
                0 <= k <= orig.len(),
                orig.len() == oo.len(),
                forall|i: int| 0 <= i < oo.len() ==> #[trigger] orig[i] == start.slot_entry(oo[i]),
                keep == (|j: usize| !is_expired(start.slot_entry(j), now as int)),
                self.entries() == unexpired(orig.take(k), now as int).add(
                    orig.subrange(k, orig.len() as int),
                ),
                self.order@ == oo.take(k).filter(keep).add(oo.subrange(k, oo.len() as int)),
                cur is Some <==> k < orig.len(),
                cur is Some ==> self.order()[unexpired(orig.take(k), now as int).len() as int]
                    == cur->0,
            decreases orig.len() - k,
        {
            let slot = cur.unwrap();
            let ghost done = unexpired(orig.take(k), now as int);
            let ghost p = done.len() as int;
            proof {
                self.lemma_unique();
                lemma_unexpired_step(orig, k, now as int);
                assert(self.entries()[p] == orig[k]);
                assert(oo.take(k + 1) =~= oo.take(k).push(oo[k]));
                oo.take(k).lemma_filter_push(oo[k], keep);
                assert(keep(oo[k]) == !is_expired(orig[k], now as int));
                assert(oo.take(k).filter(keep).len() == p);
            }
            let next = self.next_slot(slot, Ghost(p));
            if self.expiry_at(slot, Ghost(p)) <= now {
                self.remove_at(slot, Ghost(p));
                proof {
                    assert(self.entries() =~= unexpired(orig.take(k + 1), now as int).add(
                        orig.subrange(k + 1, orig.len() as int),
                    ));
                    assert(self.order@ =~= oo.take(k + 1).filter(keep).add(
                        oo.subrange(k + 1, oo.len() as int),
                    ));
                }
            } else {
                proof {
                    assert(self.entries() =~= unexpired(orig.take(k + 1), now as int).add(
                        orig.subrange(k + 1, orig.len() as int),
                    ));
                    assert(self.order@ =~= oo.take(k + 1).filter(keep).add(
                        oo.subrange(k + 1, oo.len() as int),
                    ));
                }
            }
            cur = next;
            proof {
                k = k + 1;
                self.lemma_unique();
            }
        }
        proof {
            assert(orig.take(k) =~= orig);
            assert(oo.take(k) =~= oo);
            assert(self.entries() =~= unexpired(orig, now as int));
            assert(self.order@ =~= oo.filter(keep));
        }
    }
}

/// Filtering one more entry: the entry at position `k` is kept exactly when
/// it has not expired.
proof fn lemma_unexpired_step<V>(s: Seq<Entry<V>>, k: int, now: int)
    requires
        0 <= k < s.len(),
    ensures
        unexpired(s.take(k + 1), now) == (if is_expired(s[k], now) {
            unexpired(s.take(k), now)
        } else {
            unexpired(s.take(k), now).push(s[k])
        }),
{
    reveal(Seq::filter);
    assert(s.take(k + 1).drop_last() =~= s.take(k));
}

/// The entries of `s` without the one with key `k`, if there is one.
pub open spec fn remove_key<V>(s: Seq<Entry<V>>, k: Seq<char>) -> Seq<Entry<V>> {
    if has_key(s, k) {
        s.remove(key_pos(s, k))
    } else {
        s
    }
}

/// Whether `s` holds an entry with key `k` that has not expired at `now`.
pub open spec fn has_fresh<V>(s: Seq<Entry<V>>, k: Seq<char>, now: int) -> bool {
    has_key(s, k) && !is_expired(s[key_pos(s, k)], now)
}

/// What a lookup of `k` at `now` may hand back: a clone of the value of the
/// unexpired entry with that key, or nothing when there is none.
pub open spec fn lookup_outcome<V: Clone>(s: Seq<Entry<V>>, k: Seq<char>, now: int, r: Option<V>) -> bool {
    match r {
        Some(v) => has_fresh(s, k, now) && cloned(s[key_pos(s, k)].value, v),
        None => !has_fresh(s, k, now),
    }
}

/// The entries after a lookup of `k` at `now`: an expired entry with that
/// key is dropped; otherwise nothing changes.
pub open spec fn drop_if_expired<V>(s: Seq<Entry<V>>, k: Seq<char>, now: int) -> Seq<Entry<V>> {
    if has_key(s, k) && is_expired(s[key_pos(s, k)], now) {
        s.remove(key_pos(s, k))
    } else {
        s
    }
}

/// Whether an expiry can be computed from instant `now`: adding the longest
/// duration to it stays inside the range of `i128`. Every instant that the
/// clock hands out is such an instant.
pub open spec fn instant_ok(now: i128) -> bool {
    now as int + crate::clock::MAX_DURATION_NANOS as int <= i128::MAX as int
}

/// Dropping expired entries never adds any.
pub proof fn lemma_unexpired_len<V>(s: Seq<Entry<V>>, now: int)
    ensures
        unexpired(s, now).len() <= s.len(),
{
    s.lemma_filter_len(|e: Entry<V>| !is_expired(e, now));
}

} // verus!
