//! The hash-based structures of ahash that the caches keep their keys in.
//!
//! Keys are `String`s. `String` compares and hashes by its characters, so a
//! key is identified with its view, the sequence of its characters.
use vstd::prelude::*;
use ahash::{AHashMap, AHashSet, RandomState};

verus! {

#[verifier::external_type_specification]
#[verifier::external_body]
#[verifier::reject_recursive_types(K)]
#[verifier::reject_recursive_types(V)]
#[verifier::reject_recursive_types(S)]
pub struct ExAHashMap<K, V, S>(AHashMap<K, V, S>);

#[verifier::external_type_specification]
#[verifier::external_body]
#[verifier::reject_recursive_types(T)]
#[verifier::reject_recursive_types(S)]
pub struct ExAHashSet<T, S>(AHashSet<T, S>);

#[verifier::external_type_specification]
#[verifier::external_body]
pub struct ExRandomState(RandomState);

/// A map from keys to the slots that hold their entries.
pub type KeyIndex = AHashMap<String, usize>;

/// A set of keys.
pub type KeySet = AHashSet<String>;

/// What a key index holds: for each key, the slot it is stored in.
pub uninterp spec fn slots_of(m: KeyIndex) -> Map<Seq<char>, usize>;

/// What a set of keys holds.
pub uninterp spec fn members_of(s: KeySet) -> Set<Seq<char>>;

/// `KeyIndex::default()`: an empty map.
#[verifier::external_body]
pub(crate) fn index_new() -> (m: KeyIndex)
    ensures
        slots_of(m).is_empty(),
{
    KeyIndex::default()
}

/// `AHashMap::get`: the slot stored under `key`, if any.
#[verifier::external_body]
pub(crate) fn index_get(m: &KeyIndex, key: &str) -> (r: Option<usize>)
    ensures
        r == (if slots_of(*m).contains_key(key@) {
            Some(slots_of(*m)[key@])
        } else {
            None::<usize>
        }),
{
    m.get(key).copied()
}

/// `HashMap::contains_key` (through `Deref`): whether `key` is stored.
#[verifier::external_body]
pub(crate) fn index_contains(m: &KeyIndex, key: &str) -> (r: bool)
    ensures
        r == slots_of(*m).contains_key(key@),
{
    m.contains_key(key)
}

/// `AHashMap::insert`: stores `slot` under `key`, replacing what was there.
#[verifier::external_body]
pub(crate) fn index_insert(m: &mut KeyIndex, key: String, slot: usize)
    ensures
        slots_of(*final(m)) == slots_of(*old(m)).insert(key@, slot),
{
    m.insert(key, slot);
}

/// `AHashMap::remove`: drops `key` and what was stored under it.
#[verifier::external_body]
pub(crate) fn index_remove(m: &mut KeyIndex, key: &str)
    ensures
        slots_of(*final(m)) == slots_of(*old(m)).remove(key@),
{
    m.remove(key);
}

/// `HashMap::len` (through `Deref`): the number of keys stored.
#[verifier::external_body]
pub(crate) fn index_len(m: &KeyIndex) -> (n: usize)
    ensures
        n == slots_of(*m).len(),
{
    m.len()
}

/// `HashMap::clear` (through `DerefMut`): removes every key.
#[verifier::external_body]
pub(crate) fn index_clear(m: &mut KeyIndex)
    ensures
        slots_of(*final(m)).is_empty(),
{
    m.clear();
}

/// `KeySet::new()`: an empty set.
#[verifier::external_body]
pub(crate) fn set_new() -> (s: KeySet)
    ensures
        members_of(s) == Set::<Seq<char>>::empty(),
{
    KeySet::new()
}

/// `HashSet::insert` (through `DerefMut`): adds `key`.
#[verifier::external_body]
pub(crate) fn set_insert(s: &mut KeySet, key: String)
    ensures
        members_of(*final(s)) == members_of(*old(s)).insert(key@),
{
    s.insert(key);
}

/// `HashSet::remove` (through `DerefMut`): drops `key`.
#[verifier::external_body]
pub(crate) fn set_remove(s: &mut KeySet, key: &str)
    ensures
        members_of(*final(s)) == members_of(*old(s)).remove(key@),
{
    s.remove(key);
}

/// `HashSet::is_empty` (through `Deref`): whether the set has no member.
#[verifier::external_body]
pub(crate) fn set_is_empty(s: &KeySet) -> (r: bool)
    ensures
        r == (members_of(*s) =~= Set::<Seq<char>>::empty()),
{
    s.is_empty()
}

/// `HashSet::iter` and `Iterator::next`: the first member in the set's
/// iteration order, cloned. That order depends on the hasher's random seed,
/// so all that is claimed is that a member comes back exactly when there is
/// one.
#[verifier::external_body]
pub(crate) fn set_first(s: &KeySet) -> (r: Option<String>)
    ensures
        match r {
            Some(k) => members_of(*s).contains(k@),
            None => members_of(*s) =~= Set::<Seq<char>>::empty(),
        },
{
    s.iter().next().cloned()
}

/// `ahash::RandomState::new()`: a hasher builder with fresh random seeds.
#[verifier::external_body]
pub(crate) fn hasher_new() -> RandomState {
    RandomState::new()
}

/// `RandomState::hash_one`: the hash of `key` under this builder's seeds.
/// The seeds are random and the hash function depends on the machine, so
/// nothing is claimed of the number.
#[verifier::external_body]
pub(crate) fn hash_key(h: &RandomState, key: &str) -> u64 {
    h.hash_one(key)
}

} // verus!
