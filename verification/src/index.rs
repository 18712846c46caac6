//! Trusted bindings to the sharded concurrent index of the `dashmap`
//! crate.
//!
//! The in-memory side of every collection is a `DashMap` (or `DashSet`)
//! keyed and valued by plain byte vectors. The two `uninterp` functions
//! below name what such an index holds — a map, or a set, of byte
//! strings — and each binding states over that name what the crate's own
//! source shows the call does. Nothing else in this crate is taken on
//! trust about the index.

use vstd::prelude::*;

use crate::log::empty_map_state;

verus! {

#[verifier::external_type_specification]
#[verifier::external_body]
#[verifier::reject_recursive_types(K)]
#[verifier::reject_recursive_types(V)]
#[verifier::reject_recursive_types(S)]
pub struct ExDashMap<K, V, S>(dashmap::DashMap<K, V, S>);

#[verifier::external_type_specification]
#[verifier::external_body]
#[verifier::reject_recursive_types(K)]
#[verifier::reject_recursive_types(S)]
pub struct ExDashSet<K, S>(dashmap::DashSet<K, S>);

/// A byte-keyed, byte-valued sharded map.
pub type ByteMap = dashmap::DashMap<Vec<u8>, Vec<u8>, std::collections::hash_map::RandomState>;

/// A sharded set of byte strings.
pub type ByteSet = dashmap::DashSet<Vec<u8>, std::collections::hash_map::RandomState>;

/// The key-value pairs a sharded map holds, as a map of byte strings.
pub uninterp spec fn map_index_entries(m: ByteMap) -> Map<Seq<u8>, Seq<u8>>;



/// The byte strings a sharded set holds.
pub uninterp spec fn set_index_entries(s: ByteSet) -> Set<Seq<u8>>;

/// Relies on dashmap::DashMap::new: a fresh map holds nothing.
#[verifier::external_body]
pub(crate) fn map_index_new() -> (m: ByteMap)
    ensures
        map_index_entries(m) == empty_map_state(),
{
    dashmap::DashMap::new()
}

/// Relies on dashmap::DashMap::with_capacity_and_shard_amount: a fresh,
/// pre-sized map holds nothing; the call asserts that the shard amount is
/// a power of two greater than one.
#[verifier::external_body]
pub(crate) fn map_index_with_capacity_and_shard_amount(capacity: usize, shard_amount: usize) -> (m:
    ByteMap)
    requires
        shard_amount >= 2,
        shard_amount & ((shard_amount - 1) as usize) == 0,
    ensures
        map_index_entries(m) == empty_map_state(),
{
    dashmap::DashMap::with_capacity_and_shard_amount(capacity, shard_amount)
}

/// Relies on dashmap::DashMap::insert: binds the key to the value and
/// returns the value it replaced, if the key was bound.
#[verifier::external_body]
pub(crate) fn map_index_insert(m: &mut ByteMap, key: Vec<u8>, value: Vec<u8>) -> (r: Option<
    Vec<u8>,
>)
    ensures
        map_index_entries(*final(m)) == map_index_entries(*old(m)).insert(key@, value@),
        r matches Some(v) ==> map_index_entries(*old(m)).dom().contains(key@) && v@
            == map_index_entries(*old(m))[key@],
        r is None ==> !map_index_entries(*old(m)).dom().contains(key@),
{
    m.insert(key, value)
}

/// Relies on dashmap::DashMap::get: hands back the value bound to the
/// key, if any; the binding clones it out of the shard guard.
#[verifier::external_body]
pub(crate) fn map_index_get(m: &ByteMap, key: &Vec<u8>) -> (r: Option<Vec<u8>>)
    ensures
        r matches Some(v) ==> map_index_entries(*m).dom().contains(key@) && v@
            == map_index_entries(*m)[key@],
        r is None ==> !map_index_entries(*m).dom().contains(key@),
{
    m.get(key).map(|g| g.value().clone())
}

/// Relies on dashmap::DashMap::remove: unbinds the key and returns the
/// stored key and value, if the key was bound.
#[verifier::external_body]
pub(crate) fn map_index_remove(m: &mut ByteMap, key: &Vec<u8>) -> (r: Option<(Vec<u8>, Vec<u8>)>)
    ensures
        map_index_entries(*final(m)) == map_index_entries(*old(m)).remove(key@),
        r matches Some(p) ==> map_index_entries(*old(m)).dom().contains(key@) && p.0@ == key@
            && p.1@ == map_index_entries(*old(m))[key@],
        r is None ==> !map_index_entries(*old(m)).dom().contains(key@),
{
    m.remove(key)
}

/// Relies on dashmap::DashMap::len: the number of keys, summed over the
/// shards.
#[verifier::external_body]
pub(crate) fn map_index_len(m: &ByteMap) -> (r: usize)
    ensures
        r == map_index_entries(*m).dom().len(),
{
    m.len()
}

/// Relies on dashmap::DashMap::is_empty: true exactly when no shard holds
/// a key.
#[verifier::external_body]
pub(crate) fn map_index_is_empty(m: &ByteMap) -> (r: bool)
    ensures
        r == (map_index_entries(*m).dom().len() == 0),
{
    m.is_empty()
}

/// Relies on dashmap::DashMap::clear: unbinds every key.
#[verifier::external_body]
pub(crate) fn map_index_clear(m: &mut ByteMap)
    ensures
        map_index_entries(*final(m)) == empty_map_state(),
{
    m.clear()
}

/// Relies on dashmap::DashMap::capacity: how many pairs the shards can
/// hold without reallocating; the allocator decides, so nothing is
/// promised of the number.
#[verifier::external_body]
pub(crate) fn map_index_capacity(m: &ByteMap) -> usize {
    m.capacity()
}

/// Relies on dashmap::DashMap::iter: visits every pair exactly once, in
/// no promised order; the binding clones each pair out.
#[verifier::external_body]
pub(crate) fn map_index_pairs(m: &ByteMap) -> (r: Vec<(Vec<u8>, Vec<u8>)>)
    ensures
        r@.len() == map_index_entries(*m).dom().len(),
        forall|i: int|
            0 <= i < r@.len() ==> map_index_entries(*m).contains_pair(
                #[trigger] r@[i].0@,
                r@[i].1@,
            ),
        forall|k: Seq<u8>|
            map_index_entries(*m).dom().contains(k) ==> exists|i: int|
                0 <= i < r@.len() && #[trigger] r@[i].0@ == k,
        forall|i: int, j: int| 0 <= i < j < r@.len() ==> r@[i].0@ != r@[j].0@,
{
    m.iter().map(|e| (e.key().clone(), e.value().clone())).collect()
}

/// Relies on dashmap::DashSet::new: a fresh set holds nothing.
#[verifier::external_body]
pub(crate) fn set_index_new() -> (s: ByteSet)
    ensures
        set_index_entries(s) == Set::<Seq<u8>>::empty(),
{
    dashmap::DashSet::new()
}

/// Relies on dashmap::DashSet::with_capacity: a fresh, pre-sized set
/// holds nothing.
#[verifier::external_body]
pub(crate) fn set_index_with_capacity(capacity: usize) -> (s: ByteSet)
    ensures
        set_index_entries(s) == Set::<Seq<u8>>::empty(),
{
    dashmap::DashSet::with_capacity(capacity)
}

/// Relies on dashmap::DashSet::insert: puts the key in and returns true
/// exactly when the key was not there.
#[verifier::external_body]
pub(crate) fn set_index_insert(s: &mut ByteSet, key: Vec<u8>) -> (r: bool)
    ensures
        set_index_entries(*final(s)) == set_index_entries(*old(s)).insert(key@),
        r == !set_index_entries(*old(s)).contains(key@),
{
    s.insert(key)
}

/// Relies on dashmap::DashSet::get: hands back the stored key equal to
/// the one asked for, if it is in the set; the binding clones it out of
/// the shard guard.
#[verifier::external_body]
pub(crate) fn set_index_get(s: &ByteSet, key: &Vec<u8>) -> (r: Option<Vec<u8>>)
    ensures
        r matches Some(k) ==> set_index_entries(*s).contains(key@) && k@ == key@,
        r is None ==> !set_index_entries(*s).contains(key@),
{
    s.get(key).map(|g| g.key().clone())
}

/// Relies on dashmap::DashSet::remove: takes the key out and returns the
/// stored key, if it was in the set.
#[verifier::external_body]
pub(crate) fn set_index_remove(s: &mut ByteSet, key: &Vec<u8>) -> (r: Option<Vec<u8>>)
    ensures
        set_index_entries(*final(s)) == set_index_entries(*old(s)).remove(key@),
        r matches Some(k) ==> set_index_entries(*old(s)).contains(key@) && k@ == key@,
        r is None ==> !set_index_entries(*old(s)).contains(key@),
{
    s.remove(key)
}

/// Relies on dashmap::DashSet::len: the number of keys, summed over the
/// shards.
#[verifier::external_body]
pub(crate) fn set_index_len(s: &ByteSet) -> (r: usize)
    ensures
        r == set_index_entries(*s).len(),
{
    s.len()
}

/// Relies on dashmap::DashSet::is_empty: true exactly when no shard
/// holds a key.
#[verifier::external_body]
pub(crate) fn set_index_is_empty(s: &ByteSet) -> (r: bool)
    ensures
        r == (set_index_entries(*s).len() == 0),
{
    s.is_empty()
}

/// Relies on dashmap::DashSet::clear: takes every key out.
#[verifier::external_body]
pub(crate) fn set_index_clear(s: &mut ByteSet)
    ensures
        set_index_entries(*final(s)) == Set::<Seq<u8>>::empty(),
{
    s.clear()
}

/// Relies on dashmap::DashSet::capacity: how many keys the shards can
/// hold without reallocating; the allocator decides, so nothing is
/// promised of the number.
#[verifier::external_body]
pub(crate) fn set_index_capacity(s: &ByteSet) -> usize {
    s.capacity()
}

/// Relies on dashmap::DashSet::iter: visits every key exactly once, in no
/// promised order; the binding clones each key out.
#[verifier::external_body]
pub(crate) fn set_index_keys(s: &ByteSet) -> (r: Vec<Vec<u8>>)
    ensures
        r@.len() == set_index_entries(*s).len(),
        forall|i: int| 0 <= i < r@.len() ==> set_index_entries(*s).contains(#[trigger] r@[i]@),
        forall|k: Seq<u8>|
            set_index_entries(*s).contains(k) ==> exists|i: int|
                0 <= i < r@.len() && #[trigger] r@[i]@ == k,
        forall|i: int, j: int| 0 <= i < j < r@.len() ==> r@[i]@ != r@[j]@,
{
    s.iter().map(|e| e.key().clone()).collect()
}

} // verus!
