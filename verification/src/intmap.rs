//! Hash maps and sets over integer keys that are already hashes.
//!
//! `nohash_hasher::IntMap` and `IntSet` are the standard collections with
//! a hasher that hands the key through. The standard library documents
//! what each operation does to the contents; the order in which the
//! contents are walked is not specified.

use nohash_hasher::{IntMap, IntSet, NoHashHasher};
use vstd::prelude::*;

verus! {

/// `core::hash::BuildHasherDefault`, carried as an opaque value.
#[verifier::external_type_specification]
#[verifier::external_body]
#[verifier::reject_recursive_types(H)]
pub struct ExBuildHasherDefault<H>(core::hash::BuildHasherDefault<H>);

/// `nohash_hasher::NoHashHasher`, carried as an opaque value.
#[verifier::external_type_specification]
#[verifier::external_body]
#[verifier::reject_recursive_types(T)]
pub struct ExNoHashHasher<T>(NoHashHasher<T>);

/// `IntMap::get`: the value under `key`, if there is one.
#[verifier::external_body]
pub(crate) fn map_get<V>(m: &IntMap<u64, V>, key: u64) -> (r: Option<&V>)
    ensures
        match r {
            Some(v) => m@.contains_key(key) && *v == m@[key],
            None => !m@.contains_key(key),
        },
{
    m.get(&key)
}

/// `IntMap::insert`: binds `key` to `value` and returns what it was bound
/// to before.
#[verifier::external_body]
pub(crate) fn map_insert<V>(m: &mut IntMap<u64, V>, key: u64, value: V) -> (r: Option<V>)
    ensures
        final(m)@ == old(m)@.insert(key, value),
        match r {
            Some(v) => old(m)@.contains_key(key) && v == old(m)@[key],
            None => !old(m)@.contains_key(key),
        },
{
    m.insert(key, value)
}

/// `IntMap::remove`: unbinds `key` and returns what it was bound to.
#[verifier::external_body]
pub(crate) fn map_remove<V>(m: &mut IntMap<u64, V>, key: u64) -> (r: Option<V>)
    ensures
        final(m)@ == old(m)@.remove(key),
        match r {
            Some(v) => old(m)@.contains_key(key) && v == old(m)@[key],
            None => !old(m)@.contains_key(key),
        },
{
    m.remove(&key)
}

/// `IntMap::drain`: empties the map and hands out its bindings, each
/// once, in no particular order.
#[verifier::external_body]
pub(crate) fn map_drain<V>(m: &mut IntMap<u64, V>) -> (r: Vec<(u64, V)>)
    ensures
        final(m)@.is_empty(),
        forall|i: int|
            0 <= i < r@.len() ==> old(m)@.contains_key((#[trigger] r@[i]).0) && old(m)@[r@[i].0]
                == r@[i].1,
        forall|i: int, j: int|
            0 <= i < j < r@.len() ==> (#[trigger] r@[i]).0 != (#[trigger] r@[j]).0,
        forall|k: u64| #[trigger]
            old(m)@.contains_key(k) ==> exists|i: int|
                0 <= i < r@.len() && (#[trigger] r@[i]).0 == k,
{
    m.drain().collect()
}

/// `IntMap::clear`: empties the map.
#[verifier::external_body]
pub(crate) fn map_clear<V>(m: &mut IntMap<u64, V>)
    ensures
        final(m)@.is_empty(),
{
    m.clear()
}

/// `IntSet::contains`: whether `key` is a member.
#[verifier::external_body]
pub(crate) fn set_contains(s: &IntSet<u64>, key: u64) -> (r: bool)
    ensures
        r == s@.contains(key),
{
    s.contains(&key)
}

/// `IntSet::insert`: adds `key`, and says whether it was new.
#[verifier::external_body]
pub(crate) fn set_insert(s: &mut IntSet<u64>, key: u64) -> (r: bool)
    ensures
        final(s)@ == old(s)@.insert(key),
        r == !old(s)@.contains(key),
{
    s.insert(key)
}

/// `IntSet::remove`: drops `key`, and says whether it was a member.
#[verifier::external_body]
pub(crate) fn set_remove(s: &mut IntSet<u64>, key: u64) -> (r: bool)
    ensures
        final(s)@ == old(s)@.remove(key),
        r == old(s)@.contains(key),
{
    s.remove(&key)
}

/// `IntSet::into_iter`: the members, each once, in no particular order.
#[verifier::external_body]
pub(crate) fn set_members(s: IntSet<u64>) -> (r: Vec<u64>)
    ensures
        r@.no_duplicates(),
        r@.to_set() == s@,
{
    s.into_iter().collect()
}

} // verus!
