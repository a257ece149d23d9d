//! Sets and maps keyed by packed integers, hashed by `nohash_hasher`'s identity
//! hasher. The operations used here are std's `HashSet` and `HashMap` methods;
//! each states over the collection's view what std documents of it.
use vstd::prelude::*;

use nohash_hasher::{IntMap, IntSet};

verus! {

/// std's hasher builder, which `IntSet` and `IntMap` use with `NoHashHasher`.
#[verifier::external_type_specification]
#[verifier::external_body]
#[verifier::reject_recursive_types(H)]
pub struct ExBuildHasherDefault<H>(std::hash::BuildHasherDefault<H>);

/// nohash_hasher's identity hasher for integer keys.
#[verifier::external_type_specification]
#[verifier::external_body]
#[verifier::reject_recursive_types(T)]
pub struct ExNoHashHasher<T>(nohash_hasher::NoHashHasher<T>);

/// Relies on `HashSet::insert`: adds `k`, and answers whether it was new.
#[verifier::external_body]
pub fn int_set_insert(s: &mut IntSet<u32>, k: u32) -> (r: bool)
    ensures
        final(s)@ == old(s)@.insert(k),
        r == !old(s)@.contains(k),
{
    s.insert(k)
}

/// Relies on `HashSet::contains`: whether `k` is in the set.
#[verifier::external_body]
pub fn int_set_contains(s: &IntSet<u32>, k: u32) -> (r: bool)
    ensures
        r == s@.contains(k),
{
    s.contains(&k)
}

/// Relies on `HashSet::len`: the number of keys.
#[verifier::external_body]
pub fn int_set_len(s: &IntSet<u32>) -> (r: usize)
    ensures
        r == s@.len(),
{
    s.len()
}

/// Relies on `HashSet::iter`: every key once, in the set's own order.
#[verifier::external_body]
pub fn int_set_keys(s: &IntSet<u32>) -> (r: Vec<u32>)
    ensures
        r@.to_set() == s@,
        r@.no_duplicates(),
{
    s.iter().copied().collect()
}

/// Relies on `HashMap::get`: the value stored under `k`, if any.
#[verifier::external_body]
pub fn int_map_get<V>(m: &IntMap<u32, V>, k: u32) -> (r: Option<&V>)
    ensures
        m@.contains_key(k) ==> r == Some(&m@[k]),
        !m@.contains_key(k) ==> r is None,
{
    m.get(&k)
}

/// Relies on `HashMap::contains_key`: whether a value is stored under `k`.
#[verifier::external_body]
pub fn int_map_contains_key<V>(m: &IntMap<u32, V>, k: u32) -> (r: bool)
    ensures
        r == m@.contains_key(k),
{
    m.contains_key(&k)
}

/// Relies on `HashMap::insert`: stores `v` under `k`, replacing what was there.
#[verifier::external_body]
pub fn int_map_insert<V>(m: &mut IntMap<u32, V>, k: u32, v: V)
    ensures
        final(m)@ == old(m)@.insert(k, v),
{
    m.insert(k, v);
}

/// Relies on `HashMap::remove`: takes out the value stored under `k`, if any.
#[verifier::external_body]
pub fn int_map_remove<V>(m: &mut IntMap<u32, V>, k: u32) -> (r: Option<V>)
    ensures
        final(m)@ == old(m)@.remove(k),
        old(m)@.contains_key(k) ==> r == Some(old(m)@[k]),
        !old(m)@.contains_key(k) ==> r is None,
{
    m.remove(&k)
}

/// Relies on `HashMap::keys`: every key once, in the map's own order.
#[verifier::external_body]
pub fn int_map_keys<V>(m: &IntMap<u32, V>) -> (r: Vec<u32>)
    ensures
        r@.to_set() == m@.dom(),
        r@.no_duplicates(),
{
    m.keys().copied().collect()
}

} // verus!
