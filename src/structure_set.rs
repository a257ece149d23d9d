//! Deduplicating sets of structures (ascending key sequences), held in
//! `ahash`'s hash set.
use vstd::prelude::*;

use ahash::AHashSet;

use crate::pair::P1KEY;

verus! {

/// ahash's hash set.
#[verifier::external_type_specification]
#[verifier::external_body]
#[verifier::reject_recursive_types(T)]
#[verifier::reject_recursive_types(S)]
pub struct ExAHashSet<T, S>(ahash::AHashSet<T, S>);

/// ahash's randomly seeded hasher builder.
#[verifier::external_type_specification]
#[verifier::external_body]
pub struct ExAhashRandomState(ahash::RandomState);

/// The structures a set holds.
pub uninterp spec fn structures_of(s: AHashSet<Vec<P1KEY>>) -> Set<Seq<P1KEY>>;

/// Relies on `AHashSet::new`: an empty set.
#[verifier::external_body]
pub fn structure_set_new() -> (r: AHashSet<Vec<P1KEY>>)
    ensures
        structures_of(r) == Set::<Seq<P1KEY>>::empty(),
{
    AHashSet::new()
}

/// Relies on `HashSet::insert` through `AHashSet`'s `DerefMut`: adds `v`.
#[verifier::external_body]
pub fn structure_set_insert(s: &mut AHashSet<Vec<P1KEY>>, v: Vec<P1KEY>)
    ensures
        structures_of(*final(s)) == structures_of(*old(s)).insert(v@),
{
    s.insert(v);
}

/// Relies on `HashSet::iter` through `AHashSet`'s `Deref`: a copy of every
/// structure, once each, in the set's own order.
#[verifier::external_body]
pub fn structure_set_to_vec(s: &AHashSet<Vec<P1KEY>>) -> (r: Vec<Vec<P1KEY>>)
    ensures
        r@.map_values(|v: Vec<P1KEY>| v@).to_set() == structures_of(*s),
        r@.map_values(|v: Vec<P1KEY>| v@).no_duplicates(),
{
    s.iter().cloned().collect()
}

/// Relies on `AHashSet`'s derived `Clone`: a set with the same structures.
#[verifier::external_body]
pub fn structure_set_clone(s: &AHashSet<Vec<P1KEY>>) -> (r: AHashSet<Vec<P1KEY>>)
    ensures
        structures_of(r) == structures_of(*s),
{
    s.clone()
}

} // verus!
