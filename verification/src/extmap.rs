//! Trusted surface over the hash map of the `ahash` crate.  The engine keys
//! it by packed configurations to test membership in constant time during
//! the exhaustive searches, and to index per-configuration metadata.

use vstd::prelude::*;

verus! {

#[verifier::external_type_specification]
#[verifier::external_body]
#[verifier::reject_recursive_types(K)]
#[verifier::reject_recursive_types(V)]
#[verifier::reject_recursive_types(S)]
pub struct ExAHashMap<K, V, S>(ahash::AHashMap<K, V, S>);

#[verifier::external_type_specification]
#[verifier::external_body]
pub struct ExRandomState(ahash::RandomState);

/// The engine's index type: packed configuration to metadata slot.
pub type PackedMap = ahash::AHashMap<u128, usize>;

/// The entries that a `PackedMap` holds, as a map of plain values.
pub uninterp spec fn map_entries(m: PackedMap) -> Map<u128, usize>;

/// Relies on `ahash::AHashMap::new`: it creates an empty map.
#[verifier::external_body]
pub(crate) fn map_new() -> (r: PackedMap)
    ensures
        forall|k: u128| !map_entries(r).dom().contains(k),
{
    ahash::AHashMap::new()
}

/// Relies on `ahash::AHashMap::insert`, which forwards to
/// `std::collections::HashMap::insert`: it maps the key to the value and
/// keeps every other entry.
#[verifier::external_body]
pub(crate) fn map_insert(m: &mut PackedMap, k: u128, v: usize)
    ensures
        map_entries(*final(m)) == map_entries(*old(m)).insert(k, v),
{
    m.insert(k, v);
}

/// Relies on `ahash::AHashMap::get`, which forwards to
/// `std::collections::HashMap::get`: it returns the value stored for the
/// key, or nothing when the key is absent.
#[verifier::external_body]
pub(crate) fn map_get(m: &PackedMap, k: u128) -> (r: Option<usize>)
    ensures
        r == if map_entries(*m).dom().contains(k) {
            Some(map_entries(*m)[k])
        } else {
            None::<usize>
        },
{
    m.get(&k).copied()
}

/// Relies on `std::collections::HashMap::contains_key`, reached through
/// `ahash::AHashMap`'s `Deref` to the std map: it reports whether the key
/// has an entry.
#[verifier::external_body]
pub(crate) fn map_contains(m: &PackedMap, k: u128) -> (r: bool)
    ensures
        r == map_entries(*m).dom().contains(k),
{
    m.contains_key(&k)
}

} // verus!
