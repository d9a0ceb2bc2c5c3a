//! The map from a pair of moves in a position to its outcomes.

use dashmap::DashMap;
use vstd::prelude::*;

verus! {

/// The concurrent map `DashMap` of dashmap.
#[verifier::external_type_specification]
#[verifier::external_body]
#[verifier::reject_recursive_types(K)]
#[verifier::reject_recursive_types(V)]
#[verifier::reject_recursive_types(S)]
pub struct ExDashMap<K, V, S>(DashMap<K, V, S>);

/// What a map holds: for a position and the two moves, where the outcomes
/// start and how many there are.
pub uninterp spec fn branches(map: DashMap<(usize, usize, usize), (usize, usize)>) -> Map<
    (usize, usize, usize),
    (usize, usize),
>;

/// `DashMap::with_capacity` of dashmap: a map that holds nothing.
#[verifier::external_body]
pub(crate) fn empty_map(capacity: usize) -> (r: DashMap<(usize, usize, usize), (usize, usize)>)
    requires
        capacity <= 65536,
    ensures
        forall|k| !branches(r).contains_key(k),
{
    DashMap::with_capacity(capacity)
}

/// `DashMap::get` of dashmap, with the value copied out: what is held under
/// the key, if anything.
#[verifier::external_body]
pub(crate) fn look_up(
    map: &DashMap<(usize, usize, usize), (usize, usize)>,
    key: (usize, usize, usize),
) -> (r: Option<(usize, usize)>)
    ensures
        match r {
            Some(value) => branches(*map).contains_key(key) && branches(*map)[key] == value,
            None => !branches(*map).contains_key(key),
        },
{
    map.get(&key).map(|entry| *entry)
}

/// `DashMap::entry` of dashmap and `Entry::or_insert` on what it gives, with
/// the value copied out: what is held under the key stays, and `value` is
/// held if nothing was.
#[verifier::external_body]
pub(crate) fn get_or_insert(
    map: &mut DashMap<(usize, usize, usize), (usize, usize)>,
    key: (usize, usize, usize),
    value: (usize, usize),
) -> (r: (usize, usize))
    ensures
        branches(*old(map)).contains_key(key) ==> r == branches(*old(map))[key] && branches(
            *final(map),
        ) == branches(*old(map)),
        !branches(*old(map)).contains_key(key) ==> r == value && branches(*final(map)) == branches(
            *old(map),
        ).insert(key, value),
{
    *map.entry(key).or_insert(value)
}

} // verus!
