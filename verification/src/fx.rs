//! Hash sets and maps under the Fx hasher.
//!
//! The contents of the collections are those that the standard library documents
//! for a key whose equality and hash agree, as those of the integers and of
//! strings do.

use rustc_hash::{FxHashMap, FxHashSet};
use std::hash::Hash;
use vstd::prelude::*;
use vstd::std_specs::hash::obeys_key_model;

verus! {

#[verifier::external_type_specification]
#[verifier::external_body]
pub struct ExFxBuildHasher(rustc_hash::FxBuildHasher);

/// `HashSet::insert` on a set under the Fx hasher: puts the value in and says
/// whether it was not there before.
#[verifier::external_body]
pub(crate) fn set_insert<K: Eq + Hash>(set: &mut FxHashSet<K>, value: K) -> (r: bool)
    requires
        obeys_key_model::<K>(),
    ensures
        final(set)@ == old(set)@.insert(value),
        r == !old(set)@.contains(value),
{
    set.insert(value)
}

/// `HashSet::contains` on a set under the Fx hasher: whether the value was put
/// in.
#[verifier::external_body]
pub(crate) fn set_contains<K: Eq + Hash>(set: &FxHashSet<K>, value: &K) -> (r: bool)
    requires
        obeys_key_model::<K>(),
    ensures
        r == set@.contains(*value),
{
    set.contains(value)
}

/// `HashMap::insert` on a map under the Fx hasher: binds the key to the value in
/// place of what it was bound to.
#[verifier::external_body]
pub(crate) fn map_insert<K: Eq + Hash, V>(map: &mut FxHashMap<K, V>, key: K, value: V)
    requires
        obeys_key_model::<K>(),
    ensures
        final(map)@ == old(map)@.insert(key, value),
{
    map.insert(key, value);
}

/// `HashMap::get` on a map under the Fx hasher: what the key is bound to.
#[verifier::external_body]
pub(crate) fn map_get<'a, K: Eq + Hash, V>(map: &'a FxHashMap<K, V>, key: &K) -> (r: Option<&'a V>)
    requires
        obeys_key_model::<K>(),
    ensures
        match r {
            Some(value) => map@.contains_key(*key) && *value == map@[*key],
            None => !map@.contains_key(*key),
        },
{
    map.get(key)
}

/// What a map from texts to places holds.
pub uninterp spec fn places_held(map: FxHashMap<String, usize>) -> Map<Seq<char>, usize>;

/// `HashMap::default` for a map from texts to places: nothing is bound.
#[verifier::external_body]
pub(crate) fn places_new() -> (r: FxHashMap<String, usize>)
    ensures
        places_held(r).dom() == Set::<Seq<char>>::empty(),
{
    FxHashMap::default()
}

/// `HashMap::insert` for a map from texts to places: binds the text to the place
/// in place of what it was bound to.
#[verifier::external_body]
pub(crate) fn places_insert(map: &mut FxHashMap<String, usize>, key: String, place: usize)
    ensures
        places_held(*final(map)) == places_held(*old(map)).insert(key@, place),
{
    map.insert(key, place);
}

/// `HashMap::get` for a map from texts to places: the place that the text is
/// bound to.
#[verifier::external_body]
pub(crate) fn places_get(map: &FxHashMap<String, usize>, key: &str) -> (r: Option<usize>)
    ensures
        match r {
            Some(place) => places_held(*map).contains_key(key@) && place == places_held(*map)[key@],
            None => !places_held(*map).contains_key(key@),
        },
{
    map.get(key).copied()
}

/// The nodes that a set holds, each by the hash of its workbook and its place.
pub uninterp spec fn keys_held(set: FxHashSet<(String, u32)>) -> Set<(Seq<char>, u32)>;

/// `HashSet::default` for a set of nodes: it holds none.
#[verifier::external_body]
pub(crate) fn keys_new() -> (r: FxHashSet<(String, u32)>)
    ensures
        keys_held(r).is_empty(),
{
    FxHashSet::default()
}

/// `HashSet::insert` for a set of nodes: puts the node in.
#[verifier::external_body]
pub(crate) fn keys_insert(set: &mut FxHashSet<(String, u32)>, workbook: String, node: u32)
    ensures
        keys_held(*final(set)) == keys_held(*old(set)).insert((workbook@, node)),
{
    set.insert((workbook, node));
}

/// `HashSet::contains` for a set of nodes: whether the node was put in.
#[verifier::external_body]
pub(crate) fn keys_contains(set: &FxHashSet<(String, u32)>, workbook: String, node: u32) -> (r: bool)
    ensures
        r == keys_held(*set).contains((workbook@, node)),
{
    set.contains(&(workbook, node))
}

/// `HashSet::is_empty` for a set of nodes: whether none was put in.
#[verifier::external_body]
pub(crate) fn keys_is_empty(set: &FxHashSet<(String, u32)>) -> (r: bool)
    ensures
        r == keys_held(*set).is_empty(),
{
    set.is_empty()
}

} // verus!
