//! Hash maps and hash sets with the hasher of the `rustc-hash` crate.
use std::collections::{HashMap, HashSet};

use rustc_hash::FxBuildHasher;
use vstd::prelude::*;

verus! {

/// What makes the hashers of the `rustc-hash` crate.
#[verifier::external_type_specification]
#[verifier::external_body]
pub struct ExFxBuildHasher(FxBuildHasher);

pub type FxMap<V> = HashMap<u128, V, FxBuildHasher>;

pub type FxSet = HashSet<u64, FxBuildHasher>;

/// `HashMap::with_hasher` makes an empty map. `FxBuildHasher` hashes an integer as a function
/// of the integer alone.
#[verifier::external_body]
pub(crate) fn map_new<V>() -> (map: FxMap<V>)
    ensures
        map@ == (Map::<u128, V>::empty()),
{
    HashMap::with_hasher(FxBuildHasher)
}

/// `HashMap::get` finds the value under a key.
#[verifier::external_body]
pub(crate) fn map_get<V>(map: &FxMap<V>, key: u128) -> (value: Option<&V>)
    ensures
        value is Some == map@.contains_key(key),
        value matches Some(v) ==> *v == map@[key],
{
    map.get(&key)
}

/// `HashMap::contains_key` says whether there is a value under a key.
#[verifier::external_body]
pub(crate) fn map_contains<V>(map: &FxMap<V>, key: u128) -> (found: bool)
    ensures
        found == map@.contains_key(key),
{
    map.contains_key(&key)
}

/// `HashMap::insert` puts a value under a key and gives back what was there.
#[verifier::external_body]
pub(crate) fn map_insert<V>(map: &mut FxMap<V>, key: u128, value: V) -> (previous: Option<V>)
    ensures
        final(map)@ == old(map)@.insert(key, value),
        previous is Some == old(map)@.contains_key(key),
        previous matches Some(v) ==> v == old(map)@[key],
{
    map.insert(key, value)
}

/// `HashMap::remove` takes out the value under a key.
#[verifier::external_body]
pub(crate) fn map_remove<V>(map: &mut FxMap<V>, key: u128) -> (previous: Option<V>)
    ensures
        final(map)@ == old(map)@.remove(key),
        previous is Some == old(map)@.contains_key(key),
        previous matches Some(v) ==> v == old(map)@[key],
{
    map.remove(&key)
}

/// `HashMap::is_empty` says whether there is no key.
#[verifier::external_body]
pub(crate) fn map_is_empty<V>(map: &FxMap<V>) -> (empty: bool)
    ensures
        empty == (forall|key: u128| !(#[trigger] map@.contains_key(key))),
{
    map.is_empty()
}

/// `HashMap::clear` takes everything out.
#[verifier::external_body]
pub(crate) fn map_clear<V>(map: &mut FxMap<V>)
    ensures
        final(map)@ == (Map::<u128, V>::empty()),
{
    map.clear()
}

/// `HashMap::keys` gives every key once. In what order it does is open.
#[verifier::external_body]
pub(crate) fn map_keys<V>(map: &FxMap<V>) -> (keys: Vec<u128>)
    ensures
        keys@.no_duplicates(),
        forall|key: u128| #[trigger] keys@.contains(key) <==> map@.contains_key(key),
{
    map.keys().copied().collect()
}

/// Whether a number is the number of the keys of a map.
pub open spec fn counts_keys<V>(map: Map<u128, V>, len: usize) -> bool {
    map.dom().finite() && map.dom().len() == len
}

/// `HashMap::len` gives the number of keys.
#[verifier::external_body]
pub(crate) fn map_len<V>(map: &FxMap<V>) -> (len: usize)
    ensures
        counts_keys(map@, len),
{
    map.len()
}

/// Whether a list gives every entry of a map once.
pub open spec fn lists_map<V>(entries: Seq<(u128, V)>, map: Map<u128, V>) -> bool {
    &&& forall|i: int|
        0 <= i < entries.len() ==> map.contains_key((#[trigger] entries[i]).0)
            && map[entries[i].0] == entries[i].1
    &&& forall|i: int, j: int|
        0 <= i < j < entries.len() ==> (#[trigger] entries[i]).0 != (#[trigger] entries[j]).0
    &&& forall|key: u128| #[trigger]
        map.contains_key(key) ==> exists|i: int|
            0 <= i < entries.len() && (#[trigger] entries[i]).0 == key
}

/// `HashMap::into_iter` gives every entry once. In what order it does is open.
#[verifier::external_body]
pub(crate) fn map_into_entries<V>(map: FxMap<V>) -> (entries: Vec<(u128, V)>)
    ensures
        lists_map(entries@, map@),
{
    map.into_iter().collect()
}

/// `HashSet::with_hasher` makes an empty set.
#[verifier::external_body]
pub(crate) fn set_new() -> (set: FxSet)
    ensures
        set@ == Set::<u64>::empty(),
{
    HashSet::with_hasher(FxBuildHasher)
}

/// `HashSet::insert` adds a number and says whether it was new.
#[verifier::external_body]
pub(crate) fn set_insert(set: &mut FxSet, key: u64) -> (added: bool)
    ensures
        final(set)@ == old(set)@.insert(key),
        added == !old(set)@.contains(key),
{
    set.insert(key)
}

/// `HashSet::contains` says whether a number is in the set.
#[verifier::external_body]
pub(crate) fn set_contains(set: &FxSet, key: u64) -> (found: bool)
    ensures
        found == set@.contains(key),
{
    set.contains(&key)
}

} // verus!
