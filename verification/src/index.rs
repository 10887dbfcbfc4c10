//! What `rustc_hash::FxHashMap` does as a map from strings to numbers.

use rustc_hash::FxHashMap;
use vstd::prelude::*;

verus! {

/// The hasher state of the `rustc-hash` crate.
#[verifier::external_type_specification]
#[verifier::external_body]
pub struct ExFxBuildHasher(rustc_hash::FxBuildHasher);

/// A map from strings to numbers.
pub type Index = FxHashMap<String, u32>;

/// The entries of the map, by the characters of their keys.
pub uninterp spec fn entries(map: Index) -> Map<Seq<char>, u32>;

/// `FxHashMap::default`: a map without entries.
#[verifier::external_body]
pub(crate) fn empty() -> (map: Index)
    ensures
        (entries(map) == Map::<Seq<char>, u32>::empty()),
{
    FxHashMap::default()
}

/// `HashMap::get`: the value under `key`, if there is one.
#[verifier::external_body]
pub(crate) fn get(map: &Index, key: &str) -> (value: Option<u32>)
    ensures
        value == (if entries(*map).dom().contains(key@) {
            Some(entries(*map)[key@])
        } else {
            None
        }),
{
    map.get(key).copied()
}

/// `HashMap::insert`: puts `value` under `key` and hands back what stood there.
#[verifier::external_body]
pub(crate) fn insert(map: &mut Index, key: &str, value: u32) -> (previous: Option<u32>)
    ensures
        entries(*final(map)) == entries(*old(map)).insert(key@, value),
        previous == (if entries(*old(map)).dom().contains(key@) {
            Some(entries(*old(map))[key@])
        } else {
            None
        }),
{
    map.insert(key.to_owned(), value)
}

} // verus!
