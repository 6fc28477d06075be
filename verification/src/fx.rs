//! The rustc-hash map that the eviction planner indexes its plan with.

use rustc_hash::{FxBuildHasher, FxHashMap};
use vstd::prelude::*;

verus! {

/// `rustc_hash::FxBuildHasher`, the hasher of [`FxHashMap`].
#[verifier::external_type_specification]
#[verifier::external_body]
pub struct ExFxBuildHasher(FxBuildHasher);

/// What an index map holds.
pub uninterp spec fn fx_entries(map: FxHashMap<u128, usize>) -> Map<u128, usize>;

/// `FxHashMap::default`: a map without entries.
#[verifier::external_body]
pub(crate) fn fx_new() -> (map: FxHashMap<u128, usize>)
    ensures
        fx_entries(map).dom() == Set::<u128>::empty(),
{
    FxHashMap::default()
}

/// `HashMap::get`: the value stored under a key. The hasher is deterministic and
/// integer equality is exact, so the map behaves as a mathematical map.
#[verifier::external_body]
pub(crate) fn fx_get(map: &FxHashMap<u128, usize>, key: u128) -> (r: Option<usize>)
    ensures
        match r {
            Some(value) => fx_entries(*map).dom().contains(key) && fx_entries(*map)[key] == value,
            None => !fx_entries(*map).dom().contains(key),
        },
{
    map.get(&key).copied()
}

/// `HashMap::insert`: stores a value under a key, over any value it had.
#[verifier::external_body]
pub(crate) fn fx_insert(map: &mut FxHashMap<u128, usize>, key: u128, value: usize)
    ensures
        fx_entries(*final(map)) == fx_entries(*old(map)).insert(key, value),
{
    map.insert(key, value);
}

} // verus!
