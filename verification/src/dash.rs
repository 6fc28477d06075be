//! `dashmap::DashMap` from numbers to numbers, used by one owner at a time.

use dashmap::DashMap;
use vstd::prelude::*;

verus! {

/// The outside map.
#[verifier::external_type_specification]
#[verifier::external_body]
#[verifier::reject_recursive_types(K)]
#[verifier::reject_recursive_types(V)]
#[verifier::reject_recursive_types(S)]
pub struct ExDashMap<K, V, S>(dashmap::DashMap<K, V, S>);

/// The entries of a map.
pub uninterp spec fn dash_entries(map: DashMap<u64, u64>) -> Map<u64, u64>;

/// `DashMap::new`: a map without entries.
#[verifier::external_body]
pub(crate) fn dash_new() -> (r: DashMap<u64, u64>)
    ensures
        dash_entries(r).dom() == Set::<u64>::empty(),
{
    DashMap::new()
}

/// `DashMap::get`: the value of a key, if there is one.
#[verifier::external_body]
pub(crate) fn dash_get(map: &DashMap<u64, u64>, key: u64) -> (r: Option<u64>)
    ensures
        r.is_some() == dash_entries(*map).dom().contains(key),
        r matches Some(value) ==> value == dash_entries(*map)[key],
{
    map.get(&key).map(|entry| *entry)
}

/// `DashMap::insert`: gives a key a value.
#[verifier::external_body]
pub(crate) fn dash_insert(map: &mut DashMap<u64, u64>, key: u64, value: u64)
    ensures
        dash_entries(*final(map)) == dash_entries(*old(map)).insert(key, value),
{
    map.insert(key, value);
}

/// `DashMap::remove`: takes a key out.
#[verifier::external_body]
pub(crate) fn dash_remove(map: &mut DashMap<u64, u64>, key: u64)
    ensures
        dash_entries(*final(map)) == dash_entries(*old(map)).remove(key),
{
    map.remove(&key);
}

/// `DashMap::len`: the number of entries.
#[verifier::external_body]
pub(crate) fn dash_len(map: &DashMap<u64, u64>) -> (r: usize)
    ensures
        r == dash_entries(*map).dom().len(),
{
    map.len()
}

} // verus!
