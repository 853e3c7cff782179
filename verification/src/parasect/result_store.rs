use vstd::prelude::*;

use crate::parasect::types::ParasectPayloadResult;
use dashmap::DashMap;

verus! {

/// The map type of the `dashmap` crate, which stores each point's result.
#[verifier::external_type_specification]
#[verifier::external_body]
#[verifier::reject_recursive_types(K)]
#[verifier::reject_recursive_types(V)]
#[verifier::reject_recursive_types(S)]
pub struct ExDashMap<K, V, S>(dashmap::DashMap<K, V, S>);

/// The entries of a `DashMap` of results, keyed by point.
pub uninterp spec fn stored_results(m: DashMap<i64, ParasectPayloadResult>) -> Map<
    i64,
    ParasectPayloadResult,
>;

/// Makes an empty map with `DashMap::new`, whose documentation says it creates an empty map.
#[verifier::external_body]
pub(crate) fn new_result_store() -> (store: DashMap<i64, ParasectPayloadResult>)
    ensures
        stored_results(store).dom() == Set::<i64>::empty(),
{
    DashMap::new()
}

/// Stores `value` under `key` with `DashMap::insert`, which replaces any earlier value of the
/// key and leaves the other entries alone. Exclusive access makes the change the only one.
#[verifier::external_body]
pub(crate) fn store_result(m: &mut DashMap<i64, ParasectPayloadResult>, key: i64, value: ParasectPayloadResult)
    ensures
        stored_results(*final(m)) == stored_results(*old(m)).insert(key, value),
{
    m.insert(key, value);
}

/// Reads a copy of the value stored under `key` with `DashMap::get`, which finds the entry of
/// the key if there is one; the value is cloned out of the returned guard.
#[verifier::external_body]
pub(crate) fn lookup_result(m: &DashMap<i64, ParasectPayloadResult>, key: i64) -> (r: Option<
    ParasectPayloadResult,
>)
    ensures
        r == (if stored_results(*m).contains_key(key) {
            Some(stored_results(*m)[key])
        } else {
            None
        }),
{
    match m.get(&key) {
        Some(entry) => Some(entry.value().clone()),
        None => None,
    }
}

/// Takes the entry of `key` out of the map with `DashMap::remove`, which returns the key and
/// value if the key was present.
#[verifier::external_body]
pub(crate) fn take_result(m: &mut DashMap<i64, ParasectPayloadResult>, key: i64) -> (r: Option<
    (i64, ParasectPayloadResult),
>)
    ensures
        stored_results(*final(m)) == stored_results(*old(m)).remove(key),
        r == (if stored_results(*old(m)).contains_key(key) {
            Some((key, stored_results(*old(m))[key]))
        } else {
            None
        }),
{
    m.remove(&key)
}

/// Consumes the map with `DashMap::into_iter`, which yields each entry once, in an order
/// that depends on the hashing; the entries are collected into a vector.
#[verifier::external_body]
pub(crate) fn drain_results(m: DashMap<i64, ParasectPayloadResult>) -> (v: Vec<(i64, ParasectPayloadResult)>)
    ensures
        v@.len() == stored_results(m).dom().len(),
        forall|i: int| 0 <= i < v@.len() ==> stored_results(m).contains_key(#[trigger] v@[i].0)
            && stored_results(m)[v@[i].0] == v@[i].1,
        forall|i: int, j: int| 0 <= i < j < v@.len() ==> (#[trigger] v@[i]).0 != (#[trigger] v@[j]).0,
        forall|k: i64| #[trigger] stored_results(m).contains_key(k) ==> exists|i: int|
            0 <= i < v@.len() && (#[trigger] v@[i]).0 == k,
{
    m.into_iter().collect()
}

} // verus!
