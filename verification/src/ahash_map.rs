//! The hash map of the `ahash` crate, as the memo table uses it.
use vstd::prelude::*;
use ahash::{AHashMap, RandomState};
use crate::dp::{DPValue, MemoKey};

verus! {

/// The hash map type of `ahash`, opaque to the verifier.
#[verifier::external_type_specification]
#[verifier::external_body]
#[verifier::reject_recursive_types(K)]
#[verifier::reject_recursive_types(V)]
#[verifier::reject_recursive_types(S)]
pub struct ExAHashMap<K, V, S>(AHashMap<K, V, S>);

/// The default hasher builder of `ahash`, opaque to the verifier.
#[verifier::external_type_specification]
#[verifier::external_body]
pub struct ExRandomState(RandomState);

/// The entries of a memo map: the value stored under each key.
pub uninterp spec fn memo_map_contents(m: AHashMap<MemoKey, DPValue>) -> Map<
    MemoKey,
    DPValue,
>;

/// Calls `AHashMap::new`; the contract claims that the new map holds no entry.
#[verifier::external_body]
pub(crate) fn memo_map_new() -> (r: AHashMap<MemoKey, DPValue>)
    ensures
        memo_map_contents(r) =~= Map::empty(),
{
    AHashMap::new()
}

/// Calls `AHashMap::get` and copies the value out; the contract claims that
/// it finds a value exactly when the key has an entry, and that it is the
/// entry's value.
#[verifier::external_body]
pub(crate) fn memo_map_get(m: &AHashMap<MemoKey, DPValue>, k: &MemoKey) -> (r:
    Option<DPValue>)
    ensures
        r is Some <==> memo_map_contents(*m).dom().contains(*k),
        r matches Some(v) ==> v == memo_map_contents(*m)[*k],
{
    m.get(k).copied()
}

/// Calls `AHashMap::insert`; the contract claims that the key's entry
/// becomes `v`, that no other entry changes, and that the key's former value,
/// if there was one, comes back.
#[verifier::external_body]
pub(crate) fn memo_map_insert(
    m: &mut AHashMap<MemoKey, DPValue>,
    k: MemoKey,
    v: DPValue,
) -> (r: Option<DPValue>)
    ensures
        memo_map_contents(*final(m)) == memo_map_contents(*old(m)).insert(k, v),
        r is Some <==> memo_map_contents(*old(m)).dom().contains(k),
        r matches Some(o) ==> o == memo_map_contents(*old(m))[k],
{
    m.insert(k, v)
}

} // verus!
