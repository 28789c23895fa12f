//! The `ahash` hash maps that index the pool graph, seen through what they hold.
use vstd::prelude::*;
use ahash::{AHashMap, RandomState};
use crate::types::Address;

verus! {

#[verifier::external_type_specification]
#[verifier::external_body]
#[verifier::reject_recursive_types(K)]
#[verifier::reject_recursive_types(V)]
#[verifier::reject_recursive_types(S)]
pub struct ExAHashMap<K, V, S>(AHashMap<K, V, S>);

#[verifier::external_type_specification]
#[verifier::external_body]
pub struct ExRandomState(RandomState);

/// What a map from addresses to indices holds.
pub uninterp spec fn address_index_map(m: AHashMap<Address, usize>) -> Map<Address, usize>;

/// What a map from indices to index lists holds.
pub uninterp spec fn index_list_map(m: AHashMap<usize, Vec<usize>>) -> Map<usize, Seq<usize>>;

/// What a map from indices to addresses holds.
pub uninterp spec fn index_address_map(m: AHashMap<usize, Address>) -> Map<usize, Address>;

/// Calls `AHashMap::with_capacity`. Claimed: the new map holds nothing.
/// Left unsaid: std's `HashMap` under it stops the program where a table for
/// `capacity` entries cannot be allocated.
#[verifier::external_body]
pub(crate) fn address_index_new(capacity: usize) -> (r: AHashMap<Address, usize>)
    ensures
        address_index_map(r).dom().is_empty(),
{
    AHashMap::with_capacity(capacity)
}

/// Calls `AHashMap::get`. Claimed: the result is the value held for the
/// key, and `None` where the key is absent.
#[verifier::external_body]
pub(crate) fn address_index_get(m: &AHashMap<Address, usize>, k: &Address) -> (r: Option<usize>)
    ensures
        r == address_index_map(*m).get(*k),
{
    m.get(k).copied()
}

/// Calls `AHashMap::insert`. Claimed: afterwards the key maps to the value
/// and every other key keeps its value; the result is the value replaced.
#[verifier::external_body]
pub(crate) fn address_index_insert(m: &mut AHashMap<Address, usize>, k: Address, v: usize) -> (r:
    Option<usize>)
    ensures
        address_index_map(*final(m)) == address_index_map(*old(m)).insert(k, v),
        r == address_index_map(*old(m)).get(k),
{
    m.insert(k, v)
}

/// Calls `AHashMap::with_capacity`. Claimed: the new map holds nothing.
/// Left unsaid: std's `HashMap` under it stops the program where a table for
/// `capacity` entries cannot be allocated.
#[verifier::external_body]
pub(crate) fn index_list_new(capacity: usize) -> (r: AHashMap<usize, Vec<usize>>)
    ensures
        index_list_map(r).dom().is_empty(),
{
    AHashMap::with_capacity(capacity)
}

/// Calls `AHashMap::get`. Claimed: the result is the list held for the key,
/// and `None` where the key is absent.
#[verifier::external_body]
pub(crate) fn index_list_get<'a>(m: &'a AHashMap<usize, Vec<usize>>, k: usize) -> (r: Option<
    &'a Vec<usize>,
>)
    ensures
        match r {
            Some(v) => index_list_map(*m).contains_key(k) && v@ == index_list_map(*m)[k],
            None => !index_list_map(*m).contains_key(k),
        },
{
    m.get(&k)
}

/// Calls `AHashMap::insert`. Claimed: afterwards the key maps to the list
/// and every other key keeps its list.
#[verifier::external_body]
pub(crate) fn index_list_insert(m: &mut AHashMap<usize, Vec<usize>>, k: usize, v: Vec<usize>)
    ensures
        index_list_map(*final(m)) == index_list_map(*old(m)).insert(k, v@),
{
    m.insert(k, v);
}

/// Calls `AHashMap::remove`. Claimed: afterwards the key is absent and every
/// other key keeps its list; the result is the list removed.
#[verifier::external_body]
pub(crate) fn index_list_remove(m: &mut AHashMap<usize, Vec<usize>>, k: usize) -> (r: Option<
    Vec<usize>,
>)
    ensures
        index_list_map(*final(m)) == index_list_map(*old(m)).remove(k),
        match r {
            Some(v) => index_list_map(*old(m)).contains_key(k) && v@ == index_list_map(*old(m))[k],
            None => !index_list_map(*old(m)).contains_key(k),
        },
{
    m.remove(&k)
}

/// Calls `AHashMap::with_capacity`. Claimed: the new map holds nothing.
/// Left unsaid: std's `HashMap` under it stops the program where a table for
/// `capacity` entries cannot be allocated.
#[verifier::external_body]
pub(crate) fn index_address_new(capacity: usize) -> (r: AHashMap<usize, Address>)
    ensures
        index_address_map(r).dom().is_empty(),
{
    AHashMap::with_capacity(capacity)
}

/// Calls `AHashMap::get`. Claimed: the result is the address held for the
/// key, and `None` where the key is absent.
#[verifier::external_body]
pub(crate) fn index_address_get<'a>(m: &'a AHashMap<usize, Address>, k: usize) -> (r: Option<
    &'a Address,
>)
    ensures
        match r {
            Some(a) => index_address_map(*m).contains_key(k) && *a == index_address_map(*m)[k],
            None => !index_address_map(*m).contains_key(k),
        },
{
    m.get(&k)
}

/// Calls `AHashMap::insert`. Claimed: afterwards the key maps to the address
/// and every other key keeps its address.
#[verifier::external_body]
pub(crate) fn index_address_insert(m: &mut AHashMap<usize, Address>, k: usize, v: Address)
    ensures
        index_address_map(*final(m)) == index_address_map(*old(m)).insert(k, v),
{
    m.insert(k, v);
}

/// Calls `Clone::clone` of `AHashMap` (std's `HashMap::clone` under it).
/// Claimed: the copy holds the same entries.
#[verifier::external_body]
pub(crate) fn address_index_clone(m: &AHashMap<Address, usize>) -> (r: AHashMap<Address, usize>)
    ensures
        address_index_map(r) == address_index_map(*m),
{
    m.clone()
}

/// Calls `Clone::clone` of `AHashMap`. Claimed: the copy holds the same
/// entries, each list copied item for item.
#[verifier::external_body]
pub(crate) fn index_list_clone(m: &AHashMap<usize, Vec<usize>>) -> (r: AHashMap<usize, Vec<usize>>)
    ensures
        index_list_map(r) == index_list_map(*m),
{
    m.clone()
}

/// Calls `Clone::clone` of `AHashMap`. Claimed: the copy holds the same entries.
#[verifier::external_body]
pub(crate) fn index_address_clone(m: &AHashMap<usize, Address>) -> (r: AHashMap<usize, Address>)
    ensures
        index_address_map(r) == index_address_map(*m),
{
    m.clone()
}

} // verus!
