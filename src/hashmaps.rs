//! The hash maps of `ahash` that the pools use to deduplicate, seen through
//! the map of keys to values that each holds.
use vstd::prelude::*;

verus! {

#[verifier::external_type_specification]
#[verifier::external_body]
#[verifier::reject_recursive_types(K)]
#[verifier::reject_recursive_types(V)]
#[verifier::reject_recursive_types(S)]
pub struct ExAHashMap<K, V, S>(ahash::AHashMap<K, V, S>);

#[verifier::external_type_specification]
#[verifier::external_body]
pub struct ExRandomState(ahash::RandomState);

/// Byte strings to the offsets at which a string pool holds them.
pub type StringIndexMap = ahash::AHashMap<Vec<u8>, u64>;

/// `(key, value)` string offsets to the position of their tag row.
pub type TagIndexMap = ahash::AHashMap<(u64, u64), u64>;

/// The entries that a string index holds.
pub uninterp spec fn string_entries(m: StringIndexMap) -> Map<Seq<u8>, u64>;

/// The entries that a tag index holds.
pub uninterp spec fn tag_entries(m: TagIndexMap) -> Map<(u64, u64), u64>;

/// Relies on `AHashMap::new`: the new map is empty.
#[verifier::external_body]
pub(crate) fn string_index_new() -> (r: StringIndexMap)
    ensures
        string_entries(r).dom().is_empty(),
{
    ahash::AHashMap::new()
}

/// Relies on `AHashMap::get`: the value stored under a key equal to `k`.
#[verifier::external_body]
pub(crate) fn string_index_get(m: &StringIndexMap, k: &[u8]) -> (r: Option<u64>)
    ensures
        r == (if string_entries(*m).dom().contains(k@) {
            Some(string_entries(*m)[k@])
        } else {
            None
        }),
{
    m.get(k).copied()
}

/// Relies on `AHashMap::insert`: `k` maps to `v` afterwards, all other keys
/// keep their values.
#[verifier::external_body]
pub(crate) fn string_index_insert(m: &mut StringIndexMap, k: Vec<u8>, v: u64)
    ensures
        string_entries(*final(m)) == string_entries(*old(m)).insert(k@, v),
{
    m.insert(k, v);
}

/// Relies on `AHashMap::new`: the new map is empty.
#[verifier::external_body]
pub(crate) fn tag_index_new() -> (r: TagIndexMap)
    ensures
        tag_entries(r).dom().is_empty(),
{
    ahash::AHashMap::new()
}

/// Relies on `AHashMap::get`: the value stored under the key `k`.
#[verifier::external_body]
pub(crate) fn tag_index_get(m: &TagIndexMap, k: (u64, u64)) -> (r: Option<u64>)
    ensures
        r == (if tag_entries(*m).dom().contains(k) {
            Some(tag_entries(*m)[k])
        } else {
            None
        }),
{
    m.get(&k).copied()
}

/// Relies on `AHashMap::insert`: `k` maps to `v` afterwards, all other keys
/// keep their values.
#[verifier::external_body]
pub(crate) fn tag_index_insert(m: &mut TagIndexMap, k: (u64, u64), v: u64)
    ensures
        tag_entries(*final(m)) == tag_entries(*old(m)).insert(k, v),
{
    m.insert(k, v);
}

} // verus!
