//! The index of the manifest cache: a concurrent map from digest to size and
//! last access.

use dashmap::DashMap;
use vstd::prelude::*;

verus! {

/// `dashmap::DashMap`, carried as it is.
#[verifier::external_type_specification]
#[verifier::external_body]
#[verifier::reject_recursive_types(K)]
#[verifier::reject_recursive_types(V)]
#[verifier::reject_recursive_types(S)]
pub struct ExDashMap<K, V, S>(DashMap<K, V, S>);

/// What the index holds: size and last access by digest.
pub uninterp spec fn index_contents(index: DashMap<[u8; 32], (u64, u64)>) -> Map<
    Seq<u8>,
    (u64, u64),
>;

/// Does `entries` hold every entry of `contents`, once, in any order?
pub open spec fn lists_index(
    contents: Map<Seq<u8>, (u64, u64)>,
    entries: Seq<([u8; 32], (u64, u64))>,
) -> bool {
    &&& forall|i: int|
        0 <= i < entries.len() ==> contents.contains_key((#[trigger] entries[i]).0@)
            && contents[entries[i].0@] == entries[i].1
    &&& forall|i: int, j: int|
        0 <= i < j < entries.len() ==> (#[trigger] entries[i]).0@ != (#[trigger] entries[j]).0@
    &&& forall|key: Seq<u8>| #[trigger]
        contents.contains_key(key) ==> exists|i: int|
            0 <= i < entries.len() && (#[trigger] entries[i]).0@ == key
}

/// An empty index. Calls `DashMap::new`.
#[verifier::external_body]
pub(crate) fn new_index() -> (index: DashMap<[u8; 32], (u64, u64)>)
    ensures
        index_contents(index).dom() == Set::<Seq<u8>>::empty(),
{
    DashMap::new()
}

/// Sets the entry of `key`, as `DashMap::insert` does: an earlier entry is
/// replaced, and the others stay.
#[verifier::external_body]
pub(crate) fn index_insert(
    index: &mut DashMap<[u8; 32], (u64, u64)>,
    key: [u8; 32],
    value: (u64, u64),
)
    ensures
        index_contents(*final(index)) == index_contents(*old(index)).insert(key@, value),
{
    index.insert(key, value);
}

/// Removes the entry of `key`, as `DashMap::remove` does, and returns it if
/// there was one.
#[verifier::external_body]
pub(crate) fn index_remove(index: &mut DashMap<[u8; 32], (u64, u64)>, key: &[u8; 32]) -> (res:
    Option<(u64, u64)>)
    ensures
        index_contents(*final(index)) == index_contents(*old(index)).remove(key@),
        res is Some <==> index_contents(*old(index)).contains_key(key@),
        res matches Some(value) ==> value == index_contents(*old(index))[key@],
{
    index.remove(key).map(|entry| entry.1)
}

/// The entry of `key`, if there is one. Calls `DashMap::get`.
#[verifier::external_body]
pub(crate) fn index_get(index: &DashMap<[u8; 32], (u64, u64)>, key: &[u8; 32]) -> (res: Option<
    (u64, u64),
>)
    ensures
        res is Some <==> index_contents(*index).contains_key(key@),
        res matches Some(value) ==> value == index_contents(*index)[key@],
{
    index.get(key).map(|entry| *entry.value())
}

/// Every entry, once, in an order that is left open. Calls `DashMap::iter`.
#[verifier::external_body]
pub(crate) fn index_entries(index: &DashMap<[u8; 32], (u64, u64)>) -> (entries: Vec<
    ([u8; 32], (u64, u64)),
>)
    ensures
        lists_index(index_contents(*index), entries@),
{
    index.iter().map(|entry| (*entry.key(), *entry.value())).collect()
}

/// How many entries there are. Calls `DashMap::len`.
#[verifier::external_body]
pub(crate) fn index_len(index: &DashMap<[u8; 32], (u64, u64)>) -> (len: usize)
    ensures
        len == index_contents(*index).dom().len(),
{
    index.len()
}

} // verus!
