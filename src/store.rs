//! The item store and the match store: concurrent maps from id to record.
use crate::types::{Item, MatchPair};
use dashmap::DashMap;
use vstd::prelude::*;

verus! {

#[verifier::external_type_specification]
#[verifier::external_body]
#[verifier::reject_recursive_types(K)]
#[verifier::reject_recursive_types(V)]
#[verifier::reject_recursive_types(S)]
pub struct ExDashMap<K, V, S>(DashMap<K, V, S>);

/// Items by id.
pub type ItemStore = DashMap<String, Item>;

/// Match pairs by id.
pub type MatchStore = DashMap<String, MatchPair>;

/// What an item store holds.
pub uninterp spec fn item_entries(m: ItemStore) -> Map<Seq<char>, Item>;

/// What a match store holds.
pub uninterp spec fn match_entries(m: MatchStore) -> Map<Seq<char>, MatchPair>;

/// Relies on `DashMap::new`: the new map is empty.
#[verifier::external_body]
pub(crate) fn item_store_new() -> (r: ItemStore)
    ensures
        item_entries(r).dom() == Set::<Seq<char>>::empty(),
{
    DashMap::new()
}

/// Relies on `DashMap::insert`: the key maps to the value afterwards, in place
/// of any value it had.
#[verifier::external_body]
pub(crate) fn item_store_insert(m: &mut ItemStore, key: String, value: Item)
    ensures
        item_entries(*final(m)) == item_entries(*old(m)).insert(key@, value),
{
    m.insert(key, value);
}

/// Relies on `DashMap::get`: a copy of the value under the key, if there is one.
#[verifier::external_body]
pub(crate) fn item_store_get(m: &ItemStore, key: &str) -> (r: Option<Item>)
    ensures
        r is Some <==> item_entries(*m).contains_key(key@),
        r matches Some(v) ==> v == item_entries(*m)[key@],
{
    m.get(key).map(|e| e.value().clone())
}

/// Relies on `DashMap::iter`: each entry once, as copies of its key and value,
/// in an order that the map chooses.
#[verifier::external_body]
pub(crate) fn item_store_entries(m: &ItemStore) -> (r: Vec<(String, Item)>)
    ensures
        r@.len() == item_entries(*m).dom().len(),
        forall|i: int|
            0 <= i < r@.len() ==> item_entries(*m).contains_key(#[trigger] r@[i].0@)
                && item_entries(*m)[r@[i].0@] == r@[i].1,
        forall|i: int, j: int| 0 <= i < j < r@.len() ==> r@[i].0@ != r@[j].0@,
        forall|k: Seq<char>|
            #[trigger] item_entries(*m).contains_key(k) ==> exists|i: int|
                0 <= i < r@.len() && r@[i].0@ == k,
{
    m.iter().map(|e| (e.key().clone(), e.value().clone())).collect()
}

/// Relies on `DashMap::new`: the new map is empty.
#[verifier::external_body]
pub(crate) fn match_store_new() -> (r: MatchStore)
    ensures
        match_entries(r).dom() == Set::<Seq<char>>::empty(),
{
    DashMap::new()
}

/// Relies on `DashMap::insert`: the key maps to the value afterwards, in place
/// of any value it had.
#[verifier::external_body]
pub(crate) fn match_store_insert(m: &mut MatchStore, key: String, value: MatchPair)
    ensures
        match_entries(*final(m)) == match_entries(*old(m)).insert(key@, value),
{
    m.insert(key, value);
}

/// Relies on `DashMap::get`: a copy of the value under the key, if there is one.
#[verifier::external_body]
pub(crate) fn match_store_get(m: &MatchStore, key: &str) -> (r: Option<MatchPair>)
    ensures
        r is Some <==> match_entries(*m).contains_key(key@),
        r matches Some(v) ==> v == match_entries(*m)[key@],
{
    m.get(key).map(|e| e.value().clone())
}

/// Relies on `DashMap::iter`: each entry once, as copies of its key and value,
/// in an order that the map chooses.
#[verifier::external_body]
pub(crate) fn match_store_entries(m: &MatchStore) -> (r: Vec<(String, MatchPair)>)
    ensures
        r@.len() == match_entries(*m).dom().len(),
        forall|i: int|
            0 <= i < r@.len() ==> match_entries(*m).contains_key(#[trigger] r@[i].0@)
                && match_entries(*m)[r@[i].0@] == r@[i].1,
        forall|i: int, j: int| 0 <= i < j < r@.len() ==> r@[i].0@ != r@[j].0@,
        forall|k: Seq<char>|
            #[trigger] match_entries(*m).contains_key(k) ==> exists|i: int|
                0 <= i < r@.len() && r@[i].0@ == k,
{
    m.iter().map(|e| (e.key().clone(), e.value().clone())).collect()
}

/// Relies on `DashMap`'s `Clone`: a separate map with the same entries.
#[verifier::external_body]
pub(crate) fn match_store_copy(m: &MatchStore) -> (r: MatchStore)
    ensures
        match_entries(r) == match_entries(*m),
{
    m.clone()
}

} // verus!
