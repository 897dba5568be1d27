//! The insertion-ordered map and set of the `indexmap` crate, keyed by `usize`.
use indexmap::IndexMap;
use indexmap::IndexSet;
use vstd::prelude::*;

use crate::model;

verus! {

/// `indexmap::IndexMap`, as an opaque type.
#[verifier::external_type_specification]
#[verifier::external_body]
#[verifier::reject_recursive_types(K)]
#[verifier::reject_recursive_types(V)]
#[verifier::reject_recursive_types(S)]
pub struct ExIndexMap<K, V, S>(IndexMap<K, V, S>);

/// `indexmap::IndexSet`, as an opaque type.
#[verifier::external_type_specification]
#[verifier::external_body]
#[verifier::reject_recursive_types(T)]
#[verifier::reject_recursive_types(S)]
pub struct ExIndexSet<T, S>(IndexSet<T, S>);

/// The items of a set, in the order in which it iterates over them.
pub uninterp spec fn set_items(set: IndexSet<usize>) -> Seq<usize>;

/// The entries of a map of sets, in the order in which it iterates over them, each with the
/// items of its set.
pub uninterp spec fn map_entries(map: IndexMap<usize, IndexSet<usize>>) -> Seq<
    (usize, Seq<usize>),
>;

/// `IndexMap::new`: the map has no entries.
#[verifier::external_body]
pub(crate) fn new_map() -> (map: IndexMap<usize, IndexSet<usize>>)
    ensures
        map_entries(map) == Seq::<(usize, Seq<usize>)>::empty(),
{
    IndexMap::new()
}

/// `IndexMap::len`: how many entries there are.
#[verifier::external_body]
pub(crate) fn map_len(map: &IndexMap<usize, IndexSet<usize>>) -> (len: usize)
    ensures
        len == map_entries(*map).len(),
{
    map.len()
}

/// `IndexMap::contains_key`: whether some entry has the key.
#[verifier::external_body]
pub(crate) fn map_contains_key(map: &IndexMap<usize, IndexSet<usize>>, key: usize) -> (found: bool)
    ensures
        found == model::has_node(map_entries(*map), key),
{
    map.contains_key(&key)
}

/// `IndexMap::get`: the set of the entry with the key, `None` where there is no such entry.
#[verifier::external_body]
pub(crate) fn map_get(map: &IndexMap<usize, IndexSet<usize>>, key: usize) -> (found: Option<
    &IndexSet<usize>,
>)
    ensures
        found is Some <==> model::has_node(map_entries(*map), key),
        found matches Some(set) ==> set_items(*set) == model::children(map_entries(*map), key),
{
    map.get(&key)
}

/// `IndexMap::keys`: the keys in order.
#[verifier::external_body]
pub(crate) fn map_keys(map: &IndexMap<usize, IndexSet<usize>>) -> (keys: Vec<usize>)
    ensures
        keys@ == model::nodes(map_entries(*map)),
{
    map.keys().copied().collect()
}

/// `IndexMap::entry` with `Entry::or_default`: a reference to the set of the entry with the
/// key. Where there is no such entry, one with an empty set is put at the end first. What is
/// done to the set through the reference changes this one entry.
#[verifier::external_body]
pub(crate) fn map_entry_or_default(
    map: &mut IndexMap<usize, IndexSet<usize>>,
    key: usize,
) -> (set: &mut IndexSet<usize>)
    ensures
        set_items(*set) == model::children(map_entries(*old(map)), key),
        map_entries(*final(map)) == ({
            let grown = model::with_node(map_entries(*old(map)), key);
            grown.update(model::position(grown, key), (key, set_items(*final(set))))
        }),
{
    map.entry(key).or_default()
}

/// `IndexSet::insert`: the item is put at the end, unless the set holds it already. Returns
/// whether it was put there.
#[verifier::external_body]
pub(crate) fn set_insert(set: &mut IndexSet<usize>, item: usize) -> (inserted: bool)
    ensures
        set_items(*final(set)) == model::with_item(set_items(*old(set)), item),
        inserted == !set_items(*old(set)).contains(item),
{
    set.insert(item)
}

/// `IndexSet::iter`: the items in order.
#[verifier::external_body]
pub(crate) fn set_values(set: &IndexSet<usize>) -> (items: Vec<usize>)
    ensures
        items@ == set_items(*set),
{
    set.iter().copied().collect()
}

/// `IndexMap::clone`: a map with the same entries in the same order.
#[verifier::external_body]
pub(crate) fn map_clone(map: &IndexMap<usize, IndexSet<usize>>) -> (copy: IndexMap<
    usize,
    IndexSet<usize>,
>)
    ensures
        map_entries(copy) == map_entries(*map),
{
    map.clone()
}

} // verus!
