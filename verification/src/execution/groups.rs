//! Fields grouped by their response key, in a map that keeps the order in which keys were added.
use indexmap::IndexMap;
use vstd::prelude::*;

use crate::ast::Name;
use crate::execution::executable::Field;
use crate::grouping;

verus! {

/// `indexmap::IndexMap`, of which nothing is known but what [`entries`] says.
#[verifier::external_type_specification]
#[verifier::external_body]
#[verifier::reject_recursive_types(K)]
#[verifier::reject_recursive_types(V)]
#[verifier::reject_recursive_types(S)]
pub struct ExIndexMap<K, V, S>(IndexMap<K, V, S>);

/// The entries of a map from response keys to fields, in the order of the map: the characters of
/// each key, and the fields under it in their order.
pub uninterp spec fn entries(map: IndexMap<&Name, Vec<&Field>>) -> Seq<(Seq<char>, Seq<Field>)>;

/// A map without entries.
///
/// Calls `IndexMap::new`, of which it claims that the map holds nothing.
#[verifier::external_body]
pub(crate) fn no_groups<'a>() -> (result: IndexMap<&'a Name, Vec<&'a Field>>)
    ensures
        entries(result) == Seq::<(Seq<char>, Seq<Field>)>::empty(),
{
    IndexMap::new()
}

/// The fields under a key, to be changed in place.
///
/// Calls `IndexMap::entry` and, on what it returns, `Entry::or_default`. It claims that a key that
/// the map holds keeps its place, and that its fields become what the caller leaves in the
/// reference; that a key which is not there is added last, with no fields at first; and that all
/// other entries stay as they are.
#[verifier::external_body]
pub(crate) fn group_of<'m, 'a>(map: &'m mut IndexMap<&'a Name, Vec<&'a Field>>, key: &'a Name) -> (group:
    &'m mut Vec<&'a Field>)
    ensures
        grouping::has_group(entries(*old(map)), key@) ==> {
            let i = grouping::group_index(entries(*old(map)), key@);
            &&& group@.unref() == entries(*old(map))[i].1
            &&& entries(*final(map)) == entries(*old(map)).update(i, (key@, final(group)@.unref()))
        },
        !grouping::has_group(entries(*old(map)), key@) ==> {
            &&& group@.unref() == Seq::<Field>::empty()
            &&& entries(*final(map)) == entries(*old(map)).push((key@, final(group)@.unref()))
        },
{
    map.entry(key).or_default()
}

/// The number of keys.
///
/// Calls `IndexMap::len`, of which it claims that it counts the entries.
#[verifier::external_body]
pub(crate) fn group_count(map: &IndexMap<&Name, Vec<&Field>>) -> (result: usize)
    ensures
        result == entries(*map).len(),
{
    map.len()
}

/// The key at a place of the map, and the fields under it.
///
/// Calls `IndexMap::get_index`, of which it claims that it returns the entry at that place of the
/// map's order, and nothing where the map has fewer entries.
#[verifier::external_body]
pub(crate) fn group_at<'m, 'a>(map: &'m IndexMap<&'a Name, Vec<&'a Field>>, index: usize) -> (result:
    Option<(&'m &'a Name, &'m Vec<&'a Field>)>)
    ensures
        match result {
            Some((key, fields)) => index < entries(*map).len() && entries(*map)[index as int] == (
                (**key)@,
                fields@.unref(),
            ),
            None => index >= entries(*map).len(),
        },
{
    map.get_index(index)
}

} // verus!
