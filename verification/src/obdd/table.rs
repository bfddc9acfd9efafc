//! The concurrent hash tables holding the nodes of the diagrams.
//!
//! The manager keeps its nodes, its unique table and its `ite` cache in [DashMap]s. The items
//! below are the only places that touch them: each one makes a single call and states, over the
//! named contents of the table, what the call does.

use dashmap::DashMap;
use std::collections::hash_map::RandomState;
use vstd::prelude::*;

verus! {

#[verifier::external_type_specification]
#[verifier::external_body]
#[verifier::reject_recursive_types(K)]
#[verifier::reject_recursive_types(V)]
#[verifier::reject_recursive_types(S)]
pub struct ExDashMap<K, V, S>(DashMap<K, V, S>);

/// The contents of a node table: node identifier to `(variable, high child, low child)`.
pub uninterp spec fn node_entries(m: DashMap<u32, (u32, u32, u32), RandomState>) -> Map<
    u32,
    (u32, u32, u32),
>;

/// The contents of a table keyed by triples of identifiers.
pub uninterp spec fn triple_entries(m: DashMap<(u32, u32, u32), u32, RandomState>) -> Map<
    (u32, u32, u32),
    u32,
>;

/// `DashMap::new`: an empty node table.
#[verifier::external_body]
pub(crate) fn node_table_new() -> (r: DashMap<u32, (u32, u32, u32), RandomState>)
    ensures
        node_entries(r).dom().is_empty(),
{
    DashMap::new()
}

/// `DashMap::get`: the node stored under `key`, copied out of the table.
#[verifier::external_body]
pub(crate) fn node_table_get(m: &DashMap<u32, (u32, u32, u32), RandomState>, key: u32) -> (r:
    Option<(u32, u32, u32)>)
    ensures
        r == (if node_entries(*m).dom().contains(key) {
            Some(node_entries(*m)[key])
        } else {
            None
        }),
{
    m.get(&key).map(|e| *e.value())
}

/// `DashMap::insert`: store `value` under `key`, replacing any previous entry.
#[verifier::external_body]
pub(crate) fn node_table_insert(
    m: &mut DashMap<u32, (u32, u32, u32), RandomState>,
    key: u32,
    value: (u32, u32, u32),
)
    ensures
        node_entries(*final(m)) == node_entries(*old(m)).insert(key, value),
{
    m.insert(key, value);
}

/// `DashMap::remove`: drop the entry stored under `key`, if any.
#[verifier::external_body]
pub(crate) fn node_table_remove(m: &mut DashMap<u32, (u32, u32, u32), RandomState>, key: u32)
    ensures
        node_entries(*final(m)) == node_entries(*old(m)).remove(key),
{
    m.remove(&key);
}

/// `DashMap::iter`: the keys of the table, each once, in the table's own order.
#[verifier::external_body]
pub(crate) fn node_table_keys(m: &DashMap<u32, (u32, u32, u32), RandomState>) -> (r: Vec<u32>)
    ensures
        r@.no_duplicates(),
        forall|k: u32| node_entries(*m).dom().contains(k) <==> r@.contains(k),
{
    m.iter().map(|e| *e.key()).collect()
}

/// `DashMap::new`: an empty triple-keyed table.
#[verifier::external_body]
pub(crate) fn triple_table_new() -> (r: DashMap<(u32, u32, u32), u32, RandomState>)
    ensures
        triple_entries(r).dom().is_empty(),
{
    DashMap::new()
}

/// `DashMap::get`: the identifier stored under `key`, copied out of the table.
#[verifier::external_body]
pub(crate) fn triple_table_get(m: &DashMap<(u32, u32, u32), u32, RandomState>, key: (u32, u32, u32)) -> (r:
    Option<u32>)
    ensures
        r == (if triple_entries(*m).dom().contains(key) {
            Some(triple_entries(*m)[key])
        } else {
            None
        }),
{
    m.get(&key).map(|e| *e.value())
}

/// `DashMap::insert`: store `value` under `key`, replacing any previous entry.
#[verifier::external_body]
pub(crate) fn triple_table_insert(
    m: &mut DashMap<(u32, u32, u32), u32, RandomState>,
    key: (u32, u32, u32),
    value: u32,
)
    ensures
        triple_entries(*final(m)) == triple_entries(*old(m)).insert(key, value),
{
    m.insert(key, value);
}

/// `DashMap::remove`: drop the entry stored under `key`, if any.
#[verifier::external_body]
pub(crate) fn triple_table_remove(m: &mut DashMap<(u32, u32, u32), u32, RandomState>, key: (u32, u32, u32))
    ensures
        triple_entries(*final(m)) == triple_entries(*old(m)).remove(key),
{
    m.remove(&key);
}

/// `DashMap::clear`: drop every entry.
#[verifier::external_body]
pub(crate) fn triple_table_clear(m: &mut DashMap<(u32, u32, u32), u32, RandomState>)
    ensures
        triple_entries(*final(m)).dom().is_empty(),
{
    m.clear();
}

} // verus!
