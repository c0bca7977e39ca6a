//! The concurrent maps that the context keeps its bookkeeping in.
//!
//! The maps are `dashmap::DashMap`s. Verus does not look inside them: what
//! each holds is given a name here, and each method that the crate calls gets
//! a small function whose contract states, over that name, what the method's
//! documentation promises. Those contracts are believed, not proved.

use crate::node::NodeId;
use dashmap::DashMap;
use vstd::prelude::*;

verus! {

/// `dashmap::DashMap`, taken as it is: Verus sees nothing inside a value of it.
#[verifier::external_type_specification]
#[verifier::external_body]
#[verifier::reject_recursive_types(K)]
#[verifier::reject_recursive_types(V)]
#[verifier::reject_recursive_types(S)]
pub struct ExDashMap<K, V, S>(DashMap<K, V, S>);

/// The entries of a map from handles to numbers.
pub uninterp spec fn ids_of(m: DashMap<NodeId, u64>) -> Map<NodeId, u64>;

/// The entries of a map from a parent and a key to the keyed child.
pub uninterp spec fn keys_of(m: DashMap<(NodeId, String), NodeId>) -> Map<
    (NodeId, Seq<char>),
    NodeId,
>;

/// `DashMap::new`: a map without entries.
#[verifier::external_body]
pub(crate) fn id_map_new() -> (m: DashMap<NodeId, u64>)
    ensures
        ids_of(m).dom() == Set::<NodeId>::empty(),
{
    DashMap::new()
}

/// `DashMap::get`: the value stored under `key`, where there is one. The
/// reference that the map hands out is dropped before the function returns.
#[verifier::external_body]
pub(crate) fn id_map_get(m: &DashMap<NodeId, u64>, key: NodeId) -> (r: Option<u64>)
    ensures
        r == if ids_of(*m).contains_key(key) {
            Some(ids_of(*m)[key])
        } else {
            None::<u64>
        },
{
    m.get(&key).map(|entry| *entry.value())
}

/// `DashMap::insert`: `key` maps to `value` afterwards, all other entries
/// stay; returns the value that `key` had.
#[verifier::external_body]
pub(crate) fn id_map_insert(m: &mut DashMap<NodeId, u64>, key: NodeId, value: u64) -> (r: Option<
    u64,
>)
    ensures
        ids_of(*final(m)) == ids_of(*old(m)).insert(key, value),
        r == if ids_of(*old(m)).contains_key(key) {
            Some(ids_of(*old(m))[key])
        } else {
            None::<u64>
        },
{
    m.insert(key, value)
}

/// `DashMap::remove`: `key` has no entry afterwards, all other entries stay;
/// returns the value that `key` had.
#[verifier::external_body]
pub(crate) fn id_map_remove(m: &mut DashMap<NodeId, u64>, key: NodeId) -> (r: Option<u64>)
    ensures
        ids_of(*final(m)) == ids_of(*old(m)).remove(key),
        r == if ids_of(*old(m)).contains_key(key) {
            Some(ids_of(*old(m))[key])
        } else {
            None::<u64>
        },
{
    m.remove(&key).map(|entry| entry.1)
}

/// `DashMap::clear`: no entry is left.
#[verifier::external_body]
pub(crate) fn id_map_clear(m: &mut DashMap<NodeId, u64>)
    ensures
        ids_of(*final(m)).dom() == Set::<NodeId>::empty(),
{
    m.clear()
}

/// `DashMap::new`: a map without entries.
#[verifier::external_body]
pub(crate) fn key_map_new() -> (m: DashMap<(NodeId, String), NodeId>)
    ensures
        keys_of(m).dom() == Set::<(NodeId, Seq<char>)>::empty(),
{
    DashMap::new()
}

/// `DashMap::get`: the child stored under `parent` and `key`, where there is
/// one.
#[verifier::external_body]
pub(crate) fn key_map_get(m: &DashMap<(NodeId, String), NodeId>, parent: NodeId, key: &str) -> (r:
    Option<NodeId>)
    ensures
        r == if keys_of(*m).contains_key((parent, key@)) {
            Some(keys_of(*m)[(parent, key@)])
        } else {
            None::<NodeId>
        },
{
    m.get(&(parent, key.to_string())).map(|entry| *entry.value())
}

/// `DashMap::insert`: `parent` and `key` map to `child` afterwards, all other
/// entries stay.
#[verifier::external_body]
pub(crate) fn key_map_insert(
    m: &mut DashMap<(NodeId, String), NodeId>,
    parent: NodeId,
    key: &str,
    child: NodeId,
)
    ensures
        keys_of(*final(m)) == keys_of(*old(m)).insert((parent, key@), child),
{
    m.insert((parent, key.to_string()), child);
}

/// Whether an entry records `child` as a keyed child of `parent`.
pub open spec fn names_child(
    entry_parent: NodeId,
    entry_child: NodeId,
    parent: NodeId,
    child: NodeId,
) -> bool {
    entry_parent == parent && entry_child == child
}

/// Whether an entry stays when `child` is forgotten as a keyed child of
/// `parent`: every entry does but those that record just that.
pub fn keeps_entry(entry_parent: NodeId, entry_child: NodeId, parent: NodeId, child: NodeId) -> (r:
    bool)
    ensures
        r == !names_child(entry_parent, entry_child, parent, child),
{
    !(entry_parent == parent && entry_child == child)
}

/// `DashMap::retain` with [`keeps_entry`] as the test: exactly the entries
/// that pass it are left, with their values.
#[verifier::external_body]
pub(crate) fn key_map_forget(
    m: &mut DashMap<(NodeId, String), NodeId>,
    parent: NodeId,
    child: NodeId,
)
    ensures
        forall|k: (NodeId, Seq<char>)| #[trigger]
            keys_of(*final(m)).contains_key(k) <==> keys_of(*old(m)).contains_key(k)
                && !names_child(k.0, keys_of(*old(m))[k], parent, child),
        forall|k: (NodeId, Seq<char>)| #[trigger]
            keys_of(*final(m)).contains_key(k) ==> keys_of(*final(m))[k] == keys_of(*old(m))[k],
{
    m.retain(|k, v| keeps_entry(k.0, *v, parent, child));
}

} // verus!
