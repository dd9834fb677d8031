//! The hash maps of `rustc_hash` that the builder and the engine keep.

use vstd::prelude::*;
use rustc_hash::{FxBuildHasher, FxHashMap};
use crate::charset::{CharSet, CharSetView};
use crate::types::{NodeView, RegexNode, RegexNodeId};

verus! {

#[verifier::external_type_specification]
#[verifier::external_body]
pub struct ExFxBuildHasher(FxBuildHasher);

/// What a map of interned nodes holds: from a node, by its view, to its id.
/// Two nodes are equal under their derived `==` exactly when their views are
/// equal, which is why the contents can be keyed by views.
pub uninterp spec fn interned_nodes(
    m: FxHashMap<RegexNode<CharSet>, RegexNodeId>,
) -> Map<NodeView<CharSetView>, RegexNodeId>;

/// `FxHashMap::default` for interned nodes: the map starts empty.
#[verifier::external_body]
pub(crate) fn node_map_new() -> (m: FxHashMap<RegexNode<CharSet>, RegexNodeId>)
    ensures
        forall|k: NodeView<CharSetView>| !(#[trigger] interned_nodes(m).contains_key(k)),
{
    FxHashMap::default()
}

/// `FxHashMap::get` for interned nodes: the id of a node equal to `node`, if
/// one was interned.
#[verifier::external_body]
pub(crate) fn node_map_get(
    m: &FxHashMap<RegexNode<CharSet>, RegexNodeId>,
    node: &RegexNode<CharSet>,
) -> (r: Option<RegexNodeId>)
    ensures
        r is Some == interned_nodes(*m).contains_key(node@),
        r matches Some(id) ==> id == interned_nodes(*m)[node@],
{
    m.get(node).copied()
}

/// `FxHashMap::insert` for interned nodes: afterwards `node` maps to `id`.
#[verifier::external_body]
pub(crate) fn node_map_insert(
    m: &mut FxHashMap<RegexNode<CharSet>, RegexNodeId>,
    node: RegexNode<CharSet>,
    id: RegexNodeId,
)
    ensures
        interned_nodes(*final(m)) == interned_nodes(*old(m)).insert(node@, id),
{
    m.insert(node, id);
}

/// `FxHashMap::default` on a map keyed by node ids: the map starts empty.
#[verifier::external_body]
pub(crate) fn id_map_new<V>() -> (m: FxHashMap<RegexNodeId, V>)
    ensures
        forall|k: RegexNodeId| !(#[trigger] m@.contains_key(k)),
{
    FxHashMap::default()
}

/// `FxHashMap::get` on a map keyed by node ids.
#[verifier::external_body]
pub(crate) fn id_map_get<V: Copy>(m: &FxHashMap<RegexNodeId, V>, k: RegexNodeId) -> (r: Option<V>)
    ensures
        r is Some == m@.contains_key(k),
        r matches Some(v) ==> v == m@[k],
{
    m.get(&k).copied()
}

/// `FxHashMap::insert` on a map keyed by node ids.
#[verifier::external_body]
pub(crate) fn id_map_insert<V>(m: &mut FxHashMap<RegexNodeId, V>, k: RegexNodeId, v: V)
    ensures
        final(m)@ == old(m)@.insert(k, v),
{
    m.insert(k, v);
}

/// `FxHashMap::remove` on a map keyed by node ids.
#[verifier::external_body]
pub(crate) fn id_map_remove<V>(m: &mut FxHashMap<RegexNodeId, V>, k: RegexNodeId) -> (r: Option<V>)
    ensures
        final(m)@ == old(m)@.remove(k),
        r is Some == old(m)@.contains_key(k),
        r matches Some(v) ==> v == old(m)@[k],
{
    m.remove(&k)
}

} // verus!
