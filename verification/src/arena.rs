//! The node arena: a slot map that hands out a stable key for every node.

use vstd::prelude::*;
use crate::tree_node::{NodeView, TreeNode};

verus! {

/// `slotmap::DefaultKey`, the key of a slot map, taken as a value about
/// which nothing is known but whether two of them are the same.
#[verifier::external_type_specification]
#[verifier::external_body]
pub struct ExDefaultKey(slotmap::DefaultKey);

/// The handle of a node. It stays good until the node is removed.
pub type NodeKey = slotmap::DefaultKey;

/// `Clone` of a key: the copy is the key.
pub assume_specification[ <slotmap::DefaultKey as Clone>::clone ](key: &slotmap::DefaultKey) -> (copy:
    slotmap::DefaultKey)
    ensures
        copy == *key,
;

/// The storage of the nodes, a `slotmap::SlotMap` from [`NodeKey`] to
/// [`TreeNode`].
#[verifier::external_body]
pub struct NodeArena {
    map: slotmap::SlotMap<slotmap::DefaultKey, TreeNode>,
}

/// The nodes that an arena holds, each under its key.
pub uninterp spec fn arena_nodes(arena: NodeArena) -> Map<NodeKey, NodeView>;

/// The number of slots that an arena has made so far. A slot is made when a
/// node is inserted while no slot is free, and is never given up.
pub uninterp spec fn arena_slots(arena: NodeArena) -> nat;

/// `SlotMap::new`: an arena without nodes and without slots.
#[verifier::external_body]
pub(crate) fn arena_new() -> (arena: NodeArena)
    ensures
        forall|key: NodeKey| !arena_nodes(arena).contains_key(key),
        arena_slots(arena) == 0,
{
    NodeArena { map: slotmap::SlotMap::new() }
}

/// `SlotMap::capacity`: a number of slots that the arena has room for, which
/// is never less than the number it has made.
#[verifier::external_body]
pub(crate) fn arena_capacity(arena: &NodeArena) -> (capacity: usize)
    ensures
        arena_slots(*arena) <= capacity,
{
    arena.map.capacity()
}

/// `SlotMap::insert`: the node is stored under a key that no node of the
/// arena has, and at most one slot is made. The slot map panics when it would
/// have to make a slot and has `u32::MAX - 1` of them.
#[verifier::external_body]
pub(crate) fn arena_insert(arena: &mut NodeArena, node: TreeNode) -> (key: NodeKey)
    requires
        arena_slots(*old(arena)) + 1 < u32::MAX,
    ensures
        !arena_nodes(*old(arena)).contains_key(key),
        arena_nodes(*final(arena)) == arena_nodes(*old(arena)).insert(key, node@),
        arena_slots(*final(arena)) <= arena_slots(*old(arena)) + 1,
{
    arena.map.insert(node)
}

/// `SlotMap::remove`: the node under the key leaves the arena and is
/// returned; without such a node nothing changes. No slot is made.
#[verifier::external_body]
pub(crate) fn arena_remove(arena: &mut NodeArena, key: NodeKey) -> (node: Option<TreeNode>)
    ensures
        node is Some == arena_nodes(*old(arena)).contains_key(key),
        node matches Some(n) ==> n@ == arena_nodes(*old(arena))[key],
        arena_nodes(*final(arena)) == arena_nodes(*old(arena)).remove(key),
        arena_slots(*final(arena)) == arena_slots(*old(arena)),
{
    arena.map.remove(key)
}

/// `SlotMap::get`: the node under the key, if there is one.
#[verifier::external_body]
pub(crate) fn arena_get(arena: &NodeArena, key: NodeKey) -> (node: Option<&TreeNode>)
    ensures
        node is Some == arena_nodes(*arena).contains_key(key),
        node matches Some(n) ==> n@ == arena_nodes(*arena)[key],
{
    arena.map.get(key)
}

/// Indexing a `SlotMap`: the node under a key that the arena holds. The slot
/// map panics on any other key.
#[verifier::external_body]
pub(crate) fn arena_index(arena: &NodeArena, key: NodeKey) -> (node: &TreeNode)
    requires
        arena_nodes(*arena).contains_key(key),
    ensures
        node@ == arena_nodes(*arena)[key],
{
    &arena.map[key]
}

/// Indexing a `SlotMap` for writing: the node under a key that the arena
/// holds. What the caller leaves in it is what the arena holds under the key
/// afterwards; nothing else changes. The slot map panics on any other key.
#[verifier::external_body]
pub(crate) fn arena_index_mut(arena: &mut NodeArena, key: NodeKey) -> (node: &mut TreeNode)
    requires
        arena_nodes(*old(arena)).contains_key(key),
    ensures
        node@ == arena_nodes(*old(arena))[key],
        arena_nodes(*final(arena)) == arena_nodes(*old(arena)).insert(key, final(node)@),
        arena_slots(*final(arena)) == arena_slots(*old(arena)),
{
    &mut arena.map[key]
}

/// `SlotMap::keys`: the keys of all nodes of the arena, each once, in an
/// order that is not stated.
#[verifier::external_body]
pub(crate) fn arena_keys(arena: &NodeArena) -> (keys: Vec<NodeKey>)
    ensures
        keys@.no_duplicates(),
        forall|key: NodeKey| keys@.contains(key) == arena_nodes(*arena).contains_key(key),
{
    arena.map.keys().collect()
}

/// `==` on keys: two keys are equal exactly if they are the same key.
#[verifier::external_body]
pub(crate) fn key_eq(a: NodeKey, b: NodeKey) -> (equal: bool)
    ensures
        equal == (a == b),
{
    a == b
}

} // verus!
