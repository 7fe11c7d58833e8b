//! The events that a refinement pass reports.

use vstd::prelude::*;
use crate::arena::NodeKey;
use crate::forest::Forest;
use crate::ntree::NTree;
use crate::planet_tree_impl::PlanetTree;
use crate::tree_node::TreeNode;

verus! {

/// What a tree offers as a store of nodes.
pub trait NodeStorage: View<V = Forest> + Sized {
    /// The number of slots that the arena has made so far.
    spec fn slot_count(&self) -> nat;

    /// The node under a key, if the arena holds one.
    fn get_node(&self, node_key: NodeKey) -> (node: Option<&TreeNode>)
        ensures
            node is Some == self@.contains(node_key),
            node matches Some(n) ==> n@ == self@.node(node_key),
    ;

    /// The node under a key that the arena holds.
    fn get_node_unchecked(&self, node_key: NodeKey) -> (node: &TreeNode)
        requires
            self@.contains(node_key),
        ensures
            node@ == self@.node(node_key),
    ;

    /// The node under a key, for writing, if the arena holds one. What the
    /// caller leaves in it is what the store holds under the key afterwards.
    fn get_mut_node(&mut self, node_key: NodeKey) -> (node: Option<&mut TreeNode>)
        ensures
            node is Some == old(self)@.contains(node_key),
            node matches Some(n) ==> n@ == old(self)@.node(node_key) && final(self)@ == (Forest {
                nodes: old(self)@.nodes.insert(node_key, final(n)@),
                ..old(self)@
            }),
            node is None ==> final(self)@ == old(self)@,
            final(self).slot_count() == old(self).slot_count(),
    ;

    /// The node under a key that the arena holds, for writing.
    fn get_mut_node_unchecked(&mut self, node_key: NodeKey) -> (node: &mut TreeNode)
        requires
            old(self)@.contains(node_key),
        ensures
            node@ == old(self)@.node(node_key),
            final(self)@ == (Forest {
                nodes: old(self)@.nodes.insert(node_key, final(node)@),
                ..old(self)@
            }),
            final(self).slot_count() == old(self).slot_count(),
    ;

    /// Puts a node into the arena and returns its key, which no node of the
    /// arena had.
    fn insert_node(&mut self, node: TreeNode) -> (key: NodeKey)
        requires
            old(self).slot_count() + 8 < u32::MAX,
        ensures
            !old(self)@.contains(key),
            final(self)@ == (Forest { nodes: old(self)@.nodes.insert(key, node@), ..old(self)@ }),
            final(self).slot_count() <= old(self).slot_count() + 1,
    ;

    /// Takes the node under a key out of the arena, if it holds one.
    fn remove_node(&mut self, node_key: NodeKey) -> (node: Option<TreeNode>)
        ensures
            node is Some == old(self)@.contains(node_key),
            node matches Some(n) ==> n@ == old(self)@.node(node_key),
            final(self)@ == (Forest { nodes: old(self)@.nodes.remove(node_key), ..old(self)@ }),
            final(self).slot_count() == old(self).slot_count(),
    ;
}

impl<const D: usize> NodeStorage for NTree<D> {
    open(crate) spec fn slot_count(&self) -> nat {
        self.slots()
    }

    fn get_node(&self, node_key: NodeKey) -> (node: Option<&TreeNode>) {
        NTree::get_node(self, node_key)
    }

    fn get_node_unchecked(&self, node_key: NodeKey) -> (node: &TreeNode) {
        NTree::get_node_unchecked(self, node_key)
    }

    fn get_mut_node(&mut self, node_key: NodeKey) -> (node: Option<&mut TreeNode>) {
        NTree::get_mut_node(self, node_key)
    }

    fn get_mut_node_unchecked(&mut self, node_key: NodeKey) -> (node: &mut TreeNode) {
        NTree::get_mut_node_unchecked(self, node_key)
    }

    fn insert_node(&mut self, node: TreeNode) -> (key: NodeKey) {
        NTree::insert_node(self, node)
    }

    fn remove_node(&mut self, node_key: NodeKey) -> (node: Option<TreeNode>) {
        NTree::remove_node(self, node_key)
    }
}

impl NodeStorage for PlanetTree {
    open(crate) spec fn slot_count(&self) -> nat {
        self.tree.slots()
    }

    fn get_node(&self, node_key: NodeKey) -> (node: Option<&TreeNode>) {
        self.tree.get_node(node_key)
    }

    fn get_node_unchecked(&self, node_key: NodeKey) -> (node: &TreeNode) {
        self.tree.get_node_unchecked(node_key)
    }

    fn get_mut_node(&mut self, node_key: NodeKey) -> (node: Option<&mut TreeNode>) {
        self.tree.get_mut_node(node_key)
    }

    fn get_mut_node_unchecked(&mut self, node_key: NodeKey) -> (node: &mut TreeNode) {
        self.tree.get_mut_node_unchecked(node_key)
    }

    fn insert_node(&mut self, node: TreeNode) -> (key: NodeKey) {
        self.tree.insert_node(node)
    }

    fn remove_node(&mut self, node_key: NodeKey) -> (node: Option<TreeNode>) {
        self.tree.remove_node(node_key)
    }
}

/// What a pass over the neighbours has done to the slot of one node.
#[derive(Debug, Copy, Clone, PartialEq, Eq, Structural)]
pub enum NeighborSizeEvent {
    /// A neighbour wrote a different size into a slot of the node.
    ChangedSize,
    /// The node wrote its own slots.
    New,
    /// The slot already held the size.
    Unchanged,
}

/// What a refinement pass has done to the tree.
#[derive(Debug, Clone)]
pub enum TreeEvent {
    /// `parent` became a branch; `children` are the leaves that now stand
    /// below it.
    Grown { parent: NodeKey, children: Vec<NodeKey> },
    /// `retained` became a leaf; `removed` are the nodes that stood below
    /// it and have left the arena.
    Shrunk { retained: NodeKey, removed: Vec<NodeKey> },
    /// A slot for a neighbour's size of the node changed.
    NeighborSizesChanged(NodeKey),
}

/// An event, as plain values.
pub enum EventView {
    Grown { parent: NodeKey, children: Seq<NodeKey> },
    Shrunk { retained: NodeKey, removed: Seq<NodeKey> },
    NeighborSizesChanged(NodeKey),
}

impl View for TreeEvent {
    type V = EventView;

    open spec fn view(&self) -> EventView {
        match self {
            TreeEvent::Grown { parent, children } => EventView::Grown {
                parent: *parent,
                children: children@,
            },
            TreeEvent::Shrunk { retained, removed } => EventView::Shrunk {
                retained: *retained,
                removed: removed@,
            },
            TreeEvent::NeighborSizesChanged(key) => EventView::NeighborSizesChanged(*key),
        }
    }
}

/// The views of a list of events.
pub open spec fn event_views(events: Seq<TreeEvent>) -> Seq<EventView> {
    events.map_values(|e: TreeEvent| e@)
}

/// Why a tree could not be made.
#[derive(Debug, Copy, Clone, PartialEq, Eq, Structural)]
pub enum TreeError {
    /// The smallest edge length is not above zero.
    MinSizeNotPositive,
    /// The root is smaller than the smallest edge length.
    RootBelowMinSize,
}

} // verus!
