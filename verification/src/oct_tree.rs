//! The oct-tree: the tree of space.

pub use crate::node_traits::{
    all_neighbor_directions, child_position, child_positions_in_direction, neighbor_index,
};
pub use crate::tree_traits::{NeighborSizeEvent, TreeError, TreeEvent};
use vstd::prelude::*;

verus! {

/// A tree of cubes.
pub type OctTree = crate::ntree::NTree<3>;

/// A node of an oct-tree.
pub type OctTreeNode = crate::tree_node::TreeNode;

} // verus!
