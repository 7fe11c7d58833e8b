//! The quad-tree: the tree of the plane.

pub use crate::node_traits::{
    all_neighbor_directions, child_position, child_positions_in_direction, neighbor_index,
};
pub use crate::tree_traits::{NeighborSizeEvent, TreeError, TreeEvent};
use vstd::prelude::*;

verus! {

/// A tree of squares.
pub type QuadTree = crate::ntree::NTree<2>;

/// A node of a quad-tree.
pub type QuadTreeNode = crate::tree_node::TreeNode;

} // verus!
