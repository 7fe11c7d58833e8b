//! The planet-tree: six quad-trees on the faces of a cube.

pub use crate::node_traits::{
    all_neighbor_directions, child_position, child_positions_in_direction, neighbor_index,
};
pub use crate::planet_tree_impl::{
    map_from_dir_and_local_pos, map_from_dir_and_world_pos, map_neighbor_index, Direction,
    NeighborTransform, PlanetTree,
};
pub use crate::tree_traits::{NeighborSizeEvent, TreeError, TreeEvent};
use vstd::prelude::*;

verus! {

/// A node of a planet-tree.
pub type PlanetTreeNode = crate::tree_node::TreeNode;

} // verus!
