//! Adaptive quad-trees, oct-trees and planet-trees over fixed-point
//! coordinates.
//!
//! A tree tiles a square, a cube or the six faces of a cube with nodes that
//! are split where a predicate asks for it and joined again where it does
//! not. Every leaf knows how large the leaves across its faces are.

pub mod adjacency;
pub mod arena;
pub mod collapse;
pub mod distinct;
pub mod edges;
pub mod events;
pub mod events_law;
pub mod fixed;
pub mod forest;
pub mod fresh;
pub mod geometry;
pub mod laws;
pub mod mirror;
pub mod neighbors;
pub mod node_traits;
pub mod ntree;
pub mod oct_tree;
pub mod pass;
pub mod pass_laws;
pub mod planet_tree;
pub mod planet_tree_impl;
pub mod quad_tree;
pub mod refine;
pub mod sizes;
pub mod tree_node;
pub mod tree_traits;
pub mod visited;
pub mod walk;

pub use crate::arena::NodeKey;
