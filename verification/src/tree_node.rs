//! The node of a tree: a square or a cube with a centre and an edge length.

use vstd::prelude::*;
use crate::arena::{key_eq, NodeKey};
use crate::fixed::{COORD_LIMIT, UNKNOWN_SIZE};
use crate::node_traits::{
    child_index_of, child_position, child_sign, octant_index, two_pow, valid_dimension,
};
use crate::planet_tree_impl::Direction;

verus! {

/// A node of a quad-tree, an oct-tree or a planet-tree.
///
/// Lengths and coordinates are fixed-point numbers, see [`crate::fixed`].
#[derive(Debug)]
pub struct TreeNode {
    /// The edge length.
    pub size: i128,
    /// The centre, one coordinate for each axis.
    pub pos: Vec<i128>,
    /// For each face the edge length of the coarsest neighbour across it, or
    /// [`UNKNOWN_SIZE`].
    pub neighbor_sizes: Vec<i128>,
    /// The number of halvings between a root and this node.
    pub depth: u32,
    /// The face of the planet that the node lies on.
    pub direction: Direction,
    /// The centre in the coordinates of the world.
    pub world_pos: [i128; 3],
    /// The parent; a root has none.
    pub parent: Option<NodeKey>,
    /// The children of a branch; a leaf has none.
    pub children: Option<Vec<NodeKey>>,
}

/// What a node holds, as plain values.
#[verifier::ext_equal]
pub struct NodeView {
    pub size: i128,
    pub pos: Seq<i128>,
    pub neighbor_sizes: Seq<i128>,
    pub depth: u32,
    pub direction: Direction,
    pub world_pos: Seq<i128>,
    pub parent: Option<NodeKey>,
    pub children: Option<Seq<NodeKey>>,
}

impl View for TreeNode {
    type V = NodeView;

    open spec fn view(&self) -> NodeView {
        NodeView {
            size: self.size,
            pos: self.pos@,
            neighbor_sizes: self.neighbor_sizes@,
            depth: self.depth,
            direction: self.direction,
            world_pos: self.world_pos@,
            parent: self.parent,
            children: match self.children {
                Some(keys) => Some(keys@),
                None => None,
            },
        }
    }
}

impl NodeView {
    /// The node has no children.
    pub open spec fn is_leaf(self) -> bool {
        self.children is None
    }

    /// The low end of the node along an axis.
    pub open spec fn low(self, axis: int) -> int {
        self.pos[axis] - self.size / 2
    }

    /// The high end of the node along an axis.
    pub open spec fn high(self, axis: int) -> int {
        self.pos[axis] + self.size / 2
    }

    /// The edge length is not negative, and it and all coordinates stay within
    /// [`COORD_LIMIT`].
    pub open spec fn in_range(self) -> bool {
        &&& 0 <= self.size <= COORD_LIMIT
        &&& forall|a: int|
            0 <= a < self.pos.len() ==> -COORD_LIMIT <= #[trigger] self.pos[a] <= COORD_LIMIT
    }

    /// The point lies strictly inside the node along every axis that both
    /// have.
    pub open spec fn contains_point(self, point: Seq<i128>) -> bool {
        forall|a: int|
            0 <= a < self.pos.len() && a < point.len() ==> self.low(a) < #[trigger] point[a]
                < self.high(a)
    }

    /// The corner of the node with the lowest coordinates.
    pub open spec fn min_corner(self) -> Seq<i128> {
        Seq::new(self.pos.len(), |a: int| self.low(a) as i128)
    }

    /// The corner of the node with the highest coordinates.
    pub open spec fn max_corner(self) -> Seq<i128> {
        Seq::new(self.pos.len(), |a: int| self.high(a) as i128)
    }

    /// A node as it is made: a leaf without a parent, with the size of every
    /// neighbour unknown.
    pub open spec fn is_fresh(self, size: i128, pos: Seq<i128>) -> bool {
        &&& self.size == size
        &&& self.pos == pos
        &&& self.neighbor_sizes == Seq::new(2 * pos.len(), |f: int| UNKNOWN_SIZE)
        &&& self.depth == 0
        &&& self.parent is None
        &&& self.children is None
    }
}

/// `index` is the first place at which a key stands in a list, or nothing if
/// the key does not stand in it.
pub open spec fn is_index_of_key(keys: Seq<NodeKey>, key: NodeKey, index: Option<usize>) -> bool {
    match index {
        Some(i) => i < keys.len() && keys[i as int] == key && forall|j: int|
            0 <= j < i ==> keys[j] != key,
        None => !keys.contains(key),
    }
}

impl TreeNode {
    /// A leaf of the given edge length and centre that lies on no face, has
    /// no parent and knows no neighbour.
    pub fn from_bounds(size: i128, pos: Vec<i128>) -> (node: TreeNode)
        ensures
            node@.is_fresh(size, pos@),
            node@.direction == Direction::NoDirection,
            node@.world_pos == seq![0i128, 0i128, 0i128],
    {
        let node = TreeNode::new(size, pos, [0, 0, 0], Direction::NoDirection);
        assert(node@.world_pos =~= seq![0i128, 0i128, 0i128]);
        node
    }

    /// A leaf of the given edge length and centre on a face of the planet,
    /// with its centre in the world.
    pub fn new(size: i128, pos: Vec<i128>, world_pos: [i128; 3], direction: Direction) -> (node:
        TreeNode)
        ensures
            node@.is_fresh(size, pos@),
            node@.direction == direction,
            node@.world_pos == world_pos@,
    {
        let mut neighbor_sizes: Vec<i128> = Vec::new();
        let mut i: usize = 0;
        while i < pos.len()
            invariant
                i <= pos.len(),
                neighbor_sizes@ == Seq::new(2 * i as nat, |f: int| UNKNOWN_SIZE),
            decreases pos.len() - i,
        {
            neighbor_sizes.push(UNKNOWN_SIZE);
            neighbor_sizes.push(UNKNOWN_SIZE);
            i = i + 1;
            assert(neighbor_sizes@ =~= Seq::new(2 * i as nat, |f: int| UNKNOWN_SIZE));
        }
        TreeNode {
            size,
            pos,
            neighbor_sizes,
            depth: 0,
            direction,
            world_pos,
            parent: None,
            children: None,
        }
    }

    pub fn pos(&self) -> (pos: &Vec<i128>)
        ensures
            pos@ == self@.pos,
    {
        &self.pos
    }

    pub fn size(&self) -> (size: i128)
        ensures
            size == self@.size,
    {
        self.size
    }

    pub fn depth(&self) -> (depth: u32)
        ensures
            depth == self@.depth,
    {
        self.depth
    }

    pub fn world_position(&self) -> (world_pos: [i128; 3])
        ensures
            world_pos@ == self@.world_pos,
    {
        self.world_pos
    }

    pub fn direction(&self) -> (direction: Direction)
        ensures
            direction == self@.direction,
    {
        self.direction
    }

    pub fn set_direction(&mut self, facing: Direction)
        ensures
            final(self)@ == (NodeView { direction: facing, ..old(self)@ }),
    {
        self.direction = facing;
    }

    pub fn set_parent(&mut self, node_key: NodeKey)
        ensures
            final(self)@ == (NodeView { parent: Some(node_key), ..old(self)@ }),
    {
        self.parent = Some(node_key);
    }

    pub fn get_parent(&self) -> (parent: Option<NodeKey>)
        ensures
            parent == self@.parent,
    {
        self.parent
    }

    pub fn children(&self) -> (children: Option<&Vec<NodeKey>>)
        ensures
            children is Some == self@.children is Some,
            children matches Some(keys) ==> self@.children == Some(keys@),
    {
        self.children.as_ref()
    }

    pub fn has_children(&self) -> (branch: bool)
        ensures
            branch == !self@.is_leaf(),
    {
        self.children.is_some()
    }

    /// Makes the node a branch with the given children.
    pub fn set_child_keys(&mut self, children: Vec<NodeKey>)
        ensures
            final(self)@ == (NodeView { children: Some(children@), ..old(self)@ }),
    {
        self.children = Some(children);
    }

    /// Makes the node a leaf and returns the children it had, none for a
    /// leaf.
    pub fn take_children(&mut self) -> (children: Vec<NodeKey>)
        ensures
            final(self)@ == (NodeView { children: None, ..old(self)@ }),
            children@ == match old(self)@.children {
                Some(keys) => keys,
                None => Seq::empty(),
            },
    {
        match self.children.take() {
            Some(children) => children,
            None => Vec::new(),
        }
    }

    pub fn neighbor_sizes(&self) -> (sizes: &Vec<i128>)
        ensures
            sizes@ == self@.neighbor_sizes,
    {
        &self.neighbor_sizes
    }

    /// Writes the size of the neighbour across one face.
    pub fn set_neighbor_size(&mut self, face: usize, size: i128)
        requires
            face < old(self)@.neighbor_sizes.len(),
        ensures
            final(self)@ == (NodeView {
                neighbor_sizes: old(self)@.neighbor_sizes.update(face as int, size),
                ..old(self)@
            }),
    {
        self.neighbor_sizes[face] = size;
    }

    /// The place of a child among the children of this node: the first place
    /// at which its key stands. A leaf has no children, and a key that is not
    /// among them has no place.
    pub fn get_child_index(&self, child: NodeKey) -> (index: Option<usize>)
        ensures
            match self@.children {
                Some(keys) => is_index_of_key(keys, child, index),
                None => index is None,
            },
    {
        match &self.children {
            Some(keys) => {
                let mut i: usize = 0;
                while i < keys.len()
                    invariant
                        i <= keys.len(),
                        self@.children == Some(keys@),
                        forall|j: int| 0 <= j < i ==> keys@[j] != child,
                    decreases keys.len() - i,
                {
                    if key_eq(keys[i], child) {
                        return Some(i);
                    }
                    i = i + 1;
                }
                None
            },
            None => None,
        }
    }

    /// The child in the octant that a vector points into, if the node is a
    /// branch.
    pub fn get_child<const D: usize>(&self, direction: [i32; D]) -> (child: Option<NodeKey>)
        requires
            valid_dimension(D),
            self@.children matches Some(keys) ==> keys.len() == two_pow(D as nat),
        ensures
            child == match self@.children {
                Some(keys) => Some(keys[octant_index(direction@) as int]),
                None => None,
            },
    {
        match &self.children {
            Some(keys) => {
                let index = child_index_of(&direction);
                Some(keys[index])
            },
            None => None,
        }
    }

    /// The octant of a child, as the vector of its signs: see
    /// [`TreeNode::get_child_index`] and [`child_position`].
    pub fn child_position_from_key<const D: usize>(&self, child: NodeKey) -> (position: Option<
        [i32; D],
    >)
        ensures
            match self@.children {
                Some(keys) => match position {
                    Some(signs) => exists|index: usize|
                        is_index_of_key(keys, child, Some(index)) && forall|a: int|
                            0 <= a < D ==> signs[a] as int == child_sign(index as int, a),
                    None => !keys.contains(child),
                },
                None => position is None,
            },
    {
        match self.get_child_index(child) {
            Some(index) => {
                let signs = child_position::<D>(index);
                assert(is_index_of_key(self@.children->0, child, Some(index)));
                Some(signs)
            },
            None => None,
        }
    }

    /// Whether a point lies strictly inside the node: along every axis
    /// between the centre less half the edge and the centre plus half the
    /// edge. Only the axes that both the node and the point have are looked
    /// at.
    pub fn contains_point(&self, point: &Vec<i128>) -> (inside: bool)
        requires
            self@.in_range(),
        ensures
            inside == self@.contains_point(point@),
    {
        let half_size = self.size / 2;
        let mut a: usize = 0;
        while a < self.pos.len() && a < point.len()
            invariant
                a <= self.pos.len(),
                a <= point.len(),
                self@.in_range(),
                half_size == self@.size / 2,
                forall|b: int| 0 <= b < a ==> self@.low(b) < #[trigger] point@[b] < self@.high(b),
            decreases self.pos.len() - a,
        {
            assert(-COORD_LIMIT <= self@.pos[a as int] <= COORD_LIMIT);
            let this = self.pos[a];
            let other = point[a];
            if !(this - half_size < other && other < this + half_size) {
                assert(!(self@.low(a as int) < point@[a as int] < self@.high(a as int)));
                return false;
            }
            a = a + 1;
        }
        true
    }

    /// The corners of the node with the lowest and with the highest
    /// coordinates.
    pub fn bounds(&self) -> (corners: (Vec<i128>, Vec<i128>))
        requires
            self@.in_range(),
        ensures
            corners.0@.len() == self@.pos.len(),
            corners.1@.len() == self@.pos.len(),
            forall|a: int| 0 <= a < self@.pos.len() ==> #[trigger] corners.0@[a] == self@.low(a),
            forall|a: int| 0 <= a < self@.pos.len() ==> #[trigger] corners.1@[a] == self@.high(a),
    {
        let half_size = self.size / 2;
        let mut min: Vec<i128> = Vec::new();
        let mut max: Vec<i128> = Vec::new();
        let mut a: usize = 0;
        while a < self.pos.len()
            invariant
                a <= self.pos.len(),
                self@.in_range(),
                half_size == self@.size / 2,
                min@.len() == a,
                max@.len() == a,
                forall|b: int| 0 <= b < a ==> #[trigger] min@[b] == self@.low(b),
                forall|b: int| 0 <= b < a ==> #[trigger] max@[b] == self@.high(b),
            decreases self.pos.len() - a,
        {
            assert(-COORD_LIMIT <= self@.pos[a as int] <= COORD_LIMIT);
            min.push(self.pos[a] - half_size);
            max.push(self.pos[a] + half_size);
            a = a + 1;
        }
        (min, max)
    }

    /// Whether both corners of another node lie strictly inside this one.
    pub fn contains(&self, other: &TreeNode) -> (inside: bool)
        requires
            self@.in_range(),
            other@.in_range(),
        ensures
            inside == (self@.contains_point(other@.min_corner()) && self@.contains_point(
                other@.max_corner(),
            )),
    {
        let (min, max) = other.bounds();
        assert(min@ =~= other@.min_corner());
        assert(max@ =~= other@.max_corner());
        self.contains_point(&min) && self.contains_point(&max)
    }
}

} // verus!
