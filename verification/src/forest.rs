//! The mathematical model of a tree and what makes it well formed.

use vstd::prelude::*;
use crate::arena::NodeKey;
use crate::fixed::{COORD_LIMIT, ONE, UNKNOWN_SIZE};
use crate::node_traits::{child_sign, two_pow};
use crate::planet_tree_impl::{local_of_world, world_of_local, Direction};
use crate::tree_node::NodeView;

verus! {

/// The deepest level a node can stand on.
pub const MAX_DEPTH: u32 = 32;

/// The state of a tree: its nodes under their keys, its roots, the smallest
/// edge length a node may be split at, the edge length of a root, the count
/// of axes, and whether the last pass had to leave a leaf unsplit because the
/// arena was full.
#[verifier::ext_equal]
pub struct Forest {
    pub nodes: Map<NodeKey, NodeView>,
    pub roots: Seq<NodeKey>,
    pub min_size: int,
    pub root_size: int,
    pub dim: nat,
    pub starved: bool,
}

/// A length, taken to the side that a sign names.
pub open spec fn toward(sign: int, length: int) -> int {
    if sign < 0 {
        -length
    } else {
        length
    }
}

/// `child` is what the child in place `index` of `parent` has to be: half as
/// long, a quarter of the parent's edge away from the parent's centre along
/// every axis, to the side that the bits of `index` give, one level deeper,
/// on the same face.
pub open spec fn is_child_of(
    child: NodeView,
    parent: NodeView,
    parent_key: NodeKey,
    index: int,
    dim: nat,
) -> bool {
    &&& child.parent == Some(parent_key)
    &&& child.depth == parent.depth + 1
    &&& child.size * 2 == parent.size
    &&& child.direction == parent.direction
    &&& child.pos.len() == dim
    &&& forall|a: int|
        0 <= a < dim ==> #[trigger] child.pos[a] == parent.pos[a] + toward(
            child_sign(index, a),
            parent.size / 4,
        )
    &&& child.world_pos == world_of_local(parent.direction, child.pos, parent.world_pos)
}

/// Coordinate `a` of the centre of a cube, read from the centres of two of
/// its faces: along the first axis from a face that looks along the second,
/// along the other axes from a face that looks along the first.
pub open spec fn centre_between(first_face: Seq<i128>, second_face: Seq<i128>, a: int) -> int {
    if a == 0 {
        second_face[a] as int
    } else {
        first_face[a] as int
    }
}

/// A point stands at the centre of a face of a cube: half an edge away from
/// the centre of the cube along the axis of the face, to the side of the
/// face. The cube is given by its edge length and the centres of two of its
/// faces, as in [`centre_between`].
#[verifier::opaque]
pub open spec fn stands_on_cube(
    world_pos: Seq<i128>,
    face: Direction,
    first_face: Seq<i128>,
    second_face: Seq<i128>,
    edge: int,
) -> bool {
    forall|a: int|
        0 <= a < 3 ==> #[trigger] world_pos[a] == centre_between(first_face, second_face, a) + if a
            == face.axis() {
            toward(face.side(), edge / 2)
        } else {
            0
        }
}

impl Forest {
    pub open spec fn contains(self, key: NodeKey) -> bool {
        self.nodes.contains_key(key)
    }

    pub open spec fn node(self, key: NodeKey) -> NodeView {
        self.nodes[key]
    }

    pub open spec fn is_leaf(self, key: NodeKey) -> bool {
        self.contains(key) && self.node(key).children is None
    }

    pub open spec fn is_branch(self, key: NodeKey) -> bool {
        self.contains(key) && self.node(key).children is Some
    }

    /// The tree is a planet-tree, a tree with one root for each of six
    /// faces.
    pub open spec fn is_planet(self) -> bool {
        self.roots.len() == 6
    }

    /// The count of children of a branch.
    pub open spec fn fanout(self) -> nat {
        two_pow(self.dim)
    }

    /// The edge length of a root in whole units.
    pub open spec fn root_units(self) -> int {
        self.root_size / (ONE as int)
    }

    /// The edge length of the nodes on a level.
    pub open spec fn size_at(self, depth: int) -> int {
        self.root_units() * two_pow((40 - depth) as nat)
    }

    /// The sizes are whole numbers of units within the range of `u32`, and
    /// the root is not smaller than the smallest size.
    pub open spec fn sizes_wf(self) -> bool {
        &&& self.root_units() * ONE == self.root_size
        &&& ONE <= self.min_size <= self.root_size
        &&& self.root_units() <= u32::MAX
    }

    /// Coordinate `a` of the centre of the cube of a planet: that of the
    /// centre of a face that looks along another axis.
    pub open spec fn cube_centre(self, a: int) -> int {
        centre_between(self.node(self.roots[0]).world_pos, self.node(self.roots[2]).world_pos, a)
    }

    /// The root stands on its face of the cube of the planet: see
    /// [`stands_on_cube`].
    pub open spec fn on_cube(self, root: NodeView) -> bool {
        stands_on_cube(
            root.world_pos,
            root.direction,
            self.node(self.roots[0]).world_pos,
            self.node(self.roots[2]).world_pos,
            self.root_size,
        )
    }

    /// There are one or six roots; they are nodes without a parent on level
    /// zero, and each root of a planet lies on the face of its place, on
    /// one cube with the others.
    pub open spec fn roots_wf(self) -> bool {
        &&& self.roots.len() == 1 || self.roots.len() == 6
        &&& self.dim == 2 || self.dim == 3
        &&& self.is_planet() ==> self.dim == 2
        &&& forall|i: int|
            0 <= i < self.roots.len() ==> {
                &&& self.contains(#[trigger] self.roots[i])
                &&& self.node(self.roots[i]).parent is None
                &&& self.is_planet() ==> self.node(self.roots[i]).direction == Direction::at(i)
                    && self.on_cube(self.node(self.roots[i]))
            }
    }

    /// What holds of the values of one node by themselves.
    pub open spec fn shape_wf(self, n: NodeView) -> bool {
        &&& n.pos.len() == self.dim
        &&& n.neighbor_sizes.len() == 2 * self.dim
        &&& n.world_pos.len() == 3
        &&& n.depth <= MAX_DEPTH
        &&& n.size == self.size_at(n.depth as int)
        &&& n.size >= 2
        &&& n.size % 2 == 0
        &&& forall|a: int|
            0 <= a < self.dim ==> -COORD_LIMIT <= #[trigger] n.pos[a] - n.size / 2 && n.pos[a]
                + n.size / 2 <= COORD_LIMIT
        &&& forall|a: int| 0 <= a < 3 ==> -COORD_LIMIT <= #[trigger] n.world_pos[a] <= COORD_LIMIT
        &&& forall|f: int|
            0 <= f < 2 * self.dim ==> #[trigger] n.neighbor_sizes[f] == UNKNOWN_SIZE
                || n.neighbor_sizes[f] >= n.size
        &&& if self.is_planet() {
            n.direction != Direction::NoDirection && local_of_world(n.direction, n.world_pos)
                == n.pos
        } else {
            n.direction == Direction::NoDirection
        }
    }

    /// What ties a node to its parent: a node without one is a root, and any
    /// other is among the children of its parent.
    pub open spec fn parent_wf(self, key: NodeKey) -> bool {
        match self.node(key).parent {
            None => self.roots.contains(key) && self.node(key).depth == 0,
            Some(p) => {
                &&& self.contains(p)
                &&& self.node(p).children is Some
                &&& self.node(p).children->0.contains(key)
                &&& self.node(key).depth == self.node(p).depth + 1
            },
        }
    }

    /// What ties a branch to its children: it is larger than the smallest
    /// size, and its children are as [`is_child_of`] says.
    pub open spec fn children_wf(self, key: NodeKey) -> bool {
        self.node(key).children matches Some(keys) ==> {
            &&& keys.len() == self.fanout()
            &&& self.node(key).size > self.min_size
            &&& self.node(key).size % 4 == 0
            &&& forall|i: int|
                0 <= i < keys.len() ==> self.contains(#[trigger] keys[i]) && is_child_of(
                    self.node(keys[i]),
                    self.node(key),
                    key,
                    i,
                    self.dim,
                )
        }
    }

    pub open spec fn node_wf(self, key: NodeKey) -> bool {
        &&& self.shape_wf(self.node(key))
        &&& self.parent_wf(key)
        &&& self.children_wf(key)
    }

    /// The tree is well formed.
    pub open spec fn wf(self) -> bool {
        &&& self.sizes_wf()
        &&& self.roots_wf()
        &&& forall|key: NodeKey| #[trigger] self.contains(key) ==> self.node_wf(key)
    }
}

} // verus!

verus! {

pub proof fn lemma_two_pow_monotone(a: nat, b: nat)
    requires
        a <= b,
    ensures
        two_pow(a) <= two_pow(b),
    decreases b,
{
    if a < b {
        lemma_two_pow_monotone(a, (b - 1) as nat);
    }
}

impl Forest {
    /// The edge length halves from level to level, and only down to the
    /// level before the last can a node be larger than the smallest size.
    pub proof fn lemma_sizes(self, depth: int)
        requires
            self.sizes_wf(),
            0 <= depth <= MAX_DEPTH,
        ensures
            1 <= self.root_units() <= u32::MAX,
            self.size_at(0) == self.root_size,
            self.size_at(depth) >= 256,
            self.size_at(depth) % 4 == 0,
            self.size_at(depth) == 2 * self.size_at(depth + 1),
            self.size_at(depth) <= self.root_size,
            self.root_size <= u32::MAX * ONE,
            self.size_at(depth) > self.min_size ==> depth < MAX_DEPTH && self.size_at(depth + 1)
                % 4 == 0,
    {
        crate::fixed::lemma_one_is_power();
        let r = self.root_units();
        let p = two_pow((40 - depth) as nat);
        let q = two_pow((40 - depth - 1) as nat);
        assert(p == 2 * q);
        lemma_two_pow_monotone(8, (40 - depth) as nat);
        lemma_two_pow_monotone((40 - depth) as nat, 40);
        assert(r >= 1) by {
            if r <= 0 {
                assert(r * ONE <= 0) by (nonlinear_arith)
                    requires
                        r <= 0,
                        ONE > 0,
                ;
            }
        }
        assert(q == 2 * two_pow((40 - depth - 2) as nat));
        let e = two_pow((40 - depth - 2) as nat);
        assert(r * p == 4 * (r * e)) by (nonlinear_arith)
            requires
                p == 4 * e,
        ;
        assert(r * p == 2 * (r * q)) by (nonlinear_arith)
            requires
                p == 2 * q,
        ;
        assert(r * p >= 256) by (nonlinear_arith)
            requires
                r >= 1,
                p >= 256,
        ;
        assert(r * p <= r * ONE) by (nonlinear_arith)
            requires
                r >= 1,
                p <= ONE,
        ;
        assert(r * ONE <= u32::MAX * ONE) by (nonlinear_arith)
            requires
                r <= u32::MAX,
                ONE > 0,
        ;
        if depth == MAX_DEPTH {
            assert(r * p <= u32::MAX * 256) by (nonlinear_arith)
                requires
                    1 <= r <= u32::MAX,
                    p == 256,
            ;
        } else {
            let e2 = two_pow((40 - depth - 3) as nat);
            assert(e == 2 * e2);
            assert(r * q == 4 * (r * e2)) by (nonlinear_arith)
                requires
                    q == 4 * e2,
            ;
        }
    }
}

} // verus!

verus! {

/// `child` is the child in place `index` of `parent` as it is made: a leaf
/// that knows no neighbour.
pub open spec fn is_new_child(
    child: NodeView,
    parent: NodeView,
    parent_key: NodeKey,
    index: int,
    dim: nat,
) -> bool {
    &&& is_child_of(child, parent, parent_key, index, dim)
    &&& child.children is None
    &&& child.neighbor_sizes == Seq::new(2 * dim, |f: int| UNKNOWN_SIZE)
}

impl Forest {
    /// `after` is this tree with the leaf `parent` split: `children` are new
    /// keys, the nodes under them are the children of `parent` as they are
    /// made, `parent` has them for its children, and nothing else differs.
    pub open spec fn grown(self, after: Forest, parent: NodeKey, children: Seq<NodeKey>) -> bool {
        &&& children.len() == self.fanout()
        &&& children.no_duplicates()
        &&& forall|i: int| 0 <= i < children.len() ==> !self.contains(#[trigger] children[i])
        &&& forall|key: NodeKey|
            #[trigger] after.contains(key) <==> self.contains(key) || children.contains(key)
        &&& forall|key: NodeKey|
            #[trigger] self.contains(key) && key != parent ==> after.node(key) == self.node(key)
        &&& after.node(parent) == (NodeView { children: Some(children), ..self.node(parent) })
        &&& forall|i: int|
            0 <= i < children.len() ==> is_new_child(
                after.node(#[trigger] children[i]),
                self.node(parent),
                parent,
                i,
                self.dim,
            )
        &&& after.roots == self.roots
        &&& after.min_size == self.min_size
        &&& after.root_size == self.root_size
        &&& after.dim == self.dim
        &&& after.starved == self.starved
    }

    /// Whether a tree is starved has no part in its being well formed.
    #[verifier::rlimit(40)]
    pub proof fn lemma_starved_wf(self, starved: bool)
        requires
            self.wf(),
        ensures
            (Forest { starved, ..self }).wf(),
    {
        let after = Forest { starved, ..self };
        assert forall|key: NodeKey| #[trigger] after.contains(key) implies after.node_wf(key) by {
            assert(self.contains(key));
            assert(self.node_wf(key));
            let n = self.node(key);
            assert(after.shape_wf(n));
            assert(after.parent_wf(key));
            match n.children {
                Some(keys) => {
                    assert forall|i: int| 0 <= i < keys.len() implies after.contains(
                        #[trigger] keys[i],
                    ) && is_child_of(after.node(keys[i]), n, key, i, after.dim) by {
                        assert(self.contains(keys[i]));
                    }
                },
                None => {},
            }
        }
        assert forall|i: int| 0 <= i < after.roots.len() implies {
            &&& after.contains(#[trigger] after.roots[i])
            &&& after.node(after.roots[i]).parent is None
            &&& after.is_planet() ==> after.node(after.roots[i]).direction == Direction::at(i)
        } by {
            assert(self.contains(self.roots[i]));
        }
    }

    /// A child that a split has made is well formed.
    #[verifier::rlimit(40)]
    proof fn lemma_grown_child_wf(
        self,
        after: Forest,
        parent: NodeKey,
        children: Seq<NodeKey>,
        i: int,
    )
        requires
            self.wf(),
            self.is_leaf(parent),
            self.node(parent).size > self.min_size,
            self.grown(after, parent, children),
            0 <= i < children.len(),
        ensures
            after.node_wf(children[i]),
    {
        let p = self.node(parent);
        let key = children[i];
        assert(self.node_wf(parent));
        self.lemma_sizes(p.depth as int);
        let c = after.node(key);
        assert(is_new_child(after.node(children[i]), p, parent, i, self.dim));
        self.lemma_sizes(p.depth as int + 1);
        assert forall|a: int| 0 <= a < self.dim implies -COORD_LIMIT <= #[trigger] c.pos[a] - c.size
            / 2 && c.pos[a] + c.size / 2 <= COORD_LIMIT by {
            assert(c.pos[a] == p.pos[a] + toward(child_sign(i, a), p.size / 4));
            assert(-COORD_LIMIT <= p.pos[a] - p.size / 2 && p.pos[a] + p.size / 2 <= COORD_LIMIT);
        }
        assert forall|a: int| 0 <= a < 3 implies -COORD_LIMIT <= #[trigger] c.world_pos[a]
            <= COORD_LIMIT by {
            assert(-COORD_LIMIT <= p.world_pos[a] <= COORD_LIMIT);
            if p.direction != Direction::NoDirection {
                assert(self.is_planet());
                assert(-COORD_LIMIT <= c.pos[0] - c.size / 2 && c.pos[0] + c.size / 2
                    <= COORD_LIMIT);
                assert(-COORD_LIMIT <= c.pos[1] - c.size / 2 && c.pos[1] + c.size / 2
                    <= COORD_LIMIT);
            }
        }
        if after.is_planet() {
            assert(local_of_world(c.direction, c.world_pos) =~= c.pos);
        }
        assert(after.shape_wf(c));
        assert(children.contains(key));
        assert(after.contains(parent));
        assert(after.node(parent).children->0.contains(key));
        assert(after.parent_wf(key));
        assert(after.children_wf(key));
    }

    /// The node that has been split is well formed.
    #[verifier::rlimit(40)]
    proof fn lemma_grown_parent_wf(self, after: Forest, parent: NodeKey, children: Seq<NodeKey>)
        requires
            self.wf(),
            self.is_leaf(parent),
            self.node(parent).size > self.min_size,
            self.grown(after, parent, children),
        ensures
            after.node_wf(parent),
    {
        let p = self.node(parent);
        assert(self.node_wf(parent));
        self.lemma_sizes(p.depth as int);
        let n = after.node(parent);
        assert(after.shape_wf(n));
        match n.parent {
            Some(g) => {
                assert(self.contains(g));
                assert(self.node_wf(g));
                assert(g != parent);
                assert(after.node(g) == self.node(g));
                assert(after.contains(g));
            },
            None => {},
        }
        assert(after.parent_wf(parent));
        assert forall|i: int| 0 <= i < children.len() implies after.contains(
            #[trigger] children[i],
        ) && is_child_of(after.node(children[i]), n, parent, i, after.dim) by {
            assert(children.contains(children[i]));
            assert(is_new_child(after.node(children[i]), p, parent, i, self.dim));
        }
        assert(after.children_wf(parent));
    }

    /// A node that a split has not touched is well formed.
    #[verifier::rlimit(40)]
    proof fn lemma_grown_other_wf(
        self,
        after: Forest,
        parent: NodeKey,
        children: Seq<NodeKey>,
        key: NodeKey,
    )
        requires
            self.wf(),
            self.is_leaf(parent),
            self.grown(after, parent, children),
            self.contains(key),
            key != parent,
        ensures
            after.node_wf(key),
    {
        assert(self.node_wf(key));
        let n = self.node(key);
        assert(after.node(key) == n);
        assert(after.shape_wf(n));
        match n.parent {
            Some(g) => {
                assert(self.contains(g));
                assert(g != parent);
                assert(after.node(g) == self.node(g));
                assert(after.contains(g));
            },
            None => {},
        }
        assert(after.parent_wf(key));
        match n.children {
            Some(keys) => {
                assert forall|i: int| 0 <= i < keys.len() implies after.contains(
                    #[trigger] keys[i],
                ) && is_child_of(after.node(keys[i]), n, key, i, after.dim) by {
                    assert(self.contains(keys[i]));
                    assert(is_child_of(self.node(keys[i]), n, key, i, self.dim));
                }
            },
            None => {},
        }
        assert(after.children_wf(key));
    }

    /// Splitting a leaf that is larger than the smallest size keeps the tree
    /// well formed.
    #[verifier::rlimit(40)]
    pub proof fn lemma_grown_wf(self, after: Forest, parent: NodeKey, children: Seq<NodeKey>)
        requires
            self.wf(),
            self.is_leaf(parent),
            self.node(parent).size > self.min_size,
            self.grown(after, parent, children),
        ensures
            after.wf(),
    {
        assert forall|key: NodeKey| #[trigger] after.contains(key) implies after.node_wf(key) by {
            if children.contains(key) {
                let i = choose|i: int| 0 <= i < children.len() && children[i] == key;
                self.lemma_grown_child_wf(after, parent, children, i);
            } else if key == parent {
                self.lemma_grown_parent_wf(after, parent, children);
            } else {
                self.lemma_grown_other_wf(after, parent, children, key);
            }
        }
        assert forall|i: int| 0 <= i < after.roots.len() implies {
            &&& after.contains(#[trigger] after.roots[i])
            &&& after.node(after.roots[i]).parent is None
            &&& after.is_planet() ==> after.node(after.roots[i]).direction == Direction::at(i)
        } by {
            assert(self.contains(self.roots[i]));
        }
    }
}

} // verus!
