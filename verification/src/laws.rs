//! What holds of every well-formed tree.

use vstd::prelude::*;
use crate::arena::NodeKey;
use crate::forest::{is_child_of, lemma_two_pow_monotone, toward, Forest, MAX_DEPTH};
use crate::node_traits::{child_sign, octant_index, two_pow};
use crate::planet_tree_impl::Direction;
use crate::tree_node::NodeView;

verus! {

/// The signs of the child with a given index, as a vector.
pub open spec fn child_signs(index: int, dim: nat) -> Seq<i32> {
    Seq::new(dim, |a: int| child_sign(index, a) as i32)
}

/// The octant that a point lies in as seen from a centre: along every axis
/// the high side if the point is not below the centre.
pub open spec fn octant_toward(centre: Seq<i128>, point: Seq<int>) -> Seq<i32> {
    Seq::new(
        centre.len(),
        |a: int|
            if point[a] < centre[a] {
                -1i32
            } else {
                1i32
            },
    )
}

/// The child ordering: the index of a child and the vector of its signs
/// name each other. Taking the signs of an index and then the index of the
/// signs gives the index back.
pub proof fn law_child_ordering(index: int, dim: nat)
    requires
        dim == 2 || dim == 3,
        0 <= index < two_pow(dim),
    ensures
        octant_index(child_signs(index, dim)) == index,
{
    reveal_with_fuel(two_pow, 4);
    reveal_with_fuel(octant_index, 4);
    let s = child_signs(index, dim);
    assert(two_pow(0) == 1 && two_pow(1) == 2 && two_pow(2) == 4 && two_pow(3) == 8);
    assert(index == (index / 1) % 2 + 2 * ((index / 2) % 2) + 4 * (index / 4));
    if dim == 2 {
        assert(s.drop_last().drop_last().len() == 0);
        assert(s.drop_last().last() == s[0]);
        assert(s.last() == s[1]);
    } else {
        assert(s.drop_last().drop_last().drop_last().len() == 0);
        assert(s.drop_last().drop_last().last() == s[0]);
        assert(s.drop_last().last() == s[1]);
        assert(s.last() == s[2]);
        assert(0 <= index / 4 < 2);
    }
}

/// The child ordering, the other way round: taking the index of a vector of
/// signs and then the signs of the index gives the signs back.
pub proof fn law_child_ordering_back(signs: Seq<i32>, a: int)
    requires
        signs.len() == 2 || signs.len() == 3,
        0 <= a < signs.len(),
    ensures
        octant_index(signs) < two_pow(signs.len()),
        child_sign(octant_index(signs) as int, a) == if signs[a] > 0 {
            1int
        } else {
            -1int
        },
{
    reveal_with_fuel(two_pow, 4);
    reveal_with_fuel(octant_index, 4);
    let s = signs;
    assert(two_pow(0) == 1 && two_pow(1) == 2 && two_pow(2) == 4 && two_pow(3) == 8);
    let b0: int = if s[0] > 0 {
        1
    } else {
        0
    };
    let b1: int = if s[1] > 0 {
        1
    } else {
        0
    };
    if s.len() == 2 {
        assert(s.drop_last().drop_last().len() == 0);
        assert(s.drop_last().last() == s[0]);
        assert(s.last() == s[1]);
        let index = octant_index(s) as int;
        assert(index == b0 + 2 * b1);
        assert((index / 1) % 2 == b0);
        assert((index / 2) % 2 == b1);
    } else {
        let b2: int = if s[2] > 0 {
            1
        } else {
            0
        };
        assert(s.drop_last().drop_last().drop_last().len() == 0);
        assert(s.drop_last().drop_last().last() == s[0]);
        assert(s.drop_last().last() == s[1]);
        assert(s.last() == s[2]);
        let index = octant_index(s) as int;
        assert(index == b0 + 2 * b1 + 4 * b2);
        assert((index / 1) % 2 == b0);
        assert((index / 2) % 2 == b1);
        assert((index / 4) % 2 == b2);
    }
}

/// If the box of one node has inner points in common with the box of
/// another, so has the other with the one.
pub proof fn lemma_overlaps_symmetric(a: NodeView, b: NodeView)
    requires
        a.overlaps(b),
        a.pos.len() == b.pos.len(),
    ensures
        b.overlaps(a),
{
    assert forall|x: int| 0 <= x < b.pos.len() implies #[trigger] b.pos[x] - b.size / 2 < a.pos[x]
        + a.size / 2 && a.pos[x] - a.size / 2 < b.pos[x] + b.size / 2 by {
        assert(a.pos[x] - a.size / 2 < b.pos[x] + b.size / 2);
    }
}

impl NodeView {
    /// The point lies in the box of the node, its faces included.
    pub open spec fn holds_point(self, point: Seq<int>) -> bool {
        forall|a: int|
            0 <= a < self.pos.len() ==> #[trigger] self.pos[a] - self.size / 2 <= point[a]
                <= self.pos[a] + self.size / 2
    }
}

impl Forest {
    /// The leaf at or below a node that a point of the node's box lies in.
    /// Where the point lies on the face between two children, the child on
    /// the high side is taken.
    pub open spec fn leaf_holding(self, key: NodeKey, point: Seq<int>) -> NodeKey
        decreases MAX_DEPTH + 1 - self.node(key).depth,
    {
        match self.node(key).children {
            None => key,
            Some(keys) => {
                let child = keys[octant_index(octant_toward(self.node(key).pos, point)) as int];
                if self.node(key).depth < self.node(child).depth <= MAX_DEPTH {
                    self.leaf_holding(child, point)
                } else {
                    key
                }
            },
        }
    }

    /// Tree shape: every node but a root stands among the children of its
    /// parent, in the place that belongs to the octant it lies in.
    pub proof fn law_tree_shape(self, key: NodeKey)
        requires
            self.wf(),
            self.contains(key),
            self.node(key).parent is Some,
        ensures
            self.is_branch(self.node(key).parent->0),
            self.node(self.node(key).parent->0).children->0[octant_index(self.octant_of(key)) as int]
                == key,
    {
        assert(self.node_wf(key));
        let parent = self.node(key).parent->0;
        assert(self.node_wf(parent));
        let keys = self.node(parent).children->0;
        let i = choose|i: int| 0 <= i < keys.len() && keys[i] == key;
        self.lemma_octant_of_child(key, i);
        law_child_ordering(i, self.dim);
        assert(self.octant_of(key) =~= child_signs(i, self.dim));
    }

    /// Uniform refinement: a branch has `2^D` children; each is half as
    /// long as the branch, and its centre lies a quarter of the edge of the
    /// branch away from the centre of the branch along every axis, to the
    /// side that the index of the child gives.
    pub proof fn law_uniform_refinement(self, key: NodeKey, index: int, a: int)
        requires
            self.wf(),
            self.is_branch(key),
            0 <= index < two_pow(self.dim),
            0 <= a < self.dim,
        ensures
            self.node(key).children->0.len() == two_pow(self.dim),
            self.contains(self.node(key).children->0[index]),
            self.node(self.node(key).children->0[index]).size * 2 == self.node(key).size,
            self.node(key).size % 4 == 0,
            self.node(self.node(key).children->0[index]).pos[a] == self.node(key).pos[a]
                + child_sign(index, a) * (self.node(key).size / 4),
            self.node(self.node(key).children->0[index]).parent == Some(key),
    {
        assert(self.node_wf(key));
        let keys = self.node(key).children->0;
        assert(self.contains(keys[index]));
        let c = self.node(keys[index]);
        let p = self.node(key);
        assert(is_child_of(c, p, key, index, self.dim));
        assert(c.pos[a] == p.pos[a] + toward(child_sign(index, a), p.size / 4));
        let q = p.size / 4;
        let s = child_sign(index, a);
        assert(s * q == toward(s, q)) by (nonlinear_arith)
            requires
                s == 1 || s == -1,
                toward(s, q) == if s < 0 {
                    -q
                } else {
                    q
                },
        ;
    }

    /// What splitting a leaf makes: the leaf has the new nodes for its
    /// children, and the child in every place has the leaf for its parent,
    /// lies one level deeper on the same face, is half as long, stands a
    /// quarter of the edge of the leaf away from its centre along every axis,
    /// to the side that its place gives, keeps the world coordinate along the
    /// axis of the face, is a leaf and knows the size of no neighbour.
    pub proof fn law_split_makes_children(
        self,
        after: Forest,
        parent: NodeKey,
        children: Seq<NodeKey>,
        index: int,
        a: int,
    )
        requires
            self.wf(),
            self.is_leaf(parent),
            self.grown(after, parent, children),
            0 <= index < two_pow(self.dim),
            0 <= a < self.dim,
        ensures
            children.len() == two_pow(self.dim),
            after.node(parent).children == Some(children),
            !self.contains(children[index]),
            after.is_leaf(children[index]),
            after.node(children[index]).parent == Some(parent),
            after.node(children[index]).depth == self.node(parent).depth + 1,
            after.node(children[index]).direction == self.node(parent).direction,
            after.node(children[index]).size * 2 == self.node(parent).size,
            after.node(children[index]).pos[a] == self.node(parent).pos[a] + child_sign(index, a) * (
            self.node(parent).size / 4),
            after.node(children[index]).world_pos == crate::planet_tree_impl::world_of_local(
                self.node(parent).direction,
                after.node(children[index]).pos,
                self.node(parent).world_pos,
            ),
            forall|f: int|
                0 <= f < 2 * self.dim ==> after.node(children[index]).neighbor_sizes[f]
                    == crate::fixed::UNKNOWN_SIZE,
    {
        let c = after.node(children[index]);
        let p = self.node(parent);
        assert(crate::forest::is_new_child(c, p, parent, index, self.dim));
        assert(children.contains(children[index]));
        assert(c.pos[a] == p.pos[a] + toward(child_sign(index, a), p.size / 4));
        let q = p.size / 4;
        let s = child_sign(index, a);
        assert(s * q == toward(s, q)) by (nonlinear_arith)
            requires
                s == 1 || s == -1,
                toward(s, q) == if s < 0 {
                    -q
                } else {
                    q
                },
        ;
    }

    /// The children of a branch fill its box: they lie within it, two of
    /// them have no inner point in common, and every point of the box lies
    /// in the box of the child in the octant of the point.
    pub proof fn law_children_fill_branch(self, key: NodeKey, i: int, j: int, point: Seq<int>)
        requires
            self.wf(),
            self.is_branch(key),
            0 <= i < two_pow(self.dim),
            0 <= j < two_pow(self.dim),
            i != j,
            self.node(key).holds_point(point),
        ensures
            self.node(self.node(key).children->0[i]).inside(self.node(key)),
            !self.node(self.node(key).children->0[i]).overlaps(
                self.node(self.node(key).children->0[j]),
            ),
            octant_index(octant_toward(self.node(key).pos, point)) < two_pow(self.dim),
            self.node(
                self.node(key).children->0[octant_index(octant_toward(self.node(key).pos, point)) as int],
            ).holds_point(point),
    {
        assert(self.node_wf(key));
        let n = self.node(key);
        let keys = n.children->0;
        assert(self.contains(keys[i]));
        assert(is_child_of(self.node(keys[i]), n, key, i, self.dim));
        self.lemma_inside_parent(keys[i]);
        if self.node(keys[i]).overlaps(self.node(keys[j])) {
            self.lemma_siblings_apart(key, i, j);
        }
        let signs = octant_toward(n.pos, point);
        let index = octant_index(signs) as int;
        law_child_ordering_back(signs, 0);
        assert(self.contains(keys[index]));
        let c = self.node(keys[index]);
        assert(is_child_of(c, n, key, index, self.dim));
        assert forall|a: int| 0 <= a < c.pos.len() implies #[trigger] c.pos[a] - c.size / 2
            <= point[a] <= c.pos[a] + c.size / 2 by {
            law_child_ordering_back(signs, a);
            self.lemma_child_box(key, index, a);
            assert(n.pos[a] - n.size / 2 <= point[a] <= n.pos[a] + n.size / 2);
        }
    }

    /// Refinement floor for every tree: a node is split only while it is
    /// larger than the smallest size, so every node is larger than half the
    /// smallest size.
    pub proof fn law_half_floor(self, key: NodeKey)
        requires
            self.wf(),
            self.contains(key),
        ensures
            2 * self.node(key).size > self.min_size,
    {
        assert(self.node_wf(key));
        let n = self.node(key);
        self.lemma_sizes(n.depth as int);
        match n.parent {
            Some(parent) => {
                assert(self.node_wf(parent));
                let keys = self.node(parent).children->0;
                let index = choose|index: int| 0 <= index < keys.len() && keys[index] == key;
                assert(crate::forest::is_child_of(n, self.node(parent), parent, index, self.dim));
            },
            None => {},
        }
    }

    /// Refinement floor: in a tree whose root is the smallest size doubled
    /// some number of times, no node is smaller than the smallest size.
    pub proof fn law_refinement_floor(self, key: NodeKey, doublings: nat)
        requires
            self.wf(),
            self.contains(key),
            self.root_size == self.min_size * two_pow(doublings),
        ensures
            self.node(key).size >= self.min_size,
    {
        assert(self.node_wf(key));
        let n = self.node(key);
        self.lemma_sizes(n.depth as int);
        if n.depth > 0 {
            let parent = n.parent->0;
            assert(self.node_wf(parent));
            let p = self.node(parent);
            self.lemma_sizes(p.depth as int);
            let d = p.depth as nat;
            lemma_size_times_depth(self, d);
            let m = self.min_size;
            if d >= doublings {
                lemma_two_pow_monotone(doublings, d);
                assert(p.size * two_pow(d) >= p.size * two_pow(doublings)) by (nonlinear_arith)
                    requires
                        p.size > 0,
                        two_pow(d) >= two_pow(doublings),
                ;
                crate::node_traits::lemma_two_pow_positive(doublings);
                assert(p.size * two_pow(doublings) > m * two_pow(doublings)) by (nonlinear_arith)
                    requires
                        p.size > m,
                        two_pow(doublings) > 0,
                ;
            } else {
                let e = (doublings - d) as nat;
                lemma_two_pow_sum(d, e);
                crate::node_traits::lemma_two_pow_positive(d);
                assert(p.size == m * two_pow(e)) by (nonlinear_arith)
                    requires
                        p.size * two_pow(d) == m * (two_pow(d) * two_pow(e)),
                        two_pow(d) > 0,
                ;
                assert(two_pow(e) == 2 * two_pow((e - 1) as nat));
                crate::node_traits::lemma_two_pow_positive((e - 1) as nat);
                assert(n.size == m * two_pow((e - 1) as nat)) by (nonlinear_arith)
                    requires
                        n.size * 2 == m * (2 * two_pow((e - 1) as nat)),
                ;
                assert(m * two_pow((e - 1) as nat) >= m) by (nonlinear_arith)
                    requires
                        m >= 0,
                        two_pow((e - 1) as nat) >= 1,
                ;
            }
        }
    }

    /// Leaf partition, no overlap: the boxes of two different leaves have no
    /// inner point in common.
    #[verifier::rlimit(40)]
    pub proof fn law_leaves_apart(self, first: NodeKey, second: NodeKey)
        requires
            self.wf(),
            self.is_leaf(first),
            self.is_leaf(second),
            self.node(first).overlaps(self.node(second)),
        ensures
            first == second,
    {
        let a = self.node(first);
        let b = self.node(second);
        if a.depth == b.depth {
            self.lemma_level_unique(first, second);
        } else if a.depth > b.depth {
            self.lemma_overlap_is_inside(first, second);
        } else {
            assert(a.pos.len() == b.pos.len()) by {
                assert(self.node_wf(first));
                assert(self.node_wf(second));
            }
            lemma_overlaps_symmetric(a, b);
            self.lemma_overlap_is_inside(second, first);
        }
    }

    /// Leaf partition, no gap: every point of the box of a node lies in the
    /// box of a leaf at or below the node.
    #[verifier::rlimit(40)]
    pub proof fn law_leaves_cover(self, key: NodeKey, point: Seq<int>)
        requires
            self.wf(),
            self.contains(key),
            self.node(key).holds_point(point),
        ensures
            self.is_leaf(self.leaf_holding(key, point)),
            self.node(self.leaf_holding(key, point)).holds_point(point),
            self.at_or_inside(self.leaf_holding(key, point), key),
        decreases MAX_DEPTH + 1 - self.node(key).depth,
    {
        assert(self.node_wf(key));
        let n = self.node(key);
        match n.children {
            None => {},
            Some(keys) => {
                let signs = octant_toward(n.pos, point);
                let index = octant_index(signs) as int;
                law_child_ordering_back(signs, 0);
                let child = keys[index];
                assert(self.contains(keys[index]));
                let c = self.node(child);
                assert(is_child_of(c, n, key, index, self.dim));
                assert(self.node_wf(child));
                assert forall|a: int| 0 <= a < c.pos.len() implies #[trigger] c.pos[a] - c.size / 2
                    <= point[a] <= c.pos[a] + c.size / 2 by {
                    law_child_ordering_back(signs, a);
                    self.lemma_child_box(key, index, a);
                    assert(n.pos[a] - n.size / 2 <= point[a] <= n.pos[a] + n.size / 2);
                }
                self.law_leaves_cover(child, point);
                let leaf = self.leaf_holding(child, point);
                self.lemma_inside_parent(child);
                if leaf != child {
                    let l = self.node(leaf);
                    assert(l.inside(n)) by {
                        assert forall|a: int| 0 <= a < l.pos.len() implies n.pos[a] - n.size / 2
                            <= #[trigger] l.pos[a] - l.size / 2 && l.pos[a] + l.size / 2 <= n.pos[a]
                            + n.size / 2 by {
                            assert(c.pos[a] - c.size / 2 <= l.pos[a] - l.size / 2 && l.pos[a]
                                + l.size / 2 <= c.pos[a] + c.size / 2);
                            assert(n.pos[a] - n.size / 2 <= c.pos[a] - c.size / 2 && c.pos[a]
                                + c.size / 2 <= n.pos[a] + n.size / 2);
                        }
                    }
                }
            },
        }
    }

    /// Planet continuity: a planet has six roots, the root in place `i` lies
    /// on face `i`, and every node lies on the face of the root it stands
    /// below.
    pub proof fn law_planet_faces(self, key: NodeKey)
        requires
            self.wf(),
            self.is_planet(),
            self.contains(key),
        ensures
            self.roots.len() == 6,
            self.node(key).direction != Direction::NoDirection,
            self.at_or_inside(key, self.roots[self.node(key).direction.spec_index() as int]),
    {
        assert(self.node_wf(key));
        let i = self.lemma_under_root(key);
        assert(self.contains(self.roots[i]));
    }
}

/// The edge length of a level, doubled once for every level, is the edge
/// length of the root.
pub proof fn lemma_size_times_depth(forest: Forest, depth: nat)
    requires
        forest.sizes_wf(),
        depth <= MAX_DEPTH,
    ensures
        forest.size_at(depth as int) * two_pow(depth) == forest.root_size,
    decreases depth,
{
    forest.lemma_sizes(depth as int);
    if depth > 0 {
        lemma_size_times_depth(forest, (depth - 1) as nat);
        forest.lemma_sizes(depth as int - 1);
        let s = forest.size_at(depth as int);
        let p = two_pow((depth - 1) as nat);
        assert(s * (2 * p) == (2 * s) * p) by (nonlinear_arith);
    } else {
        assert(two_pow(0) == 1);
    }
}

pub proof fn lemma_two_pow_sum(a: nat, b: nat)
    ensures
        two_pow(a + b) == two_pow(a) * two_pow(b),
    decreases b,
{
    if b > 0 {
        lemma_two_pow_sum(a, (b - 1) as nat);
        let x = two_pow(a);
        let y = two_pow((b - 1) as nat);
        assert(two_pow(a + b) == 2 * two_pow((a + b - 1) as nat));
        assert(2 * (x * y) == x * (2 * y)) by (nonlinear_arith);
    } else {
        assert(two_pow(0) == 1);
        assert(two_pow(a) * 1 == two_pow(a));
    }
}

} // verus!
