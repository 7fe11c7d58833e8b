//! How the boxes of the nodes of a well-formed tree lie to each other.

use vstd::prelude::*;
use crate::arena::NodeKey;
use crate::forest::{is_child_of, toward, Forest};
use crate::node_traits::{child_sign, two_pow};
use crate::tree_node::NodeView;

verus! {

impl NodeView {
    /// This node lies on a deeper level than `outer`, on the same face, and
    /// within the box of `outer`.
    pub open spec fn inside(self, outer: NodeView) -> bool {
        &&& self.direction == outer.direction
        &&& self.depth > outer.depth
        &&& forall|a: int|
            0 <= a < self.pos.len() ==> outer.pos[a] - outer.size / 2 <= #[trigger] self.pos[a]
                - self.size / 2 && self.pos[a] + self.size / 2 <= outer.pos[a] + outer.size / 2
    }

    /// The two nodes lie on the same face, and their boxes have inner points
    /// in common.
    pub open spec fn overlaps(self, other: NodeView) -> bool {
        &&& self.direction == other.direction
        &&& forall|a: int|
            0 <= a < self.pos.len() ==> #[trigger] self.pos[a] - self.size / 2 < other.pos[a]
                + other.size / 2 && other.pos[a] - other.size / 2 < self.pos[a] + self.size / 2
    }
}

/// An index below `2^dim` is the sum of its bits, so two different indices
/// differ in the sign along some axis.
pub proof fn lemma_signs_differ(i: int, j: int, dim: nat)
    requires
        dim == 2 || dim == 3,
        0 <= i < two_pow(dim),
        0 <= j < two_pow(dim),
        i != j,
    ensures
        exists|a: int| 0 <= a < dim && child_sign(i, a) != child_sign(j, a),
{
    reveal_with_fuel(two_pow, 4);
    assert(two_pow(0) == 1 && two_pow(1) == 2 && two_pow(2) == 4 && two_pow(3) == 8);
    assert(i == (i / 1) % 2 + 2 * ((i / 2) % 2) + 4 * (i / 4));
    assert(j == (j / 1) % 2 + 2 * ((j / 2) % 2) + 4 * (j / 4));
    if child_sign(i, 0) == child_sign(j, 0) && child_sign(i, 1) == child_sign(j, 1) {
        assert((i / 1) % 2 == (j / 1) % 2);
        assert((i / 2) % 2 == (j / 2) % 2);
        assert(i / 4 != j / 4);
        assert(dim == 3);
        assert(0 <= i / 4 < 2 && 0 <= j / 4 < 2);
        assert(child_sign(i, 2) != child_sign(j, 2));
    }
}

impl Forest {
    /// The box of a child is the half of the parent's box on the child's
    /// side, along every axis.
    pub proof fn lemma_child_box(self, parent: NodeKey, index: int, a: int)
        requires
            self.wf(),
            self.is_branch(parent),
            0 <= index < self.fanout(),
            0 <= a < self.dim,
        ensures
            ({
                let p = self.node(parent);
                let c = self.node(p.children->0[index]);
                &&& self.contains(p.children->0[index])
                &&& c.pos.len() == self.dim
                &&& c.size * 2 == p.size
                &&& c.depth == p.depth + 1
                &&& c.direction == p.direction
                &&& if child_sign(index, a) < 0 {
                    c.pos[a] - c.size / 2 == p.pos[a] - p.size / 2 && c.pos[a] + c.size / 2
                        == p.pos[a]
                } else {
                    c.pos[a] - c.size / 2 == p.pos[a] && c.pos[a] + c.size / 2 == p.pos[a] + p.size
                        / 2
                }
            }),
    {
        let p = self.node(parent);
        assert(self.node_wf(parent));
        let keys = p.children->0;
        assert(self.contains(keys[index]));
        let c = self.node(keys[index]);
        assert(is_child_of(c, p, parent, index, self.dim));
        assert(c.pos[a] == p.pos[a] + toward(child_sign(index, a), p.size / 4));
    }

    /// A node lies inside its parent.
    pub proof fn lemma_inside_parent(self, key: NodeKey)
        requires
            self.wf(),
            self.contains(key),
            self.node(key).parent is Some,
        ensures
            self.is_branch(self.node(key).parent->0),
            self.node(key).inside(self.node(self.node(key).parent->0)),
            self.node(key).depth == self.node(self.node(key).parent->0).depth + 1,
    {
        assert(self.node_wf(key));
        let parent = self.node(key).parent->0;
        let p = self.node(parent);
        let keys = p.children->0;
        assert(self.node_wf(parent));
        let i = choose|i: int| 0 <= i < keys.len() && keys[i] == key;
        let c = self.node(key);
        assert forall|a: int| 0 <= a < c.pos.len() implies p.pos[a] - p.size / 2 <= #[trigger] c.pos[a]
            - c.size / 2 && c.pos[a] + c.size / 2 <= p.pos[a] + p.size / 2 by {
            self.lemma_child_box(parent, i, a);
        }
        self.lemma_child_box(parent, i, 0);
    }

    /// Two children of one branch whose boxes have inner points in common
    /// are the same child.
    pub proof fn lemma_siblings_apart(self, parent: NodeKey, i: int, j: int)
        requires
            self.wf(),
            self.is_branch(parent),
            0 <= i < self.fanout(),
            0 <= j < self.fanout(),
            self.node(self.node(parent).children->0[i]).overlaps(
                self.node(self.node(parent).children->0[j]),
            ),
        ensures
            i == j,
    {
        if i != j {
            lemma_signs_differ(i, j, self.dim);
            let a = choose|a: int| 0 <= a < self.dim && child_sign(i, a) != child_sign(j, a);
            self.lemma_child_box(parent, i, a);
            self.lemma_child_box(parent, j, a);
            let ci = self.node(self.node(parent).children->0[i]);
            let cj = self.node(self.node(parent).children->0[j]);
            assert(ci.pos[a] - ci.size / 2 < cj.pos[a] + cj.size / 2);
            assert(cj.pos[a] - cj.size / 2 < ci.pos[a] + ci.size / 2);
            assert(false);
        }
    }

    /// A node on level zero is a root, and two roots on the same face are
    /// the same root.
    pub proof fn lemma_roots_unique(self, j: NodeKey, k: NodeKey)
        requires
            self.wf(),
            self.contains(j),
            self.contains(k),
            self.node(j).depth == 0,
            self.node(k).depth == 0,
            self.node(j).direction == self.node(k).direction,
        ensures
            j == k,
    {
        assert(self.node_wf(j));
        assert(self.node_wf(k));
        assert(self.roots.contains(j));
        assert(self.roots.contains(k));
        let a = choose|a: int| 0 <= a < self.roots.len() && self.roots[a] == j;
        let b = choose|b: int| 0 <= b < self.roots.len() && self.roots[b] == k;
        assert(self.contains(self.roots[a]));
        assert(self.contains(self.roots[b]));
    }

    /// Two nodes on the same level whose boxes have inner points in common
    /// are the same node.
    #[verifier::rlimit(40)]
    pub proof fn lemma_level_unique(self, j: NodeKey, k: NodeKey)
        requires
            self.wf(),
            self.contains(j),
            self.contains(k),
            self.node(j).depth == self.node(k).depth,
            self.node(j).overlaps(self.node(k)),
        ensures
            j == k,
        decreases self.node(j).depth,
    {
        assert(self.node_wf(j));
        assert(self.node_wf(k));
        if self.node(j).depth == 0 {
            self.lemma_roots_unique(j, k);
        } else {
            let pj = self.node(j).parent->0;
            let pk = self.node(k).parent->0;
            self.lemma_inside_parent(j);
            self.lemma_inside_parent(k);
            let nj = self.node(j);
            let nk = self.node(k);
            assert(self.node_wf(pj));
            assert(self.node_wf(pk));
            assert(self.node(pj).overlaps(self.node(pk))) by {
                assert forall|a: int| 0 <= a < self.node(pj).pos.len() implies #[trigger] self.node(
                    pj,
                ).pos[a] - self.node(pj).size / 2 < self.node(pk).pos[a] + self.node(pk).size / 2
                    && self.node(pk).pos[a] - self.node(pk).size / 2 < self.node(pj).pos[a]
                    + self.node(pj).size / 2 by {
                    assert(nj.pos[a] - nj.size / 2 < nk.pos[a] + nk.size / 2);
                    assert(nk.pos[a] - nk.size / 2 < nj.pos[a] + nj.size / 2);
                }
            }
            self.lemma_level_unique(pj, pk);
            let keys = self.node(pj).children->0;
            let a = choose|a: int| 0 <= a < keys.len() && keys[a] == j;
            let b = choose|b: int| 0 <= b < keys.len() && keys[b] == k;
            self.lemma_siblings_apart(pj, a, b);
        }
    }

    /// A node whose box has inner points in common with the box of a node on
    /// a higher level is a child of that node or lies inside one.
    #[verifier::rlimit(40)]
    pub proof fn lemma_below_branch(self, key: NodeKey, top: NodeKey) -> (index: int)
        requires
            self.wf(),
            self.contains(key),
            self.contains(top),
            self.node(key).depth > self.node(top).depth,
            self.node(key).overlaps(self.node(top)),
        ensures
            self.is_branch(top),
            0 <= index < self.fanout(),
            self.contains(self.node(top).children->0[index]),
            key == self.node(top).children->0[index] || self.node(key).inside(
                self.node(self.node(top).children->0[index]),
            ),
        decreases self.node(key).depth,
    {
        assert(self.node_wf(key));
        assert(self.node_wf(top));
        let parent = self.node(key).parent->0;
        self.lemma_inside_parent(key);
        assert(self.node_wf(parent));
        let n = self.node(key);
        let p = self.node(parent);
        let t = self.node(top);
        assert(p.overlaps(t)) by {
            assert forall|a: int| 0 <= a < p.pos.len() implies #[trigger] p.pos[a] - p.size / 2
                < t.pos[a] + t.size / 2 && t.pos[a] - t.size / 2 < p.pos[a] + p.size / 2 by {
                assert(n.pos[a] - n.size / 2 < t.pos[a] + t.size / 2);
                assert(t.pos[a] - t.size / 2 < n.pos[a] + n.size / 2);
            }
        }
        if p.depth == t.depth {
            self.lemma_level_unique(parent, top);
            let keys = t.children->0;
            let i = choose|i: int| 0 <= i < keys.len() && keys[i] == key;
            assert(self.contains(keys[i]));
            i
        } else {
            let i = self.lemma_below_branch(parent, top);
            let c = self.node(t.children->0[i]);
            if parent == t.children->0[i] {
            } else {
                assert(n.inside(c)) by {
                    assert forall|a: int| 0 <= a < n.pos.len() implies c.pos[a] - c.size / 2
                        <= #[trigger] n.pos[a] - n.size / 2 && n.pos[a] + n.size / 2 <= c.pos[a]
                        + c.size / 2 by {
                        assert(c.pos[a] - c.size / 2 <= p.pos[a] - p.size / 2 && p.pos[a] + p.size
                            / 2 <= c.pos[a] + c.size / 2);
                    }
                }
            }
            i
        }
    }

    /// A node whose box has inner points in common with the box of a node on
    /// a higher level lies inside that node.
    pub proof fn lemma_overlap_is_inside(self, key: NodeKey, top: NodeKey)
        requires
            self.wf(),
            self.contains(key),
            self.contains(top),
            self.node(key).depth > self.node(top).depth,
            self.node(key).overlaps(self.node(top)),
        ensures
            self.is_branch(top),
            self.node(key).inside(self.node(top)),
    {
        let i = self.lemma_below_branch(key, top);
        let t = self.node(top);
        let child = t.children->0[i];
        let c = self.node(child);
        let n = self.node(key);
        assert(self.node_wf(top));
        assert(self.node_wf(key));
        assert(self.node_wf(child));
        assert forall|a: int| 0 <= a < n.pos.len() implies t.pos[a] - t.size / 2 <= #[trigger] n.pos[a]
            - n.size / 2 && n.pos[a] + n.size / 2 <= t.pos[a] + t.size / 2 by {
            self.lemma_child_box(top, i, a);
            if key != child {
                assert(c.pos[a] - c.size / 2 <= n.pos[a] - n.size / 2 && n.pos[a] + n.size / 2
                    <= c.pos[a] + c.size / 2);
            }
        }
        self.lemma_child_box(top, i, 0);
    }

    /// A node that lies inside another has inner points in common with it.
    pub proof fn lemma_inside_overlaps(self, key: NodeKey, top: NodeKey)
        requires
            self.wf(),
            self.contains(key),
            self.contains(top),
            self.node(key).inside(self.node(top)),
        ensures
            self.node(key).overlaps(self.node(top)),
    {
        assert(self.node_wf(key));
        assert(self.node_wf(top));
        let n = self.node(key);
        let t = self.node(top);
        assert forall|a: int| 0 <= a < n.pos.len() implies #[trigger] n.pos[a] - n.size / 2
            < t.pos[a] + t.size / 2 && t.pos[a] - t.size / 2 < n.pos[a] + n.size / 2 by {
            assert(t.pos[a] - t.size / 2 <= n.pos[a] - n.size / 2 && n.pos[a] + n.size / 2
                <= t.pos[a] + t.size / 2);
        }
    }

    /// The children of a branch are different nodes.
    pub proof fn lemma_children_distinct(self, parent: NodeKey)
        requires
            self.wf(),
            self.is_branch(parent),
        ensures
            self.node(parent).children->0.no_duplicates(),
    {
        let keys = self.node(parent).children->0;
        assert(self.node_wf(parent));
        assert forall|i: int, j: int| 0 <= i < keys.len() && 0 <= j < keys.len() && i != j implies keys[i]
            != keys[j] by {
            if keys[i] == keys[j] {
                assert(self.contains(keys[i]));
                assert(self.node_wf(keys[i]));
                let c = self.node(keys[i]);
                assert(c.overlaps(c));
                self.lemma_siblings_apart(parent, i, j);
            }
        }
    }

    /// Every node is a root or lies inside one.
    pub proof fn lemma_under_root(self, key: NodeKey) -> (index: int)
        requires
            self.wf(),
            self.contains(key),
        ensures
            0 <= index < self.roots.len(),
            key == self.roots[index] || self.node(key).inside(self.node(self.roots[index])),
        decreases self.node(key).depth,
    {
        assert(self.node_wf(key));
        match self.node(key).parent {
            None => {
                let i = choose|i: int| 0 <= i < self.roots.len() && self.roots[i] == key;
                i
            },
            Some(p) => {
                self.lemma_inside_parent(key);
                let i = self.lemma_under_root(p);
                let r = self.node(self.roots[i]);
                let n = self.node(key);
                let pn = self.node(p);
                if p != self.roots[i] {
                    assert forall|a: int| 0 <= a < n.pos.len() implies r.pos[a] - r.size / 2
                        <= #[trigger] n.pos[a] - n.size / 2 && n.pos[a] + n.size / 2 <= r.pos[a]
                        + r.size / 2 by {
                        assert(r.pos[a] - r.size / 2 <= pn.pos[a] - pn.size / 2 && pn.pos[a] + pn.size
                            / 2 <= r.pos[a] + r.size / 2);
                    }
                }
                i
            },
        }
    }
}

} // verus!
