//! The climbs from two nodes that lie side by side.

use vstd::prelude::*;
use crate::adjacency::along;
use crate::arena::NodeKey;
use crate::forest::Forest;
use crate::neighbors::{carried, lemma_face_is_step, mirrored_descent};
use crate::node_traits::{child_sign, first_nonzero, is_face_direction, is_zero, opposite};

verus! {

/// Two walks are mirror images along a direction: they have the same count
/// of steps, and their steps differ in the sign along the axis of the
/// direction and in nothing else.
pub open spec fn mirrored_along(first: Seq<Seq<i32>>, second: Seq<Seq<i32>>, dir: Seq<i32>) -> bool {
    &&& first.len() == second.len()
    &&& forall|i: int, a: int|
        0 <= i < first.len() && 0 <= a < dir.len() ==> #[trigger] first[i][a] == if dir[a] != 0 {
            -second[i][a]
        } else {
            second[i][a] as int
        }
}

/// Two whole multiples of a length that lie less than the length below the
/// same number are the same multiple.
pub proof fn lemma_same_multiple(first: int, second: int, length: int, x: int)
    requires
        length > 0,
        first * length <= x < first * length + length,
        second * length <= x < second * length + length,
    ensures
        first == second,
{
    assert(first == second) by (nonlinear_arith)
        requires
            length > 0,
            first * length <= x < first * length + length,
            second * length <= x < second * length + length,
    ;
}

impl Forest {
    /// `other` takes the place next to `key` in the direction `dir`: it is
    /// as large, lies on the same face of the planet, and its centre lies one
    /// edge length further along `dir`.
    pub open spec fn beside(self, key: NodeKey, dir: Seq<i32>, other: NodeKey) -> bool {
        let n = self.node(key);
        let m = self.node(other);
        &&& n.depth == m.depth
        &&& n.direction == m.direction
        &&& forall|a: int|
            0 <= a < self.dim ==> #[trigger] m.pos[a] == n.pos[a] + along(dir[a] as int, n.size as int)
    }

    /// The grid: the low end of a node lies a whole number of its edge
    /// lengths above the low end of its root, along every axis.
    pub proof fn lemma_on_grid(self, key: NodeKey, a: int) -> (at: (NodeKey, int))
        requires
            self.wf(),
            self.contains(key),
            0 <= a < self.dim,
        ensures
            self.contains(at.0),
            self.node(at.0).depth == 0,
            self.node(at.0).direction == self.node(key).direction,
            self.node(key).pos[a] - self.node(key).size / 2 == self.node(at.0).pos[a] - self.node(
                at.0,
            ).size / 2 + at.1 * self.node(key).size,
        decreases self.node(key).depth,
    {
        assert(self.node_wf(key));
        let n = self.node(key);
        match n.parent {
            None => {
                assert(0 * n.size == 0);
                (key, 0)
            },
            Some(parent) => {
                assert(self.node_wf(parent));
                let up = self.lemma_on_grid(parent, a);
                let p = self.node(parent);
                let keys = p.children->0;
                let i = choose|i: int| 0 <= i < keys.len() && keys[i] == key;
                self.lemma_child_box(parent, i, a);
                let k = if child_sign(i, a) < 0 {
                    2 * up.1
                } else {
                    2 * up.1 + 1
                };
                assert(up.1 * p.size == (2 * up.1) * n.size) by (nonlinear_arith)
                    requires
                        p.size == 2 * n.size,
                ;
                assert((2 * up.1 + 1) * n.size == (2 * up.1) * n.size + n.size) by (nonlinear_arith);
                (up.0, k)
            },
        }
    }

    /// Two nodes on the same level and face whose boxes share a stretch
    /// along an axis have the same low end along that axis.
    pub proof fn lemma_same_column(self, first: NodeKey, second: NodeKey, a: int, x: int)
        requires
            self.wf(),
            self.contains(first),
            self.contains(second),
            self.node(first).depth == self.node(second).depth,
            self.node(first).direction == self.node(second).direction,
            0 <= a < self.dim,
            self.node(first).pos[a] - self.node(first).size / 2 <= x < self.node(first).pos[a]
                + self.node(first).size / 2,
            self.node(second).pos[a] - self.node(second).size / 2 <= x < self.node(second).pos[a]
                + self.node(second).size / 2,
        ensures
            self.node(first).pos[a] == self.node(second).pos[a],
    {
        let u = self.lemma_on_grid(first, a);
        let v = self.lemma_on_grid(second, a);
        self.lemma_roots_unique(u.0, v.0);
        assert(self.node_wf(first));
        assert(self.node_wf(second));
        let s = self.node(first).size as int;
        let base = self.node(u.0).pos[a] - self.node(u.0).size / 2;
        lemma_same_multiple(u.1, v.1, s, x - base);
    }

    /// A climb in no direction ends where it begins.
    pub proof fn lemma_ascent_stop(self, key: NodeKey, moving: Seq<i32>)
        requires
            is_zero(moving),
        ensures
            self.ascent(key, moving) == (crate::neighbors::Climb {
                top: key,
                descents: Seq::empty(),
                left: moving,
            }),
    {
    }

    /// A climb out of a node with a parent writes down one step and goes on
    /// from the parent.
    pub proof fn lemma_ascent_step(self, key: NodeKey, moving: Seq<i32>)
        requires
            self.node(key).parent is Some,
            !is_zero(moving),
            self.node(self.node(key).parent->0).depth < self.node(key).depth,
        ensures
            ({
                let octant = self.octant_of(key);
                let up = self.ascent(self.node(key).parent->0, carried(octant, moving));
                self.ascent(key, moving) == (crate::neighbors::Climb {
                    top: up.top,
                    descents: seq![mirrored_descent(octant, moving)] + up.descents,
                    left: up.left,
                })
            }),
    {
    }

    /// Two nodes that lie side by side have parents with the same centre
    /// along every axis but that of the direction, and lie in the same half
    /// of their parents along these axes.
    #[verifier::rlimit(40)]
    pub proof fn lemma_parents_in_column(self, key: NodeKey, dir: Seq<i32>, other: NodeKey, b: int)
        requires
            self.wf(),
            self.contains(key),
            self.contains(other),
            is_face_direction(dir),
            dir.len() == self.dim,
            self.beside(key, dir, other),
            self.node(key).parent is Some,
            self.node(other).parent is Some,
            0 <= b < self.dim,
            b != first_nonzero(dir),
        ensures
            self.node(self.node(key).parent->0).pos[b] == self.node(self.node(other).parent->0).pos[b],
            self.octant_of(key)[b] == self.octant_of(other)[b],
    {
        lemma_face_is_step(dir);
        let n = self.node(key);
        let m = self.node(other);
        assert(self.node_wf(key));
        assert(self.node_wf(other));
        let pl = n.parent->0;
        let pm = m.parent->0;
        assert(self.node_wf(pl));
        assert(self.node_wf(pm));
        let p = self.node(pl);
        let q = self.node(pm);
        let il = choose|i: int| 0 <= i < p.children->0.len() && p.children->0[i] == key;
        let im = choose|i: int| 0 <= i < q.children->0.len() && q.children->0[i] == other;
        self.lemma_child_box(pl, il, b);
        self.lemma_child_box(pm, im, b);
        assert(m.pos[b] == n.pos[b] + along(dir[b] as int, n.size as int));
        assert(dir[b] == 0);
        self.lemma_same_column(pl, pm, b, n.pos[b] - n.size / 2);
    }

    /// Two nodes that lie side by side lie on opposite sides of their
    /// parents along the axis of the direction. If the first lies on the far
    /// side of its parent, the parents have the same centre along the axis;
    /// if it lies on the near side, the parent of the other lies one edge
    /// length further.
    #[verifier::rlimit(40)]
    pub proof fn lemma_parents_along(self, key: NodeKey, dir: Seq<i32>, other: NodeKey)
        requires
            self.wf(),
            self.contains(key),
            self.contains(other),
            is_face_direction(dir),
            dir.len() == self.dim,
            self.beside(key, dir, other),
            self.node(key).parent is Some,
            self.node(other).parent is Some,
        ensures
            ({
                let axis = first_nonzero(dir);
                let p = self.node(self.node(key).parent->0);
                let q = self.node(self.node(other).parent->0);
                &&& self.octant_of(other)[axis] == -self.octant_of(key)[axis]
                &&& q.pos[axis] == if self.octant_of(key)[axis] == dir[axis] {
                    p.pos[axis] + along(dir[axis] as int, p.size as int)
                } else {
                    p.pos[axis] as int
                }
            }),
    {
        lemma_face_is_step(dir);
        let axis = first_nonzero(dir);
        let n = self.node(key);
        let m = self.node(other);
        assert(self.node_wf(key));
        assert(self.node_wf(other));
        assert(m.pos[axis] == n.pos[axis] + along(dir[axis] as int, n.size as int));
        let pl = n.parent->0;
        let pm = m.parent->0;
        assert(self.node_wf(pl));
        assert(self.node_wf(pm));
        let p = self.node(pl);
        let q = self.node(pm);
        self.lemma_sizes(p.depth as int);
        let ol = self.octant_of(key);
        let il = choose|i: int| 0 <= i < p.children->0.len() && p.children->0[i] == key;
        let im = choose|i: int| 0 <= i < q.children->0.len() && q.children->0[i] == other;
        self.lemma_child_box(pl, il, axis);
        self.lemma_child_box(pm, im, axis);
        let x = if dir[axis] > 0 {
            n.pos[axis] + n.size / 2
        } else {
            n.pos[axis] - n.size / 2 - 1
        };
        if ol[axis] != dir[axis] {
            self.lemma_same_column(pl, pm, axis, x);
        } else {
            let r = self.lemma_on_grid(pl, axis);
            let t = self.lemma_on_grid(pm, axis);
            self.lemma_roots_unique(r.0, t.0);
            let base = self.node(r.0).pos[axis] - self.node(r.0).size / 2;
            let s = p.size as int;
            let shifted = if dir[axis] > 0 {
                r.1 + 1
            } else {
                r.1 - 1
            };
            assert(shifted * s == r.1 * s + along(dir[axis] as int, s)) by (nonlinear_arith)
                requires
                    shifted == if dir[axis] > 0 {
                        r.1 + 1
                    } else {
                        r.1 - 1
                    },
                    dir[axis] == 1 || dir[axis] == -1,
                    along(dir[axis] as int, s) == if dir[axis] > 0 {
                        s
                    } else {
                        -s
                    },
            ;
            lemma_same_multiple(shifted, t.1, s, x - base);
        }
    }

    /// The parents of two nodes that lie side by side: the two nodes lie in
    /// octants that differ in the sign along the axis of the direction and in
    /// nothing else. If the first node lies on the far side of its parent,
    /// the two have the same parent; if it lies on the near side, their
    /// parents lie side by side.
    #[verifier::rlimit(40)]
    pub proof fn lemma_parents_beside(self, key: NodeKey, dir: Seq<i32>, other: NodeKey)
        requires
            self.wf(),
            self.contains(key),
            self.contains(other),
            is_face_direction(dir),
            dir.len() == self.dim,
            self.beside(key, dir, other),
        ensures
            self.node(key).parent is Some,
            self.node(other).parent is Some,
            self.contains(self.node(key).parent->0),
            self.contains(self.node(other).parent->0),
            self.node(self.node(key).parent->0).depth < self.node(key).depth,
            self.node(self.node(other).parent->0).depth < self.node(other).depth,
            ({
                let axis = first_nonzero(dir);
                let ol = self.octant_of(key);
                let om = self.octant_of(other);
                &&& forall|b: int| 0 <= b < self.dim && b != axis ==> #[trigger] om[b] == ol[b]
                &&& om[axis] == -ol[axis]
                &&& if ol[axis] == dir[axis] {
                    self.beside(self.node(key).parent->0, dir, self.node(other).parent->0)
                } else {
                    self.node(key).parent->0 == self.node(other).parent->0
                }
            }),
    {
        lemma_face_is_step(dir);
        let axis = first_nonzero(dir);
        let n = self.node(key);
        let m = self.node(other);
        assert(self.node_wf(key));
        assert(self.node_wf(other));
        assert(m.pos[axis] == n.pos[axis] + along(dir[axis] as int, n.size as int));
        if n.depth == 0 {
            self.lemma_roots_unique(key, other);
        }
        let pl = n.parent->0;
        let pm = m.parent->0;
        let p = self.node(pl);
        let q = self.node(pm);
        self.lemma_inside_parent(key);
        self.lemma_inside_parent(other);
        assert(self.node_wf(pl));
        assert(self.node_wf(pm));
        let ol = self.octant_of(key);
        let om = self.octant_of(other);
        self.lemma_parents_along(key, dir, other);
        assert forall|b: int| 0 <= b < self.dim && b != axis implies q.pos[b] == p.pos[b]
            && #[trigger] om[b] == ol[b] by {
            self.lemma_parents_in_column(key, dir, other, b);
        }
        if ol[axis] != dir[axis] {
            assert(p.overlaps(q)) by {
                assert forall|b: int| 0 <= b < p.pos.len() implies #[trigger] p.pos[b] - p.size / 2
                    < q.pos[b] + q.size / 2 && q.pos[b] - q.size / 2 < p.pos[b] + p.size / 2 by {
                    if b != axis {
                        assert(om[b] == ol[b]);
                    }
                    assert(q.pos[b] == p.pos[b]);
                }
            }
            self.lemma_level_unique(pl, pm);
        } else {
            assert forall|b: int| 0 <= b < self.dim implies #[trigger] q.pos[b] == p.pos[b] + along(
                dir[b] as int,
                p.size as int,
            ) by {
                if b != axis {
                    assert(om[b] == ol[b]);
                    assert(q.pos[b] == p.pos[b]);
                }
            }
        }
    }

    /// Descent mirror: the climbs from two nodes that lie side by side, each
    /// towards the other, reach the same ancestor with nothing left of their
    /// directions, and the steps they write down are mirror images along the
    /// direction.
    #[verifier::rlimit(40)]
    pub proof fn law_descent_mirror(self, key: NodeKey, dir: Seq<i32>, other: NodeKey)
        requires
            self.wf(),
            self.contains(key),
            self.contains(other),
            is_face_direction(dir),
            dir.len() == self.dim,
            self.beside(key, dir, other),
        ensures
            self.ascent(key, dir).top == self.ascent(other, opposite(dir)).top,
            is_zero(self.ascent(key, dir).left),
            is_zero(self.ascent(other, opposite(dir)).left),
            mirrored_along(
                self.ascent(key, dir).descents,
                self.ascent(other, opposite(dir)).descents,
                dir,
            ),
        decreases self.node(key).depth,
    {
        lemma_face_is_step(dir);
        self.lemma_parents_beside(key, dir, other);
        let back = opposite(dir);
        let axis = first_nonzero(dir);
        let pl = self.node(key).parent->0;
        let pm = self.node(other).parent->0;
        let ol = self.octant_of(key);
        let om = self.octant_of(other);
        assert(back[axis] == -dir[axis]);
        assert(!is_zero(dir));
        assert(!is_zero(back));
        let climb = self.ascent(key, dir);
        let other_climb = self.ascent(other, back);
        let first = mirrored_descent(ol, dir);
        let second = mirrored_descent(om, back);
        self.lemma_ascent_step(key, dir);
        self.lemma_ascent_step(other, back);
        assert forall|a: int| 0 <= a < dir.len() implies #[trigger] first[a] == if dir[a] != 0 {
            -second[a]
        } else {
            second[a] as int
        } by {
            assert(back[a] == -dir[a]);
            if a != axis {
                assert(om[a] == ol[a]);
            }
        }
        if ol[axis] != dir[axis] {
            assert(is_zero(carried(ol, dir)));
            assert(is_zero(carried(om, back))) by {
                assert forall|a: int| 0 <= a < carried(om, back).len() implies #[trigger] carried(
                    om,
                    back,
                )[a] == 0 by {
                    assert(back[a] == -dir[a]);
                }
            }
            self.lemma_ascent_stop(pl, carried(ol, dir));
            self.lemma_ascent_stop(pm, carried(om, back));
            assert(climb.descents =~= seq![first]);
            assert(other_climb.descents =~= seq![second]);
        } else {
            assert(carried(ol, dir) =~= dir);
            assert(carried(om, back) =~= back) by {
                assert forall|a: int| 0 <= a < back.len() implies carried(om, back)[a] == back[a] by {
                    assert(back[a] == -dir[a]);
                }
            }
            self.law_descent_mirror(pl, dir, pm);
            let up = self.ascent(pl, dir);
            let other_up = self.ascent(pm, back);
            assert(climb.descents == seq![first] + up.descents);
            assert(other_climb.descents == seq![second] + other_up.descents);
            assert forall|i: int, a: int|
                0 <= i < climb.descents.len() && 0 <= a < dir.len() implies #[trigger] climb.descents[i][a]
                == if dir[a] != 0 {
                -other_climb.descents[i][a]
            } else {
                other_climb.descents[i][a] as int
            } by {
                if i > 0 {
                    assert(climb.descents[i] == up.descents[i - 1]);
                    assert(other_climb.descents[i] == other_up.descents[i - 1]);
                    assert(up.descents[i - 1][a] == if dir[a] != 0 {
                        -other_up.descents[i - 1][a]
                    } else {
                        other_up.descents[i - 1][a] as int
                    });
                }
            }
        }
    }
}

} // verus!
