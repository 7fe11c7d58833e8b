//! Why the search for neighbours finds the leaves across a face, all of
//! them and no others.

use vstd::prelude::*;
use crate::arena::NodeKey;
use crate::forest::{is_child_of, toward, Forest, MAX_DEPTH};
use crate::laws::{
    child_signs, law_child_ordering, law_child_ordering_back, lemma_overlaps_symmetric,
};
use crate::neighbors::{
    border_sides, carried, lemma_face_is_step, lemma_first_nonzero_of_opposite, mirrored_descent,
};
use crate::node_traits::{
    border_component, child_sign, first_nonzero, is_face_direction, is_step, is_zero, octant_index,
    opposite, two_pow,
};
use crate::planet_tree_impl::{face_transform, neighbor_face, Direction};
use crate::tree_node::NodeView;

verus! {

/// A place that a node could take: a level and a centre.
pub struct Cell {
    pub depth: int,
    pub pos: Seq<int>,
}

/// A length, taken to the side that a component of a direction names, or
/// not at all where the component is zero.
pub open spec fn along(component: int, length: int) -> int {
    if component > 0 {
        length
    } else if component < 0 {
        -length
    } else {
        0
    }
}

/// Every component of the vector is `-1` or `1`.
pub open spec fn is_octant(d: Seq<i32>) -> bool {
    forall|a: int| 0 <= a < d.len() ==> #[trigger] d[a] == 1 || d[a] == -1
}

impl Forest {
    /// The place of a node.
    pub open spec fn cell(self, key: NodeKey) -> Cell {
        Cell {
            depth: self.node(key).depth as int,
            pos: Seq::new(self.dim, |a: int| self.node(key).pos[a] as int),
        }
    }

    /// The place next to a place, in a direction.
    pub open spec fn shifted(self, c: Cell, dir: Seq<i32>) -> Cell {
        Cell {
            depth: c.depth,
            pos: Seq::new(self.dim, |a: int| c.pos[a] + along(dir[a] as int, self.size_at(c.depth))),
        }
    }

    /// The place of the child in an octant of a place.
    pub open spec fn stepped(self, c: Cell, octant: Seq<i32>) -> Cell {
        Cell {
            depth: c.depth + 1,
            pos: Seq::new(
                self.dim,
                |a: int| c.pos[a] + toward(octant[a] as int, self.size_at(c.depth) / 4),
            ),
        }
    }

    /// The place that a walk down from a place ends at. The steps are taken
    /// from the last to the first.
    pub open spec fn walk_down(self, c: Cell, steps: Seq<Seq<i32>>) -> Cell
        decreases steps.len(),
    {
        if steps.len() == 0 {
            c
        } else {
            self.walk_down(self.stepped(c, steps.last()), steps.drop_last())
        }
    }

    /// A walk with one more step at the front ends one step further.
    pub proof fn lemma_walk_front(self, c: Cell, first: Seq<i32>, steps: Seq<Seq<i32>>)
        ensures
            self.walk_down(c, seq![first] + steps) == self.stepped(self.walk_down(c, steps), first),
        decreases steps.len(),
    {
        let all = seq![first] + steps;
        if steps.len() == 0 {
            assert(all.drop_last() =~= Seq::empty());
            assert(all.last() == first);
            assert(self.walk_down(self.stepped(c, first), Seq::empty()) == self.stepped(c, first));
        } else {
            assert(all.last() == steps.last());
            assert(all.drop_last() =~= seq![first] + steps.drop_last());
            self.lemma_walk_front(self.stepped(c, steps.last()), first, steps.drop_last());
        }
    }

    /// A walk ends as many levels down as it has steps.
    pub proof fn lemma_walk_depth(self, c: Cell, steps: Seq<Seq<i32>>)
        ensures
            self.walk_down(c, steps).depth == c.depth + steps.len(),
            self.walk_down(c, steps).pos.len() == if steps.len() == 0 {
                c.pos.len()
            } else {
                self.dim
            },
        decreases steps.len(),
    {
        if steps.len() > 0 {
            self.lemma_walk_depth(self.stepped(c, steps.last()), steps.drop_last());
        }
    }

    /// The place of a node is the step into its octant from the place of its
    /// parent.
    pub proof fn lemma_cell_of_child(self, key: NodeKey)
        requires
            self.wf(),
            self.contains(key),
            self.node(key).parent is Some,
        ensures
            self.cell(key) == self.stepped(
                self.cell(self.node(key).parent->0),
                self.octant_of(key),
            ),
    {
        assert(self.node_wf(key));
        let parent = self.node(key).parent->0;
        assert(self.node_wf(parent));
        let p = self.node(parent);
        let n = self.node(key);
        let keys = p.children->0;
        let i = choose|i: int| 0 <= i < keys.len() && keys[i] == key;
        assert(is_child_of(n, p, parent, i, self.dim));
        self.lemma_octant_of_child(key, i);
        let stepped = self.stepped(self.cell(parent), self.octant_of(key));
        assert forall|a: int| 0 <= a < self.dim implies self.cell(key).pos[a] == stepped.pos[a] by {
            assert(n.pos[a] == p.pos[a] + toward(child_sign(i, a), p.size / 4));
        }
        assert(self.cell(key).pos =~= stepped.pos);
    }

    /// What a climb has written down leads back: the walk by its steps, down
    /// from the place next to the node it has reached in the direction that
    /// is left, ends at the place next to the node it began at in the
    /// direction it began with.
    #[verifier::rlimit(40)]
    pub proof fn lemma_ascent_leads_back(self, key: NodeKey, moving: Seq<i32>)
        requires
            self.wf(),
            self.contains(key),
            is_step(moving),
            moving.len() == self.dim,
        ensures
            ({
                let climb = self.ascent(key, moving);
                &&& self.contains(climb.top)
                &&& is_step(climb.left)
                &&& climb.left.len() == self.dim
                &&& self.node(climb.top).depth + climb.descents.len() == self.node(key).depth
                &&& self.node(climb.top).direction == self.node(key).direction
                &&& !is_zero(climb.left) ==> self.node(climb.top).parent is None
                &&& forall|a: int|
                    0 <= a < self.dim ==> #[trigger] climb.left[a] == 0 || climb.left[a]
                        == moving[a]
                &&& forall|i: int|
                    0 <= i < climb.descents.len() ==> is_octant(#[trigger] climb.descents[i])
                        && climb.descents[i].len() == self.dim
                &&& self.walk_down(self.shifted(self.cell(climb.top), climb.left), climb.descents)
                    == self.shifted(self.cell(key), moving)
            }),
        decreases self.node(key).depth,
    {
        assert(self.node_wf(key));
        let n = self.node(key);
        if n.parent is Some && !is_zero(moving) && self.node(n.parent->0).depth < n.depth {
            let parent = n.parent->0;
            let p = self.node(parent);
            assert(self.node_wf(parent));
            let octant = self.octant_of(key);
            let left = carried(octant, moving);
            let step = mirrored_descent(octant, moving);
            self.lemma_ascent_leads_back(parent, left);
            let up = self.ascent(parent, left);
            let climb = self.ascent(key, moving);
            assert(climb.descents == seq![step] + up.descents);
            assert forall|i: int| 0 <= i < climb.descents.len() implies is_octant(
                #[trigger] climb.descents[i],
            ) && climb.descents[i].len() == self.dim by {
                if i > 0 {
                    assert(climb.descents[i] == up.descents[i - 1]);
                }
            }
            assert forall|a: int| 0 <= a < self.dim implies #[trigger] climb.left[a] == 0
                || climb.left[a] == moving[a] by {
                assert(up.left[a] == 0 || up.left[a] == left[a]);
            }
            let base = self.shifted(self.cell(up.top), up.left);
            self.lemma_walk_front(base, step, up.descents);
            self.lemma_cell_of_child(key);
            self.lemma_sizes(p.depth as int);
            let from = self.stepped(self.shifted(self.cell(parent), left), step);
            let to = self.shifted(self.cell(key), moving);
            assert forall|a: int| 0 <= a < self.dim implies from.pos[a] == to.pos[a] by {
                assert(-1 <= moving[a] <= 1);
                assert(self.cell(key).pos[a] == self.cell(parent).pos[a] + toward(
                    octant[a] as int,
                    self.size_at(p.depth as int) / 4,
                ));
            }
            assert(from.pos =~= to.pos);
        } else {
            let c = self.shifted(self.cell(key), moving);
            assert(self.walk_down(c, Seq::empty()) == c);
        }
    }
}

impl Forest {
    /// The low end of a place along an axis.
    pub open spec fn cell_low(self, c: Cell, a: int) -> int {
        c.pos[a] - self.size_at(c.depth) / 2
    }

    /// The high end of a place along an axis.
    pub open spec fn cell_high(self, c: Cell, a: int) -> int {
        c.pos[a] + self.size_at(c.depth) / 2
    }

    /// The box of one place lies within the box of another.
    pub open spec fn within(self, inner: Cell, outer: Cell) -> bool {
        forall|a: int|
            0 <= a < self.dim ==> self.cell_low(outer, a) <= #[trigger] self.cell_low(inner, a)
                && self.cell_high(inner, a) <= self.cell_high(outer, a)
    }

    /// The box of the child in an octant is the half of the box on the side
    /// of the octant, along every axis.
    pub proof fn lemma_step_box(self, c: Cell, octant: Seq<i32>, a: int)
        requires
            self.sizes_wf(),
            0 <= c.depth < MAX_DEPTH,
            0 <= a < self.dim,
        ensures
            ({
                let s = self.stepped(c, octant);
                if octant[a] < 0 {
                    self.cell_low(s, a) == self.cell_low(c, a) && self.cell_high(s, a) == c.pos[a]
                } else {
                    self.cell_low(s, a) == c.pos[a] && self.cell_high(s, a) == self.cell_high(c, a)
                }
            }),
    {
        self.lemma_sizes(c.depth);
        self.lemma_sizes(c.depth + 1);
    }

    /// A walk down from a place stays within the box of the place.
    pub proof fn lemma_walk_within(self, c: Cell, steps: Seq<Seq<i32>>)
        requires
            self.sizes_wf(),
            0 <= c.depth,
            c.depth + steps.len() <= MAX_DEPTH,
        ensures
            self.within(self.walk_down(c, steps), c),
        decreases steps.len(),
    {
        if steps.len() > 0 {
            let next = self.stepped(c, steps.last());
            self.lemma_walk_within(next, steps.drop_last());
            let end = self.walk_down(c, steps);
            assert forall|a: int| 0 <= a < self.dim implies self.cell_low(c, a)
                <= #[trigger] self.cell_low(end, a) && self.cell_high(end, a) <= self.cell_high(
                c,
                a,
            ) by {
                self.lemma_step_box(c, steps.last(), a);
                self.lemma_sizes(c.depth);
                assert(self.cell_low(next, a) <= self.cell_low(end, a) && self.cell_high(end, a)
                    <= self.cell_high(next, a));
            }
        }
    }

    /// A walk down from a leaf stays at the leaf.
    pub proof fn lemma_descent_of_leaf(self, key: NodeKey, steps: Seq<Seq<i32>>)
        requires
            self.is_leaf(key),
        ensures
            self.descent(key, steps) == key,
        decreases steps.len(),
    {
        if steps.len() > 0 {
            self.lemma_descent_of_leaf(key, steps.drop_last());
        }
    }

    /// The low and high ends of the place of a node are the low and high
    /// ends of the node.
    pub proof fn lemma_cell_box(self, key: NodeKey, a: int)
        requires
            self.wf(),
            self.contains(key),
            0 <= a < self.dim,
        ensures
            self.cell_low(self.cell(key), a) == self.node(key).pos[a] - self.node(key).size / 2,
            self.cell_high(self.cell(key), a) == self.node(key).pos[a] + self.node(key).size / 2,
    {
        assert(self.node_wf(key));
    }

    /// Where a walk down the tree ends: at a node at or below the node it
    /// began at, whose box holds the place that the steps lead to. The node
    /// is a leaf, or it stands at that place.
    #[verifier::rlimit(40)]
    pub proof fn lemma_descent_holds_target(self, key: NodeKey, steps: Seq<Seq<i32>>)
        requires
            self.wf(),
            self.contains(key),
            self.node(key).depth + steps.len() <= MAX_DEPTH,
            forall|i: int|
                0 <= i < steps.len() ==> is_octant(#[trigger] steps[i]) && steps[i].len() == self.dim,
        ensures
            ({
                let end = self.descent(key, steps);
                let target = self.walk_down(self.cell(key), steps);
                &&& self.contains(end)
                &&& self.at_or_inside(end, key)
                &&& self.node(end).direction == self.node(key).direction
                &&& self.node(end).depth <= target.depth
                &&& self.within(target, self.cell(end))
                &&& self.is_leaf(end) || self.cell(end) == target
            }),
        decreases steps.len(),
    {
        assert(self.node_wf(key));
        let n = self.node(key);
        self.lemma_walk_depth(self.cell(key), steps);
        if steps.len() == 0 {
            let c = self.cell(key);
            assert(self.within(c, c));
        } else {
            match n.children {
                Some(keys) => {
                    let last = steps.last();
                    let rest = steps.drop_last();
                    assert(is_octant(steps[steps.len() - 1]));
                    law_child_ordering_back(last, 0);
                    let index = octant_index(last) as int;
                    let child = keys[index];
                    assert(self.contains(keys[index]));
                    let c = self.node(child);
                    assert(is_child_of(c, n, key, index, self.dim));
                    assert(self.node_wf(child));
                    let stepped = self.stepped(self.cell(key), last);
                    assert forall|a: int| 0 <= a < self.dim implies self.cell(child).pos[a]
                        == stepped.pos[a] by {
                        law_child_ordering_back(last, a);
                        assert(c.pos[a] == n.pos[a] + toward(child_sign(index, a), n.size / 4));
                    }
                    assert(self.cell(child).pos =~= stepped.pos);
                    assert(self.cell(child) == stepped);
                    self.lemma_inside_parent(child);
                    if c.children is None {
                        self.lemma_walk_within(stepped, rest);
                    } else {
                        assert forall|i: int| 0 <= i < rest.len() implies is_octant(
                            #[trigger] rest[i],
                        ) && rest[i].len() == self.dim by {
                            assert(rest[i] == steps[i]);
                        }
                        self.lemma_descent_holds_target(child, rest);
                        let end = self.descent(child, rest);
                        if end != child {
                            let e = self.node(end);
                            assert(e.inside(n)) by {
                                assert forall|a: int| 0 <= a < e.pos.len() implies n.pos[a] - n.size
                                    / 2 <= #[trigger] e.pos[a] - e.size / 2 && e.pos[a] + e.size / 2
                                    <= n.pos[a] + n.size / 2 by {
                                    assert(c.pos[a] - c.size / 2 <= e.pos[a] - e.size / 2
                                        && e.pos[a] + e.size / 2 <= c.pos[a] + c.size / 2);
                                    assert(n.pos[a] - n.size / 2 <= c.pos[a] - c.size / 2
                                        && c.pos[a] + c.size / 2 <= n.pos[a] + n.size / 2);
                                }
                            }
                        }
                    }
                },
                None => {
                    self.lemma_descent_of_leaf(key, steps);
                    self.lemma_walk_within(self.cell(key), steps);
                },
            }
        }
    }
}

impl NodeView {
    /// `other` lies across the face of this node that `dir` names: on the
    /// same face of the planet, with its near face in the plane of that face
    /// of this node, and with inner points in common with this node along
    /// every other axis.
    pub open spec fn across(self, dir: Seq<i32>, other: NodeView) -> bool {
        &&& self.direction == other.direction
        &&& forall|a: int|
            0 <= a < self.pos.len() ==> if dir[a] > 0 {
                #[trigger] other.pos[a] - other.size / 2 == self.pos[a] + self.size / 2
            } else if dir[a] < 0 {
                other.pos[a] + other.size / 2 == self.pos[a] - self.size / 2
            } else {
                other.pos[a] - other.size / 2 < self.pos[a] + self.size / 2 && self.pos[a]
                    - self.size / 2 < other.pos[a] + other.size / 2
            }
    }

    /// `other` lies on the side of this node that is met first when coming
    /// along `dir`.
    pub open spec fn near_side(self, dir: Seq<i32>, other: NodeView) -> bool {
        forall|a: int|
            0 <= a < self.pos.len() ==> (dir[a] > 0 ==> #[trigger] other.pos[a] - other.size / 2
                == self.pos[a] - self.size / 2) && (dir[a] < 0 ==> other.pos[a] + other.size / 2
                == self.pos[a] + self.size / 2)
    }
}

/// Every side of a branch that faces back along a direction is an octant on
/// the near side.
pub proof fn lemma_border_side(dir: Seq<i32>, k: int)
    requires
        is_face_direction(dir),
        dir.len() == 2 || dir.len() == 3,
        0 <= k < border_sides(dir).len(),
    ensures
        is_octant(border_sides(dir)[k]),
        border_sides(dir)[k].len() == dir.len(),
        border_sides(dir)[k][first_nonzero(dir)] == -dir[first_nonzero(dir)],
{
    lemma_face_is_step(dir);
    lemma_first_nonzero_of_opposite(dir, 0);
    let side = border_sides(dir)[k];
    let back = opposite(dir);
    assert forall|a: int| 0 <= a < side.len() implies #[trigger] side[a] == 1 || side[a] == -1 by {
        assert(side[a] == border_component(back, k, a) as i32);
    }
    assert(side[first_nonzero(dir)] == border_component(back, k, first_nonzero(dir)) as i32);
}

/// Every octant on the near side is one of the sides.
pub proof fn lemma_border_sides_cover(dir: Seq<i32>, octant: Seq<i32>) -> (k: int)
    requires
        is_face_direction(dir),
        dir.len() == 2 || dir.len() == 3,
        is_octant(octant),
        octant.len() == dir.len(),
        octant[first_nonzero(dir)] == -dir[first_nonzero(dir)],
    ensures
        0 <= k < border_sides(dir).len(),
        border_sides(dir)[k] == octant,
{
    lemma_face_is_step(dir);
    lemma_first_nonzero_of_opposite(dir, 0);
    reveal_with_fuel(two_pow, 4);
    let axis = first_nonzero(dir);
    let back = opposite(dir);
    let first = if axis == 0 {
        1int
    } else {
        0int
    };
    let second = if axis == 2 {
        1int
    } else {
        2int
    };
    let b0: int = if octant[first] > 0 {
        1
    } else {
        0
    };
    let k = if dir.len() == 2 {
        b0
    } else {
        b0 + 2 * (if octant[second] > 0 {
            1int
        } else {
            0int
        })
    };
    let side = border_sides(dir)[k];
    assert(two_pow(0) == 1 && two_pow(1) == 2 && two_pow(2) == 4);
    assert forall|a: int| 0 <= a < dir.len() implies side[a] == octant[a] by {
        assert(side[a] == border_component(back, k, a) as i32);
        assert(octant[a] == 1 || octant[a] == -1);
        assert((k / 1) % 2 == b0);
        if dir.len() == 3 {
            assert((k / 2) % 2 == k / 2);
        }
    }
    assert(side =~= octant);
    k
}

impl Forest {
    /// The box of the place next to a node, in the direction of a face.
    pub proof fn lemma_virtual_box(self, key: NodeKey, dir: Seq<i32>, a: int)
        requires
            self.wf(),
            self.contains(key),
            is_step(dir),
            0 <= a < self.dim,
        ensures
            ({
                let n = self.node(key);
                let v = self.shifted(self.cell(key), dir);
                &&& v.depth == n.depth
                &&& self.cell_low(v, a) == n.pos[a] - n.size / 2 + along(dir[a] as int, n.size as int)
                &&& self.cell_high(v, a) == n.pos[a] + n.size / 2 + along(
                    dir[a] as int,
                    n.size as int,
                )
            }),
    {
        assert(self.node_wf(key));
    }

    /// A leaf whose box holds the place across a face of a node lies across
    /// that face.
    #[verifier::rlimit(40)]
    pub proof fn lemma_holding_leaf_is_across(self, key: NodeKey, dir: Seq<i32>, leaf: NodeKey)
        requires
            self.wf(),
            self.contains(key),
            is_face_direction(dir),
            dir.len() == self.dim,
            self.is_leaf(leaf),
            self.node(leaf).direction == self.node(key).direction,
            self.node(leaf).depth <= self.node(key).depth,
            self.within(self.shifted(self.cell(key), dir), self.cell(leaf)),
        ensures
            self.node(key).across(dir, self.node(leaf)),
    {
        lemma_face_is_step(dir);
        let n = self.node(key);
        let l = self.node(leaf);
        let v = self.shifted(self.cell(key), dir);
        let axis = first_nonzero(dir);
        assert(self.node_wf(key));
        assert(self.node_wf(leaf));
        assert forall|a: int| 0 <= a < self.dim implies l.pos[a] - l.size / 2 <= n.pos[a] - n.size
            / 2 + along(dir[a] as int, n.size as int) && n.pos[a] + n.size / 2 + along(
            dir[a] as int,
            n.size as int,
        ) <= l.pos[a] + l.size / 2 by {
            self.lemma_virtual_box(key, dir, a);
            self.lemma_cell_box(leaf, a);
            assert(self.cell_low(self.cell(leaf), a) <= self.cell_low(v, a) && self.cell_high(v, a)
                <= self.cell_high(self.cell(leaf), a));
        }
        // The leaf has no inner point in common with the node.
        if l.overlaps(n) {
            if l.depth == n.depth {
                self.lemma_level_unique(leaf, key);
                assert(l.pos[axis] - l.size / 2 <= n.pos[axis] - n.size / 2 + along(
                    dir[axis] as int,
                    n.size as int,
                ));
                assert(false);
            } else {
                lemma_overlaps_symmetric(l, n);
                self.lemma_overlap_is_inside(key, leaf);
                assert(false);
            }
        }
        let a0 = choose|a: int|
            0 <= a < l.pos.len() && !(#[trigger] l.pos[a] - l.size / 2 < n.pos[a] + n.size / 2
                && n.pos[a] - n.size / 2 < l.pos[a] + l.size / 2);
        assert(l.pos[a0] - l.size / 2 <= n.pos[a0] - n.size / 2 + along(
            dir[a0] as int,
            n.size as int,
        ));
        assert(a0 == axis);
        assert forall|a: int| 0 <= a < n.pos.len() implies if dir[a] > 0 {
            #[trigger] l.pos[a] - l.size / 2 == n.pos[a] + n.size / 2
        } else if dir[a] < 0 {
            l.pos[a] + l.size / 2 == n.pos[a] - n.size / 2
        } else {
            l.pos[a] - l.size / 2 < n.pos[a] + n.size / 2 && n.pos[a] - n.size / 2 < l.pos[a]
                + l.size / 2
        } by {
            assert(l.pos[a] - l.size / 2 <= n.pos[a] - n.size / 2 + along(
                dir[a] as int,
                n.size as int,
            ));
        }
    }

    /// A node across a face of a node has inner points in common with every
    /// box that holds the place across that face.
    #[verifier::rlimit(40)]
    pub proof fn lemma_across_overlaps_holder(
        self,
        key: NodeKey,
        dir: Seq<i32>,
        other: NodeKey,
        holder: NodeKey,
    )
        requires
            self.wf(),
            self.contains(key),
            self.contains(other),
            self.contains(holder),
            is_face_direction(dir),
            dir.len() == self.dim,
            self.node(key).across(dir, self.node(other)),
            self.node(holder).direction == self.node(key).direction,
            self.within(self.shifted(self.cell(key), dir), self.cell(holder)),
        ensures
            self.node(other).overlaps(self.node(holder)),
    {
        lemma_face_is_step(dir);
        let n = self.node(key);
        let m = self.node(other);
        let h = self.node(holder);
        let v = self.shifted(self.cell(key), dir);
        assert(self.node_wf(key));
        assert(self.node_wf(other));
        assert(self.node_wf(holder));
        assert forall|a: int| 0 <= a < m.pos.len() implies #[trigger] m.pos[a] - m.size / 2
            < h.pos[a] + h.size / 2 && h.pos[a] - h.size / 2 < m.pos[a] + m.size / 2 by {
            self.lemma_virtual_box(key, dir, a);
            self.lemma_cell_box(holder, a);
            assert(self.cell_low(self.cell(holder), a) <= self.cell_low(v, a) && self.cell_high(
                v,
                a,
            ) <= self.cell_high(self.cell(holder), a));
            assert(if dir[a] > 0 {
                m.pos[a] - m.size / 2 == n.pos[a] + n.size / 2
            } else if dir[a] < 0 {
                m.pos[a] + m.size / 2 == n.pos[a] - n.size / 2
            } else {
                m.pos[a] - m.size / 2 < n.pos[a] + n.size / 2 && n.pos[a] - n.size / 2 < m.pos[a]
                    + m.size / 2
            });
        }
    }
}

impl Forest {
    /// The child of a branch on one of the sides that face back along a
    /// direction: it lies on the near side of the branch.
    pub proof fn lemma_border_child(self, key: NodeKey, dir: Seq<i32>, k: int)
        requires
            self.wf(),
            self.is_branch(key),
            is_face_direction(dir),
            dir.len() == self.dim,
            0 <= k < border_sides(dir).len(),
        ensures
            ({
                let index = octant_index(border_sides(dir)[k]) as int;
                let child = self.node(key).children->0[index];
                &&& 0 <= index < self.fanout()
                &&& self.contains(child)
                &&& self.node(child).inside(self.node(key))
                &&& self.node(child).depth == self.node(key).depth + 1
                &&& self.node(child).depth <= MAX_DEPTH
                &&& self.node(key).near_side(dir, self.node(child))
                &&& child_sign(index, first_nonzero(dir)) == -dir[first_nonzero(dir)]
            }),
    {
        lemma_face_is_step(dir);
        lemma_border_side(dir, k);
        let side = border_sides(dir)[k];
        let axis = first_nonzero(dir);
        law_child_ordering_back(side, axis);
        let index = octant_index(side) as int;
        assert(self.node_wf(key));
        let child = self.node(key).children->0[index];
        assert(self.contains(self.node(key).children->0[index]));
        assert(self.node_wf(child));
        self.lemma_inside_parent(child);
        let n = self.node(key);
        let c = self.node(child);
        assert(is_child_of(c, n, key, index, self.dim));
        assert forall|a: int| 0 <= a < n.pos.len() implies (dir[a] > 0 ==> #[trigger] c.pos[a]
            - c.size / 2 == n.pos[a] - n.size / 2) && (dir[a] < 0 ==> c.pos[a] + c.size / 2
            == n.pos[a] + n.size / 2) by {
            self.lemma_child_box(key, index, a);
        }
    }

    /// What the search collects at and below a node are leaves on the near
    /// side of the node.
    pub proof fn lemma_border_sound(self, key: NodeKey, dir: Seq<i32>, leaf: NodeKey)
        requires
            self.wf(),
            self.contains(key),
            is_face_direction(dir),
            dir.len() == self.dim,
            self.border_leaves(key, border_sides(dir)).contains(leaf),
        ensures
            self.is_leaf(leaf),
            self.at_or_inside(leaf, key),
            self.node(key).near_side(dir, self.node(leaf)),
        decreases MAX_DEPTH + 1 - self.node(key).depth, border_sides(dir).len() + 1,
    {
        let sides = border_sides(dir);
        if self.node(key).children is None {
            assert(seq![key].contains(leaf));
            assert(seq![key][0] == key);
        } else {
            self.lemma_border_of_sound(key, dir, sides.len() as int, leaf);
        }
    }

    /// What the search collects below the children of a branch on the first
    /// `count` sides are leaves on the near side of the branch.
    #[verifier::rlimit(40)]
    pub proof fn lemma_border_of_sound(self, key: NodeKey, dir: Seq<i32>, count: int, leaf: NodeKey)
        requires
            self.wf(),
            self.is_branch(key),
            is_face_direction(dir),
            dir.len() == self.dim,
            0 <= count <= border_sides(dir).len(),
            self.border_leaves_of(key, border_sides(dir), count).contains(leaf),
        ensures
            self.is_leaf(leaf),
            self.node(leaf).inside(self.node(key)),
            self.node(key).near_side(dir, self.node(leaf)),
        decreases MAX_DEPTH + 1 - self.node(key).depth, count,
    {
        let sides = border_sides(dir);
        if count > 0 {
            self.lemma_border_child(key, dir, count - 1);
            let index = octant_index(sides[count - 1]) as int;
            let child = self.node(key).children->0[index];
            let below = self.border_leaves(child, sides);
            let rest = self.border_leaves_of(key, sides, count - 1);
            assert(self.border_leaves_of(key, sides, count) == below + rest);
            let all = below + rest;
            let i = choose|i: int| 0 <= i < all.len() && all[i] == leaf;
            if i < below.len() {
                assert(below[i] == leaf);
                assert(below.contains(leaf));
                self.lemma_border_sound(child, dir, leaf);
                let n = self.node(key);
                let c = self.node(child);
                let l = self.node(leaf);
                assert(self.node_wf(leaf));
                assert(self.node_wf(key));
                assert(self.node_wf(child));
                if leaf != child {
                    assert(l.inside(n)) by {
                        assert forall|a: int| 0 <= a < l.pos.len() implies n.pos[a] - n.size / 2
                            <= #[trigger] l.pos[a] - l.size / 2 && l.pos[a] + l.size / 2 <= n.pos[a]
                            + n.size / 2 by {
                            assert(c.pos[a] - c.size / 2 <= l.pos[a] - l.size / 2 && l.pos[a]
                                + l.size / 2 <= c.pos[a] + c.size / 2);
                            assert(n.pos[a] - n.size / 2 <= c.pos[a] - c.size / 2 && c.pos[a]
                                + c.size / 2 <= n.pos[a] + n.size / 2);
                        }
                    }
                }
                assert forall|a: int| 0 <= a < n.pos.len() implies (dir[a] > 0 ==> #[trigger] l.pos[a]
                    - l.size / 2 == n.pos[a] - n.size / 2) && (dir[a] < 0 ==> l.pos[a] + l.size / 2
                    == n.pos[a] + n.size / 2) by {
                    assert((dir[a] > 0 ==> c.pos[a] - c.size / 2 == n.pos[a] - n.size / 2) && (dir[a]
                        < 0 ==> c.pos[a] + c.size / 2 == n.pos[a] + n.size / 2));
                    assert((dir[a] > 0 ==> l.pos[a] - l.size / 2 == c.pos[a] - c.size / 2) && (dir[a]
                        < 0 ==> l.pos[a] + l.size / 2 == c.pos[a] + c.size / 2));
                }
            } else {
                assert(rest[i - below.len()] == leaf);
                assert(rest.contains(leaf));
                self.lemma_border_of_sound(key, dir, count - 1, leaf);
            }
        } else {
            assert(self.border_leaves_of(key, sides, count) =~= Seq::empty());
        }
    }

    /// What the search collects below the children of a branch holds what
    /// it collects below each of them.
    pub proof fn lemma_border_of_includes(
        self,
        key: NodeKey,
        dir: Seq<i32>,
        count: int,
        k: int,
        leaf: NodeKey,
    )
        requires
            self.wf(),
            self.is_branch(key),
            is_face_direction(dir),
            dir.len() == self.dim,
            0 <= k < count <= border_sides(dir).len(),
            self.border_leaves(
                self.node(key).children->0[octant_index(border_sides(dir)[k]) as int],
                border_sides(dir),
            ).contains(leaf),
        ensures
            self.border_leaves_of(key, border_sides(dir), count).contains(leaf),
        decreases count,
    {
        let sides = border_sides(dir);
        self.lemma_border_child(key, dir, count - 1);
        let index = octant_index(sides[count - 1]) as int;
        let child = self.node(key).children->0[index];
        let below = self.border_leaves(child, sides);
        let rest = self.border_leaves_of(key, sides, count - 1);
        let all = below + rest;
        assert(self.border_leaves_of(key, sides, count) == all);
        if k == count - 1 {
            let i = choose|i: int| 0 <= i < below.len() && below[i] == leaf;
            assert(all[i] == leaf);
        } else {
            self.lemma_border_of_includes(key, dir, count - 1, k, leaf);
            let i = choose|i: int| 0 <= i < rest.len() && rest[i] == leaf;
            assert(all[below.len() + i] == leaf);
        }
    }

    /// Every leaf at or below a node that lies on the near side of the node
    /// is collected.
    #[verifier::rlimit(40)]
    pub proof fn lemma_border_complete(self, key: NodeKey, dir: Seq<i32>, leaf: NodeKey)
        requires
            self.wf(),
            self.contains(key),
            is_face_direction(dir),
            dir.len() == self.dim,
            self.is_leaf(leaf),
            self.at_or_inside(leaf, key),
            self.node(key).near_side(dir, self.node(leaf)),
        ensures
            self.border_leaves(key, border_sides(dir)).contains(leaf),
        decreases MAX_DEPTH + 1 - self.node(key).depth,
    {
        lemma_face_is_step(dir);
        let sides = border_sides(dir);
        let n = self.node(key);
        let l = self.node(leaf);
        assert(self.node_wf(key));
        assert(self.node_wf(leaf));
        if n.children is None {
            if leaf != key {
                self.lemma_leaf_is_empty(key);
            }
            assert(seq![key][0] == leaf);
        } else {
            self.lemma_inside_overlaps(leaf, key);
            let index = self.lemma_below_branch(leaf, key);
            let child = n.children->0[index];
            let c = self.node(child);
            let axis = first_nonzero(dir);
            assert(self.node_wf(child));
            self.lemma_child_box(key, index, axis);
            assert((dir[axis] > 0 ==> l.pos[axis] - l.size / 2 == n.pos[axis] - n.size / 2) && (
            dir[axis] < 0 ==> l.pos[axis] + l.size / 2 == n.pos[axis] + n.size / 2));
            if leaf != child {
                assert(c.pos[axis] - c.size / 2 <= l.pos[axis] - l.size / 2 && l.pos[axis] + l.size
                    / 2 <= c.pos[axis] + c.size / 2);
            }
            self.lemma_sizes(n.depth as int);
            assert(child_sign(index, axis) == -dir[axis]);
            let signs = child_signs(index, self.dim);
            assert(is_octant(signs));
            let k = lemma_border_sides_cover(dir, signs);
            law_child_ordering(index, self.dim);
            assert(octant_index(sides[k]) == index);
            assert(c.near_side(dir, l)) by {
                assert forall|a: int| 0 <= a < c.pos.len() implies (dir[a] > 0 ==> #[trigger] l.pos[a]
                    - l.size / 2 == c.pos[a] - c.size / 2) && (dir[a] < 0 ==> l.pos[a] + l.size / 2
                    == c.pos[a] + c.size / 2) by {
                    self.lemma_child_box(key, index, a);
                    assert((dir[a] > 0 ==> l.pos[a] - l.size / 2 == n.pos[a] - n.size / 2) && (dir[a]
                        < 0 ==> l.pos[a] + l.size / 2 == n.pos[a] + n.size / 2));
                    if leaf != child {
                        assert(c.pos[a] - c.size / 2 <= l.pos[a] - l.size / 2 && l.pos[a] + l.size
                            / 2 <= c.pos[a] + c.size / 2);
                    }
                }
            }
            self.lemma_border_complete(child, dir, leaf);
            self.lemma_border_of_includes(key, dir, sides.len() as int, k, leaf);
        }
    }
}

/// If one node lies across a face of another, the other lies across the
/// opposite face of the one.
pub proof fn lemma_across_back(a: NodeView, dir: Seq<i32>, b: NodeView)
    requires
        a.across(dir, b),
        a.pos.len() == b.pos.len(),
        is_step(dir),
        dir.len() == a.pos.len(),
    ensures
        b.across(opposite(dir), a),
{
    let back = opposite(dir);
    assert forall|x: int| 0 <= x < b.pos.len() implies if back[x] > 0 {
        #[trigger] a.pos[x] - a.size / 2 == b.pos[x] + b.size / 2
    } else if back[x] < 0 {
        a.pos[x] + a.size / 2 == b.pos[x] - b.size / 2
    } else {
        a.pos[x] - a.size / 2 < b.pos[x] + b.size / 2 && b.pos[x] - b.size / 2 < a.pos[x] + a.size
            / 2
    } by {
        assert(back[x] == -dir[x]);
        assert(if dir[x] > 0 {
            b.pos[x] - b.size / 2 == a.pos[x] + a.size / 2
        } else if dir[x] < 0 {
            b.pos[x] + b.size / 2 == a.pos[x] - a.size / 2
        } else {
            b.pos[x] - b.size / 2 < a.pos[x] + a.size / 2 && a.pos[x] - a.size / 2 < b.pos[x]
                + b.size / 2
        });
    }
}

impl Forest {
    /// The place next to a place in no direction is the place itself.
    pub proof fn lemma_shifted_by_zero(self, key: NodeKey, left: Seq<i32>)
        requires
            is_zero(left),
            left.len() == self.dim,
        ensures
            self.shifted(self.cell(key), left) == self.cell(key),
    {
        let c = self.cell(key);
        assert(self.shifted(c, left).pos =~= c.pos);
    }

    /// A node at the edge of its root has no leaf across the face beyond
    /// the edge.
    #[verifier::rlimit(40)]
    pub proof fn lemma_nothing_beyond_root(self, key: NodeKey, dir: Seq<i32>, other: NodeKey)
        requires
            self.wf(),
            self.contains(key),
            self.contains(other),
            is_face_direction(dir),
            dir.len() == self.dim,
            !is_zero(self.ascent(key, dir).left),
        ensures
            !self.node(key).across(dir, self.node(other)),
    {
        lemma_face_is_step(dir);
        self.lemma_ascent_leads_back(key, dir);
        let climb = self.ascent(key, dir);
        let top = climb.top;
        let n = self.node(key);
        let m = self.node(other);
        let t = self.node(top);
        let axis = first_nonzero(dir);
        assert(self.node_wf(key));
        assert(self.node_wf(other));
        assert(self.node_wf(top));
        assert(climb.left[axis] == dir[axis]) by {
            if climb.left[axis] != dir[axis] {
                assert forall|a: int| 0 <= a < climb.left.len() implies #[trigger] climb.left[a]
                    == 0 by {
                    assert(climb.left[a] == 0 || climb.left[a] == dir[a]);
                }
            }
        }
        if n.across(dir, m) {
            let i = self.lemma_under_root(other);
            let root = self.roots[i];
            assert(self.contains(self.roots[i]));
            assert(self.node_wf(root));
            self.lemma_roots_unique(root, top);
            let base = self.shifted(self.cell(top), climb.left);
            let v = self.shifted(self.cell(key), dir);
            self.lemma_walk_within(base, climb.descents);
            self.lemma_virtual_box(key, dir, axis);
            self.lemma_virtual_box(top, climb.left, axis);
            assert(self.cell_low(base, axis) <= self.cell_low(v, axis) && self.cell_high(v, axis)
                <= self.cell_high(base, axis));
            assert(if dir[axis] > 0 {
                m.pos[axis] - m.size / 2 == n.pos[axis] + n.size / 2
            } else if dir[axis] < 0 {
                m.pos[axis] + m.size / 2 == n.pos[axis] - n.size / 2
            } else {
                true
            });
            if other != top {
                assert(t.pos[axis] - t.size / 2 <= m.pos[axis] - m.size / 2 && m.pos[axis] + m.size
                    / 2 <= t.pos[axis] + t.size / 2);
            }
            assert(false);
        }
    }

    /// What the search finds on one face: the leaves across the face, all of
    /// them and no others. This is said of a tree with one root, and on a
    /// planet of a node that does not lie at the edge of its face in the
    /// direction of the search; what is found beyond an edge is said in the
    /// coordinates of the world.
    #[verifier::rlimit(40)]
    pub proof fn law_neighbors_are_leaves_across(self, key: NodeKey, dir: Seq<i32>, other: NodeKey)
        requires
            self.wf(),
            self.contains(key),
            is_face_direction(dir),
            dir.len() == self.dim,
            !self.is_planet() || is_zero(self.ascent(key, dir).left),
        ensures
            self.neighbors(key, dir).contains(other) <==> self.is_leaf(other) && self.node(
                key,
            ).across(dir, self.node(other)),
    {
        lemma_face_is_step(dir);
        self.lemma_ascent_leads_back(key, dir);
        let climb = self.ascent(key, dir);
        let n = self.node(key);
        let m = self.node(other);
        assert(self.node_wf(key));
        if is_zero(climb.left) {
            let top = climb.top;
            let steps = climb.descents;
            self.lemma_shifted_by_zero(top, climb.left);
            let v = self.shifted(self.cell(key), dir);
            assert(self.walk_down(self.cell(top), steps) == v);
            self.lemma_descent_holds_target(top, steps);
            let end = self.descent(top, steps);
            let e = self.node(end);
            assert(self.node_wf(end));
            assert(self.shared_parent(key, dir) == Some((top, steps)));
            self.lemma_entry_direction(key, top, dir);
            if e.children is None {
                assert(self.neighbors(key, dir) == seq![end]);
                assert(seq![end][0] == end);
                self.lemma_holding_leaf_is_across(key, dir, end);
                if self.is_leaf(other) && n.across(dir, m) {
                    self.lemma_across_overlaps_holder(key, dir, other, end);
                    self.law_leaves_apart(other, end);
                }
            } else {
                assert(self.neighbors(key, dir) == self.border_leaves(end, border_sides(dir)));
                assert(self.cell(end) == v);
                if self.neighbors(key, dir).contains(other) {
                    self.lemma_border_sound(end, dir, other);
                    assert(self.node_wf(other));
                    assert forall|a: int| 0 <= a < n.pos.len() implies if dir[a] > 0 {
                        #[trigger] m.pos[a] - m.size / 2 == n.pos[a] + n.size / 2
                    } else if dir[a] < 0 {
                        m.pos[a] + m.size / 2 == n.pos[a] - n.size / 2
                    } else {
                        m.pos[a] - m.size / 2 < n.pos[a] + n.size / 2 && n.pos[a] - n.size / 2
                            < m.pos[a] + m.size / 2
                    } by {
                        self.lemma_virtual_box(key, dir, a);
                        self.lemma_cell_box(end, a);
                        assert((dir[a] > 0 ==> m.pos[a] - m.size / 2 == e.pos[a] - e.size / 2) && (
                        dir[a] < 0 ==> m.pos[a] + m.size / 2 == e.pos[a] + e.size / 2));
                        if other != end {
                            assert(e.pos[a] - e.size / 2 <= m.pos[a] - m.size / 2 && m.pos[a]
                                + m.size / 2 <= e.pos[a] + e.size / 2);
                        }
                    }
                }
                if self.is_leaf(other) && n.across(dir, m) {
                    assert(self.node_wf(other));
                    assert(self.within(v, self.cell(end)));
                    self.lemma_across_overlaps_holder(key, dir, other, end);
                    if m.depth == e.depth {
                        self.lemma_level_unique(other, end);
                    } else if m.depth < e.depth {
                        lemma_overlaps_symmetric(m, e);
                        self.lemma_overlap_is_inside(end, other);
                    } else {
                        self.lemma_overlap_is_inside(other, end);
                    }
                    assert(e.near_side(dir, m)) by {
                        assert forall|a: int| 0 <= a < e.pos.len() implies (dir[a] > 0
                            ==> #[trigger] m.pos[a] - m.size / 2 == e.pos[a] - e.size / 2) && (
                        dir[a] < 0 ==> m.pos[a] + m.size / 2 == e.pos[a] + e.size / 2) by {
                            self.lemma_virtual_box(key, dir, a);
                            self.lemma_cell_box(end, a);
                            assert(if dir[a] > 0 {
                                m.pos[a] - m.size / 2 == n.pos[a] + n.size / 2
                            } else if dir[a] < 0 {
                                m.pos[a] + m.size / 2 == n.pos[a] - n.size / 2
                            } else {
                                true
                            });
                        }
                    }
                    self.lemma_border_complete(end, dir, other);
                }
            }
        } else {
            assert(self.shared_parent(key, dir) is None);
            assert(self.neighbors(key, dir) =~= Seq::empty());
            if self.is_leaf(other) {
                self.lemma_nothing_beyond_root(key, dir, other);
            }
        }
    }

    /// Neighbour symmetry on one face: a leaf that the search finds across
    /// a face of a leaf finds that leaf across the opposite face. This is
    /// said of a tree with one root, and on a planet of a leaf that does not
    /// lie at the edge of its face in the direction of the search.
    pub proof fn lemma_symmetry_on_face(self, key: NodeKey, dir: Seq<i32>, other: NodeKey)
        requires
            self.wf(),
            !self.is_planet() || is_zero(self.ascent(key, dir).left),
            self.is_leaf(key),
            is_face_direction(dir),
            dir.len() == self.dim,
            self.neighbors(key, dir).contains(other),
        ensures
            is_face_direction(opposite(dir)),
            self.neighbors(other, opposite(dir)).contains(key),
    {
        lemma_face_is_step(dir);
        self.law_neighbors_are_leaves_across(key, dir, other);
        assert(self.node_wf(key));
        assert(self.node_wf(other));
        lemma_across_back(self.node(key), dir, self.node(other));
        let index = choose|index: int|
            0 <= index < 2 * dir.len() && dir == #[trigger] crate::node_traits::face_direction(
                dir.len(),
                index,
            );
        crate::sizes::lemma_opposite_face(dir.len(), index);
        let back = opposite(dir);
        assert(back.len() == self.dim);
        assert(is_face_direction(back)) by {
            let turned = if index % 2 == 0 {
                index + 1
            } else {
                index - 1
            };
            assert(back == crate::node_traits::face_direction(back.len(), turned));
        }
        if !is_zero(self.ascent(other, back).left) {
            self.lemma_nothing_beyond_root(other, back, key);
        }
        self.law_neighbors_are_leaves_across(other, back, key);
    }
}

impl Forest {
    /// What the search finds is one leaf, or leaves that are all smaller
    /// than the node, on the face of the node and across an edge of a planet
    /// alike.
    #[verifier::rlimit(40)]
    pub proof fn lemma_neighbors_one_or_smaller(self, key: NodeKey, dir: Seq<i32>, other: NodeKey)
        requires
            self.wf(),
            self.contains(key),
            is_face_direction(dir),
            dir.len() == self.dim,
            self.neighbors(key, dir).contains(other),
        ensures
            self.neighbors(key, dir) == seq![other] || self.node(other).size < self.node(key).size,
            self.is_leaf(other),
    {
        lemma_face_is_step(dir);
        self.lemma_search_start(key, dir);
        if self.shared_parent(key, dir) is Some {
            let found = self.shared_parent(key, dir)->0;
            let top = found.0;
            let steps = found.1;
            self.lemma_descent_holds_target(top, steps);
            self.lemma_walk_depth(self.cell(top), steps);
            let end = self.descent(top, steps);
            if self.node(end).children is None {
                assert(self.neighbors(key, dir) == seq![end]);
                assert(seq![end][0] == end);
            } else {
                self.lemma_entry_direction(key, top, dir);
                let entry = self.entry_direction(key, top, dir);
                assert(self.neighbors(key, dir) == self.border_leaves(end, border_sides(entry)));
                self.lemma_border_sound(end, entry, other);
                assert(self.node_wf(key));
                assert(self.node_wf(other));
                assert(self.node_wf(end));
                self.lemma_sizes(self.node(end).depth as int);
                self.lemma_size_shrinks(self.node(end).depth as int, self.node(other).depth as int);
            }
        } else {
            assert(self.neighbors(key, dir) =~= Seq::empty());
        }
    }

    /// Where the search goes on after the climb: at a node of the tree that
    /// lies as many levels above the level of the node as there are steps,
    /// with steps that are vectors of signs.
    #[verifier::rlimit(40)]
    pub proof fn lemma_search_start(self, key: NodeKey, dir: Seq<i32>)
        requires
            self.wf(),
            self.contains(key),
            is_face_direction(dir),
            dir.len() == self.dim,
        ensures
            self.shared_parent(key, dir) matches Some(found) ==> {
                &&& self.contains(found.0)
                &&& self.node(found.0).depth + found.1.len() == self.node(key).depth
                &&& forall|i: int|
                    0 <= i < found.1.len() ==> is_octant(#[trigger] found.1[i]) && found.1[i].len()
                        == self.dim
            },
    {
        lemma_face_is_step(dir);
        self.lemma_ascent_leads_back(key, dir);
        let climb = self.ascent(key, dir);
        if !is_zero(climb.left) && self.is_planet() {
            self.lemma_crossing_start(key, dir);
        }
    }

    /// The edge length of a deeper level is smaller.
    pub proof fn lemma_size_shrinks(self, upper: int, lower: int)
        requires
            self.sizes_wf(),
            0 <= upper < lower <= MAX_DEPTH,
        ensures
            self.size_at(lower) < self.size_at(upper),
        decreases lower - upper,
    {
        self.lemma_sizes(lower - 1);
        if upper < lower - 1 {
            self.lemma_size_shrinks(upper, lower - 1);
        }
    }

    /// Neighbour-size freshness: after the sizes around a node have been
    /// brought up to date, the node holds for every face with a leaf across
    /// it the larger of its own size and the size of that leaf, whichever of
    /// the leaves that the search finds across the face is taken, on the
    /// face of the node and across an edge of a planet alike.
    #[verifier::rlimit(40)]
    pub proof fn law_fresh_neighbor_size(self, key: NodeKey, face: int, other: NodeKey)
        requires
            self.wf(),
            self.contains(key),
            0 <= face < 2 * self.dim,
            self.face_neighbors(key, face).contains(other),
        ensures
            self.with_neighbor_sizes(key).node(key).neighbor_sizes[face]
                == crate::sizes::larger_size(
                self.node(key).size as int,
                self.node(other).size as int,
            ),
    {
        let dir = crate::node_traits::face_direction(self.dim, face);
        assert(dir.len() == self.dim);
        assert(dir == crate::node_traits::face_direction(dir.len(), face));
        assert(is_face_direction(dir));
        self.lemma_coarsest_found(key, dir, other);
        assert(self.node_wf(key));
        let after = self.with_neighbor_sizes(key);
        assert(after.node(key).neighbor_sizes[face] == self.own_slot(
            key,
            face,
            self.neighbors_corrected(key, 2 * self.dim as int, Seq::empty()).node(
                key,
            ).neighbor_sizes[face],
        ));
    }

    /// Neighbour-size freshness, said of the leaves that lie across a face:
    /// in a tree with one root, and on a planet for a node that does not lie
    /// at the edge of its face in the direction of the face, the node holds
    /// for the face the larger of its own size and the size of any leaf that
    /// lies across it.
    pub proof fn law_fresh_size_across(self, key: NodeKey, face: int, other: NodeKey)
        requires
            self.wf(),
            !self.is_planet() || is_zero(
                self.ascent(key, crate::node_traits::face_direction(self.dim, face)).left,
            ),
            self.contains(key),
            0 <= face < 2 * self.dim,
            self.is_leaf(other),
            self.node(key).across(crate::node_traits::face_direction(self.dim, face), self.node(other)),
        ensures
            self.with_neighbor_sizes(key).node(key).neighbor_sizes[face]
                == crate::sizes::larger_size(
                self.node(key).size as int,
                self.node(other).size as int,
            ),
    {
        let dir = crate::node_traits::face_direction(self.dim, face);
        assert(dir.len() == self.dim);
        assert(dir == crate::node_traits::face_direction(dir.len(), face));
        assert(is_face_direction(dir));
        self.law_neighbors_are_leaves_across(key, dir, other);
        self.law_fresh_neighbor_size(key, face, other);
    }
}

impl Forest {
    /// A walk down the tree ends at or below the node it began at.
    pub proof fn lemma_descent_stays(self, key: NodeKey, steps: Seq<Seq<i32>>)
        requires
            self.wf(),
            self.contains(key),
            forall|i: int| 0 <= i < steps.len() ==> (#[trigger] steps[i]).len() == self.dim,
        ensures
            self.contains(self.descent(key, steps)),
            self.at_or_inside(self.descent(key, steps), key),
            self.node(self.descent(key, steps)).direction == self.node(key).direction,
        decreases steps.len(),
    {
        assert(self.node_wf(key));
        let n = self.node(key);
        if steps.len() > 0 {
            let rest = steps.drop_last();
            assert forall|i: int| 0 <= i < rest.len() implies (#[trigger] rest[i]).len()
                == self.dim by {
                assert(rest[i] == steps[i]);
            }
            match n.children {
                Some(keys) => {
                    assert(steps[steps.len() - 1].len() == self.dim);
                    crate::node_traits::lemma_octant_index_bound(steps.last());
                    let index = octant_index(steps.last()) as int;
                    let child = keys[index];
                    assert(self.contains(keys[index]));
                    if self.node(child).children is Some {
                        self.lemma_descent_stays(child, rest);
                        let end = self.descent(child, rest);
                        assert(self.contains(end));
                        self.lemma_at_or_inside_child(key, index, end);
                    } else {
                        self.lemma_at_or_inside_child(key, index, child);
                    }
                },
                None => {
                    self.lemma_descent_stays(key, rest);
                },
            }
        }
    }

    /// Where the search goes on after it has left a face of a planet across
    /// an edge: at the root of another face, with steps of two components.
    pub proof fn lemma_crossing_start(self, key: NodeKey, dir: Seq<i32>)
        requires
            self.wf(),
            self.is_planet(),
            self.contains(key),
            is_face_direction(dir),
            dir.len() == self.dim,
            !is_zero(self.ascent(key, dir).left),
        ensures
            self.shared_parent(key, dir) is Some,
            ({
                let found = self.shared_parent(key, dir)->0;
                let to = neighbor_face(self.node(key).direction, self.ascent(key, dir).left);
                &&& self.contains(found.0)
                &&& self.node(found.0).depth == 0
                &&& self.node(found.0).direction == to
                &&& to != self.node(key).direction
                &&& to != Direction::NoDirection
                &&& found.1.len() == self.node(key).depth
                &&& forall|i: int|
                    0 <= i < found.1.len() ==> (#[trigger] found.1[i]).len() == self.dim
                        && is_octant(found.1[i])
            }),
    {
        lemma_face_is_step(dir);
        self.lemma_ascent_leads_back(key, dir);
        let climb = self.ascent(key, dir);
        let from = self.node(climb.top).direction;
        assert(self.node_wf(key));
        assert(self.node_wf(climb.top));
        assert(climb.left[0] != 0 || climb.left[1] != 0) by {
            if climb.left[0] == 0 && climb.left[1] == 0 {
                assert(is_zero(climb.left));
            }
        }
        assert(-1 <= climb.left[0] <= 1 && -1 <= climb.left[1] <= 1);
        crate::planet_tree_impl::lemma_next_face_differs(from, climb.left);
        let to = neighbor_face(from, climb.left);
        assert(self.contains(self.roots[to.spec_index() as int]));
        assert(self.node_wf(self.roots[to.spec_index() as int]));
        crate::planet_tree_impl::lemma_face_transform_axis(from, to);
        let found = self.shared_parent(key, dir)->0;
        assert forall|i: int| 0 <= i < found.1.len() implies (#[trigger] found.1[i]).len()
            == self.dim && is_octant(found.1[i]) by {
            assert(climb.descents[i].len() == self.dim);
            assert(is_octant(climb.descents[i]));
            assert(climb.descents[i][0] == 1 || climb.descents[i][0] == -1);
            assert(climb.descents[i][1] == 1 || climb.descents[i][1] == -1);
            crate::planet_tree_impl::lemma_transformed_signs(
                face_transform(from, to),
                climb.descents[i],
            );
            let step = found.1[i];
            assert(step[0] == 1 || step[0] == -1);
            assert(step[1] == 1 || step[1] == -1);
        }
    }

    /// Planet continuity: a search that leaves a face of a planet across an
    /// edge finds leaves of one face, the face that lies across that edge.
    pub proof fn law_crossing_reaches_next_face(self, key: NodeKey, dir: Seq<i32>, other: NodeKey)
        requires
            self.wf(),
            self.is_planet(),
            self.contains(key),
            is_face_direction(dir),
            dir.len() == self.dim,
            !is_zero(self.ascent(key, dir).left),
            self.neighbors(key, dir).contains(other),
        ensures
            self.is_leaf(other),
            self.node(other).direction == neighbor_face(
                self.node(key).direction,
                self.ascent(key, dir).left,
            ),
            self.node(other).direction != self.node(key).direction,
            self.node(other).direction != Direction::NoDirection,
    {
        self.lemma_crossing_start(key, dir);
        let found = self.shared_parent(key, dir)->0;
        self.lemma_descent_stays(found.0, found.1);
        let end = self.descent(found.0, found.1);
        if self.node(end).children is None {
            assert(self.neighbors(key, dir) == seq![end]);
            assert(seq![end][0] == end);
        } else {
            self.lemma_entry_direction(key, found.0, dir);
            self.lemma_border_sound(end, self.entry_direction(key, found.0, dir), other);
        }
    }
}

} // verus!
