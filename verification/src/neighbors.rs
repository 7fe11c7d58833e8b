//! The search for the leaves across a face of a node.
//!
//! The search climbs from the node until an ancestor also holds the place
//! across the face, and writes down on the way which child it came from, with
//! the sign flipped along the axis of the face. It then walks down from that
//! ancestor by what it wrote down, and stops at the first leaf. If it ends on
//! a branch as large as the node, it collects the leaves on the near side of
//! that branch. On a planet a climb that reaches the edge of a face goes on
//! at the root of the face beyond the edge, with every step and the
//! direction itself taken into the coordinates of that face.

use vstd::prelude::*;
use crate::arena::{arena_index, NodeKey};
use crate::forest::{is_child_of, toward, Forest, MAX_DEPTH};
use crate::node_traits::{
    all_zero, border_component, child_index_of, child_position, child_positions_in_direction,
    child_sign, face_direction, first_nonzero, is_face_direction, is_step, is_zero, octant_index,
    opposite, opposite_direction, two_pow,
};
use crate::ntree::NTree;
use crate::planet_tree_impl::{
    face_transform, map_from_dir_to_dir, map_from_dir_to_dir_spec, map_to_neighbor, mirror,
    neighbor_face, simple_rotate, transformed, Direction, NeighborTransform,
};

verus! {

/// The steps of a walk, each as a plain vector.
pub open spec fn steps_view<const D: usize>(steps: Seq<[i32; D]>) -> Seq<Seq<i32>> {
    steps.map_values(|d: [i32; D]| d@)
}

/// The step that leads to the neighbour's side: the octant that the climb
/// came from, with the sign flipped along every axis the search still moves
/// along.
pub open spec fn mirrored_descent(octant: Seq<i32>, moving: Seq<i32>) -> Seq<i32> {
    Seq::new(
        octant.len(),
        |a: int|
            if moving[a] != 0 {
                (-octant[a]) as i32
            } else {
                octant[a]
            },
    )
}

/// What is left of the direction after a climb out of an octant: along an
/// axis the search goes on moving only if the octant lay on the side it
/// moves to.
pub open spec fn carried(octant: Seq<i32>, moving: Seq<i32>) -> Seq<i32> {
    Seq::new(
        octant.len(),
        |a: int|
            if octant[a] == moving[a] {
                moving[a]
            } else {
                0i32
            },
    )
}

/// The sides of a branch that face back along `direction`, as the child
/// positions on them.
pub open spec fn border_sides(direction: Seq<i32>) -> Seq<Seq<i32>> {
    Seq::new(
        two_pow((direction.len() - 1) as nat),
        |k: int|
            Seq::new(direction.len(), |a: int| border_component(opposite(direction), k, a) as i32),
    )
}

/// What a climb ends with: the node it has reached, the steps it has written
/// down, lowest level first, and what is left of the direction.
pub struct Climb {
    pub top: NodeKey,
    pub descents: Seq<Seq<i32>>,
    pub left: Seq<i32>,
}

impl Forest {
    /// The octant of its parent that a node lies in.
    pub open spec fn octant_of(self, key: NodeKey) -> Seq<i32> {
        let n = self.node(key);
        let p = self.node(n.parent->0);
        Seq::new(
            self.dim,
            |a: int|
                if n.pos[a] < p.pos[a] {
                    -1i32
                } else {
                    1i32
                },
        )
    }

    /// The climb from a node in a direction: it ends at a root, or as soon
    /// as nothing is left of the direction.
    pub open spec fn ascent(self, key: NodeKey, moving: Seq<i32>) -> Climb
        decreases self.node(key).depth,
    {
        let n = self.node(key);
        if n.parent is Some && !is_zero(moving) && self.node(n.parent->0).depth < n.depth {
            let octant = self.octant_of(key);
            let up = self.ascent(n.parent->0, carried(octant, moving));
            Climb {
                top: up.top,
                descents: seq![mirrored_descent(octant, moving)] + up.descents,
                left: up.left,
            }
        } else {
            Climb { top: key, descents: Seq::empty(), left: moving }
        }
    }

    /// Where the search goes on after the climb: at the node the climb has
    /// reached, with the steps it has written down, if nothing is left of the
    /// direction. If something is left, the node lies at the edge of its
    /// root. A tree with one root has nothing beyond it; on a planet the
    /// search goes on at the root of the face next to it, with every step
    /// taken into the coordinates of that face.
    pub open spec fn shared_parent(self, key: NodeKey, direction: Seq<i32>) -> Option<
        (NodeKey, Seq<Seq<i32>>),
    > {
        let climb = self.ascent(key, direction);
        if is_zero(climb.left) {
            Some((climb.top, climb.descents))
        } else if self.is_planet() {
            let from = self.node(climb.top).direction;
            let to = neighbor_face(from, climb.left);
            Some(
                (
                    self.roots[to.spec_index() as int],
                    climb.descents.map_values(|d: Seq<i32>| transformed(face_transform(from, to), d)),
                ),
            )
        } else {
            None
        }
    }

    /// The node that a walk down from `key` ends at. The steps are taken
    /// from the last to the first; the walk stops at the first leaf it
    /// reaches.
    pub open spec fn descent(self, key: NodeKey, steps: Seq<Seq<i32>>) -> NodeKey
        decreases steps.len(),
    {
        if steps.len() == 0 {
            key
        } else {
            match self.node(key).children {
                Some(keys) => {
                    let child = keys[octant_index(steps.last()) as int];
                    if self.node(child).children is None {
                        child
                    } else {
                        self.descent(child, steps.drop_last())
                    }
                },
                None => self.descent(key, steps.drop_last()),
            }
        }
    }

    /// The leaves at and below a node that are reached through the children
    /// on the given sides alone, the last side first.
    pub open spec fn border_leaves(self, key: NodeKey, sides: Seq<Seq<i32>>) -> Seq<NodeKey>
        decreases MAX_DEPTH + 1 - self.node(key).depth, sides.len() + 1,
    {
        if self.node(key).children is None {
            seq![key]
        } else {
            self.border_leaves_of(key, sides, sides.len() as int)
        }
    }

    /// The leaves below the children of a branch on the first `count` of
    /// the given sides, the last of these sides first.
    pub open spec fn border_leaves_of(
        self,
        key: NodeKey,
        sides: Seq<Seq<i32>>,
        count: int,
    ) -> Seq<NodeKey>
        decreases MAX_DEPTH + 1 - self.node(key).depth, count,
    {
        if count <= 0 || count > sides.len() {
            Seq::empty()
        } else {
            let child = self.node(key).children->0[octant_index(sides[count - 1]) as int];
            let below = if self.node(key).depth < self.node(child).depth <= MAX_DEPTH {
                self.border_leaves(child, sides)
            } else {
                Seq::empty()
            };
            below + self.border_leaves_of(key, sides, count - 1)
        }
    }

    /// The direction in which a search from `key` along `direction` enters
    /// the face of `top`. On the face of `key` itself, and in a tree with one
    /// root, that is `direction`. Where the search has passed an edge of a
    /// planet, it is the direction that leads away from that edge in the
    /// coordinates of the face it has reached: the opposite of the way back,
    /// which is the opposite of `direction` taken into those coordinates.
    #[verifier::opaque]
    pub open spec fn entry_direction(self, key: NodeKey, top: NodeKey, direction: Seq<i32>) -> Seq<
        i32,
    > {
        if self.is_planet() {
            opposite(
                map_from_dir_to_dir_spec(
                    self.node(key).direction,
                    self.node(top).direction,
                    opposite(direction),
                ),
            )
        } else {
            direction
        }
    }

    /// The leaves across the face of a node that `direction` names: the leaf
    /// that the walk down ends at, or, where it ends at a branch, the leaves
    /// at and below that branch on the side that the search enters it by.
    pub open spec fn neighbors(self, key: NodeKey, direction: Seq<i32>) -> Seq<NodeKey> {
        match self.shared_parent(key, direction) {
            Some((top, steps)) => {
                let node = self.descent(top, steps);
                if self.node(node).children is None {
                    seq![node]
                } else {
                    self.border_leaves(
                        node,
                        border_sides(self.entry_direction(key, top, direction)),
                    )
                }
            },
            None => Seq::empty(),
        }
    }

    /// The direction in which a search enters a face is the vector of a
    /// face, and on the face it began on it is the direction of the search.
    pub proof fn lemma_entry_direction(self, key: NodeKey, top: NodeKey, direction: Seq<i32>)
        requires
            self.wf(),
            self.contains(key),
            self.contains(top),
            is_face_direction(direction),
            direction.len() == self.dim,
        ensures
            is_face_direction(self.entry_direction(key, top, direction)),
            self.entry_direction(key, top, direction).len() == self.dim,
            !self.is_planet() || self.node(top).direction == self.node(key).direction
                ==> self.entry_direction(key, top, direction) == direction,
            self.is_planet() ==> self.entry_direction(key, top, direction) == opposite(
                map_from_dir_to_dir_spec(
                    self.node(key).direction,
                    self.node(top).direction,
                    opposite(direction),
                ),
            ),
    {
        reveal(Forest::entry_direction);
        let index = choose|index: int|
            0 <= index < 2 * direction.len() && direction == #[trigger] face_direction(
                direction.len(),
                index,
            );
        if self.is_planet() {
            let from = self.node(key).direction;
            let to = self.node(top).direction;
            crate::sizes::lemma_back_is_face(2, true, from, to, index);
            let back = map_from_dir_to_dir_spec(from, to, opposite(direction));
            let at = choose|at: int|
                0 <= at < 2 * back.len() && back == #[trigger] face_direction(back.len(), at);
            crate::sizes::lemma_opposite_face(2, at);
            let turned = if at % 2 == 0 {
                at + 1
            } else {
                at - 1
            };
            let entry = opposite(back);
            assert(entry.len() == 2);
            assert(entry == face_direction(entry.len(), turned));
            if to == from {
                assert(back == opposite(direction));
                assert(entry =~= direction);
            }
        }
    }

    /// The octant of a child is given by the bits of its place among the
    /// children.
    pub proof fn lemma_octant_of_child(self, key: NodeKey, index: int)
        requires
            self.wf(),
            self.contains(key),
            self.node(key).parent is Some,
            0 <= index < self.fanout(),
            self.node(self.node(key).parent->0).children->0[index] == key,
        ensures
            self.octant_of(key) == Seq::new(self.dim, |a: int| child_sign(index, a) as i32),
    {
        assert(self.node_wf(key));
        let parent = self.node(key).parent->0;
        assert(self.node_wf(parent));
        let p = self.node(parent);
        let n = self.node(key);
        assert(is_child_of(n, p, parent, index, self.dim));
        self.lemma_sizes(p.depth as int);
        assert forall|a: int| 0 <= a < self.dim implies self.octant_of(key)[a] == child_sign(
            index,
            a,
        ) as i32 by {
            assert(n.pos[a] == p.pos[a] + toward(child_sign(index, a), p.size / 4));
        }
        assert(self.octant_of(key) =~= Seq::new(self.dim, |a: int| child_sign(index, a) as i32));
    }
}

/// One step of a climb out of an octant: the step that is written down and
/// what is left of the direction.
pub fn climb_step<const D: usize>(octant: [i32; D], moving: [i32; D]) -> (step: ([i32; D], [i32; D]))
    requires
        is_step(octant@),
        is_step(moving@),
    ensures
        step.0@ == mirrored_descent(octant@, moving@),
        step.1@ == carried(octant@, moving@),
        is_step(step.0@),
        is_step(step.1@),
{
    let mut descent: [i32; D] = octant;
    let mut left: [i32; D] = moving;
    let mut a: usize = 0;
    while a < D
        invariant
            a <= D,
            is_step(octant@),
            is_step(moving@),
            forall|b: int| 0 <= b < a ==> descent[b] == mirrored_descent(octant@, moving@)[b],
            forall|b: int| a <= b < D ==> descent[b] == octant[b],
            forall|b: int| 0 <= b < a ==> left[b] == carried(octant@, moving@)[b],
            forall|b: int| a <= b < D ==> left[b] == moving[b],
        decreases D - a,
    {
        if moving[a] != 0 {
            descent[a] = -octant[a];
        }
        if octant[a] != moving[a] {
            left[a] = 0;
        }
        a = a + 1;
    }
    assert(descent@ =~= mirrored_descent(octant@, moving@));
    assert(left@ =~= carried(octant@, moving@));
    (descent, left)
}

/// Takes every step of a walk into the coordinates of another face.
pub fn turn_descents<const D: usize>(descents: &mut Vec<[i32; D]>, transform: NeighborTransform)
    requires
        D == 2,
        transform matches NeighborTransform::Mirror { axis } ==> axis < 2,
        transform matches NeighborTransform::RotateMirror { axis, .. } ==> axis < 2,
        forall|j: int| 0 <= j < old(descents)@.len() ==> is_step(#[trigger] old(descents)@[j]@),
    ensures
        steps_view(final(descents)@) == steps_view(old(descents)@).map_values(
            |d: Seq<i32>| transformed(transform, d),
        ),
{
    let ghost plain = steps_view(descents@);
    let mut i: usize = 0;
    while i < descents.len()
        invariant
            i <= descents.len(),
            D == 2,
            transform matches NeighborTransform::Mirror { axis } ==> axis < 2,
            transform matches NeighborTransform::RotateMirror { axis, .. } ==> axis < 2,
            plain.len() == descents.len(),
            forall|j: int|
                0 <= j < plain.len() ==> is_step(#[trigger] plain[j]) && plain[j].len() == 2,
            forall|j: int|
                0 <= j < i ==> (#[trigger] descents@[j])@ == transformed(transform, plain[j]),
            forall|j: int| i <= j < plain.len() ==> (#[trigger] descents@[j])@ == plain[j],
        decreases descents.len() - i,
    {
        let descent = descents[i];
        let flat: [i32; 2] = [descent[0], descent[1]];
        proof {
            assert(is_step(plain[i as int]));
            assert(flat@ =~= plain[i as int]);
            assert(-1 <= plain[i as int][0] <= 1 && -1 <= plain[i as int][1] <= 1);
        }
        let turned: [i32; 2] = match transform {
            NeighborTransform::Mirror { axis } => mirror(axis, flat),
            NeighborTransform::Rotate { clockwise } => simple_rotate(clockwise, flat),
            NeighborTransform::RotateMirror { clockwise, axis } => mirror(
                axis,
                simple_rotate(clockwise, flat),
            ),
            NeighborTransform::Identity => flat,
        };
        let mut moved: [i32; D] = descent;
        moved[0] = turned[0];
        moved[1] = turned[1];
        proof {
            assert(moved@ =~= transformed(transform, plain[i as int]));
        }
        descents[i] = moved;
        i = i + 1;
    }
    proof {
        assert(steps_view(descents@) =~= plain.map_values(|d: Seq<i32>| transformed(transform, d)));
    }
}

impl<const D: usize> NTree<D> {
    /// Climbs from a node in a direction until nothing is left of the
    /// direction or a root is reached: see [`Forest::ascent`]. Returns the
    /// node reached, the steps written down and what is left of the
    /// direction.
    #[verifier::rlimit(40)]
    pub fn climb(&self, node_key: NodeKey, direction: [i32; D]) -> (climb: (
        NodeKey,
        Vec<[i32; D]>,
        [i32; D],
    ))
        requires
            self@.wf(),
            self@.contains(node_key),
            is_step(direction@),
        ensures
            self@.ascent(node_key, direction@) == (Climb {
                top: climb.0,
                descents: steps_view(climb.1@),
                left: climb.2@,
            }),
            self@.contains(climb.0),
            is_step(climb.2@),
            forall|j: int| 0 <= j < climb.1@.len() ==> is_step(#[trigger] climb.1@[j]@),
    {
        let ghost forest = self@;
        let mut node: NodeKey = node_key;
        let mut working_direction: [i32; D] = direction;
        let mut neighbor_descents: Vec<[i32; D]> = Vec::new();
        let mut climbing: bool = true;
        proof {
            assert(steps_view(neighbor_descents@) =~= Seq::empty());
            assert(Seq::<Seq<i32>>::empty() + forest.ascent(node, working_direction@).descents
                =~= forest.ascent(node, working_direction@).descents);
        }
        while climbing
            invariant
                forest == self@,
                forest.wf(),
                forest.dim == D,
                forest.contains(node),
                is_step(working_direction@),
                forall|j: int|
                    0 <= j < neighbor_descents@.len() ==> is_step(#[trigger] neighbor_descents@[j]@),
                forest.ascent(node_key, direction@).top == forest.ascent(
                    node,
                    working_direction@,
                ).top,
                forest.ascent(node_key, direction@).left == forest.ascent(
                    node,
                    working_direction@,
                ).left,
                forest.ascent(node_key, direction@).descents == steps_view(neighbor_descents@)
                    + forest.ascent(node, working_direction@).descents,
                !climbing ==> forest.ascent(node, working_direction@) == (Climb {
                    top: node,
                    descents: Seq::empty(),
                    left: working_direction@,
                }),
            decreases
                    forest.node(node).depth + if climbing {
                        1int
                    } else {
                        0int
                    },
        {
            proof {
                assert(forest.node_wf(node));
            }
            let current = arena_index(&self.nodes, node);
            match current.get_parent() {
                None => {
                    climbing = false;
                },
                Some(parent) => {
                    if all_zero(&working_direction) {
                        climbing = false;
                    } else {
                        let parent_node = arena_index(&self.nodes, parent);
                        proof {
                            assert(forest.node_wf(parent));
                        }
                        let node_descent = match parent_node.child_position_from_key::<D>(node) {
                            Some(signs) => signs,
                            None => child_position::<D>(0),
                        };
                        proof {
                            let keys = forest.node(parent).children->0;
                            let index = choose|index: usize|
                                crate::tree_node::is_index_of_key(keys, node, Some(index))
                                    && forall|a: int|
                                    0 <= a < D ==> node_descent[a] as int == child_sign(
                                        index as int,
                                        a,
                                    );
                            forest.lemma_octant_of_child(node, index as int);
                            assert(node_descent@ =~= forest.octant_of(node));
                        }
                        let ghost moving = working_direction@;
                        let step = climb_step(node_descent, working_direction);
                        proof {
                            let octant = forest.octant_of(node);
                            let old_steps = steps_view(neighbor_descents@);
                            let up = forest.ascent(parent, carried(octant, moving));
                            assert(forest.ascent(node, moving).descents == seq![
                                mirrored_descent(octant, moving),
                            ] + up.descents);
                            assert(steps_view(neighbor_descents@.push(step.0)) =~= old_steps.push(
                                step.0@,
                            ));
                            assert(old_steps.push(step.0@) + up.descents =~= old_steps + (seq![
                                mirrored_descent(octant, moving),
                            ] + up.descents));
                        }
                        neighbor_descents.push(step.0);
                        working_direction = step.1;
                        node = parent;
                    }
                },
            }
        }
        proof {
            assert(steps_view(neighbor_descents@) + Seq::<Seq<i32>>::empty() =~= steps_view(
                neighbor_descents@,
            ));
        }
        (node, neighbor_descents, working_direction)
    }

    /// Climbs from a node until an ancestor also holds the place across the
    /// face that `direction` names: see [`Forest::shared_parent`]. Returns
    /// the node to walk down from and the steps of the walk, lowest level
    /// first, or nothing if there is no place across the face.
    #[verifier::rlimit(40)]
    pub fn find_shared_parent(&self, node_key: NodeKey, direction: [i32; D]) -> (found: Option<
        (NodeKey, Vec<[i32; D]>),
    >)
        requires
            self@.wf(),
            self@.contains(node_key),
            is_step(direction@),
        ensures
            match found {
                Some((top, descents)) => self@.contains(top) && self@.shared_parent(
                    node_key,
                    direction@,
                ) == Some((top, steps_view(descents@))),
                None => self@.shared_parent(node_key, direction@) is None,
            },
    {
        let ghost forest = self@;
        let (node, mut neighbor_descents, working_direction) = self.climb(node_key, direction);
        if all_zero(&working_direction) {
            Some((node, neighbor_descents))
        } else if self.roots.len() == 6 {
            proof {
                assert(forest.node_wf(node));
            }
            let from = arena_index(&self.nodes, node).direction();
            let (to, transform) = map_to_neighbor(from, [working_direction[0], working_direction[1]]);
            proof {
                let left = working_direction@;
                assert([working_direction[0], working_direction[1]]@ =~= left);
                assert(to != Direction::NoDirection) by {
                    if left[0] == 0 && left[1] == 0 {
                        assert(is_zero(left));
                    }
                }
            }
            turn_descents(&mut neighbor_descents, transform);
            proof {
                assert(forest.contains(forest.roots[to.spec_index() as int]));
            }
            Some((self.roots[to.index()], neighbor_descents))
        } else {
            None
        }
    }

    /// Walks down from a node by the given steps, the last step first, and
    /// stops at the first leaf: see [`Forest::descent`].
    pub fn neighbour_descent(&self, node_key: NodeKey, descents: Vec<[i32; D]>) -> (end: NodeKey)
        requires
            self@.wf(),
            self@.contains(node_key),
        ensures
            end == self@.descent(node_key, steps_view(descents@)),
            self@.contains(end),
    {
        let ghost forest = self@;
        let ghost steps = steps_view(descents@);
        let mut node: NodeKey = node_key;
        let mut i: usize = descents.len();
        let mut walking: bool = true;
        proof {
            assert(steps.take(i as int) =~= steps);
        }
        while walking && i > 0
            invariant
                i <= descents.len(),
                forest == self@,
                forest.wf(),
                forest.dim == D,
                steps == steps_view(descents@),
                forest.contains(node),
                walking ==> forest.descent(node_key, steps) == forest.descent(
                    node,
                    steps.take(i as int),
                ),
                !walking ==> forest.descent(node_key, steps) == node,
            decreases i,
        {
            proof {
                assert(forest.node_wf(node));
                assert(steps.take(i as int).drop_last() =~= steps.take(i - 1));
                assert(steps.take(i as int).last() == descents@[i - 1]@);
            }
            i = i - 1;
            let current = arena_index(&self.nodes, node);
            match current.get_child(descents[i]) {
                Some(child) => {
                    proof {
                        crate::node_traits::lemma_octant_index_bound(descents@[i as int]@);
                        let keys = forest.node(node).children->0;
                        assert(forest.contains(keys[octant_index(descents@[i as int]@) as int]));
                    }
                    node = child;
                    if !arena_index(&self.nodes, child).has_children() {
                        walking = false;
                    }
                },
                None => {},
            }
        }
        node
    }

    /// Adds to `leaves` the leaves at and below a node that are reached
    /// through the children on the given sides alone: see
    /// [`Forest::border_leaves`].
    pub fn collect_border(&self, node_key: NodeKey, sides: &Vec<[i32; D]>, leaves: &mut Vec<NodeKey>)
        requires
            self@.wf(),
            self@.contains(node_key),
        ensures
            final(leaves)@ == old(leaves)@ + self@.border_leaves(node_key, steps_view(sides@)),
            forall|i: int|
                old(leaves)@.len() <= i < final(leaves)@.len() ==> self@.is_leaf(
                    #[trigger] final(leaves)@[i],
                ),
        decreases MAX_DEPTH + 1 - self@.node(node_key).depth,
    {
        let ghost forest = self@;
        let ghost views = steps_view(sides@);
        proof {
            assert(forest.node_wf(node_key));
        }
        let node = arena_index(&self.nodes, node_key);
        match node.children() {
            None => {
                leaves.push(node_key);
                assert(leaves@ =~= old(leaves)@ + seq![node_key]);
            },
            Some(keys) => {
                let mut count: usize = sides.len();
                proof {
                    assert(old(leaves)@ + Seq::<NodeKey>::empty() =~= old(leaves)@);
                }
                let ghost all = forest.border_leaves_of(node_key, views, sides.len() as int);
                let ghost done = Seq::<NodeKey>::empty();
                while count > 0
                    invariant
                        count <= sides.len(),
                        forest == self@,
                        forest.wf(),
                        forest.dim == D,
                        forest.contains(node_key),
                        forest.node(node_key).children == Some(keys@),
                        views == steps_view(sides@),
                        leaves@ == old(leaves)@ + done,
                        forall|i: int|
                            old(leaves)@.len() <= i < leaves@.len() ==> forest.is_leaf(
                                #[trigger] leaves@[i],
                            ),
                        all == done + forest.border_leaves_of(node_key, views, count as int),
                    decreases count,
                {
                    proof {
                        assert(forest.node_wf(node_key));
                    }
                    let index = child_index_of(&sides[count - 1]);
                    let child = keys[index];
                    proof {
                        assert(forest.contains(keys@[index as int]));
                        assert(is_child_of(
                            forest.node(keys@[index as int]),
                            forest.node(node_key),
                            node_key,
                            index as int,
                            forest.dim,
                        ));
                        assert(forest.node_wf(child));
                        assert(views[count - 1] == sides@[count - 1]@);
                    }
                    let ghost earlier = leaves@;
                    self.collect_border(child, sides, leaves);
                    proof {
                        let below = forest.border_leaves(child, views);
                        let rest = forest.border_leaves_of(node_key, views, count - 1);
                        assert(forest.border_leaves_of(node_key, views, count as int) == below
                            + rest);
                        assert(done + (below + rest) =~= (done + below) + rest);
                        assert(leaves@ =~= old(leaves)@ + (done + below));
                        done = done + below;
                    }
                    count = count - 1;
                }
                proof {
                    assert(done + Seq::<NodeKey>::empty() =~= done);
                }
            },
        }
    }

    /// The leaves at and below a node on the side that faces back along
    /// `direction`: see [`Forest::border_leaves`].
    pub fn bordering_neighbours(&self, neighbour_node_key: NodeKey, direction: [i32; D]) -> (leaves:
        Vec<NodeKey>)
        requires
            self@.wf(),
            self@.contains(neighbour_node_key),
            is_step(direction@),
            first_nonzero(direction@) < D,
        ensures
            leaves@ == self@.border_leaves(neighbour_node_key, border_sides(direction@)),
            forall|i: int| 0 <= i < leaves@.len() ==> self@.is_leaf(#[trigger] leaves@[i]),
    {
        let child_direction = opposite_direction(direction);
        proof {
            lemma_first_nonzero_of_opposite(direction@, 0);
        }
        let child_directions = child_positions_in_direction(child_direction);
        proof {
            let views = steps_view(child_directions@);
            let sides = border_sides(direction@);
            assert(views.len() == sides.len());
            assert forall|k: int| 0 <= k < views.len() implies views[k] == sides[k] by {
                assert forall|a: int| 0 <= a < D implies views[k][a] == sides[k][a] by {
                    assert(child_directions@[k][a] as int == border_component(
                        child_direction@,
                        k,
                        a,
                    ));
                }
                assert(views[k] =~= sides[k]);
            }
            assert(views =~= sides);
        }
        let mut leaves: Vec<NodeKey> = Vec::new();
        self.collect_border(neighbour_node_key, &child_directions, &mut leaves);
        proof {
            assert(Seq::<NodeKey>::empty() + self@.border_leaves(
                neighbour_node_key,
                border_sides(direction@),
            ) =~= self@.border_leaves(neighbour_node_key, border_sides(direction@)));
        }
        leaves
    }

    /// The leaves across the face of a node that `direction` names, each
    /// once, in the order in which the search finds them: see
    /// [`Forest::neighbors`]. These are the leaves that lie across the face,
    /// all of them and no others. For a node at the edge of its face of a
    /// planet they are the leaves of the face beyond the edge that lie
    /// across that edge of the cube.
    pub fn get_neighbors(&self, node_key: NodeKey, direction: [i32; D]) -> (leaves: Vec<NodeKey>)
        requires
            self@.wf(),
            self@.contains(node_key),
            is_face_direction(direction@),
        ensures
            leaves@ == self@.neighbors(node_key, direction@),
            leaves@.no_duplicates(),
            forall|i: int| 0 <= i < leaves@.len() ==> self@.is_leaf(#[trigger] leaves@[i]),
            !self@.is_planet() || is_zero(self@.ascent(node_key, direction@).left) ==> forall|
                key: NodeKey,
            |
                leaves@.contains(key) <==> self@.is_leaf(key) && self@.node(node_key).across(
                    direction@,
                    self@.node(key),
                ),
            self@.is_planet() && !is_zero(self@.ascent(node_key, direction@).left) ==> forall|
                key: NodeKey,
            |
                leaves@.contains(key) <==> self@.is_leaf(key) && self@.node(key).direction
                    == neighbor_face(self@.node(node_key).direction, direction@) && self@.node(
                    node_key,
                ).across_edge(self@.node(key)),
    {
        let leaves = self.search_neighbors(node_key, direction);
        proof {
            self@.law_neighbors_once(node_key, direction@);
            if self@.is_planet() && !is_zero(self@.ascent(node_key, direction@).left) {
                assert forall|key: NodeKey|
                    leaves@.contains(key) <==> self@.is_leaf(key) && self@.node(key).direction
                        == neighbor_face(self@.node(node_key).direction, direction@) && self@.node(
                        node_key,
                    ).across_edge(self@.node(key)) by {
                    self@.law_neighbors_across_edge(node_key, direction@, key);
                }
            }
            if !self@.is_planet() || is_zero(self@.ascent(node_key, direction@).left) {
                assert forall|key: NodeKey|
                    leaves@.contains(key) <==> self@.is_leaf(key) && self@.node(node_key).across(
                        direction@,
                        self@.node(key),
                    ) by {
                    self@.law_neighbors_are_leaves_across(node_key, direction@, key);
                }
            }
        }
        leaves
    }

    /// The search itself: the climb, the walk down, and the collecting of
    /// the leaves on the near side.
    fn search_neighbors(&self, node_key: NodeKey, direction: [i32; D]) -> (leaves: Vec<NodeKey>)
        requires
            self@.wf(),
            self@.contains(node_key),
            is_face_direction(direction@),
        ensures
            leaves@ == self@.neighbors(node_key, direction@),
            forall|i: int| 0 <= i < leaves@.len() ==> self@.is_leaf(#[trigger] leaves@[i]),
    {
        proof {
            lemma_face_is_step(direction@);
        }
        let (top, neighbor_descents) = match self.find_shared_parent(node_key, direction) {
            Some(found) => found,
            None => {
                return Vec::new();
            },
        };
        let node = self.neighbour_descent(top, neighbor_descents);
        if !arena_index(&self.nodes, node).has_children() {
            let mut leaves: Vec<NodeKey> = Vec::new();
            leaves.push(node);
            assert(leaves@ =~= seq![node]);
            return leaves;
        }
        let entry = self.entry_direction(node_key, top, direction);
        proof {
            lemma_face_is_step(entry@);
        }
        self.bordering_neighbours(node, entry)
    }

    /// The direction in which a search from a node along `direction` enters
    /// the face of `top`: see [`Forest::entry_direction`].
    pub fn entry_direction(&self, node_key: NodeKey, top: NodeKey, direction: [i32; D]) -> (entry: [
        i32;
        D
    ])
        requires
            self@.wf(),
            self@.contains(node_key),
            self@.contains(top),
            is_face_direction(direction@),
        ensures
            entry@ == self@.entry_direction(node_key, top, direction@),
            is_face_direction(entry@),
    {
        proof {
            lemma_face_is_step(direction@);
            self@.lemma_entry_direction(node_key, top, direction@);
        }
        if self.roots.len() == 6 {
            let from = arena_index(&self.nodes, node_key).direction();
            let to = arena_index(&self.nodes, top).direction();
            let back = opposite_direction(direction);
            let flat: [i32; 2] = [back[0], back[1]];
            assert(flat@ =~= back@);
            let turned = map_from_dir_to_dir(from, to, flat);
            proof {
                assert(is_face_direction(opposite(turned@)));
                lemma_face_is_step(opposite(turned@));
                assert(is_step(turned@)) by {
                    assert forall|a: int| 0 <= a < turned@.len() implies -1
                        <= #[trigger] turned@[a] <= 1 by {
                        assert(opposite(turned@)[a] == -turned@[a]);
                    }
                }
            }
            let mut seen: [i32; D] = back;
            seen[0] = turned[0];
            seen[1] = turned[1];
            assert(seen@ =~= turned@);
            opposite_direction(seen)
        } else {
            direction
        }
    }
}

/// The vector that points the other way is zero along the same axes.
pub proof fn lemma_first_nonzero_of_opposite(dir: Seq<i32>, from: int)
    requires
        0 <= from <= dir.len(),
        is_step(dir),
    ensures
        crate::node_traits::first_nonzero_from(opposite(dir), from)
            == crate::node_traits::first_nonzero_from(dir, from),
    decreases dir.len() - from,
{
    assert(opposite(dir).len() == dir.len());
    if from < dir.len() {
        assert(opposite(dir)[from] == -dir[from]);
        if dir[from] == 0 {
            lemma_first_nonzero_of_opposite(dir, from + 1);
        }
    }
}

/// The vector of a face has components of `-1`, `0` and `1` only, and is
/// not zero.
pub proof fn lemma_face_is_step(dir: Seq<i32>)
    requires
        is_face_direction(dir),
    ensures
        is_step(dir),
        first_nonzero(dir) < dir.len(),
        first_nonzero(dir) >= 0,
        dir[first_nonzero(dir)] == 1 || dir[first_nonzero(dir)] == -1,
        forall|a: int| 0 <= a < dir.len() && a != first_nonzero(dir) ==> dir[a] == 0,
{
    let index = choose|index: int|
        0 <= index < 2 * dir.len() && dir == #[trigger] crate::node_traits::face_direction(
            dir.len(),
            index,
        );
    lemma_first_nonzero_is(dir, index / 2, 0);
}

/// The first axis along which a vector is not zero, given that it is zero
/// before `axis` and not zero at `axis`.
pub proof fn lemma_first_nonzero_is(dir: Seq<i32>, axis: int, from: int)
    requires
        0 <= from <= axis < dir.len(),
        dir[axis] != 0,
        forall|a: int| 0 <= a < axis ==> dir[a] == 0,
    ensures
        crate::node_traits::first_nonzero_from(dir, from) == axis,
    decreases axis - from,
{
    if from < axis {
        lemma_first_nonzero_is(dir, axis, from + 1);
    }
}

} // verus!
