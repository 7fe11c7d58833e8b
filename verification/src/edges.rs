//! The search across an edge of a planet, in the coordinates of the world.
//!
//! The local coordinates of a node on a face are its world coordinates along
//! the two axes that the face does not look along. Two nodes on faces that
//! meet in an edge of the cube lie across that edge if each reaches the plane
//! of the face of the other, and if they have inner points in common along
//! the edge.

use vstd::prelude::*;
use crate::adjacency::{is_octant, Cell};
use crate::arena::NodeKey;
use crate::forest::{toward, Forest, MAX_DEPTH};
use crate::neighbors::{border_sides, lemma_face_is_step};
use crate::node_traits::{face_direction, first_nonzero, is_face_direction, is_zero, opposite};
use crate::planet_tree_impl::{
    face_transform, map_from_dir_to_dir_spec, neighbor_face, transformed, Direction,
};
use crate::tree_node::NodeView;

verus! {

/// The local axis of a face that runs along a world axis other than the axis
/// of the face.
pub open spec fn local_axis(face: Direction, world: int) -> int {
    if world < face.axis() {
        world
    } else {
        world - 1
    }
}

/// The face across the edge that face `face` of a node on `from` looks at.
pub open spec fn face_beyond(from: Direction, face: int) -> Direction {
    neighbor_face(from, face_direction(2, face))
}

/// The local axis of the face beyond an edge that runs towards the face the
/// search came from.
pub open spec fn inward_axis(from: Direction, face: int) -> int {
    local_axis(face_beyond(from, face), from.axis())
}

/// Whether the change of coordinates across an edge turns the sign of the
/// component that runs across the edge: it does where both faces lie on the
/// high side or both on the low side of their axes.
pub open spec fn turns_sign(from: Direction, face: int) -> bool {
    from.side() == face_beyond(from, face).side()
}

/// How the coordinates of two faces that meet in an edge fit together: the
/// face beyond the edge lies on the world axis that the search moves along,
/// on the side it moves to. Its local axis along the edge is the one that
/// runs along the same world axis as the local axis along the edge on the
/// face the search came from, and the change of coordinates keeps the
/// component along the edge. The component across the edge goes to the axis
/// that runs towards the face the search came from, with its sign turned
/// where [`turns_sign`] says so.
pub proof fn lemma_fold_over_edge(from: Direction, face: int, v: Seq<i32>)
    requires
        from != Direction::NoDirection,
        0 <= face < 4,
        v.len() == 2,
        v[0] > i32::MIN,
        v[1] > i32::MIN,
    ensures
        ({
            let to = face_beyond(from, face);
            let across = face / 2;
            let inward = inward_axis(from, face);
            let moved = transformed(face_transform(from, to), v);
            &&& to != Direction::NoDirection
            &&& to.axis() != from.axis()
            &&& to.axis() == from.world_axis(across)
            &&& to.side() == face_direction(2, face)[across]
            &&& 0 <= inward < 2
            &&& to.world_axis(inward) == from.axis()
            &&& to.world_axis(1 - inward) == from.world_axis(1 - across)
            &&& moved.len() == 2
            &&& moved[1 - inward] == v[1 - across]
            &&& moved[inward] == if turns_sign(from, face) {
                -v[across]
            } else {
                v[across] as int
            }
        }),
{
    let dir = face_direction(2, face);
    assert(dir[0] == if face == 0 {
        -1i32
    } else if face == 1 {
        1i32
    } else {
        0i32
    });
    assert(dir[1] == if face == 2 {
        -1i32
    } else if face == 3 {
        1i32
    } else {
        0i32
    });
}

impl Forest {
    /// A walk on the face beyond an edge, by steps that have been taken into
    /// the coordinates of that face, moves along the edge as the walk by the
    /// steps themselves does on the face they come from, and across the edge
    /// as far, to the side that the change of coordinates gives.
    pub proof fn lemma_walk_over_edge(
        self,
        from: Direction,
        face: int,
        here: Cell,
        there: Cell,
        steps: Seq<Seq<i32>>,
        moved: Seq<Seq<i32>>,
    )
        requires
            from != Direction::NoDirection,
            0 <= face < 4,
            self.dim == 2,
            here.depth == there.depth,
            moved.len() == steps.len(),
            forall|i: int|
                0 <= i < steps.len() ==> is_octant(#[trigger] steps[i]) && steps[i].len() == 2,
            forall|i: int|
                0 <= i < steps.len() ==> #[trigger] moved[i] == transformed(
                    face_transform(from, face_beyond(from, face)),
                    steps[i],
                ),
        ensures
            ({
                let across = face / 2;
                let inward = inward_axis(from, face);
                let end_here = self.walk_down(here, steps);
                let end_there = self.walk_down(there, moved);
                &&& end_there.depth == end_here.depth
                &&& end_there.pos[1 - inward] - there.pos[1 - inward] == end_here.pos[1 - across]
                    - here.pos[1 - across]
                &&& end_there.pos[inward] - there.pos[inward] == if turns_sign(from, face) {
                    -(end_here.pos[across] - here.pos[across])
                } else {
                    end_here.pos[across] - here.pos[across]
                }
            }),
        decreases steps.len(),
    {
        if steps.len() > 0 {
            let step = steps.last();
            let turned = moved.last();
            assert(is_octant(steps[steps.len() - 1]));
            assert(moved[moved.len() - 1] == transformed(
                face_transform(from, face_beyond(from, face)),
                steps[steps.len() - 1],
            ));
            assert(step[0] == 1 || step[0] == -1);
            assert(step[1] == 1 || step[1] == -1);
            lemma_fold_over_edge(from, face, step);
            let next_here = self.stepped(here, step);
            let next_there = self.stepped(there, turned);
            let rest = steps.drop_last();
            let rest_moved = moved.drop_last();
            assert forall|i: int| 0 <= i < rest.len() implies is_octant(#[trigger] rest[i])
                && rest[i].len() == 2 by {
                assert(rest[i] == steps[i]);
            }
            assert forall|i: int| 0 <= i < rest.len() implies #[trigger] rest_moved[i]
                == transformed(face_transform(from, face_beyond(from, face)), rest[i]) by {
                assert(rest[i] == steps[i]);
                assert(rest_moved[i] == moved[i]);
            }
            self.lemma_walk_over_edge(from, face, next_here, next_there, rest, rest_moved);
        }
    }
}

impl Forest {
    /// Every node of a planet stands in the plane of its face, and its
    /// local coordinates are its world coordinates along the two axes of
    /// that plane.
    pub proof fn lemma_on_plane(self, key: NodeKey)
        requires
            self.wf(),
            self.is_planet(),
            self.contains(key),
        ensures
            ({
                let n = self.node(key);
                let d = n.direction;
                &&& d != Direction::NoDirection
                &&& 0 <= d.axis() < 3
                &&& n.world_pos[d.axis()] == self.cube_centre(d.axis()) + toward(
                    d.side(),
                    self.root_size / 2,
                )
                &&& n.pos[0] == n.world_pos[d.world_axis(0)]
                &&& n.pos[1] == n.world_pos[d.world_axis(1)]
            }),
        decreases self.node(key).depth,
    {
        assert(self.node_wf(key));
        let n = self.node(key);
        let d = n.direction;
        match n.parent {
            None => {
                let i = choose|i: int| 0 <= i < self.roots.len() && self.roots[i] == key;
                reveal(crate::forest::stands_on_cube);
                assert(self.on_cube(self.node(self.roots[i])));
                assert(n.world_pos[d.axis()] == self.cube_centre(d.axis()) + toward(
                    d.side(),
                    self.root_size / 2,
                ));
            },
            Some(p) => {
                assert(self.node_wf(p));
                self.lemma_on_plane(p);
                let keys = self.node(p).children->0;
                let index = choose|index: int| 0 <= index < keys.len() && keys[index] == key;
                assert(crate::forest::is_child_of(n, self.node(p), p, index, self.dim));
            },
        }
    }

    /// The root of a face of a planet stands around the centre of the cube,
    /// seen in the plane of the face.
    pub proof fn lemma_root_centre(self, face: Direction)
        requires
            self.wf(),
            self.is_planet(),
            face != Direction::NoDirection,
        ensures
            ({
                let root = self.roots[face.spec_index() as int];
                &&& self.contains(root)
                &&& self.node(root).direction == face
                &&& self.node(root).depth == 0
                &&& self.node(root).size == self.root_size
                &&& self.node(root).pos[0] == self.cube_centre(face.world_axis(0))
                &&& self.node(root).pos[1] == self.cube_centre(face.world_axis(1))
            }),
    {
        let i = face.spec_index() as int;
        let root = self.roots[i];
        assert(self.contains(self.roots[i]));
        assert(self.node_wf(root));
        reveal(crate::forest::stands_on_cube);
        assert(self.on_cube(self.node(self.roots[i])));
        self.lemma_on_plane(root);
        self.lemma_sizes(0);
        let r = self.node(root);
        assert(r.world_pos[face.world_axis(0)] == self.cube_centre(face.world_axis(0)));
        assert(r.world_pos[face.world_axis(1)] == self.cube_centre(face.world_axis(1)));
    }

    /// A node from which the climb in the direction of a face ends with
    /// something left of the direction lies at the edge of its root on that
    /// side, and the climb has ended at that root with the whole direction
    /// left.
    #[verifier::rlimit(40)]
    pub proof fn lemma_at_edge(self, key: NodeKey, dir: Seq<i32>)
        requires
            self.wf(),
            self.contains(key),
            is_face_direction(dir),
            dir.len() == self.dim,
            !is_zero(self.ascent(key, dir).left),
        ensures
            ({
                let climb = self.ascent(key, dir);
                let n = self.node(key);
                let t = self.node(climb.top);
                let axis = first_nonzero(dir);
                &&& climb.left == dir
                &&& self.contains(climb.top)
                &&& t.parent is None
                &&& t.depth == 0
                &&& t.direction == n.direction
                &&& n.pos[axis] + toward(dir[axis] as int, n.size / 2) == t.pos[axis] + toward(
                    dir[axis] as int,
                    t.size / 2,
                )
            }),
    {
        lemma_face_is_step(dir);
        self.lemma_ascent_leads_back(key, dir);
        let climb = self.ascent(key, dir);
        let top = climb.top;
        let n = self.node(key);
        let t = self.node(top);
        let axis = first_nonzero(dir);
        assert(self.node_wf(key));
        assert(self.node_wf(top));
        assert(climb.left[axis] == dir[axis]) by {
            if climb.left[axis] != dir[axis] {
                assert forall|a: int| 0 <= a < climb.left.len() implies #[trigger] climb.left[a]
                    == 0 by {
                    assert(climb.left[a] == 0 || climb.left[a] == dir[a]);
                }
            }
        }
        assert forall|a: int| 0 <= a < dir.len() implies climb.left[a] == dir[a] by {
            assert(climb.left[a] == 0 || climb.left[a] == dir[a]);
        }
        assert(climb.left =~= dir);
        let i = self.lemma_under_root(key);
        let root = self.roots[i];
        assert(self.contains(self.roots[i]));
        assert(self.node_wf(root));
        self.lemma_roots_unique(root, top);
        let base = self.shifted(self.cell(top), climb.left);
        let v = self.shifted(self.cell(key), dir);
        self.lemma_walk_within(base, climb.descents);
        self.lemma_virtual_box(key, dir, axis);
        self.lemma_virtual_box(top, climb.left, axis);
        assert(self.cell_low(base, axis) <= self.cell_low(v, axis) && self.cell_high(v, axis)
            <= self.cell_high(base, axis));
        if key != top {
            assert(t.pos[axis] - t.size / 2 <= n.pos[axis] - n.size / 2 && n.pos[axis] + n.size / 2
                <= t.pos[axis] + t.size / 2);
        }
    }
}

impl Forest {
    /// The place that the steps beyond an edge of a planet lead to: the
    /// place next to the node across the edge. It lies along the edge where
    /// the node lies, and it reaches the plane of the face of the node. The
    /// node itself reaches the plane of the face beyond the edge.
    #[verifier::rlimit(40)]
    pub proof fn lemma_place_beyond_edge(self, key: NodeKey, face: int)
        requires
            self.wf(),
            self.is_planet(),
            self.contains(key),
            0 <= face < 4,
            !is_zero(self.ascent(key, face_direction(2, face)).left),
        ensures
            ({
                let dir = face_direction(2, face);
                let n = self.node(key);
                let from = n.direction;
                let to = face_beyond(from, face);
                let across = face / 2;
                let inward = inward_axis(from, face);
                let found = self.shared_parent(key, dir)->0;
                let place = self.walk_down(self.cell(found.0), found.1);
                &&& place.depth == n.depth
                &&& place.pos.len() == 2
                &&& place.pos[1 - inward] == n.pos[1 - across]
                &&& place.pos[inward] == self.cube_centre(from.axis()) + toward(
                    from.side(),
                    self.root_size / 2 - n.size / 2,
                )
                &&& n.pos[across] + toward(to.side(), n.size / 2) == self.cube_centre(to.axis())
                    + toward(to.side(), self.root_size / 2)
            }),
    {
        let dir = face_direction(2, face);
        let across = face / 2;
        self.lemma_walk_beyond_edge(key, face);
        self.lemma_edge_roots(key, face);
        let n = self.node(key);
        let from = n.direction;
        let to = face_beyond(from, face);
        let inward = inward_axis(from, face);
        let t = self.node(self.roots[from.spec_index() as int]);
        let r = self.node(self.roots[to.spec_index() as int]);
        lemma_fold_over_edge(from, face, dir);
        self.lemma_root_centre(from);
        self.lemma_root_centre(to);
        let found = self.shared_parent(key, dir)->0;
        let place = self.walk_down(self.cell(found.0), found.1);
        assert(dir[across] == to.side());
        assert(r.pos[inward] == self.cube_centre(from.axis())) by {
            if inward == 0 {
                assert(to.world_axis(0) == from.axis());
            } else {
                assert(to.world_axis(1) == from.axis());
            }
        }
        assert(r.pos[1 - inward] == t.pos[1 - across]) by {
            if inward == 0 {
                assert(to.world_axis(1) == from.world_axis(1 - across));
            } else {
                assert(to.world_axis(0) == from.world_axis(1 - across));
            }
        }
        assert(t.pos[across] == self.cube_centre(to.axis())) by {
            if across == 0 {
                assert(from.world_axis(0) == to.axis());
            } else {
                assert(from.world_axis(1) == to.axis());
            }
        }
        lemma_fold_place(
            from.side(),
            to.side(),
            turns_sign(from, face),
            self.root_size / 2,
            n.size as int,
            n.pos[across] as int,
            t.pos[across] as int,
            r.pos[inward] as int,
            place.pos[inward],
            n.pos[across] + crate::adjacency::along(dir[across] as int, n.size as int),
            t.pos[across] + crate::adjacency::along(dir[across] as int, t.size as int),
        );
    }

    /// The roots between which the search passes an edge of a planet: the
    /// climb ends at the root of the face of the node, at whose edge the node
    /// lies, and the walk down begins at the root of the face beyond the
    /// edge.
    #[verifier::rlimit(40)]
    pub proof fn lemma_edge_roots(self, key: NodeKey, face: int)
        requires
            self.wf(),
            self.is_planet(),
            self.contains(key),
            0 <= face < 4,
            !is_zero(self.ascent(key, face_direction(2, face)).left),
        ensures
            ({
                let dir = face_direction(2, face);
                let n = self.node(key);
                let from = n.direction;
                let to = face_beyond(from, face);
                let across = face / 2;
                let t = self.node(self.roots[from.spec_index() as int]);
                let found = self.shared_parent(key, dir)->0;
                &&& from != Direction::NoDirection
                &&& self.ascent(key, dir).top == self.roots[from.spec_index() as int]
                &&& found.0 == self.roots[to.spec_index() as int]
                &&& n.size % 2 == 0
                &&& t.size == 2 * (self.root_size / 2)
                &&& n.pos[across] + toward(dir[across] as int, n.size / 2) == t.pos[across]
                    + toward(dir[across] as int, self.root_size / 2)
            }),
    {
        let dir = face_direction(2, face);
        self.lemma_crossing_steps(key, face);
        self.lemma_at_edge(key, dir);
        let climb = self.ascent(key, dir);
        let from = self.node(key).direction;
        self.lemma_root_centre(from);
        self.lemma_roots_unique(climb.top, self.roots[from.spec_index() as int]);
        self.lemma_sizes(0);
        assert(self.node_wf(key));
    }

    /// How far the walk beyond an edge of a planet leads from the root of
    /// the face beyond the edge: along the edge as far as the node lies from
    /// the root of its face, and across the edge as far as the place next to
    /// the node lies from the place next to that root, to the side that the
    /// change of coordinates gives.
    #[verifier::rlimit(40)]
    pub proof fn lemma_walk_beyond_edge(self, key: NodeKey, face: int)
        requires
            self.wf(),
            self.is_planet(),
            self.contains(key),
            0 <= face < 4,
            !is_zero(self.ascent(key, face_direction(2, face)).left),
        ensures
            ({
                let dir = face_direction(2, face);
                let n = self.node(key);
                let t = self.node(self.ascent(key, dir).top);
                let from = n.direction;
                let across = face / 2;
                let inward = inward_axis(from, face);
                let found = self.shared_parent(key, dir)->0;
                let r = self.node(found.0);
                let place = self.walk_down(self.cell(found.0), found.1);
                let beside = n.pos[across] + crate::adjacency::along(
                    dir[across] as int,
                    n.size as int,
                );
                let here = t.pos[across] + crate::adjacency::along(dir[across] as int, t.size as int);
                &&& place.depth == n.depth
                &&& place.pos.len() == 2
                &&& place.pos[1 - inward] - r.pos[1 - inward] == n.pos[1 - across] - t.pos[1
                    - across]
                &&& place.pos[inward] - r.pos[inward] == if turns_sign(from, face) {
                    -(beside - here)
                } else {
                    beside - here
                }
            }),
    {
        let dir = face_direction(2, face);
        let across = face / 2;
        self.lemma_crossing_steps(key, face);
        self.lemma_at_edge(key, dir);
        self.lemma_ascent_leads_back(key, dir);
        let climb = self.ascent(key, dir);
        let from = self.node(key).direction;
        let inward = inward_axis(from, face);
        let found = self.shared_parent(key, dir)->0;
        let here = self.shifted(self.cell(climb.top), dir);
        let there = self.cell(found.0);
        lemma_fold_over_edge(from, face, dir);
        self.lemma_walk_over_edge(from, face, here, there, climb.descents, found.1);
        self.lemma_walk_depth(there, found.1);
        self.lemma_virtual_place(key, dir, across);
        self.lemma_virtual_place(climb.top, dir, across);
        self.lemma_virtual_place(key, dir, 1 - across);
        self.lemma_virtual_place(climb.top, dir, 1 - across);
        assert(there.pos[inward] == self.node(found.0).pos[inward]);
        assert(there.pos[1 - inward] == self.node(found.0).pos[1 - inward]);
    }

    /// Where the search goes on beyond an edge of a planet: at the root of
    /// the face beyond the edge, with the steps of the climb, each taken
    /// into the coordinates of that face.
    #[verifier::rlimit(40)]
    pub proof fn lemma_crossing_steps(self, key: NodeKey, face: int)
        requires
            self.wf(),
            self.is_planet(),
            self.contains(key),
            0 <= face < 4,
            !is_zero(self.ascent(key, face_direction(2, face)).left),
        ensures
            ({
                let dir = face_direction(2, face);
                let climb = self.ascent(key, dir);
                let from = self.node(key).direction;
                let to = face_beyond(from, face);
                let found = self.shared_parent(key, dir)->0;
                &&& is_face_direction(dir)
                &&& dir.len() == self.dim
                &&& first_nonzero(dir) == face / 2
                &&& from != Direction::NoDirection
                &&& self.shared_parent(key, dir) is Some
                &&& found.0 == self.roots[to.spec_index() as int]
                &&& self.contains(found.0)
                &&& self.node(found.0).direction == to
                &&& self.node(found.0).depth == 0
                &&& found.1.len() == self.node(key).depth
                &&& found.1.len() == climb.descents.len()
                &&& forall|i: int|
                    0 <= i < found.1.len() ==> is_octant(#[trigger] found.1[i]) && found.1[i].len()
                        == 2
                &&& forall|i: int|
                    0 <= i < climb.descents.len() ==> is_octant(#[trigger] climb.descents[i])
                        && climb.descents[i].len() == 2
                &&& forall|i: int|
                    0 <= i < climb.descents.len() ==> #[trigger] found.1[i] == transformed(
                        face_transform(from, to),
                        climb.descents[i],
                    )
            }),
    {
        let dir = face_direction(2, face);
        assert(dir == face_direction(dir.len(), face));
        assert(is_face_direction(dir));
        lemma_face_is_step(dir);
        let across = face / 2;
        assert(dir[across] != 0);
        assert(first_nonzero(dir) == across);
        self.lemma_at_edge(key, dir);
        self.lemma_ascent_leads_back(key, dir);
        self.lemma_crossing_start(key, dir);
        let climb = self.ascent(key, dir);
        let from = self.node(key).direction;
        let to = face_beyond(from, face);
        assert(self.node_wf(key));
        let found = self.shared_parent(key, dir)->0;
        assert(found.0 == self.roots[to.spec_index() as int]);
        assert(self.node_wf(found.0));
        assert forall|i: int| 0 <= i < climb.descents.len() implies #[trigger] found.1[i]
            == transformed(face_transform(from, to), climb.descents[i]) by {}
    }

    /// The centre of the place next to a node, along one axis.
    pub proof fn lemma_virtual_place(self, key: NodeKey, dir: Seq<i32>, a: int)
        requires
            self.wf(),
            self.contains(key),
            0 <= a < self.dim,
        ensures
            self.shifted(self.cell(key), dir).pos[a] == self.node(key).pos[a]
                + crate::adjacency::along(dir[a] as int, self.node(key).size as int),
    {
        assert(self.node_wf(key));
    }
}

/// The arithmetic of the place beyond an edge: what lies as far before the
/// far edge of one face as the node lies before the near edge reaches, after
/// the change of coordinates, the plane of the face of the node.
pub proof fn lemma_fold_place(
    own_side: int,
    next_side: int,
    turns: bool,
    half: int,
    size: int,
    node_across: int,
    root_across: int,
    next_root_inward: int,
    place_inward: int,
    beside_across: int,
    here_across: int,
)
    requires
        own_side == 1 || own_side == -1,
        next_side == 1 || next_side == -1,
        turns == (own_side == next_side),
        size % 2 == 0,
        beside_across == node_across + crate::adjacency::along(next_side, size),
        here_across == root_across + crate::adjacency::along(next_side, 2 * half),
        node_across + toward(next_side, size / 2) == root_across + toward(next_side, half),
        place_inward - next_root_inward == if turns {
            -(beside_across - here_across)
        } else {
            beside_across - here_across
        },
    ensures
        place_inward == next_root_inward + toward(own_side, half - size / 2),
{
}

impl Forest {
    /// The node is met first when a place is entered along `entry`: its
    /// near face lies in the plane of the near face of the place, and along
    /// every other axis it has inner points in common with the place.
    pub open spec fn enters(self, place: Cell, entry: Seq<i32>, m: NodeView) -> bool {
        forall|a: int|
            0 <= a < self.dim ==> if entry[a] > 0 {
                #[trigger] m.pos[a] - m.size / 2 == self.cell_low(place, a)
            } else if entry[a] < 0 {
                m.pos[a] + m.size / 2 == self.cell_high(place, a)
            } else {
                m.pos[a] - m.size / 2 < self.cell_high(place, a) && self.cell_low(place, a)
                    < m.pos[a] + m.size / 2
            }
    }

    /// What a walk down from a node finds when the place it leads to lies at
    /// the side of the node by which the search enters it: the leaves at or
    /// below the node that are met first when the place is entered.
    #[verifier::rlimit(40)]
    pub proof fn lemma_edge_search(
        self,
        top: NodeKey,
        steps: Seq<Seq<i32>>,
        entry: Seq<i32>,
        other: NodeKey,
    )
        requires
            self.wf(),
            self.contains(top),
            self.node(top).depth + steps.len() <= MAX_DEPTH,
            forall|i: int|
                0 <= i < steps.len() ==> is_octant(#[trigger] steps[i]) && steps[i].len() == self.dim,
            is_face_direction(entry),
            entry.len() == self.dim,
            ({
                let place = self.walk_down(self.cell(top), steps);
                let axis = first_nonzero(entry);
                let t = self.node(top);
                &&& entry[axis] > 0 ==> self.cell_low(place, axis) == t.pos[axis] - t.size / 2
                &&& entry[axis] < 0 ==> self.cell_high(place, axis) == t.pos[axis] + t.size / 2
            }),
        ensures
            ({
                let place = self.walk_down(self.cell(top), steps);
                let end = self.descent(top, steps);
                let found = if self.node(end).children is None {
                    seq![end]
                } else {
                    self.border_leaves(end, border_sides(entry))
                };
                found.contains(other) <==> self.is_leaf(other) && self.at_or_inside(other, top)
                    && self.enters(place, entry, self.node(other))
            }),
    {
        lemma_face_is_step(entry);
        let place = self.walk_down(self.cell(top), steps);
        let end = self.descent(top, steps);
        let axis = first_nonzero(entry);
        let t = self.node(top);
        let e = self.node(end);
        let m = self.node(other);
        self.lemma_descent_holds_target(top, steps);
        self.lemma_walk_depth(self.cell(top), steps);
        self.lemma_sizes(place.depth);
        assert(self.node_wf(top));
        assert(self.node_wf(end));
        assert forall|a: int| 0 <= a < self.dim implies e.pos[a] - e.size / 2 <= self.cell_low(
            place,
            a,
        ) && self.cell_low(place, a) < self.cell_high(place, a) && self.cell_high(place, a)
            <= e.pos[a] + e.size / 2 && t.pos[a] - t.size / 2 <= e.pos[a] - e.size / 2 && e.pos[a]
            + e.size / 2 <= t.pos[a] + t.size / 2 by {
            self.lemma_cell_box(end, a);
            assert(self.cell_low(self.cell(end), a) <= self.cell_low(place, a) && self.cell_high(
                place,
                a,
            ) <= self.cell_high(self.cell(end), a));
            if end != top {
                assert(t.pos[a] - t.size / 2 <= e.pos[a] - e.size / 2 && e.pos[a] + e.size / 2
                    <= t.pos[a] + t.size / 2);
            }
        }
        let found = if e.children is None {
            seq![end]
        } else {
            self.border_leaves(end, border_sides(entry))
        };
        if found.contains(other) {
            if e.children is None {
                assert(seq![end][0] == end);
                assert(other == end);
                assert(self.enters(place, entry, m)) by {
                    assert forall|a: int| 0 <= a < self.dim implies if entry[a] > 0 {
                        #[trigger] m.pos[a] - m.size / 2 == self.cell_low(place, a)
                    } else if entry[a] < 0 {
                        m.pos[a] + m.size / 2 == self.cell_high(place, a)
                    } else {
                        m.pos[a] - m.size / 2 < self.cell_high(place, a) && self.cell_low(place, a)
                            < m.pos[a] + m.size / 2
                    } by {
                        assert(e.pos[a] - e.size / 2 <= self.cell_low(place, a));
                        if a != axis {
                            assert(entry[a] == 0);
                        }
                    }
                }
            } else {
                self.lemma_border_sound(end, entry, other);
                assert(self.node_wf(other));
                assert(self.cell(end) == place);
                assert forall|a: int| 0 <= a < self.dim implies e.pos[a] - e.size / 2
                    <= #[trigger] m.pos[a] - m.size / 2 && m.pos[a] + m.size / 2 <= e.pos[a] + e.size
                    / 2 by {
                    if other != end {
                        assert(e.pos[a] - e.size / 2 <= m.pos[a] - m.size / 2 && m.pos[a] + m.size
                            / 2 <= e.pos[a] + e.size / 2);
                    }
                }
                if other != top {
                    assert(m.inside(t)) by {
                        assert forall|a: int| 0 <= a < m.pos.len() implies t.pos[a] - t.size / 2
                            <= #[trigger] m.pos[a] - m.size / 2 && m.pos[a] + m.size / 2 <= t.pos[a]
                            + t.size / 2 by {
                            assert(e.pos[a] - e.size / 2 <= m.pos[a] - m.size / 2);
                            assert(t.pos[a] - t.size / 2 <= e.pos[a] - e.size / 2);
                        }
                    }
                }
                assert(self.enters(place, entry, m)) by {
                    assert forall|a: int| 0 <= a < self.dim implies if entry[a] > 0 {
                        #[trigger] m.pos[a] - m.size / 2 == self.cell_low(place, a)
                    } else if entry[a] < 0 {
                        m.pos[a] + m.size / 2 == self.cell_high(place, a)
                    } else {
                        m.pos[a] - m.size / 2 < self.cell_high(place, a) && self.cell_low(place, a)
                            < m.pos[a] + m.size / 2
                    } by {
                        self.lemma_cell_box(end, a);
                        assert(e.pos[a] - e.size / 2 <= m.pos[a] - m.size / 2);
                        assert((entry[a] > 0 ==> m.pos[a] - m.size / 2 == e.pos[a] - e.size / 2) && (
                        entry[a] < 0 ==> m.pos[a] + m.size / 2 == e.pos[a] + e.size / 2));
                    }
                }
            }
        }
        if self.is_leaf(other) && self.at_or_inside(other, top) && self.enters(place, entry, m) {
            assert(self.node_wf(other));
            assert(m.overlaps(e)) by {
                assert forall|a: int| 0 <= a < m.pos.len() implies #[trigger] m.pos[a] - m.size / 2
                    < e.pos[a] + e.size / 2 && e.pos[a] - e.size / 2 < m.pos[a] + m.size / 2 by {
                    assert(e.pos[a] - e.size / 2 <= self.cell_low(place, a));
                    assert(if entry[a] > 0 {
                        m.pos[a] - m.size / 2 == self.cell_low(place, a)
                    } else if entry[a] < 0 {
                        m.pos[a] + m.size / 2 == self.cell_high(place, a)
                    } else {
                        m.pos[a] - m.size / 2 < self.cell_high(place, a) && self.cell_low(place, a)
                            < m.pos[a] + m.size / 2
                    });
                }
            }
            if e.children is None {
                self.law_leaves_apart(other, end);
                assert(seq![end][0] == other);
            } else {
                if m.depth == e.depth {
                    self.lemma_level_unique(other, end);
                } else if m.depth < e.depth {
                    crate::laws::lemma_overlaps_symmetric(m, e);
                    self.lemma_overlap_is_inside(end, other);
                } else {
                    self.lemma_overlap_is_inside(other, end);
                }
                assert(self.cell(end) == place);
                assert(e.near_side(entry, m)) by {
                    assert forall|a: int| 0 <= a < e.pos.len() implies (entry[a] > 0
                        ==> #[trigger] m.pos[a] - m.size / 2 == e.pos[a] - e.size / 2) && (entry[a]
                        < 0 ==> m.pos[a] + m.size / 2 == e.pos[a] + e.size / 2) by {
                        self.lemma_cell_box(end, a);
                        assert(if entry[a] > 0 {
                            m.pos[a] - m.size / 2 == self.cell_low(place, a)
                        } else if entry[a] < 0 {
                            m.pos[a] + m.size / 2 == self.cell_high(place, a)
                        } else {
                            true
                        });
                    }
                }
                self.lemma_border_complete(end, entry, other);
            }
        }
    }
}

impl NodeView {
    /// `other` lies across an edge of the cube from this node, in the
    /// coordinates of the world: the two stand on faces that look along
    /// different axes, each reaches the plane of the face of the other, and
    /// along the edge, the third axis, they have inner points in common.
    pub open spec fn across_edge(self, other: NodeView) -> bool {
        let a = self.direction.axis();
        let b = other.direction.axis();
        let edge = 3 - a - b;
        &&& self.direction != Direction::NoDirection
        &&& other.direction != Direction::NoDirection
        &&& a != b
        &&& other.world_pos[a] + toward(self.direction.side(), other.size / 2) == self.world_pos[a]
        &&& self.world_pos[b] + toward(other.direction.side(), self.size / 2) == other.world_pos[b]
        &&& self.world_pos[edge] - self.size / 2 < other.world_pos[edge] + other.size / 2
        &&& other.world_pos[edge] - other.size / 2 < self.world_pos[edge] + self.size / 2
    }
}

/// Lying across an edge of the cube is mutual.
pub proof fn law_across_edge_is_mutual(a: NodeView, b: NodeView)
    requires
        a.across_edge(b),
    ensures
        b.across_edge(a),
{
}

impl Forest {
    /// What the search finds beyond an edge of a planet: the leaves of the
    /// face beyond the edge that lie across the edge from the node, all of
    /// them and no others.
    #[verifier::rlimit(40)]
    pub proof fn law_neighbors_across_edge(self, key: NodeKey, dir: Seq<i32>, other: NodeKey)
        requires
            self.wf(),
            self.is_planet(),
            self.contains(key),
            is_face_direction(dir),
            dir.len() == self.dim,
            !is_zero(self.ascent(key, dir).left),
        ensures
            self.neighbors(key, dir).contains(other) <==> self.is_leaf(other) && self.node(
                other,
            ).direction == neighbor_face(self.node(key).direction, dir) && self.node(
                key,
            ).across_edge(self.node(other)),
    {
        let face = choose|face: int|
            0 <= face < 2 * dir.len() && dir == #[trigger] face_direction(dir.len(), face);
        lemma_face_is_step(dir);
        self.lemma_crossing_steps(key, face);
        self.lemma_place_beyond_edge(key, face);
        let n = self.node(key);
        let m = self.node(other);
        let from = n.direction;
        let to = face_beyond(from, face);
        let across = face / 2;
        let inward = inward_axis(from, face);
        let found = self.shared_parent(key, dir)->0;
        let top = found.0;
        let steps = found.1;
        let r = self.node(top);
        let place = self.walk_down(self.cell(top), steps);
        let half = self.root_size / 2;
        assert(self.node_wf(key));
        assert(self.node_wf(top));
        self.lemma_on_plane(key);
        self.lemma_root_centre(to);
        self.lemma_sizes(0);
        self.lemma_sizes(n.depth as int);
        lemma_fold_over_edge(from, face, opposite(dir));
        self.lemma_entry_direction(key, top, dir);
        let entry = self.entry_direction(key, top, dir);
        lemma_face_is_step(entry);
        let back = map_from_dir_to_dir_spec(from, to, opposite(dir));
        assert(entry == opposite(back));
        assert(opposite(dir)[across] == -dir[across]);
        assert(opposite(dir)[1 - across] == 0);
        assert(back[inward] == from.side());
        assert(back[1 - inward] == 0);
        assert(entry[inward] == -from.side());
        assert(entry[1 - inward] == 0);
        assert(first_nonzero(entry) == inward);
        assert(self.cell_low(place, inward) == place.pos[inward] - n.size / 2);
        assert(self.cell_high(place, inward) == place.pos[inward] + n.size / 2);
        assert(self.cell_low(place, 1 - inward) == n.pos[1 - across] - n.size / 2);
        assert(self.cell_high(place, 1 - inward) == n.pos[1 - across] + n.size / 2);
        assert(r.pos[inward] == self.cube_centre(from.axis()));
        self.lemma_edge_search(top, steps, entry, other);
        let end = self.descent(top, steps);
        assert(self.neighbors(key, dir) == if self.node(end).children is None {
            seq![end]
        } else {
            self.border_leaves(end, border_sides(entry))
        });
        if self.contains(other) {
            assert(self.node_wf(other));
            self.lemma_on_plane(other);
        }
        if self.is_leaf(other) && self.at_or_inside(other, top) && self.enters(place, entry, m) {
            assert(m.direction == to);
            assert(if entry[inward] > 0 {
                m.pos[inward] - m.size / 2 == self.cell_low(place, inward)
            } else {
                m.pos[inward] + m.size / 2 == self.cell_high(place, inward)
            });
            assert(m.pos[1 - inward] - m.size / 2 < self.cell_high(place, 1 - inward)
                && self.cell_low(place, 1 - inward) < m.pos[1 - inward] + m.size / 2);
            assert(n.across_edge(m));
        }
        if self.is_leaf(other) && m.direction == to && n.across_edge(m) {
            let i = self.lemma_under_root(other);
            assert(self.contains(self.roots[i]));
            assert(self.node(self.roots[i]).direction == Direction::at(i));
            assert(i == to.spec_index());
            assert(self.at_or_inside(other, top));
            assert(self.enters(place, entry, m)) by {
                assert forall|a: int| 0 <= a < self.dim implies if entry[a] > 0 {
                    #[trigger] m.pos[a] - m.size / 2 == self.cell_low(place, a)
                } else if entry[a] < 0 {
                    m.pos[a] + m.size / 2 == self.cell_high(place, a)
                } else {
                    m.pos[a] - m.size / 2 < self.cell_high(place, a) && self.cell_low(place, a)
                        < m.pos[a] + m.size / 2
                } by {
                    if a == inward {
                    } else {
                        assert(a == 1 - inward);
                    }
                }
            }
        }
    }
}

/// The way back across an edge: the opposite of the direction of the
/// search, taken into the coordinates of the face beyond the edge, is the
/// direction of the face of a node there that looks at the face the search
/// came from.
pub proof fn lemma_way_back(from: Direction, face: int)
    requires
        from != Direction::NoDirection,
        0 <= face < 4,
    ensures
        ({
            let to = face_beyond(from, face);
            let back = map_from_dir_to_dir_spec(from, to, opposite(face_direction(2, face)));
            let inward = inward_axis(from, face);
            &&& is_face_direction(back)
            &&& back.len() == 2
            &&& first_nonzero(back) == inward
            &&& back[inward] == from.side()
            &&& neighbor_face(to, back) == from
        }),
{
    let dir = face_direction(2, face);
    let to = face_beyond(from, face);
    let across = face / 2;
    let inward = inward_axis(from, face);
    lemma_fold_over_edge(from, face, opposite(dir));
    let back = map_from_dir_to_dir_spec(from, to, opposite(dir));
    assert(opposite(dir)[across] == -dir[across]);
    assert(opposite(dir)[1 - across] == 0);
    assert(back[inward] == from.side());
    assert(back[1 - inward] == 0);
    let turned = if from.side() > 0 {
        2 * inward + 1
    } else {
        2 * inward
    };
    assert(back =~= face_direction(2, turned));
    assert(back == face_direction(back.len(), turned));
    assert(is_face_direction(back));
    lemma_face_is_step(back);
    assert(first_nonzero(back) == inward);
}

impl Forest {
    /// A node that lies at the edge of its root on the side that a
    /// direction names is left by the search in that direction with
    /// something left of the direction.
    #[verifier::rlimit(40)]
    pub proof fn lemma_edge_means_crossing(self, key: NodeKey, root: NodeKey, dir: Seq<i32>)
        requires
            self.wf(),
            self.contains(key),
            self.contains(root),
            self.node(root).depth == 0,
            self.node(root).direction == self.node(key).direction,
            is_face_direction(dir),
            dir.len() == self.dim,
            ({
                let axis = first_nonzero(dir);
                let n = self.node(key);
                let r = self.node(root);
                n.pos[axis] + toward(dir[axis] as int, n.size / 2) == r.pos[axis] + toward(
                    dir[axis] as int,
                    r.size / 2,
                )
            }),
        ensures
            !is_zero(self.ascent(key, dir).left),
    {
        lemma_face_is_step(dir);
        self.lemma_ascent_leads_back(key, dir);
        let climb = self.ascent(key, dir);
        let top = climb.top;
        let axis = first_nonzero(dir);
        let n = self.node(key);
        let r = self.node(root);
        let t = self.node(top);
        assert(self.node_wf(key));
        assert(self.node_wf(root));
        assert(self.node_wf(top));
        if is_zero(climb.left) {
            self.lemma_shifted_by_zero(top, climb.left);
            let v = self.shifted(self.cell(key), dir);
            self.lemma_walk_within(self.cell(top), climb.descents);
            self.lemma_virtual_box(key, dir, axis);
            self.lemma_cell_box(top, axis);
            assert(self.cell_low(self.cell(top), axis) <= self.cell_low(v, axis) && self.cell_high(
                v,
                axis,
            ) <= self.cell_high(self.cell(top), axis));
            let i = self.lemma_under_root(top);
            assert(self.contains(self.roots[i]));
            assert(self.node_wf(self.roots[i]));
            self.lemma_roots_unique(self.roots[i], root);
            if top != root {
                assert(r.pos[axis] - r.size / 2 <= t.pos[axis] - t.size / 2 && t.pos[axis] + t.size
                    / 2 <= r.pos[axis] + r.size / 2);
            }
            assert(false);
        }
    }

    /// The direction in which a leaf that a search has found sees the node
    /// the search began at: the opposite of the direction of the search, on
    /// a planet taken into the coordinates of the face of the leaf.
    pub open spec fn way_back(self, key: NodeKey, dir: Seq<i32>, other: NodeKey) -> Seq<i32> {
        if self.is_planet() {
            map_from_dir_to_dir_spec(
                self.node(key).direction,
                self.node(other).direction,
                opposite(dir),
            )
        } else {
            opposite(dir)
        }
    }

    /// A node that lies across an edge of the cube from another lies at the
    /// edge of the root of its face, on the side of the face of the other.
    #[verifier::rlimit(40)]
    pub proof fn lemma_across_edge_at_root(self, key: NodeKey, other: NodeKey)
        requires
            self.wf(),
            self.is_planet(),
            self.contains(key),
            self.contains(other),
            self.node(key).across_edge(self.node(other)),
        ensures
            ({
                let n = self.node(key);
                let m = self.node(other);
                let inward = local_axis(m.direction, n.direction.axis());
                let root = self.roots[m.direction.spec_index() as int];
                &&& self.contains(root)
                &&& self.node(root).depth == 0
                &&& self.node(root).direction == m.direction
                &&& 0 <= inward < 2
                &&& m.pos[inward] + toward(n.direction.side(), m.size / 2) == self.node(
                    root,
                ).pos[inward] + toward(n.direction.side(), self.node(root).size / 2)
            }),
    {
        self.lemma_on_plane(key);
        self.lemma_on_plane(other);
        self.lemma_root_centre(self.node(other).direction);
        self.lemma_sizes(0);
        let n = self.node(key);
        let m = self.node(other);
        let a = n.direction.axis();
        let inward = local_axis(m.direction, a);
        let root = self.node(self.roots[m.direction.spec_index() as int]);
        assert(m.direction.world_axis(inward) == a);
        assert(m.pos[inward] == m.world_pos[a]);
        assert(root.pos[inward] == self.cube_centre(a));
        assert(root.size == self.root_size);
        assert(n.world_pos[a] == self.cube_centre(a) + toward(
            n.direction.side(),
            self.root_size / 2,
        ));
        assert(m.world_pos[a] + toward(n.direction.side(), m.size / 2) == n.world_pos[a]);
    }

    /// Neighbour symmetry across an edge of a planet: a leaf that the search
    /// finds beyond an edge finds the leaf the search began at when it
    /// searches in the direction that leads back across that edge.
    #[verifier::rlimit(40)]
    pub proof fn lemma_symmetry_over_edge(self, key: NodeKey, dir: Seq<i32>, other: NodeKey)
        requires
            self.wf(),
            self.is_planet(),
            self.is_leaf(key),
            is_face_direction(dir),
            dir.len() == self.dim,
            !is_zero(self.ascent(key, dir).left),
            self.neighbors(key, dir).contains(other),
        ensures
            is_face_direction(self.way_back(key, dir, other)),
            self.way_back(key, dir, other).len() == self.dim,
            self.neighbors(other, self.way_back(key, dir, other)).contains(key),
    {
        let face = choose|face: int|
            0 <= face < 2 * dir.len() && dir == #[trigger] face_direction(dir.len(), face);
        self.law_neighbors_across_edge(key, dir, other);
        let n = self.node(key);
        let m = self.node(other);
        let from = n.direction;
        let to = face_beyond(from, face);
        assert(m.direction == to);
        lemma_way_back(from, face);
        let back = self.way_back(key, dir, other);
        assert(back == map_from_dir_to_dir_spec(from, to, opposite(dir)));
        self.lemma_across_edge_at_root(key, other);
        let root = self.roots[to.spec_index() as int];
        self.lemma_edge_means_crossing(other, root, back);
        law_across_edge_is_mutual(n, m);
        self.law_neighbors_across_edge(other, back, key);
    }

    /// Neighbour symmetry: a leaf that the search finds across a face of a
    /// leaf finds that leaf when it searches the way back, on one face and
    /// across an edge of a planet alike.
    #[verifier::rlimit(40)]
    pub proof fn law_neighbor_symmetry(self, key: NodeKey, dir: Seq<i32>, other: NodeKey)
        requires
            self.wf(),
            self.is_leaf(key),
            is_face_direction(dir),
            dir.len() == self.dim,
            self.neighbors(key, dir).contains(other),
        ensures
            is_face_direction(self.way_back(key, dir, other)),
            self.neighbors(other, self.way_back(key, dir, other)).contains(key),
    {
        if self.is_planet() && !is_zero(self.ascent(key, dir).left) {
            self.lemma_symmetry_over_edge(key, dir, other);
        } else {
            self.lemma_symmetry_on_face(key, dir, other);
            self.law_neighbors_are_leaves_across(key, dir, other);
            assert(self.node(other).direction == self.node(key).direction);
            assert(self.way_back(key, dir, other) =~= opposite(dir));
        }
    }
}

impl Forest {
    /// A leaf that a search from a node finds is another node.
    pub proof fn lemma_found_is_other(self, key: NodeKey, dir: Seq<i32>, other: NodeKey)
        requires
            self.wf(),
            self.contains(key),
            is_face_direction(dir),
            dir.len() == self.dim,
            self.neighbors(key, dir).contains(other),
        ensures
            other != key,
            self.is_leaf(other),
    {
        lemma_face_is_step(dir);
        assert(self.node_wf(key));
        if self.is_planet() && !is_zero(self.ascent(key, dir).left) {
            self.law_crossing_reaches_next_face(key, dir, other);
        } else {
            self.law_neighbors_are_leaves_across(key, dir, other);
            let n = self.node(key);
            let axis = first_nonzero(dir);
            if other == key {
                assert(if dir[axis] > 0 {
                    n.pos[axis] - n.size / 2 == n.pos[axis] + n.size / 2
                } else {
                    n.pos[axis] + n.size / 2 == n.pos[axis] - n.size / 2
                });
            }
        }
    }

    /// Neighbour-size freshness on the far side: after the sizes around a
    /// node have been brought up to date, every leaf that the search finds
    /// across a face of the node holds, for its face that looks back at the
    /// node, the larger of its own size and the size of the node.
    #[verifier::rlimit(40)]
    pub proof fn law_fresh_back_slot(self, key: NodeKey, face: int, other: NodeKey)
        requires
            self.wf(),
            self.contains(key),
            0 <= face < 2 * self.dim,
            self.face_neighbors(key, face).contains(other),
        ensures
            0 <= self.back_face(key, other, face) < 2 * self.dim,
            self.with_neighbor_sizes(key).node(other).neighbor_sizes[self.back_face(
                key,
                other,
                face,
            )] == crate::sizes::larger_size(
                self.node(other).size as int,
                self.node(key).size as int,
            ),
    {
        let dir = face_direction(self.dim, face);
        assert(dir == face_direction(dir.len(), face));
        assert(is_face_direction(dir));
        self.lemma_found_is_other(key, dir, other);
        self.lemma_back_face(key, other, face);
        let back = self.back_face(key, other, face);
        let faces = 2 * self.dim as int;
        let none = Seq::<NodeKey>::empty();
        assert(self.node_wf(key));
        assert(self.node_wf(other));
        assert(self.looks_back(key, other, back, faces, none));
        reveal(Forest::neighbors_corrected);
        reveal(Forest::slot_corrected);
        let corrected = self.neighbors_corrected(key, faces, none);
        assert(corrected.node(other).neighbor_sizes[back] == self.slot_corrected(
            key,
            other,
            back,
            faces,
            none,
        ));
        let m = self.node(other);
        assert(m.neighbor_sizes[back] == crate::fixed::UNKNOWN_SIZE || m.neighbor_sizes[back]
            >= m.size);
    }
}

impl Forest {
    /// The slot that a search corrects on a leaf it has found stands for
    /// the face through which that leaf finds the leaf the search began at.
    #[verifier::rlimit(40)]
    pub proof fn law_back_slot_looks_back(self, key: NodeKey, face: int, other: NodeKey)
        requires
            self.wf(),
            self.is_leaf(key),
            0 <= face < 2 * self.dim,
            self.face_neighbors(key, face).contains(other),
        ensures
            0 <= self.back_face(key, other, face) < 2 * self.dim,
            self.face_neighbors(other, self.back_face(key, other, face)).contains(key),
    {
        let dir = face_direction(self.dim, face);
        assert(dir == face_direction(dir.len(), face));
        assert(is_face_direction(dir));
        self.lemma_found_is_other(key, dir, other);
        self.lemma_back_face(key, other, face);
        self.law_neighbor_symmetry(key, dir, other);
        let back = self.back_direction(key, other, face);
        assert(back == self.way_back(key, dir, other));
        let seen = choose|seen: int|
            0 <= seen < 2 * back.len() && back == #[trigger] face_direction(back.len(), seen);
        crate::node_traits::lemma_face_weight_sum_of_face(self.dim, seen);
    }
}

impl Forest {
    /// The root that a node stands at or below: the root of its face on a
    /// planet, the one root in any other tree.
    pub open spec fn root_of(self, key: NodeKey) -> NodeKey {
        if self.is_planet() {
            self.roots[self.node(key).direction.spec_index() as int]
        } else {
            self.roots[0]
        }
    }

    /// When a search leaves the root: the climb in the direction of a face
    /// ends with something left of the direction exactly if the node lies at
    /// the edge of its root on the side of that face.
    #[verifier::rlimit(40)]
    pub proof fn law_climb_ends_at_edge(self, key: NodeKey, dir: Seq<i32>)
        requires
            self.wf(),
            self.contains(key),
            is_face_direction(dir),
            dir.len() == self.dim,
        ensures
            self.contains(self.root_of(key)),
            self.at_or_inside(key, self.root_of(key)),
            ({
                let axis = first_nonzero(dir);
                let n = self.node(key);
                let r = self.node(self.root_of(key));
                !is_zero(self.ascent(key, dir).left) <==> n.pos[axis] + toward(
                    dir[axis] as int,
                    n.size / 2,
                ) == r.pos[axis] + toward(dir[axis] as int, r.size / 2)
            }),
    {
        lemma_face_is_step(dir);
        assert(self.node_wf(key));
        let i = self.lemma_under_root(key);
        assert(self.contains(self.roots[i]));
        assert(self.node_wf(self.roots[i]));
        let root = self.root_of(key);
        assert(root == self.roots[i]);
        if !is_zero(self.ascent(key, dir).left) {
            self.lemma_at_edge(key, dir);
            self.lemma_roots_unique(self.ascent(key, dir).top, root);
        } else {
            let axis = first_nonzero(dir);
            let n = self.node(key);
            let r = self.node(root);
            if n.pos[axis] + toward(dir[axis] as int, n.size / 2) == r.pos[axis] + toward(
                dir[axis] as int,
                r.size / 2,
            ) {
                self.lemma_edge_means_crossing(key, root, dir);
            }
        }
    }
}

} // verus!
