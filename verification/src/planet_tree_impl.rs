//! The six faces of the planet-tree and the moves between them.
//!
//! Every face carries a quad-tree in coordinates of its own. The face that
//! looks along the x axis has the world's y and z as its two local axes, the
//! face along y has x and z, the face along z has x and y.

use vstd::prelude::*;
use vstd::std_specs::convert::FromSpecImpl;
use crate::arena::{arena_insert, arena_new, NodeKey};
use crate::fixed::{fixed, to_fixed, COORD_LIMIT, ONE};
use crate::forest::{toward, Forest};
use crate::node_traits::{
    face_direction, is_face_direction, neighbor_dir_from_index, neighbor_index,
};
use crate::ntree::NTree;
use crate::tree_node::TreeNode;
use crate::tree_traits::{TreeError, TreeEvent};

verus! {

/// A face of the cube, named by the axis it looks along and the side it is
/// on. `NoDirection` is the tag of a node that lies on no face.
#[derive(Debug, Clone, Copy, PartialEq, Eq, PartialOrd, Ord, Structural)]
pub enum Direction {
    XNeg,
    XPos,
    YNeg,
    YPos,
    ZNeg,
    ZPos,
    NoDirection,
}

/// How the steps of a descent change when a search passes from one face to
/// another.
#[derive(Debug, Copy, Clone, PartialEq, Eq, Structural)]
pub enum NeighborTransform {
    /// The component on `axis` changes its sign.
    Mirror { axis: usize },
    /// A quarter turn.
    Rotate { clockwise: bool },
    /// A quarter turn, then the component on `axis` changes its sign.
    RotateMirror { clockwise: bool, axis: usize },
    /// Nothing changes.
    Identity,
}

impl Direction {
    /// The place of the face among the six: `XNeg` is 0, `ZPos` is 5, and
    /// `NoDirection` is 6.
    pub open spec fn spec_index(self) -> nat {
        match self {
            Direction::XNeg => 0,
            Direction::XPos => 1,
            Direction::YNeg => 2,
            Direction::YPos => 3,
            Direction::ZNeg => 4,
            Direction::ZPos => 5,
            Direction::NoDirection => 6,
        }
    }

    /// The world axis that the face looks along.
    pub open spec fn axis(self) -> int {
        (self.spec_index() / 2) as int
    }

    /// The side of its axis that the face lies on: `1` for the high side,
    /// `-1` for the low side.
    pub open spec fn side(self) -> int {
        if self.spec_index() % 2 == 1 {
            1
        } else {
            -1
        }
    }

    /// The face on the given world axis, on its high or low side.
    pub open spec fn on_axis(axis: int, positive: bool) -> Direction {
        Direction::at(
            if positive {
                2 * axis + 1
            } else {
                2 * axis
            },
        )
    }

    /// The face at place `i` among the six, `NoDirection` for any other `i`.
    pub open spec fn at(i: int) -> Direction {
        if i == 0 {
            Direction::XNeg
        } else if i == 1 {
            Direction::XPos
        } else if i == 2 {
            Direction::YNeg
        } else if i == 3 {
            Direction::YPos
        } else if i == 4 {
            Direction::ZNeg
        } else if i == 5 {
            Direction::ZPos
        } else {
            Direction::NoDirection
        }
    }

    /// The world axis that local axis `local` of this face runs along.
    pub open spec fn world_axis(self, local: int) -> int {
        if local < self.axis() {
            local
        } else {
            local + 1
        }
    }

    pub fn index(self) -> (i: usize)
        ensures
            i == self.spec_index(),
    {
        match self {
            Direction::XNeg => 0,
            Direction::XPos => 1,
            Direction::YNeg => 2,
            Direction::YPos => 3,
            Direction::ZNeg => 4,
            Direction::ZPos => 5,
            Direction::NoDirection => 6,
        }
    }

    /// The unit vector that the face looks along, zero for `NoDirection`.
    pub fn unit_vector(self) -> (v: [i32; 3])
        ensures
            v@ == if self == Direction::NoDirection {
                seq![0i32, 0i32, 0i32]
            } else {
                face_direction(3, self.spec_index() as int)
            },
    {
        let v: [i32; 3] = match self {
            Direction::XPos => [1, 0, 0],
            Direction::XNeg => [-1, 0, 0],
            Direction::YPos => [0, 1, 0],
            Direction::YNeg => [0, -1, 0],
            Direction::ZPos => [0, 0, 1],
            Direction::ZNeg => [0, 0, -1],
            Direction::NoDirection => [0, 0, 0],
        };
        assert(self != Direction::NoDirection ==> v@ =~= face_direction(
            3,
            self.spec_index() as int,
        ));
        assert(self == Direction::NoDirection ==> v@ =~= seq![0i32, 0i32, 0i32]);
        v
    }
}

impl From<usize> for Direction {
    fn from(v: usize) -> (d: Direction) {
        if v == 0 {
            Direction::XNeg
        } else if v == 1 {
            Direction::XPos
        } else if v == 2 {
            Direction::YNeg
        } else if v == 3 {
            Direction::YPos
        } else if v == 4 {
            Direction::ZNeg
        } else if v == 5 {
            Direction::ZPos
        } else {
            Direction::NoDirection
        }
    }
}

impl FromSpecImpl<usize> for Direction {
    open spec fn obeys_from_spec() -> bool {
        true
    }

    open spec fn from_spec(v: usize) -> Direction {
        Direction::at(v as int)
    }
}

/// The face that a vector of three components names, if it is the unit
/// vector of one.
pub open spec fn direction_of_vector(v: Seq<i32>) -> Direction {
    if v == face_direction(3, 0) {
        Direction::XNeg
    } else if v == face_direction(3, 1) {
        Direction::XPos
    } else if v == face_direction(3, 2) {
        Direction::YNeg
    } else if v == face_direction(3, 3) {
        Direction::YPos
    } else if v == face_direction(3, 4) {
        Direction::ZNeg
    } else if v == face_direction(3, 5) {
        Direction::ZPos
    } else {
        Direction::NoDirection
    }
}

impl From<[i32; 3]> for Direction {
    fn from(v: [i32; 3]) -> (d: Direction) {
        proof {
            assert forall|i: int| 0 <= i < 6 implies (v@ == #[trigger] face_direction(3, i)) == (
            v[i / 2] == (if i % 2 == 0 {
                -1i32
            } else {
                1i32
            }) && forall|b: int| 0 <= b < 3 && b != i / 2 ==> v[b] == 0) by {
                let f = face_direction(3, i);
                if v@ == f {
                    assert(forall|b: int| 0 <= b < 3 ==> v[b] == f[b]);
                } else if v[i / 2] == f[i / 2] && forall|b: int|
                    0 <= b < 3 && b != i / 2 ==> v[b] == 0 {
                    assert(v@ =~= f);
                }
            }
        }
        let x: i32 = v[0];
        let y: i32 = v[1];
        let z: i32 = v[2];
        if x == -1 && y == 0 && z == 0 {
            Direction::XNeg
        } else if x == 1 && y == 0 && z == 0 {
            Direction::XPos
        } else if x == 0 && y == -1 && z == 0 {
            Direction::YNeg
        } else if x == 0 && y == 1 && z == 0 {
            Direction::YPos
        } else if x == 0 && y == 0 && z == -1 {
            Direction::ZNeg
        } else if x == 0 && y == 0 && z == 1 {
            Direction::ZPos
        } else {
            Direction::NoDirection
        }
    }
}

impl FromSpecImpl<[i32; 3]> for Direction {
    open spec fn obeys_from_spec() -> bool {
        true
    }

    open spec fn from_spec(v: [i32; 3]) -> Direction {
        direction_of_vector(v@)
    }
}

/// The face that is reached by leaving `from` in the local direction `dir`.
/// The first component of `dir` that is `-1` or `1` decides: the face lies on
/// the world axis that this local axis runs along, on the side that the sign
/// gives. Leaving `NoDirection`, or leaving in no direction, reaches
/// `NoDirection`.
pub open spec fn neighbor_face(from: Direction, dir: Seq<i32>) -> Direction {
    if from == Direction::NoDirection {
        Direction::NoDirection
    } else if dir[0] == -1 || dir[0] == 1 {
        Direction::on_axis(from.world_axis(0), dir[0] == 1)
    } else if dir[1] == -1 || dir[1] == 1 {
        Direction::on_axis(from.world_axis(1), dir[1] == 1)
    } else {
        Direction::NoDirection
    }
}

/// The change of local coordinates between two faces.
pub open spec fn face_transform(from: Direction, to: Direction) -> NeighborTransform {
    match (from, to) {
        (Direction::XPos, Direction::XNeg) => NeighborTransform::Mirror { axis: 0 },
        (Direction::XPos, Direction::YPos) => NeighborTransform::Mirror { axis: 0 },
        (Direction::XPos, Direction::ZNeg) => NeighborTransform::RotateMirror {
            clockwise: true,
            axis: 1,
        },
        (Direction::XPos, Direction::ZPos) => NeighborTransform::Rotate { clockwise: false },
        (Direction::XNeg, Direction::XPos) => NeighborTransform::Mirror { axis: 0 },
        (Direction::XNeg, Direction::YNeg) => NeighborTransform::Mirror { axis: 0 },
        (Direction::XNeg, Direction::ZNeg) => NeighborTransform::Rotate { clockwise: false },
        (Direction::XNeg, Direction::ZPos) => NeighborTransform::RotateMirror {
            clockwise: true,
            axis: 1,
        },
        (Direction::YPos, Direction::XPos) => NeighborTransform::Mirror { axis: 0 },
        (Direction::YPos, Direction::YNeg) => NeighborTransform::Mirror { axis: 1 },
        (Direction::YPos, Direction::ZPos) => NeighborTransform::Mirror { axis: 1 },
        (Direction::YNeg, Direction::XNeg) => NeighborTransform::Mirror { axis: 0 },
        (Direction::YNeg, Direction::YPos) => NeighborTransform::Mirror { axis: 1 },
        (Direction::YNeg, Direction::ZNeg) => NeighborTransform::Mirror { axis: 1 },
        (Direction::ZPos, Direction::XNeg) => NeighborTransform::RotateMirror {
            clockwise: true,
            axis: 1,
        },
        (Direction::ZPos, Direction::XPos) => NeighborTransform::Rotate { clockwise: true },
        (Direction::ZPos, Direction::YPos) => NeighborTransform::Mirror { axis: 1 },
        (Direction::ZPos, Direction::ZNeg) => NeighborTransform::Mirror { axis: 1 },
        (Direction::ZNeg, Direction::XNeg) => NeighborTransform::Rotate { clockwise: true },
        (Direction::ZNeg, Direction::XPos) => NeighborTransform::RotateMirror {
            clockwise: true,
            axis: 1,
        },
        (Direction::ZNeg, Direction::YNeg) => NeighborTransform::Mirror { axis: 1 },
        (Direction::ZNeg, Direction::ZPos) => NeighborTransform::Mirror { axis: 1 },
        _ => NeighborTransform::Identity,
    }
}

/// A quarter turn of a vector in the plane: the two components change places,
/// and the one that ends up second (clockwise) or first (counter-clockwise)
/// changes its sign.
pub open spec fn rotated(clockwise: bool, v: Seq<i32>) -> Seq<i32> {
    if clockwise {
        seq![v[1], (-v[0]) as i32]
    } else {
        seq![(-v[1]) as i32, v[0]]
    }
}

/// The vector with the sign of one component changed.
pub open spec fn mirrored(axis: int, v: Seq<i32>) -> Seq<i32> {
    v.update(axis, (-v[axis]) as i32)
}

/// What a transform makes of a vector in the plane.
pub open spec fn transformed(t: NeighborTransform, v: Seq<i32>) -> Seq<i32> {
    match t {
        NeighborTransform::Mirror { axis } => mirrored(axis as int, v),
        NeighborTransform::Rotate { clockwise } => rotated(clockwise, v),
        NeighborTransform::RotateMirror { clockwise, axis } => mirrored(
            axis as int,
            rotated(clockwise, v),
        ),
        NeighborTransform::Identity => v,
    }
}

/// A vector in the plane whose components can change their sign.
pub open spec fn negatable(v: Seq<i32>) -> bool {
    v.len() == 2 && v[0] > i32::MIN && v[1] > i32::MIN
}

/// The local coordinates of a point of the world on a face: its coordinates
/// along the two world axes that the face does not look along.
pub open spec fn local_of_world(dir: Direction, pos: Seq<i128>) -> Seq<i128> {
    if dir == Direction::NoDirection {
        seq![0i128, 0i128]
    } else {
        seq![pos[dir.world_axis(0)], pos[dir.world_axis(1)]]
    }
}

/// The point of the world whose local coordinates on a face are `pos`, and
/// whose coordinate along the axis of the face is that of `world_pos`.
pub open spec fn world_of_local(dir: Direction, pos: Seq<i128>, world_pos: Seq<i128>) -> Seq<i128> {
    if dir == Direction::NoDirection {
        world_pos
    } else {
        world_pos.update(dir.world_axis(0), pos[0]).update(dir.world_axis(1), pos[1])
    }
}

pub fn map_from_dir_and_world_pos(dir: Direction, pos: [i128; 3]) -> (local: [i128; 2])
    ensures
        local@ == local_of_world(dir, pos@),
{
    let local: [i128; 2] = match dir {
        Direction::XPos => [pos[1], pos[2]],
        Direction::XNeg => [pos[1], pos[2]],
        Direction::YPos => [pos[0], pos[2]],
        Direction::YNeg => [pos[0], pos[2]],
        Direction::ZPos => [pos[0], pos[1]],
        Direction::ZNeg => [pos[0], pos[1]],
        Direction::NoDirection => [0, 0],
    };
    assert(local@ =~= local_of_world(dir, pos@));
    local
}

pub fn map_from_dir_and_local_pos(dir: Direction, pos: [i128; 2], world_pos: [i128; 3]) -> (out: [
    i128;
    3
])
    ensures
        out@ == world_of_local(dir, pos@, world_pos@),
{
    let mut out: [i128; 3] = world_pos;
    match dir {
        Direction::XPos | Direction::XNeg => {
            out[1] = pos[0];
            out[2] = pos[1];
        },
        Direction::YPos | Direction::YNeg => {
            out[0] = pos[0];
            out[2] = pos[1];
        },
        Direction::ZPos | Direction::ZNeg => {
            out[0] = pos[0];
            out[1] = pos[1];
        },
        Direction::NoDirection => {},
    }
    assert(out@ =~= world_of_local(dir, pos@, world_pos@));
    out
}

/// The face next to `from_dir` in the local direction `dir`, and the change
/// of coordinates on the way there.
pub fn map_to_neighbor(from_dir: Direction, dir: [i32; 2]) -> (r: (Direction, NeighborTransform))
    ensures
        r.0 == neighbor_face(from_dir, dir@),
        r.1 == face_transform(from_dir, r.0),
{
    let first: i32 = dir[0];
    let second: i32 = dir[1];
    let to_dir = match from_dir {
        Direction::XPos | Direction::XNeg => {
            if first == -1 {
                Direction::YNeg
            } else if first == 1 {
                Direction::YPos
            } else if second == -1 {
                Direction::ZNeg
            } else if second == 1 {
                Direction::ZPos
            } else {
                Direction::NoDirection
            }
        },
        Direction::YPos | Direction::YNeg => {
            if first == -1 {
                Direction::XNeg
            } else if first == 1 {
                Direction::XPos
            } else if second == -1 {
                Direction::ZNeg
            } else if second == 1 {
                Direction::ZPos
            } else {
                Direction::NoDirection
            }
        },
        Direction::ZPos | Direction::ZNeg => {
            if first == -1 {
                Direction::XNeg
            } else if first == 1 {
                Direction::XPos
            } else if second == -1 {
                Direction::YNeg
            } else if second == 1 {
                Direction::YPos
            } else {
                Direction::NoDirection
            }
        },
        Direction::NoDirection => Direction::NoDirection,
    };
    (to_dir, transform_from_dir_to_dir(from_dir, to_dir))
}

/// The face index that face `index` of a node on `from_dir` has in the
/// coordinates of `to_dir`.
pub fn map_neighbor_index(from_dir: Direction, to_dir: Direction, index: usize) -> (r: usize)
    requires
        index < 4,
    ensures
        r < 4,
        face_direction(2, r as int) == map_from_dir_to_dir_spec(
            from_dir,
            to_dir,
            face_direction(2, index as int),
        ),
{
    let dir = neighbor_dir_from_index::<2>(index);
    let new_dir = map_from_dir_to_dir(from_dir, to_dir, dir);
    proof {
        lemma_transform_keeps_faces(from_dir, to_dir, index as int);
    }
    let r = neighbor_index(new_dir);
    r.unwrap()
}

/// What the change of coordinates from `from_dir` to `to_dir` makes of a
/// vector.
pub open spec fn map_from_dir_to_dir_spec(from_dir: Direction, to_dir: Direction, dir: Seq<i32>) -> Seq<
    i32,
> {
    transformed(face_transform(from_dir, to_dir), dir)
}

/// The components whose sign a transform changes on the way have a
/// negative in the machine's range.
pub open spec fn fits_transform(t: NeighborTransform, v: Seq<i32>) -> bool {
    match t {
        NeighborTransform::Mirror { axis } => axis < 2 ==> v[axis as int] > i32::MIN,
        NeighborTransform::Rotate { clockwise } => if clockwise {
            v[0] > i32::MIN
        } else {
            v[1] > i32::MIN
        },
        NeighborTransform::RotateMirror { clockwise, axis } => (if clockwise {
            v[0] > i32::MIN
        } else {
            v[1] > i32::MIN
        }) && (axis < 2 ==> rotated(clockwise, v)[axis as int] > i32::MIN),
        NeighborTransform::Identity => true,
    }
}

/// Takes a vector in the plane of one face into the coordinates of another
/// face: see [`face_transform`].
pub fn map_from_dir_to_dir(from_dir: Direction, to_dir: Direction, dir: [i32; 2]) -> (out: [i32; 2])
    requires
        fits_transform(face_transform(from_dir, to_dir), dir@),
    ensures
        out@ == map_from_dir_to_dir_spec(from_dir, to_dir, dir@),
        negatable(dir@) ==> negatable(out@),
{
    if from_dir != to_dir {
        match transform_from_dir_to_dir(from_dir, to_dir) {
            NeighborTransform::Mirror { axis } => mirror(axis, dir),
            NeighborTransform::Rotate { clockwise } => simple_rotate(clockwise, dir),
            NeighborTransform::RotateMirror { clockwise, axis } => mirror(
                axis,
                simple_rotate(clockwise, dir),
            ),
            NeighborTransform::Identity => dir,
        }
    } else {
        dir
    }
}

pub fn transform_from_dir_to_dir(from_dir: Direction, to_dir: Direction) -> (t: NeighborTransform)
    ensures
        t == face_transform(from_dir, to_dir),
        t matches NeighborTransform::Mirror { axis } ==> axis < 2,
        t matches NeighborTransform::RotateMirror { axis, .. } ==> axis < 2,
{
    match from_dir {
        Direction::XPos => match to_dir {
            Direction::XNeg => NeighborTransform::Mirror { axis: 0 },
            Direction::YPos => NeighborTransform::Mirror { axis: 0 },
            Direction::ZNeg => NeighborTransform::RotateMirror { clockwise: true, axis: 1 },
            Direction::ZPos => NeighborTransform::Rotate { clockwise: false },
            _ => NeighborTransform::Identity,
        },
        Direction::XNeg => match to_dir {
            Direction::XPos => NeighborTransform::Mirror { axis: 0 },
            Direction::YNeg => NeighborTransform::Mirror { axis: 0 },
            Direction::ZNeg => NeighborTransform::Rotate { clockwise: false },
            Direction::ZPos => NeighborTransform::RotateMirror { clockwise: true, axis: 1 },
            _ => NeighborTransform::Identity,
        },
        Direction::YPos => match to_dir {
            Direction::XPos => NeighborTransform::Mirror { axis: 0 },
            Direction::YNeg => NeighborTransform::Mirror { axis: 1 },
            Direction::ZPos => NeighborTransform::Mirror { axis: 1 },
            _ => NeighborTransform::Identity,
        },
        Direction::YNeg => match to_dir {
            Direction::XNeg => NeighborTransform::Mirror { axis: 0 },
            Direction::YPos => NeighborTransform::Mirror { axis: 1 },
            Direction::ZNeg => NeighborTransform::Mirror { axis: 1 },
            _ => NeighborTransform::Identity,
        },
        Direction::ZPos => match to_dir {
            Direction::XNeg => NeighborTransform::RotateMirror { clockwise: true, axis: 1 },
            Direction::XPos => NeighborTransform::Rotate { clockwise: true },
            Direction::YPos => NeighborTransform::Mirror { axis: 1 },
            Direction::ZNeg => NeighborTransform::Mirror { axis: 1 },
            _ => NeighborTransform::Identity,
        },
        Direction::ZNeg => match to_dir {
            Direction::XNeg => NeighborTransform::Rotate { clockwise: true },
            Direction::XPos => NeighborTransform::RotateMirror { clockwise: true, axis: 1 },
            Direction::YNeg => NeighborTransform::Mirror { axis: 1 },
            Direction::ZPos => NeighborTransform::Mirror { axis: 1 },
            _ => NeighborTransform::Identity,
        },
        Direction::NoDirection => NeighborTransform::Identity,
    }
}

/// Turns a vector in the plane by a quarter. The turn changes the sign of
/// one component, which has to have a negative in the machine's range.
pub fn simple_rotate(clockwise: bool, coord: [i32; 2]) -> (out: [i32; 2])
    requires
        clockwise ==> coord[0] > i32::MIN,
        !clockwise ==> coord[1] > i32::MIN,
    ensures
        out@ == rotated(clockwise, coord@),
        negatable(coord@) ==> negatable(out@),
{
    let out: [i32; 2] = if clockwise {
        [coord[1], -coord[0]]
    } else {
        [-coord[1], coord[0]]
    };
    assert(out@ =~= rotated(clockwise, coord@));
    out
}

/// Changes the sign of one component of a vector in the plane, which has to
/// have a negative in the machine's range.
pub fn mirror(index: usize, coord: [i32; 2]) -> (out: [i32; 2])
    requires
        index < 2,
        coord[index as int] > i32::MIN,
    ensures
        out@ == mirrored(index as int, coord@),
        negatable(coord@) ==> negatable(out@),
{
    let mut out: [i32; 2] = coord;
    out[index] = -coord[index];
    out
}

/// Going to another face and back leaves every vector as it was: what a
/// search sees across an edge of the cube, the search back sees the same way.
pub proof fn law_transform_round_trip(from_dir: Direction, to_dir: Direction, dir: Seq<i32>)
    requires
        negatable(dir),
    ensures
        map_from_dir_to_dir_spec(to_dir, from_dir, map_from_dir_to_dir_spec(from_dir, to_dir, dir))
            == dir,
{
    let there = map_from_dir_to_dir_spec(from_dir, to_dir, dir);
    let back = map_from_dir_to_dir_spec(to_dir, from_dir, there);
    assert(back =~= dir);
}

/// The face across an edge of a face is another face.
pub proof fn lemma_next_face_differs(from: Direction, left: Seq<i32>)
    requires
        from != Direction::NoDirection,
        left.len() == 2,
        left[0] == 1 || left[0] == -1 || left[1] == 1 || left[1] == -1,
    ensures
        neighbor_face(from, left) != from,
        neighbor_face(from, left) != Direction::NoDirection,
        neighbor_face(from, left).spec_index() < 6,
{
}

/// A change of coordinates takes a vector of signs to a vector of signs.
pub proof fn lemma_transformed_signs(t: NeighborTransform, v: Seq<i32>)
    requires
        v.len() == 2,
        v[0] == 1 || v[0] == -1,
        v[1] == 1 || v[1] == -1,
        t matches NeighborTransform::Mirror { axis } ==> axis < 2,
        t matches NeighborTransform::RotateMirror { axis, .. } ==> axis < 2,
    ensures
        transformed(t, v).len() == 2,
        transformed(t, v)[0] == 1 || transformed(t, v)[0] == -1,
        transformed(t, v)[1] == 1 || transformed(t, v)[1] == -1,
{
}

/// The axis of a mirror between two faces is one of the two axes of the
/// plane.
pub proof fn lemma_face_transform_axis(from: Direction, to: Direction)
    ensures
        face_transform(from, to) matches NeighborTransform::Mirror { axis } ==> axis < 2,
        face_transform(from, to) matches NeighborTransform::RotateMirror { axis, .. } ==> axis < 2,
{
}

/// A change of coordinates takes the vector of a face to the vector of a
/// face.
pub proof fn lemma_transform_keeps_faces(from_dir: Direction, to_dir: Direction, index: int)
    requires
        0 <= index < 4,
    ensures
        exists|r: int|
            0 <= r < 4 && #[trigger] face_direction(2, r) == map_from_dir_to_dir_spec(
                from_dir,
                to_dir,
                face_direction(2, index),
            ),
{
    let v = face_direction(2, index);
    let w = map_from_dir_to_dir_spec(from_dir, to_dir, v);
    let r: int = if w[0] == -1 {
        0
    } else if w[0] == 1 {
        1
    } else if w[1] == -1 {
        2
    } else {
        3
    };
    assert(face_direction(2, r) =~= w);
}

/// A planet-tree: six quad-trees, one on each face of a cube.
pub struct PlanetTree {
    pub(crate) tree: NTree<2>,
}

impl View for PlanetTree {
    type V = Forest;

    open(crate) spec fn view(&self) -> Forest {
        self.tree@
    }
}

/// The centre of the root on face `face` of a cube of edge length `size`
/// around `pos`, all in whole units, as a fixed-point point of the world:
/// half an edge away from the centre of the cube, along the axis of the
/// face.
pub open spec fn root_world_pos(size: u32, pos: Seq<i32>, face: int) -> Seq<i128> {
    Seq::new(
        3,
        |a: int| (fixed(pos[a] as int) + face_direction(3, face)[a] * (fixed(size as int) / 2)) as i128,
    )
}

/// What a planet-tree that has just been made holds: six roots, each a
/// leaf on its face, of the edge length of the cube.
pub open spec fn is_new_planet(forest: Forest, min_size: u32, size: u32, pos: Seq<i32>) -> bool {
    &&& forest.wf()
    &&& forest.dim == 2
    &&& forest.min_size == fixed(min_size as int)
    &&& forest.root_size == fixed(size as int)
    &&& !forest.starved
    &&& forest.roots.len() == 6
    &&& forall|key: NodeKey| forest.contains(key) <==> forest.roots.contains(key)
    &&& forall|face: int|
        0 <= face < 6 ==> {
            let root = forest.node(#[trigger] forest.roots[face]);
            &&& root.is_fresh(
                fixed(size as int) as i128,
                local_of_world(Direction::at(face), root_world_pos(size, pos, face)),
            )
            &&& root.direction == Direction::at(face)
            &&& root.world_pos == root_world_pos(size, pos, face)
        }
}

impl PlanetTree {
    /// The number of slots that the arena has made so far.
    pub open(crate) spec fn slots(&self) -> nat {
        self.tree.slots()
    }

    /// A planet-tree on a cube of edge length `size` around `pos`, whose
    /// nodes are split as long as they are larger than `min_size`. All three
    /// are given in whole units. There is no tree for a smallest size of zero
    /// or a cube below the smallest size.
    pub fn new(min_size: u32, size: u32, pos: [i32; 3]) -> (tree: Result<PlanetTree, TreeError>)
        ensures
            match tree {
                Ok(t) => min_size > 0 && size >= min_size && is_new_planet(t@, min_size, size, pos@)
                    && t.slots() <= 6,
                Err(TreeError::MinSizeNotPositive) => min_size == 0,
                Err(TreeError::RootBelowMinSize) => min_size > 0 && size < min_size,
            },
    {
        if min_size == 0 {
            return Err(TreeError::MinSizeNotPositive);
        }
        if size < min_size {
            return Err(TreeError::RootBelowMinSize);
        }
        let root_size = to_fixed(size as i64);
        let half = root_size / 2;
        let mut nodes = arena_new();
        let mut roots: Vec<NodeKey> = Vec::new();
        let ghost empty = crate::arena::arena_nodes(nodes);
        proof {
            assert(fixed(size as int) == size * ONE);
            assert(0 <= size * ONE <= 0xFFFF_FFFF * ONE) by (nonlinear_arith)
                requires
                    0 <= size <= 0xFFFF_FFFF,
                    ONE > 0,
            ;
        }
        let mut face: usize = 0;
        while face < 6
            invariant
                face <= 6,
                root_size == fixed(size as int),
                0 <= root_size <= 0xFFFF_FFFF * ONE,
                half == root_size / 2,
                roots.len() == face,
                crate::arena::arena_slots(nodes) <= face,
                forall|key: NodeKey|
                    crate::arena::arena_nodes(nodes).contains_key(key) <==> roots@.contains(key),
                forall|i: int|
                    0 <= i < face ==> {
                        let root = crate::arena::arena_nodes(nodes)[#[trigger] roots@[i]];
                        &&& crate::arena::arena_nodes(nodes).contains_key(roots@[i])
                        &&& root.is_fresh(
                            root_size,
                            local_of_world(Direction::at(i), root_world_pos(size, pos@, i)),
                        )
                        &&& root.direction == Direction::at(i)
                        &&& root.world_pos == root_world_pos(size, pos@, i)
                    },
            decreases 6 - face,
        {
            let direction = Direction::from(face);
            let vector = direction.unit_vector();
            let mut world_pos: [i128; 3] = [0, 0, 0];
            let mut a: usize = 0;
            while a < 3
                invariant
                    a <= 3,
                    face < 6,
                    root_size == fixed(size as int),
                    0 <= root_size <= 0xFFFF_FFFF * ONE,
                    half == root_size / 2,
                    vector@ == face_direction(3, face as int),
                    forall|b: int|
                        0 <= b < a ==> world_pos[b] == root_world_pos(size, pos@, face as int)[b],
                decreases 3 - a,
            {
                let centre = to_fixed(pos[a] as i64);
                proof {
                    let p = pos[a as int] as int;
                    assert(centre == p * ONE);
                    assert(-0x8000_0000 * ONE <= p * ONE <= 0x8000_0000 * ONE) by (nonlinear_arith)
                        requires
                            -0x8000_0000 <= p <= 0x8000_0000,
                            ONE > 0,
                    ;
                    assert(-1 <= vector[a as int] <= 1);
                }
                let offset: i128 = if vector[a] < 0 {
                    -half
                } else if vector[a] > 0 {
                    half
                } else {
                    0
                };
                proof {
                    let v = vector[a as int] as int;
                    let h = half as int;
                    let o = offset as int;
                    assert(v * h == o) by (nonlinear_arith)
                        requires
                            -1 <= v <= 1,
                            v < 0 ==> o == -h,
                            v > 0 ==> o == h,
                            v == 0 ==> o == 0,
                    ;
                }
                world_pos[a] = centre + offset;
                a = a + 1;
            }
            assert(world_pos@ =~= root_world_pos(size, pos@, face as int));
            let local = map_from_dir_and_world_pos(direction, world_pos);
            let mut local_pos: Vec<i128> = Vec::new();
            local_pos.push(local[0]);
            local_pos.push(local[1]);
            assert(local_pos@ =~= local@);
            let root = TreeNode::new(root_size, local_pos, world_pos, direction);
            let ghost held = crate::arena::arena_nodes(nodes);
            let ghost earlier = roots@;
            let key = arena_insert(&mut nodes, root);
            roots.push(key);
            proof {
                assert forall|k: NodeKey|
                    crate::arena::arena_nodes(nodes).contains_key(k) <==> roots@.contains(k) by {
                    assert(held.contains_key(k) <==> earlier.contains(k));
                    if earlier.contains(k) {
                        let i = choose|i: int| 0 <= i < earlier.len() && earlier[i] == k;
                        assert(roots@[i] == k);
                    }
                    if roots@.contains(k) && k != key {
                        let i = choose|i: int| 0 <= i < roots@.len() && roots@[i] == k;
                        assert(earlier[i] == k);
                    }
                    assert(roots@[face as int] == key);
                }
                assert forall|i: int| 0 <= i < face + 1 implies {
                    let root = crate::arena::arena_nodes(nodes)[#[trigger] roots@[i]];
                    &&& crate::arena::arena_nodes(nodes).contains_key(roots@[i])
                    &&& root.is_fresh(
                        root_size,
                        local_of_world(Direction::at(i), root_world_pos(size, pos@, i)),
                    )
                    &&& root.direction == Direction::at(i)
                    &&& root.world_pos == root_world_pos(size, pos@, i)
                } by {
                    if i < face {
                        assert(earlier[i] == roots@[i]);
                        assert(earlier.contains(earlier[i]));
                        assert(held.contains_key(earlier[i]));
                    }
                }
            }
            face = face + 1;
        }
        let tree = NTree::<2> {
            nodes,
            min_size: to_fixed(min_size as i64),
            root_size,
            roots,
            starved: false,
        };
        proof {
            lemma_new_planet_wf(tree@, min_size, size, pos@);
        }
        Ok(PlanetTree { tree })
    }

    /// The tree as a tree of the plane with six roots.
    pub fn tree(&self) -> (tree: &NTree<2>)
        ensures
            tree@ == self@,
    {
        &self.tree
    }

    /// The tree as a tree of the plane with six roots, for writing.
    pub fn tree_mut(&mut self) -> (tree: &mut NTree<2>)
        ensures
            tree@ == old(self)@,
            tree.slots() == old(self).slots(),
            final(self)@ == final(tree)@,
            final(self).slots() == final(tree).slots(),
    {
        &mut self.tree
    }

    /// All leaves of the six faces, each with its key, in an order that is
    /// not stated.
    pub fn iter_leaf_nodes(&self) -> (leaves: Vec<(NodeKey, &TreeNode)>)
        ensures
            forall|i: int| 0 <= i < leaves@.len() ==> self@.is_leaf((#[trigger] leaves@[i]).0)
                && leaves@[i].1@ == self@.node(leaves@[i].0),
            forall|i: int, j: int|
                0 <= i < j < leaves@.len() ==> (#[trigger] leaves@[i]).0 != (#[trigger] leaves@[j]).0,
            forall|key: NodeKey|
                self@.is_leaf(key) ==> exists|i: int|
                    0 <= i < leaves@.len() && (#[trigger] leaves@[i]).0 == key,
    {
        self.tree.iter_leaf_nodes()
    }

    /// Whether the arena can take the children of one more node: see
    /// [`NTree::has_room`].
    pub fn has_room(&self) -> (room: bool)
        ensures
            room ==> self.slots() + 8 < u32::MAX,
    {
        self.tree.has_room()
    }

    /// Splits a leaf of a face that is larger than the smallest size: makes
    /// its four children on that face and returns their keys. See
    /// [`NTree::create_children`].
    pub fn create_children(&mut self, parent_key: NodeKey) -> (new_children: Vec<NodeKey>)
        requires
            old(self)@.wf(),
            old(self)@.is_leaf(parent_key),
            old(self)@.node(parent_key).size > old(self)@.min_size,
            old(self).slots() + old(self)@.fanout() < u32::MAX,
        ensures
            old(self)@.grown(final(self)@, parent_key, new_children@),
            final(self)@.wf(),
            final(self).slots() <= old(self).slots() + old(self)@.fanout(),
    {
        self.tree.create_children(parent_key)
    }

    /// A refinement pass over the six faces: see [`NTree::insert`].
    pub fn insert<F: Fn(&TreeNode) -> bool>(&mut self, f: F) -> (events: Vec<TreeEvent>)
        requires
            old(self)@.wf(),
            forall|n: &TreeNode| #[trigger] f.requires((n,)),
        ensures
            old(self)@.refined(final(self)@, f, crate::tree_traits::event_views(events@)),
            crate::events_law::events_fit(final(self)@, crate::tree_traits::event_views(events@)),
    {
        self.tree.insert(f)
    }

    /// A refinement pass over the six faces, followed by bringing the sizes
    /// of the neighbours up to date: see
    /// [`NTree::insert_and_update_neighbors`].
    pub fn insert_and_update_neighbors<F: Fn(&TreeNode) -> bool>(&mut self, f: F) -> (events: Vec<
        TreeEvent,
    >)
        requires
            old(self)@.wf(),
            forall|n: &TreeNode| #[trigger] f.requires((n,)),
        ensures
            final(self)@.wf(),
            exists|refined: Forest|
                #![trigger old(self)@.refined(refined, f, crate::tree_traits::event_views(events@))]
                old(self)@.refined(refined, f, crate::tree_traits::event_views(events@))
                    && final(self)@ == refined.updated_all(
                    crate::sizes::keys_to_update(crate::tree_traits::event_views(events@)),
                ),
            crate::events_law::events_fit(final(self)@, crate::tree_traits::event_views(events@)),
    {
        self.tree.insert_and_update_neighbors(f)
    }

    /// The leaves across a face of a node, each once, in the order in which
    /// the search finds them: see [`Forest::neighbors`]. For a node inside
    /// its face of the planet these are the leaves of that face that lie
    /// across the face of the node; for a node at the edge of its face they
    /// are the leaves of the face beyond the edge that lie across that edge
    /// of the cube. In both cases all of them are found, and no others.
    pub fn get_neighbors(&self, node_key: NodeKey, direction: [i32; 2]) -> (leaves: Vec<NodeKey>)
        requires
            self@.wf(),
            self@.contains(node_key),
            is_face_direction(direction@),
        ensures
            leaves@ == self@.neighbors(node_key, direction@),
            leaves@.no_duplicates(),
            forall|i: int| 0 <= i < leaves@.len() ==> self@.is_leaf(#[trigger] leaves@[i]),
            crate::node_traits::is_zero(self@.ascent(node_key, direction@).left) ==> forall|
                key: NodeKey,
            |
                leaves@.contains(key) <==> self@.is_leaf(key) && self@.node(node_key).across(
                    direction@,
                    self@.node(key),
                ),
            self@.is_planet() && !crate::node_traits::is_zero(
                self@.ascent(node_key, direction@).left,
            ) ==> forall|key: NodeKey|
                leaves@.contains(key) <==> self@.is_leaf(key) && self@.node(key).direction
                    == neighbor_face(self@.node(node_key).direction, direction@) && self@.node(
                    node_key,
                ).across_edge(self@.node(key)),
    {
        self.tree.get_neighbors(node_key, direction)
    }

    /// The node under a key, if the arena holds one.
    pub fn get_node(&self, node_key: NodeKey) -> (node: Option<&TreeNode>)
        ensures
            node is Some == self@.contains(node_key),
            node matches Some(n) ==> n@ == self@.node(node_key),
    {
        self.tree.get_node(node_key)
    }

    /// The keys of the six roots, in the order of their faces.
    pub fn root_items(&self) -> (roots: Vec<NodeKey>)
        ensures
            roots@ == self@.roots,
    {
        self.tree.root_items()
    }
}

/// Six fresh roots, one on each face, make a well-formed tree.
#[verifier::rlimit(40)]
pub proof fn lemma_new_planet_wf(forest: Forest, min_size: u32, size: u32, pos: Seq<i32>)
    requires
        min_size > 0,
        size >= min_size,
        pos.len() == 3,
        forest.dim == 2,
        forest.min_size == fixed(min_size as int),
        forest.root_size == fixed(size as int),
        !forest.starved,
        forest.roots.len() == 6,
        forall|key: NodeKey| forest.contains(key) <==> forest.roots.contains(key),
        forall|face: int|
            0 <= face < 6 ==> {
                let root = forest.node(#[trigger] forest.roots[face]);
                &&& root.is_fresh(
                    fixed(size as int) as i128,
                    local_of_world(Direction::at(face), root_world_pos(size, pos, face)),
                )
                &&& root.direction == Direction::at(face)
                &&& root.world_pos == root_world_pos(size, pos, face)
            },
    ensures
        is_new_planet(forest, min_size, size, pos),
{
    let f = forest;
    assert(f.root_units() == size) by (nonlinear_arith)
        requires
            f.root_units() == (size * ONE) / (ONE as int),
            ONE > 0,
    ;
    assert(ONE * min_size <= ONE * size) by (nonlinear_arith)
        requires
            min_size <= size,
            ONE > 0,
    ;
    assert(ONE * min_size >= ONE) by (nonlinear_arith)
        requires
            min_size >= 1,
            ONE > 0,
    ;
    assert(f.sizes_wf());
    f.lemma_sizes(0);
    assert forall|key: NodeKey| #[trigger] f.contains(key) implies f.node_wf(key) by {
        assert(f.roots.contains(key));
        let face = choose|face: int| 0 <= face < f.roots.len() && f.roots[face] == key;
        let n = f.node(f.roots[face]);
        let world = root_world_pos(size, pos, face);
        assert forall|a: int| 0 <= a < 3 implies -COORD_LIMIT <= #[trigger] n.world_pos[a]
            <= COORD_LIMIT && -COORD_LIMIT <= n.world_pos[a] - n.size / 2 && n.world_pos[a] + n.size
            / 2 <= COORD_LIMIT by {
            let p = pos[a] as int;
            assert(-0x8000_0000 * ONE <= p * ONE <= 0x8000_0000 * ONE) by (nonlinear_arith)
                requires
                    -0x8000_0000 <= p <= 0x8000_0000,
                    ONE > 0,
            ;
            let v = face_direction(3, face)[a] as int;
            let half = fixed(size as int) / 2;
            assert(-1 <= v <= 1);
            assert(v * half == if v == 1 {
                half
            } else if v == 0 {
                0
            } else {
                -half
            }) by (nonlinear_arith)
                requires
                    -1 <= v <= 1,
            ;
        }
        assert forall|a: int| 0 <= a < f.dim implies -COORD_LIMIT <= #[trigger] n.pos[a] - n.size
            / 2 && n.pos[a] + n.size / 2 <= COORD_LIMIT by {
            let d = Direction::at(face);
            assert(n.pos[a] == n.world_pos[d.world_axis(a)]);
            assert(-COORD_LIMIT <= n.world_pos[d.world_axis(a)] - n.size / 2);
        }
        assert(f.shape_wf(n));
        assert(f.parent_wf(key));
    }
    let half = fixed(size as int) / 2;
    assert forall|i: int, a: int| 0 <= i < 6 && 0 <= a < 3 implies (#[trigger] f.node(
        f.roots[i],
    ).world_pos[a]) == fixed(pos[a] as int) + if a == Direction::at(i).axis() {
        toward(Direction::at(i).side(), half)
    } else {
        0
    } by {
        let n = f.node(f.roots[i]);
        assert(n.world_pos == root_world_pos(size, pos, i));
        let p = pos[a] as int;
        assert(-0x8000_0000 * ONE <= p * ONE <= 0x8000_0000 * ONE) by (nonlinear_arith)
            requires
                -0x8000_0000 <= p <= 0x8000_0000,
                ONE > 0,
        ;
        let v = face_direction(3, i)[a] as int;
        assert(-1 <= v <= 1);
        assert(v * half == if v == 1 {
            half
        } else if v == 0 {
            0
        } else {
            -half
        }) by (nonlinear_arith)
            requires
                -1 <= v <= 1,
        ;
        assert(0 <= half <= 0xFFFF_FFFF * ONE);
    }
    assert(f.cube_centre(0) == fixed(pos[0] as int));
    assert(f.cube_centre(1) == fixed(pos[1] as int));
    assert(f.cube_centre(2) == fixed(pos[2] as int));
    assert forall|i: int| 0 <= i < f.roots.len() implies {
        &&& f.contains(#[trigger] f.roots[i])
        &&& f.node(f.roots[i]).parent is None
        &&& f.is_planet() ==> f.node(f.roots[i]).direction == Direction::at(i) && f.on_cube(
            f.node(f.roots[i]),
        )
    } by {
        assert(f.roots.contains(f.roots[i]));
        let n = f.node(f.roots[i]);
        reveal(crate::forest::stands_on_cube);
        assert forall|a: int| 0 <= a < 3 implies #[trigger] n.world_pos[a] == f.cube_centre(a) + if a
            == n.direction.axis() {
            toward(n.direction.side(), f.root_size / 2)
        } else {
            0
        } by {
            assert(f.node(f.roots[i]).world_pos[a] == fixed(pos[a] as int) + if a == Direction::at(
                i,
            ).axis() {
                toward(Direction::at(i).side(), half)
            } else {
                0
            });
        }
    }
}

} // verus!
