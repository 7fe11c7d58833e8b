//! Indexing of children and faces.
//!
//! A child sits in one octant of its parent and is named either by its index
//! in the parent's child list or by a vector of signs, one per axis. A face is
//! named either by its index in a node's list of neighbour sizes or by a
//! vector with one component of unit length.

use vstd::prelude::*;
use crate::arena::NodeKey;
use crate::tree_node::{is_index_of_key, NodeView, TreeNode};

verus! {

/// What a node offers as a member of a tree: its parent and its children.
pub trait ChildBehaviour<const D: usize>: View<V = NodeView> + Sized {
    fn set_parent(&mut self, node_key: NodeKey)
        ensures
            final(self)@ == (NodeView { parent: Some(node_key), ..old(self)@ }),
    ;

    fn get_parent(&self) -> (parent: Option<NodeKey>)
        ensures
            parent == self@.parent,
    ;

    fn children(&self) -> (children: Option<&Vec<NodeKey>>)
        ensures
            children is Some == self@.children is Some,
            children matches Some(keys) ==> self@.children == Some(keys@),
    ;

    fn has_children(&self) -> (branch: bool)
        ensures
            branch == !self@.is_leaf(),
    ;

    /// The octant of a child, as the vector of its signs.
    fn child_position_from_key(&self, child: NodeKey) -> (position: Option<[i32; D]>)
        ensures
            match self@.children {
                Some(keys) => match position {
                    Some(signs) => exists|index: usize|
                        is_index_of_key(keys, child, Some(index)) && forall|a: int|
                            0 <= a < D ==> signs[a] as int == child_sign(index as int, a),
                    None => !keys.contains(child),
                },
                None => position is None,
            },
    ;

    /// The child in the octant that a vector points into.
    fn get_child(&self, direction: [i32; D]) -> (child: Option<NodeKey>)
        requires
            valid_dimension(D),
            self@.children matches Some(keys) ==> keys.len() == two_pow(D as nat),
        ensures
            child == match self@.children {
                Some(keys) => Some(keys[octant_index(direction@) as int]),
                None => None,
            },
    ;

    /// The first place of a child among the children.
    fn get_child_index(&self, child: NodeKey) -> (index: Option<usize>)
        ensures
            match self@.children {
                Some(keys) => is_index_of_key(keys, child, index),
                None => index is None,
            },
    ;

    fn set_child_keys(&mut self, children: Vec<NodeKey>)
        ensures
            final(self)@ == (NodeView { children: Some(children@), ..old(self)@ }),
    ;

    fn take_children(&mut self) -> (children: Vec<NodeKey>)
        ensures
            final(self)@ == (NodeView { children: None, ..old(self)@ }),
            children@ == match old(self)@.children {
                Some(keys) => keys,
                None => Seq::empty(),
            },
    ;
}

impl<const D: usize> ChildBehaviour<D> for TreeNode {
    fn set_parent(&mut self, node_key: NodeKey) {
        TreeNode::set_parent(self, node_key)
    }

    fn get_parent(&self) -> (parent: Option<NodeKey>) {
        TreeNode::get_parent(self)
    }

    fn children(&self) -> (children: Option<&Vec<NodeKey>>) {
        TreeNode::children(self)
    }

    fn has_children(&self) -> (branch: bool) {
        TreeNode::has_children(self)
    }

    fn child_position_from_key(&self, child: NodeKey) -> (position: Option<[i32; D]>) {
        TreeNode::child_position_from_key::<D>(self, child)
    }

    fn get_child(&self, direction: [i32; D]) -> (child: Option<NodeKey>) {
        TreeNode::get_child::<D>(self, direction)
    }

    fn get_child_index(&self, child: NodeKey) -> (index: Option<usize>) {
        TreeNode::get_child_index(self, child)
    }

    fn set_child_keys(&mut self, children: Vec<NodeKey>) {
        TreeNode::set_child_keys(self, children)
    }

    fn take_children(&mut self) -> (children: Vec<NodeKey>) {
        TreeNode::take_children(self)
    }
}

/// The dimensions the trees are built for: the plane and space.
pub open spec fn valid_dimension(d: usize) -> bool {
    d == 2 || d == 3
}

/// Two to the power `n`.
pub open spec fn two_pow(n: nat) -> nat
    decreases n,
{
    if n == 0 {
        1
    } else {
        2 * two_pow((n - 1) as nat)
    }
}

/// The sign of child `index` along `axis`: bit `axis` of the index, with 0
/// standing for the low side and 1 for the high side.
pub open spec fn child_sign(index: int, axis: int) -> int {
    if (index / (two_pow(axis as nat) as int)) % 2 == 0 {
        -1
    } else {
        1
    }
}

/// The index of the child that lies in the octant `dir` points into: the
/// number whose bit `a` says whether `dir[a]` is positive.
pub open spec fn octant_index(dir: Seq<i32>) -> nat
    decreases dir.len(),
{
    if dir.len() == 0 {
        0
    } else {
        octant_index(dir.drop_last()) + if dir.last() > 0 {
            two_pow((dir.len() - 1) as nat)
        } else {
            0
        }
    }
}

/// The vector of face `index` in `d` dimensions: axis `index / 2`, pointing
/// down for an even index and up for an odd one.
pub open spec fn face_direction(d: nat, index: int) -> Seq<i32> {
    Seq::new(
        d,
        |a: int|
            if a == index / 2 {
                if index % 2 == 0 {
                    -1i32
                } else {
                    1i32
                }
            } else {
                0i32
            },
    )
}

/// `dir` is the vector of one of the `2 * dir.len()` faces.
pub open spec fn is_face_direction(dir: Seq<i32>) -> bool {
    exists|index: int| 0 <= index < 2 * dir.len() && dir == #[trigger] face_direction(dir.len(), index)
}

/// The part that one component contributes to a face index.
pub open spec fn face_weight(component: i32, axis: int) -> int {
    if component == -1 {
        2 * axis + 1
    } else if component == 1 {
        2 * axis + 2
    } else {
        0
    }
}

/// The sum of the weights of all components of `dir`.
pub open spec fn face_weight_sum(dir: Seq<i32>) -> int
    decreases dir.len(),
{
    if dir.len() == 0 {
        0
    } else {
        face_weight_sum(dir.drop_last()) + face_weight(dir.last(), dir.len() - 1)
    }
}

/// The first axis from `from` on along which `dir` is not zero, or
/// `dir.len()` if there is none.
pub open spec fn first_nonzero_from(dir: Seq<i32>, from: int) -> int
    decreases dir.len() - from,
{
    if from >= dir.len() || from < 0 {
        dir.len() as int
    } else if dir[from] != 0 {
        from
    } else {
        first_nonzero_from(dir, from + 1)
    }
}

/// The first axis along which `dir` is not zero.
pub open spec fn first_nonzero(dir: Seq<i32>) -> int {
    first_nonzero_from(dir, 0)
}

/// Component `a` of the `k`-th child position on the side of a node that
/// `dir` points to. Along the axis of `dir` it is the component of `dir`; the
/// other axes take their signs from the bits of `k`, lowest axis first.
pub open spec fn border_component(dir: Seq<i32>, k: int, a: int) -> int {
    let axis = first_nonzero(dir);
    if a == axis {
        dir[a] as int
    } else if a < axis {
        child_sign(k, a)
    } else {
        child_sign(k, a - 1)
    }
}

pub proof fn lemma_two_pow_positive(n: nat)
    ensures
        two_pow(n) > 0,
    decreases n,
{
    if n > 0 {
        lemma_two_pow_positive((n - 1) as nat);
    }
}

/// Dividing by a power of two and then by two divides by the next power.
pub proof fn lemma_two_pow_div_step(x: int, n: nat)
    requires
        x >= 0,
    ensures
        two_pow(n) > 0,
        (x / (two_pow(n) as int)) / 2 == x / (two_pow(n + 1) as int),
{
    lemma_two_pow_positive(n);
    assert(two_pow(n + 1) == 2 * two_pow(n));
    vstd::arithmetic::div_mod::lemma_div_denominator(x, two_pow(n) as int, 2);
    assert((two_pow(n) as int) * 2 == 2 * two_pow(n));
}

/// The direction vector of the child with the given index: component `a` is
/// `-1` where bit `a` of the index is clear and `1` where it is set.
pub fn child_position<const D: usize>(child_index: usize) -> (out: [i32; D])
    ensures
        forall|a: int| 0 <= a < D ==> out[a] as int == child_sign(child_index as int, a),
{
    let mut out: [i32; D] = [0i32; D];
    let mut rest: usize = child_index;
    let mut i: usize = 0;
    assert(two_pow(0) == 1);
    while i < D
        invariant
            i <= D,
            rest as int == child_index as int / (two_pow(i as nat) as int),
            forall|a: int| 0 <= a < i ==> out[a] as int == child_sign(child_index as int, a),
        decreases D - i,
    {
        let bit: usize = rest % 2;
        out[i] = if bit == 0 {
            -1
        } else {
            1
        };
        proof {
            lemma_two_pow_div_step(child_index as int, i as nat);
        }
        rest = rest / 2;
        i = i + 1;
    }
    out
}

/// The index of the face that `direction` names. A vector with one component
/// of `-1` or `1` on axis `a` and zeros elsewhere gives `2 * a` for `-1` and
/// `2 * a + 1` for `1`. In general every component of `-1` or `1` adds its
/// weight, and a vector without such a component has no index.
pub fn neighbor_index<const D: usize>(direction: [i32; D]) -> (r: Option<usize>)
    requires
        valid_dimension(D),
    ensures
        r == if face_weight_sum(direction@) == 0 {
            None::<usize>
        } else {
            Some((face_weight_sum(direction@) - 1) as usize)
        },
        forall|index: int|
            0 <= index < 2 * D && direction@ == #[trigger] face_direction(D as nat, index) ==> r
                == Some(index as usize),
{
    let mut sum: usize = 0;
    let mut i: usize = 0;
    while i < D
        invariant
            valid_dimension(D),
            i <= D,
            sum as int == face_weight_sum(direction@.take(i as int)),
            sum <= i * 8,
        decreases D - i,
    {
        let d: i32 = direction[i];
        let v: usize = if d == -1 {
            i * 2 + 1
        } else if d == 1 {
            i * 2 + 2
        } else {
            0
        };
        proof {
            assert(direction@.take(i as int + 1).drop_last() == direction@.take(i as int));
        }
        sum = sum + v;
        i = i + 1;
    }
    proof {
        assert(direction@.take(D as int) == direction@);
        assert forall|index: int|
            0 <= index < 2 * D && direction@ == #[trigger] face_direction(
                D as nat,
                index,
            ) implies face_weight_sum(direction@) == index + 1 by {
            lemma_face_weight_sum_of_face(D as nat, index);
        }
    }
    if sum != 0 {
        Some(sum - 1)
    } else {
        None
    }
}

/// The weights of a face vector add up to its index plus one.
pub proof fn lemma_face_weight_sum_of_face(d: nat, index: int)
    requires
        0 <= index < 2 * d,
    ensures
        face_weight_sum(face_direction(d, index)) == index + 1,
{
    lemma_face_weight_sum_prefix(d, index, d);
    assert(face_direction(d, index).take(d as int) == face_direction(d, index));
}

proof fn lemma_face_weight_sum_prefix(d: nat, index: int, n: nat)
    requires
        0 <= index < 2 * d,
        n <= d,
    ensures
        face_weight_sum(face_direction(d, index).take(n as int)) == if index / 2 < n {
            index + 1
        } else {
            0
        },
    decreases n,
{
    let s = face_direction(d, index).take(n as int);
    if n > 0 {
        lemma_face_weight_sum_prefix(d, index, (n - 1) as nat);
        assert(s.drop_last() == face_direction(d, index).take(n - 1));
    }
}

/// The vector of the face with the given index: see [`face_direction`]. An
/// index past the last face gives the zero vector.
pub fn neighbor_dir_from_index<const D: usize>(index: usize) -> (out: [i32; D])
    ensures
        out@ == face_direction(D as nat, index as int),
{
    let mut out: [i32; D] = [0i32; D];
    let axis: usize = index / 2;
    if axis < D {
        out[axis] = if index % 2 == 0 {
            -1
        } else {
            1
        };
    }
    assert(out@ =~= face_direction(D as nat, index as int));
    out
}

/// The vectors of all `2 * D` faces, in the order of their indices.
pub fn all_neighbor_directions<const D: usize>() -> (dirs: Vec<[i32; D]>)
    requires
        valid_dimension(D),
    ensures
        dirs.len() == 2 * D,
        forall|i: int| 0 <= i < 2 * D ==> (#[trigger] dirs[i])@ == face_direction(D as nat, i),
{
    let mut dirs: Vec<[i32; D]> = Vec::new();
    let mut i: usize = 0;
    while i < 2 * D
        invariant
            valid_dimension(D),
            i <= 2 * D,
            dirs.len() == i,
            forall|j: int| 0 <= j < i ==> (#[trigger] dirs[j])@ == face_direction(D as nat, j),
        decreases 2 * D - i,
    {
        dirs.push(neighbor_dir_from_index::<D>(i));
        i = i + 1;
    }
    dirs
}

/// The positions of the children that lie on the side of a node that
/// `direction` points to: half of all children, those whose sign along the
/// axis of `direction` is the sign of `direction`. The `k`-th of them is given
/// by [`border_component`].
pub fn child_positions_in_direction<const D: usize>(direction: [i32; D]) -> (dirs: Vec<[i32; D]>)
    requires
        valid_dimension(D),
        first_nonzero(direction@) < D,
    ensures
        dirs.len() == two_pow((D - 1) as nat),
        forall|k: int, a: int|
            0 <= k < dirs.len() && 0 <= a < D ==> (#[trigger] dirs[k][a]) as int
                == border_component(direction@, k, a),
{
    let mut axis: usize = 0;
    while axis < D && direction[axis] == 0
        invariant
            axis <= D,
            first_nonzero(direction@) == first_nonzero_from(direction@, axis as int),
        decreases D - axis,
    {
        axis = axis + 1;
    }
    assert(axis == first_nonzero(direction@));
    let count: usize = if D == 2 {
        2
    } else {
        4
    };
    assert(two_pow((D - 1) as nat) == count) by {
        reveal_with_fuel(two_pow, 4);
    }
    let mut dirs: Vec<[i32; D]> = Vec::new();
    let mut k: usize = 0;
    while k < count
        invariant
            valid_dimension(D),
            k <= count,
            axis < D,
            axis == first_nonzero(direction@),
            dirs.len() == k,
            forall|j: int, a: int|
                0 <= j < k && 0 <= a < D ==> (#[trigger] dirs[j][a]) as int == border_component(
                    direction@,
                    j,
                    a,
                ),
        decreases count - k,
    {
        let signs: [i32; D] = child_position::<D>(k);
        let mut dir: [i32; D] = direction;
        let mut a: usize = 0;
        while a < D
            invariant
                valid_dimension(D),
                a <= D,
                axis < D,
                axis == first_nonzero(direction@),
                forall|b: int| 0 <= b < D ==> signs[b] as int == child_sign(k as int, b),
                forall|b: int|
                    0 <= b < a ==> (#[trigger] dir[b]) as int == border_component(
                        direction@,
                        k as int,
                        b,
                    ),
                forall|b: int| a <= b < D ==> dir[b] == direction[b],
            decreases D - a,
        {
            if a < axis {
                dir[a] = signs[a];
            } else if a > axis {
                dir[a] = signs[a - 1];
            }
            a = a + 1;
        }
        dirs.push(dir);
        k = k + 1;
    }
    dirs
}

/// Every component of the vector is `-1`, `0` or `1`.
pub open spec fn is_step(dir: Seq<i32>) -> bool {
    forall|a: int| 0 <= a < dir.len() ==> -1 <= #[trigger] dir[a] <= 1
}

/// Every component of the vector is zero.
pub open spec fn is_zero(dir: Seq<i32>) -> bool {
    forall|a: int| 0 <= a < dir.len() ==> #[trigger] dir[a] == 0
}

/// The vector that points the other way.
pub open spec fn opposite(dir: Seq<i32>) -> Seq<i32> {
    Seq::new(dir.len(), |a: int| (-dir[a]) as i32)
}

pub proof fn lemma_octant_index_bound(dir: Seq<i32>)
    ensures
        octant_index(dir) < two_pow(dir.len()),
    decreases dir.len(),
{
    if dir.len() > 0 {
        lemma_octant_index_bound(dir.drop_last());
    }
}

/// Whether every component of a vector is zero.
pub fn all_zero<const D: usize>(direction: &[i32; D]) -> (zero: bool)
    ensures
        zero == is_zero(direction@),
{
    let mut a: usize = 0;
    while a < D
        invariant
            a <= D,
            forall|b: int| 0 <= b < a ==> direction[b] == 0,
        decreases D - a,
    {
        if direction[a] != 0 {
            return false;
        }
        a = a + 1;
    }
    true
}

/// The vector that points the other way.
pub fn opposite_direction<const D: usize>(direction: [i32; D]) -> (out: [i32; D])
    requires
        is_step(direction@),
    ensures
        out@ == opposite(direction@),
        is_step(out@),
{
    let mut out: [i32; D] = direction;
    let mut a: usize = 0;
    while a < D
        invariant
            a <= D,
            is_step(direction@),
            forall|b: int| 0 <= b < a ==> out[b] == -direction[b],
            forall|b: int| a <= b < D ==> out[b] == direction[b],
        decreases D - a,
    {
        out[a] = -direction[a];
        a = a + 1;
    }
    assert(out@ =~= opposite(direction@));
    out
}

/// The index of the child in the octant that the vector points into: bit
/// `a` of it says whether component `a` is above zero.
pub fn child_index_of<const D: usize>(direction: &[i32; D]) -> (index: usize)
    requires
        valid_dimension(D),
    ensures
        index == octant_index(direction@),
        index < two_pow(D as nat),
{
    let mut index: usize = 0;
    let mut weight: usize = 1;
    let mut a: usize = 0;
    proof {
        reveal_with_fuel(two_pow, 4);
    }
    while a < D
        invariant
            a <= D,
            valid_dimension(D),
            weight == two_pow(a as nat),
            index == octant_index(direction@.take(a as int)),
            index < weight,
        decreases D - a,
    {
        proof {
            reveal_with_fuel(two_pow, 4);
            assert(direction@.take(a as int + 1).drop_last() =~= direction@.take(a as int));
        }
        if direction[a] > 0 {
            index = index + weight;
        }
        weight = weight * 2;
        a = a + 1;
    }
    assert(direction@.take(D as int) =~= direction@);
    index
}

} // verus!
