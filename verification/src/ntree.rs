//! The tree: an arena of nodes below one root, or below the six roots of a
//! planet.

use vstd::prelude::*;
use crate::arena::{
    arena_get, arena_index, arena_index_mut, arena_insert, arena_new, arena_nodes, arena_remove,
    arena_slots, NodeArena, NodeKey,
};
use crate::fixed::{fixed, to_fixed, COORD_LIMIT, ONE, UNKNOWN_SIZE};
use crate::forest::{is_new_child, toward, Forest, MAX_DEPTH};
use crate::node_traits::{child_position, child_sign, two_pow, valid_dimension};
use crate::planet_tree_impl::{map_from_dir_and_local_pos, Direction};
use crate::tree_node::{NodeView, TreeNode};
use crate::tree_traits::TreeError;

verus! {

/// A quad-tree (`D` = 2) or an oct-tree (`D` = 3).
pub struct NTree<const D: usize> {
    pub(crate) nodes: NodeArena,
    pub(crate) min_size: i128,
    pub(crate) root_size: i128,
    pub(crate) roots: Vec<NodeKey>,
    pub(crate) starved: bool,
}

impl<const D: usize> View for NTree<D> {
    type V = Forest;

    open(crate) spec fn view(&self) -> Forest {
        Forest {
            nodes: arena_nodes(self.nodes),
            roots: self.roots@,
            min_size: self.min_size as int,
            root_size: self.root_size as int,
            dim: D as nat,
            starved: self.starved,
        }
    }
}

/// The fixed-point coordinates of a point given in whole units.
pub open spec fn fixed_point(pos: Seq<i32>) -> Seq<i128> {
    Seq::new(pos.len(), |a: int| fixed(pos[a] as int) as i128)
}

/// What a tree that has just been made holds: one root, a leaf of the given
/// edge length around the given centre.
pub open spec fn is_new_tree(forest: Forest, min_size: u32, size: u32, pos: Seq<i32>) -> bool {
    &&& forest.wf()
    &&& forest.dim == pos.len()
    &&& forest.min_size == fixed(min_size as int)
    &&& forest.root_size == fixed(size as int)
    &&& !forest.starved
    &&& forest.roots.len() == 1
    &&& forall|key: NodeKey| forest.contains(key) <==> key == forest.roots[0]
    &&& forest.node(forest.roots[0]).is_fresh(fixed(size as int) as i128, fixed_point(pos))
}

impl<const D: usize> NTree<D> {
    /// The number of slots that the arena has made so far.
    pub open(crate) spec fn slots(&self) -> nat {
        arena_slots(self.nodes)
    }

    /// A tree with a single root of edge length `size` around `pos`, whose
    /// nodes are split as long as they are larger than `min_size`. All three
    /// are given in whole units. There is no tree for a smallest size of zero
    /// or a root below the smallest size.
    pub fn new(min_size: u32, size: u32, pos: [i32; D]) -> (tree: Result<NTree<D>, TreeError>)
        requires
            valid_dimension(D),
        ensures
            match tree {
                Ok(t) => min_size > 0 && size >= min_size && is_new_tree(t@, min_size, size, pos@)
                    && t.slots() <= 1,
                Err(TreeError::MinSizeNotPositive) => min_size == 0,
                Err(TreeError::RootBelowMinSize) => min_size > 0 && size < min_size,
            },
    {
        if min_size == 0 {
            return Err(TreeError::MinSizeNotPositive);
        }
        if size < min_size {
            return Err(TreeError::RootBelowMinSize);
        }
        let root_size = to_fixed(size as i64);
        let mut root_pos: Vec<i128> = Vec::new();
        let mut a: usize = 0;
        while a < D
            invariant
                a <= D,
                root_pos@ == fixed_point(pos@).take(a as int),
            decreases D - a,
        {
            root_pos.push(to_fixed(pos[a] as i64));
            a = a + 1;
            assert(root_pos@ =~= fixed_point(pos@).take(a as int));
        }
        assert(root_pos@ =~= fixed_point(pos@));
        let root = TreeNode::from_bounds(root_size, root_pos);
        let mut nodes = arena_new();
        let root_key = arena_insert(&mut nodes, root);
        let mut roots: Vec<NodeKey> = Vec::new();
        roots.push(root_key);
        let tree = NTree { nodes, min_size: to_fixed(min_size as i64), root_size, roots, starved: false };
        proof {
            let f = tree@;
            assert(f.roots[0] == root_key);
            assert(forall|key: NodeKey| f.contains(key) <==> key == root_key);
            assert(f.root_units() == size) by (nonlinear_arith)
                requires
                    f.root_units() == (size * ONE) / (ONE as int),
                    ONE > 0,
            ;
            assert(ONE * min_size <= ONE * size) by (nonlinear_arith)
                requires
                    min_size <= size,
                    ONE > 0,
            ;
            assert(ONE * min_size >= ONE) by (nonlinear_arith)
                requires
                    min_size >= 1,
                    ONE > 0,
            ;
            assert(f.sizes_wf());
            f.lemma_sizes(0);
            let n = f.node(root_key);
            assert forall|b: int| 0 <= b < D implies -COORD_LIMIT <= #[trigger] n.low(b) && n.high(
                b,
            ) <= COORD_LIMIT by {
                let p = pos[b] as int;
                assert(n.pos[b] == p * ONE);
                assert(-0x8000_0000 * ONE <= p * ONE <= 0x8000_0000 * ONE) by (nonlinear_arith)
                    requires
                        -0x8000_0000 <= p <= 0x8000_0000,
                        ONE > 0,
                ;
            }
            assert(f.shape_wf(n));
            assert(f.roots.contains(root_key));
            assert(f.node_wf(root_key));
            assert(f.wf());
        }
        Ok(tree)
    }

    /// The smallest edge length at which a node is still split.
    pub fn min_size(&self) -> (min_size: i128)
        ensures
            min_size == self@.min_size,
    {
        self.min_size
    }

    /// The edge length of a root.
    pub fn root_size(&self) -> (root_size: i128)
        ensures
            root_size == self@.root_size,
    {
        self.root_size
    }

    /// Whether the last pass left a leaf unsplit because the arena was full.
    pub fn starved(&self) -> (starved: bool)
        ensures
            starved == self@.starved,
    {
        self.starved
    }

    /// The keys of the roots: one, or six for a planet.
    pub fn root_items(&self) -> (roots: Vec<NodeKey>)
        ensures
            roots@ == self@.roots,
    {
        let mut roots: Vec<NodeKey> = Vec::new();
        let mut i: usize = 0;
        while i < self.roots.len()
            invariant
                i <= self.roots.len(),
                roots@ == self.roots@.take(i as int),
            decreases self.roots.len() - i,
        {
            roots.push(self.roots[i]);
            i = i + 1;
            assert(roots@ =~= self.roots@.take(i as int));
        }
        assert(roots@ =~= self.roots@);
        roots
    }

    /// The node under a key, if the arena holds one.
    pub fn get_node(&self, node_key: NodeKey) -> (node: Option<&TreeNode>)
        ensures
            node is Some == self@.contains(node_key),
            node matches Some(n) ==> n@ == self@.node(node_key),
    {
        arena_get(&self.nodes, node_key)
    }

    /// The node under a key that the arena holds.
    pub fn get_node_unchecked(&self, node_key: NodeKey) -> (node: &TreeNode)
        requires
            self@.contains(node_key),
        ensures
            node@ == self@.node(node_key),
    {
        arena_index(&self.nodes, node_key)
    }

    /// The node under a key that the arena holds, for writing. What the
    /// caller leaves in it is what the tree holds under the key afterwards.
    pub fn get_mut_node_unchecked(&mut self, node_key: NodeKey) -> (node: &mut TreeNode)
        requires
            old(self)@.contains(node_key),
        ensures
            node@ == old(self)@.node(node_key),
            final(self)@ == (Forest {
                nodes: old(self)@.nodes.insert(node_key, final(node)@),
                ..old(self)@
            }),
            final(self).slots() == old(self).slots(),
    {
        arena_index_mut(&mut self.nodes, node_key)
    }

    /// The node under a key, for writing, if the arena holds one. What the
    /// caller leaves in it is what the tree holds under the key afterwards.
    pub fn get_mut_node(&mut self, node_key: NodeKey) -> (node: Option<&mut TreeNode>)
        ensures
            node is Some == old(self)@.contains(node_key),
            node matches Some(n) ==> n@ == old(self)@.node(node_key) && final(self)@ == (Forest {
                nodes: old(self)@.nodes.insert(node_key, final(n)@),
                ..old(self)@
            }),
            node is None ==> final(self)@ == old(self)@,
            final(self).slots() == old(self).slots(),
    {
        if arena_get(&self.nodes, node_key).is_some() {
            Some(arena_index_mut(&mut self.nodes, node_key))
        } else {
            None
        }
    }

    /// Puts a node into the arena and returns its key, which no node of the
    /// arena had.
    pub fn insert_node(&mut self, node: TreeNode) -> (key: NodeKey)
        requires
            old(self).slots() + 8 < u32::MAX,
        ensures
            !old(self)@.contains(key),
            final(self)@ == (Forest { nodes: old(self)@.nodes.insert(key, node@), ..old(self)@ }),
            final(self).slots() <= old(self).slots() + 1,
    {
        arena_insert(&mut self.nodes, node)
    }

    /// All leaves of the tree, each with its key, in an order that is not
    /// stated.
    pub fn iter_leaf_nodes(&self) -> (leaves: Vec<(NodeKey, &TreeNode)>)
        ensures
            forall|i: int| 0 <= i < leaves@.len() ==> self@.is_leaf((#[trigger] leaves@[i]).0)
                && leaves@[i].1@ == self@.node(leaves@[i].0),
            forall|i: int, j: int|
                0 <= i < j < leaves@.len() ==> (#[trigger] leaves@[i]).0 != (#[trigger] leaves@[j]).0,
            forall|key: NodeKey|
                self@.is_leaf(key) ==> exists|i: int|
                    0 <= i < leaves@.len() && (#[trigger] leaves@[i]).0 == key,
    {
        let keys = crate::arena::arena_keys(&self.nodes);
        let mut leaves: Vec<(NodeKey, &TreeNode)> = Vec::new();
        let mut k: usize = 0;
        while k < keys.len()
            invariant
                k <= keys.len(),
                keys@.no_duplicates(),
                forall|key: NodeKey| keys@.contains(key) == self@.contains(key),
                forall|i: int|
                    0 <= i < leaves@.len() ==> self@.is_leaf((#[trigger] leaves@[i]).0)
                        && leaves@[i].1@ == self@.node(leaves@[i].0),
                forall|i: int|
                    0 <= i < leaves@.len() ==> exists|x: int|
                        0 <= x < k && keys@[x] == (#[trigger] leaves@[i]).0,
                forall|i: int, j: int|
                    0 <= i < j < leaves@.len() ==> (#[trigger] leaves@[i]).0 != (
                    #[trigger] leaves@[j]).0,
                forall|x: int|
                    0 <= x < k && self@.is_leaf(#[trigger] keys@[x]) ==> exists|i: int|
                        0 <= i < leaves@.len() && (#[trigger] leaves@[i]).0 == keys@[x],
            decreases keys.len() - k,
        {
            let key = keys[k];
            assert(keys@.contains(keys@[k as int]));
            let node = arena_index(&self.nodes, key);
            let ghost earlier = leaves@;
            if !node.has_children() {
                leaves.push((key, node));
                proof {
                    assert forall|i: int, j: int| 0 <= i < j < leaves@.len() implies (
                    #[trigger] leaves@[i]).0 != (#[trigger] leaves@[j]).0 by {
                        if j == earlier.len() {
                            let x = choose|x: int| 0 <= x < k && keys@[x] == earlier[i].0;
                        }
                    }
                    assert forall|x: int|
                        0 <= x < k + 1 && self@.is_leaf(#[trigger] keys@[x]) implies exists|i: int|
                        0 <= i < leaves@.len() && (#[trigger] leaves@[i]).0 == keys@[x] by {
                        if x < k {
                            let i = choose|i: int|
                                0 <= i < earlier.len() && (#[trigger] earlier[i]).0 == keys@[x];
                            assert(leaves@[i].0 == keys@[x]);
                        } else {
                            assert(leaves@[earlier.len() as int].0 == keys@[x]);
                        }
                    }
                    assert forall|i: int| 0 <= i < leaves@.len() implies exists|x: int|
                        0 <= x < k + 1 && keys@[x] == (#[trigger] leaves@[i]).0 by {
                        if i < earlier.len() {
                            let x = choose|x: int| 0 <= x < k && keys@[x] == earlier[i].0;
                            assert(keys@[x] == leaves@[i].0);
                        } else {
                            assert(keys@[k as int] == leaves@[i].0);
                        }
                    }
                }
            }
            k = k + 1;
        }
        proof {
            assert forall|key: NodeKey| self@.is_leaf(key) implies exists|i: int|
                0 <= i < leaves@.len() && (#[trigger] leaves@[i]).0 == key by {
                assert(keys@.contains(key));
                let x = choose|x: int| 0 <= x < keys@.len() && keys@[x] == key;
                assert(self@.is_leaf(keys@[x]));
            }
        }
        leaves
    }

    /// Takes the node under a key out of the arena, if it holds one.
    pub fn remove_node(&mut self, node_key: NodeKey) -> (node: Option<TreeNode>)
        ensures
            node is Some == old(self)@.contains(node_key),
            node matches Some(n) ==> n@ == old(self)@.node(node_key),
            final(self)@ == (Forest { nodes: old(self)@.nodes.remove(node_key), ..old(self)@ }),
            final(self).slots() == old(self).slots(),
    {
        arena_remove(&mut self.nodes, node_key)
    }

    /// Splits a leaf that is larger than the smallest size: makes its
    /// children, one for each octant in the order of their indices, and
    /// returns their keys.
    #[verifier::rlimit(40)]
    pub fn create_children(&mut self, parent_key: NodeKey) -> (new_children: Vec<NodeKey>)
        requires
            old(self)@.wf(),
            old(self)@.is_leaf(parent_key),
            old(self)@.node(parent_key).size > old(self)@.min_size,
            old(self).slots() + old(self)@.fanout() < u32::MAX,
        ensures
            old(self)@.grown(final(self)@, parent_key, new_children@),
            final(self)@.wf(),
            final(self).slots() <= old(self).slots() + old(self)@.fanout(),
    {
        let ghost before = self@;
        proof {
            assert(before.node_wf(parent_key));
            before.lemma_sizes(before.node(parent_key).depth as int);
            reveal_with_fuel(two_pow, 4);
        }
        let parent = arena_index(&self.nodes, parent_key);
        let parent_size = parent.size;
        let parent_depth = parent.depth;
        let direction = parent.direction;
        let parent_world = parent.world_pos;
        let parent_pos = copy_coordinates(&parent.pos);
        let new_size = parent_size / 2;
        let quart_size = parent_size / 4;
        let num_children: usize = if D == 2 {
            4
        } else {
            8
        };
        let mut new_children: Vec<NodeKey> = Vec::new();
        let mut i: usize = 0;
        while i < num_children
            invariant
                i <= num_children,
                num_children == before.fanout(),
                valid_dimension(D),
                before.wf(),
                before.is_leaf(parent_key),
                before.dim == D,
                parent_pos@ == before.node(parent_key).pos,
                parent_world@ == before.node(parent_key).world_pos,
                parent_size == before.node(parent_key).size,
                parent_depth == before.node(parent_key).depth,
                parent_depth < MAX_DEPTH,
                direction == before.node(parent_key).direction,
                new_size * 2 == parent_size,
                quart_size * 4 == parent_size,
                parent_size >= 4,
                before.shape_wf(before.node(parent_key)),
                new_children.len() == i,
                new_children@.no_duplicates(),
                arena_slots(self.nodes) <= arena_slots(old(self).nodes) + i,
                arena_slots(old(self).nodes) + before.fanout() < u32::MAX,
                self@.roots == before.roots,
                self@.min_size == before.min_size,
                self@.root_size == before.root_size,
                self@.starved == before.starved,
                self@.dim == before.dim,
                forall|key: NodeKey|
                    #[trigger] self@.contains(key) <==> before.contains(key)
                        || new_children@.contains(key),
                forall|key: NodeKey|
                    #[trigger] before.contains(key) ==> self@.node(key) == before.node(key),
                forall|j: int| 0 <= j < i ==> !before.contains(#[trigger] new_children@[j]),
                forall|j: int|
                    0 <= j < i ==> is_new_child(
                        self@.node(#[trigger] new_children@[j]),
                        before.node(parent_key),
                        parent_key,
                        j,
                        before.dim,
                    ),
            decreases num_children - i,
        {
            let signs = child_position::<D>(i);
            let mut child_pos: Vec<i128> = Vec::new();
            let mut a: usize = 0;
            while a < D
                invariant
                    a <= D,
                    valid_dimension(D),
                    before.dim == D,
                    parent_pos@ == before.node(parent_key).pos,
                    parent_size == before.node(parent_key).size,
                    quart_size * 4 == parent_size,
                    parent_size >= 4,
                    before.shape_wf(before.node(parent_key)),
                    child_pos.len() == a,
                    forall|b: int| 0 <= b < D ==> signs[b] as int == child_sign(i as int, b),
                    forall|b: int|
                        0 <= b < a ==> #[trigger] child_pos@[b] == parent_pos@[b] + toward(
                            child_sign(i as int, b),
                            parent_size / 4,
                        ),
                decreases D - a,
            {
                let ghost p = before.node(parent_key);
                assert(-COORD_LIMIT <= p.pos[a as int] - p.size / 2 && p.pos[a as int] + p.size / 2
                    <= COORD_LIMIT);
                let offset: i128 = if signs[a] < 0 {
                    -quart_size
                } else {
                    quart_size
                };
                child_pos.push(parent_pos[a] + offset);
                a = a + 1;
            }
            let ghost pos_view = child_pos@;
            let world = if direction != Direction::NoDirection {
                assert(before.is_planet());
                map_from_dir_and_local_pos(direction, [child_pos[0], child_pos[1]], parent_world)
            } else {
                parent_world
            };
            let mut child = TreeNode::new(new_size, child_pos, world, direction);
            child.set_parent(parent_key);
            child.depth = parent_depth + 1;
            let ghost child_view = child@;
            let ghost prev = self@;
            let key = arena_insert(&mut self.nodes, child);
            proof {
                let p = before.node(parent_key);
                assert(child_view.world_pos =~= crate::planet_tree_impl::world_of_local(
                    p.direction,
                    pos_view,
                    p.world_pos,
                )) by {
                    if direction != Direction::NoDirection {
                        assert(seq![pos_view[0], pos_view[1]] =~= [pos_view[0], pos_view[1]]@);
                    }
                }
                assert(child_view.neighbor_sizes =~= Seq::new(2 * before.dim, |f: int| UNKNOWN_SIZE));
                assert(is_new_child(child_view, p, parent_key, i as int, before.dim));
                assert(!prev.contains(key));
                assert(!new_children@.contains(key));
                assert(!before.contains(key));
            }
            let ghost old_children = new_children@;
            new_children.push(key);
            proof {
                assert(self@.nodes == prev.nodes.insert(key, child_view));
                assert(new_children@ == old_children.push(key));
                assert forall|k: NodeKey| #[trigger] before.contains(k) implies self@.node(k)
                    == before.node(k) by {
                    assert(prev.node(k) == before.node(k));
                }
                assert forall|k: NodeKey| #[trigger] self@.contains(k) <==> before.contains(k)
                    || new_children@.contains(k) by {
                    assert(prev.contains(k) <==> before.contains(k) || old_children.contains(k));
                    assert(self@.contains(k) <==> prev.contains(k) || k == key);
                    if new_children@.contains(k) {
                        let j = choose|j: int| 0 <= j < new_children@.len() && new_children@[j] == k;
                        if j < i {
                            assert(old_children[j] == k);
                            assert(old_children.contains(k));
                        }
                    }
                    if old_children.contains(k) {
                        let j = choose|j: int| 0 <= j < old_children.len() && old_children[j] == k;
                        assert(new_children@[j] == k);
                    }
                    if k == key {
                        assert(new_children@[i as int] == k);
                    }
                }
                assert forall|j: int| 0 <= j < i + 1 implies is_new_child(
                    self@.node(#[trigger] new_children@[j]),
                    before.node(parent_key),
                    parent_key,
                    j,
                    before.dim,
                ) by {
                    if j < i {
                        assert(old_children[j] == new_children@[j]);
                        assert(old_children.contains(old_children[j]));
                        assert(prev.contains(old_children[j]));
                    }
                }
                assert forall|j: int| 0 <= j < i + 1 implies !before.contains(
                    #[trigger] new_children@[j],
                ) by {
                    if j < i {
                        assert(old_children[j] == new_children@[j]);
                    }
                }
            }
            i = i + 1;
        }
        let keys = copy_keys(&new_children);
        let ghost prev = self@;
        assert(before.contains(parent_key));
        assert(prev.contains(parent_key));
        let parent = arena_index_mut(&mut self.nodes, parent_key);
        parent.set_child_keys(keys);
        proof {
            let after = self@;
            assert(prev.node(parent_key) == before.node(parent_key));
            assert(after.nodes =~= prev.nodes.insert(
                parent_key,
                NodeView { children: Some(new_children@), ..before.node(parent_key) },
            ));
            assert forall|key: NodeKey| #[trigger]
                before.contains(key) && key != parent_key implies after.node(key) == before.node(
                key,
            ) by {
                assert(prev.node(key) == before.node(key));
            }
            assert forall|j: int| 0 <= j < new_children@.len() implies is_new_child(
                after.node(#[trigger] new_children@[j]),
                before.node(parent_key),
                parent_key,
                j,
                before.dim,
            ) by {
                assert(!before.contains(new_children@[j]));
                assert(new_children@[j] != parent_key);
            }
            assert forall|key: NodeKey| #[trigger] after.contains(key) <==> before.contains(key)
                || new_children@.contains(key) by {
                assert(prev.contains(key) <==> before.contains(key) || new_children@.contains(key));
            }
            assert(before.grown(after, parent_key, new_children@));
            before.lemma_grown_wf(after, parent_key, new_children@);
        }
        new_children
    }
}

/// A copy of a list of coordinates.
pub fn copy_coordinates(values: &Vec<i128>) -> (copy: Vec<i128>)
    ensures
        copy@ == values@,
{
    let mut copy: Vec<i128> = Vec::new();
    let mut i: usize = 0;
    while i < values.len()
        invariant
            i <= values.len(),
            copy@ == values@.take(i as int),
        decreases values.len() - i,
    {
        copy.push(values[i]);
        i = i + 1;
        assert(copy@ =~= values@.take(i as int));
    }
    assert(copy@ =~= values@);
    copy
}

/// A copy of a list of keys.
pub fn copy_keys(keys: &Vec<NodeKey>) -> (copy: Vec<NodeKey>)
    ensures
        copy@ == keys@,
{
    let mut copy: Vec<NodeKey> = Vec::new();
    let mut i: usize = 0;
    while i < keys.len()
        invariant
            i <= keys.len(),
            copy@ == keys@.take(i as int),
        decreases keys.len() - i,
    {
        copy.push(keys[i]);
        i = i + 1;
        assert(copy@ =~= keys@.take(i as int));
    }
    assert(copy@ =~= keys@);
    copy
}

} // verus!
