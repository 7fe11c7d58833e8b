//! Refinement: splitting leaves and making branches leaves again.

use vstd::prelude::*;
use crate::arena::{arena_capacity, arena_index, arena_index_mut, arena_remove, NodeKey};
use crate::forest::{Forest, MAX_DEPTH};
use crate::ntree::{copy_coordinates, copy_keys, NTree};
use crate::tree_node::{NodeView, TreeNode};
use crate::tree_traits::{event_views, TreeEvent};

verus! {

/// Appends a list of keys to another.
pub fn append_keys(target: &mut Vec<NodeKey>, keys: &Vec<NodeKey>)
    ensures
        final(target)@ == old(target)@ + keys@,
{
    let mut i: usize = 0;
    while i < keys.len()
        invariant
            i <= keys.len(),
            target@ == old(target)@ + keys@.take(i as int),
        decreases keys.len() - i,
    {
        target.push(keys[i]);
        i = i + 1;
        assert(target@ =~= old(target)@ + keys@.take(i as int));
    }
    assert(keys@.take(keys.len() as int) =~= keys@);
}

impl<const D: usize> NTree<D> {
    /// Makes a node a leaf: takes every node below it out of the arena,
    /// children after what stands below them, and returns the keys of the
    /// nodes that have left. A leaf stays as it is.
    #[verifier::rlimit(40)]
    pub fn remove_children_recursively(&mut self, parent_key: NodeKey) -> (removed: Vec<NodeKey>)
        requires
            old(self)@.wf(),
            old(self)@.contains(parent_key),
        ensures
            final(self)@.wf(),
            final(self)@.is_leaf(parent_key),
            old(self)@.collapsed(final(self)@, parent_key, removed@),
            final(self).slots() == old(self).slots(),
        decreases MAX_DEPTH - old(self)@.node(parent_key).depth,
    {
        let ghost before = self@;
        proof {
            assert(before.node_wf(parent_key));
        }
        let mut removed: Vec<NodeKey> = Vec::new();
        let node = arena_index(&self.nodes, parent_key);
        let children = match node.children() {
            Some(keys) => copy_keys(keys),
            None => {
                proof {
                    before.lemma_leaf_is_empty(parent_key);
                    assert(before.node(parent_key) == (NodeView {
                        children: None,
                        ..before.node(parent_key)
                    }));
                    assert(before.collapsed(before, parent_key, removed@));
                }
                return removed;
            },
        };
        proof {
            before.lemma_collapse_start(children@);
        }
        let mut i: usize = 0;
        while i < children.len()
            invariant
                i <= children.len(),
                before == old(self)@,
                before.wf(),
                before.is_branch(parent_key),
                children@ == before.node(parent_key).children->0,
                children.len() == before.fanout(),
                self@.wf(),
                self.slots() == old(self).slots(),
                before.children_collapsed(self@, children@, i as int, removed@),
            decreases children.len() - i,
        {
            let ghost now = self@;
            let ghost earlier = removed@;
            proof {
                before.lemma_collapse_next_child(now, parent_key, i as int, earlier);
                assert(before.node_wf(parent_key));
                assert(before.contains(children@[i as int]));
                assert(before.node_wf(children@[i as int]));
            }
            let sub = self.remove_children_recursively(children[i]);
            append_keys(&mut removed, &sub);
            proof {
                before.lemma_collapse_step(now, self@, parent_key, i as int, earlier, sub@);
            }
            i = i + 1;
        }
        let ghost now = self@;
        let ghost below = removed@;
        let mut j: usize = 0;
        while j < children.len()
            invariant
                j <= children.len(),
                removed@ == below + children@.take(j as int),
                self.slots() == old(self).slots(),
                forall|k: NodeKey|
                    #![trigger self@.contains(k)]
                    #![trigger now.contains(k)]
                    self@.contains(k) <==> now.contains(k) && !children@.take(j as int).contains(k),
                forall|k: NodeKey| #[trigger] self@.contains(k) ==> self@.node(k) == now.node(k),
                self@.roots == now.roots,
                self@.min_size == now.min_size,
                self@.root_size == now.root_size,
                self@.dim == now.dim,
                self@.starved == now.starved,
            decreases children.len() - j,
        {
            let ghost prev = self@;
            let _ = arena_remove(&mut self.nodes, children[j]);
            removed.push(children[j]);
            proof {
                let head = children@.take(j as int);
                let next = children@.take(j as int + 1);
                assert(next =~= head.push(children@[j as int]));
                assert(removed@ =~= below + next);
                assert forall|k: NodeKey|
                    #![trigger self@.contains(k)]
                    #![trigger now.contains(k)]
                    self@.contains(k) <==> now.contains(k) && !next.contains(k) by {
                    assert(prev.contains(k) <==> now.contains(k) && !head.contains(k));
                    if head.contains(k) {
                        let x = choose|x: int| 0 <= x < head.len() && head[x] == k;
                        assert(next[x] == k);
                    }
                    if next.contains(k) && k != children@[j as int] {
                        let x = choose|x: int| 0 <= x < next.len() && next[x] == k;
                        assert(head[x] == k);
                    }
                    if k == children@[j as int] {
                        assert(next[j as int] == k);
                    }
                }
                assert forall|k: NodeKey| #[trigger] self@.contains(k) implies self@.node(k) == now.node(
                    k,
                ) by {
                    assert(prev.contains(k));
                }
            }
            j = j + 1;
        }
        proof {
            assert(children@.take(children.len() as int) =~= children@);
            before.lemma_collapse_next_child_parent(now, parent_key, below);
            assert(!children@.contains(parent_key)) by {
                if children@.contains(parent_key) {
                    let x = choose|x: int| 0 <= x < children@.len() && children@[x] == parent_key;
                    assert(before.contains(children@[x]));
                    assert(crate::forest::is_child_of(
                        before.node(children@[x]),
                        before.node(parent_key),
                        parent_key,
                        x,
                        before.dim,
                    ));
                }
            }
            assert(self@.contains(parent_key));
        }
        let ghost prev = self@;
        let parent = arena_index_mut(&mut self.nodes, parent_key);
        let _ = parent.take_children();
        proof {
            let after = self@;
            assert(after.nodes =~= prev.nodes.insert(
                parent_key,
                NodeView { children: None, ..now.node(parent_key) },
            ));
            assert forall|k: NodeKey|
                #![trigger after.contains(k)]
                #![trigger now.contains(k)]
                after.contains(k) <==> now.contains(k) && !children@.contains(k) by {
                assert(prev.contains(k) <==> now.contains(k) && !children@.contains(k));
            }
            assert forall|k: NodeKey| #[trigger] after.contains(k) && k != parent_key implies after.node(
                k,
            ) == now.node(k) by {
                assert(prev.contains(k));
            }
            before.lemma_collapse_finish(now, after, parent_key, below);
            before.lemma_collapsed_wf(after, parent_key, removed@);
        }
        removed
    }

    /// Whether the arena can take the children of one more node. The answer
    /// is no only when the arena has room for nearly as many nodes as a slot
    /// map can hold.
    pub fn has_room(&self) -> (room: bool)
        ensures
            room ==> self.slots() + 8 < u32::MAX,
    {
        let capacity = arena_capacity(&self.nodes);
        capacity_leaves_room(capacity)
    }

    /// Puts a node into the arena if the arena has room, and returns its
    /// key; without room the tree stays as it is.
    pub fn try_insert_node(&mut self, node: TreeNode) -> (key: Option<NodeKey>)
        ensures
            match key {
                Some(k) => !old(self)@.contains(k) && final(self)@ == (Forest {
                    nodes: old(self)@.nodes.insert(k, node@),
                    ..old(self)@
                }),
                None => final(self)@ == old(self)@,
            },
    {
        let room = self.has_room();
        self.insert_node_with_room(node, room)
    }

    /// Puts a node into the arena where `room` says that the arena has room
    /// for it, and returns its key; where `room` says that it has none, the
    /// tree stays as it is and there is no key.
    pub fn insert_node_with_room(&mut self, node: TreeNode, room: bool) -> (key: Option<NodeKey>)
        requires
            room ==> old(self).slots() + 8 < u32::MAX,
        ensures
            key is Some == room,
            match key {
                Some(k) => !old(self)@.contains(k) && final(self)@ == (Forest {
                    nodes: old(self)@.nodes.insert(k, node@),
                    ..old(self)@
                }),
                None => final(self)@ == old(self)@,
            },
            final(self).slots() <= old(self).slots() + 1,
    {
        if room {
            Some(self.insert_node(node))
        } else {
            None
        }
    }

    /// Visits one node with the predicate's answer for it: see
    /// [`Forest::visited`]. Returns the nodes to visit next.
    pub fn visit_node(
        &mut self,
        events: &mut Vec<TreeEvent>,
        node_key: NodeKey,
        wanted: bool,
        room: bool,
    ) -> (pending: Vec<NodeKey>)
        requires
            old(self)@.wf(),
            old(self)@.contains(node_key),
            room ==> old(self).slots() + 8 < u32::MAX,
        ensures
            final(self)@.wf(),
            old(self)@.visited(
                final(self)@,
                event_views(old(events)@),
                event_views(final(events)@),
                node_key,
                wanted,
                room,
                pending@,
            ),
    {
        if !wanted {
            self.shrink_event(events, node_key);
            return Vec::new();
        }
        let node = arena_index(&self.nodes, node_key);
        match node.children() {
            Some(keys) => {
                return copy_keys(keys);
            },
            None => {},
        }
        if node.size() <= self.min_size {
            return Vec::new();
        }
        if !room {
            proof {
                self@.lemma_starved_wf(true);
            }
            self.starved = true;
            return Vec::new();
        }
        proof {
            reveal_with_fuel(crate::node_traits::two_pow, 4);
        }
        let parent_pos = copy_coordinates(node.pos());
        let new_children = self.create_children(node_key);
        self.grow_event(events, &parent_pos, node_key, &new_children);
        new_children
    }

    /// Refines the part of the tree at and below a node: asks the predicate
    /// about the node, visits it with the answer, and goes on with the nodes
    /// that the visit hands on, the last of them first.
    #[verifier::rlimit(40)]
    pub fn refine_below<F: Fn(&TreeNode) -> bool>(
        &mut self,
        events: &mut Vec<TreeEvent>,
        node_key: NodeKey,
        f: &F,
    )
        requires
            old(self)@.wf(),
            old(self)@.contains(node_key),
            forall|n: &TreeNode| #[trigger] f.requires((n,)),
        ensures
            old(self)@.refined_below(
                final(self)@,
                node_key,
                *f,
                event_views(old(events)@),
                event_views(final(events)@),
            ),
            old(self)@.walked(
                final(self)@,
                node_key,
                *f,
                event_views(old(events)@),
                event_views(final(events)@),
                (MAX_DEPTH + 1 - old(self)@.node(node_key).depth) as nat,
            ),
        decreases MAX_DEPTH - old(self)@.node(node_key).depth,
    {
        let ghost before = self@;
        let ghost earlier = event_views(events@);
        let node = arena_index(&self.nodes, node_key);
        let wanted = f(node);
        let ghost seen = *node;
        let room = self.has_room();
        let pending = self.visit_node(events, node_key, wanted, room);
        let ghost mid = self@;
        let ghost halfway = event_views(events@);
        let ghost levels = (MAX_DEPTH - before.node(node_key).depth) as nat;
        let ghost visit = crate::walk::Visit {
            seen,
            wanted,
            room,
            mid,
            mid_events: halfway,
            pending: pending@,
        };
        proof {
            assert(before.node_wf(node_key));
            assert(before.visit_fits(visit, node_key, *f, earlier));
            before.lemma_visit_start(
                mid,
                earlier,
                event_views(events@),
                node_key,
                seen,
                wanted,
                room,
                pending@,
                *f,
            );
        }
        let mut i: usize = pending.len();
        while i > 0
            invariant
                i <= pending.len(),
                before == old(self)@,
                before.wf(),
                before.contains(node_key),
                mid.node(node_key).depth == before.node(node_key).depth,
                pending.len() > 0 ==> mid.node(node_key).children == Some(pending@),
                mid.children_refined(
                    self@,
                    node_key,
                    pending@,
                    i as int,
                    *f,
                    halfway,
                    event_views(events@),
                ),
                levels == MAX_DEPTH - before.node(node_key).depth,
                mid.walked_from(
                    self@,
                    pending@,
                    i as int,
                    *f,
                    halfway,
                    event_views(events@),
                    levels,
                ),
                forall|n: &TreeNode| #[trigger] f.requires((n,)),
            decreases i,
        {
            let ghost now = self@;
            let ghost events_now = event_views(events@);
            proof {
                assert(now.node_wf(node_key));
                assert(now.contains(pending@[i - 1]));
                assert(crate::forest::is_child_of(
                    now.node(pending@[i - 1]),
                    now.node(node_key),
                    node_key,
                    i - 1,
                    now.dim,
                ));
                assert(now.node_wf(pending@[i - 1]));
            }
            i = i - 1;
            self.refine_below(events, pending[i], f);
            proof {
                mid.lemma_visit_step(
                    now,
                    self@,
                    node_key,
                    pending@,
                    i + 1,
                    *f,
                    halfway,
                    events_now,
                    event_views(events@),
                );
                mid.lemma_walked_from_step(
                    now,
                    self@,
                    pending@,
                    i as int,
                    *f,
                    halfway,
                    events_now,
                    event_views(events@),
                    levels,
                );
            }
        }
        proof {
            before.lemma_visit_finish(
                mid,
                self@,
                node_key,
                pending@,
                *f,
                earlier,
                halfway,
                event_views(events@),
            );
            before.lemma_walked_intro(
                self@,
                node_key,
                *f,
                earlier,
                event_views(events@),
                levels + 1,
                visit,
            );
        }
    }

    /// A refinement pass: asks the predicate about the roots and about every
    /// node below a node that it has said yes to, splits the leaves it says
    /// yes to as long as they are larger than the smallest size, and makes
    /// the branches it says no to leaves. Returns what it has done.
    #[verifier::rlimit(40)]
    pub fn insert<F: Fn(&TreeNode) -> bool>(&mut self, f: F) -> (events: Vec<TreeEvent>)
        requires
            old(self)@.wf(),
            forall|n: &TreeNode| #[trigger] f.requires((n,)),
        ensures
            old(self)@.refined(final(self)@, f, event_views(events@)),
            crate::events_law::events_fit(final(self)@, event_views(events@)),
    {
        let ghost before = self@;
        proof {
            before.lemma_starved_wf(false);
        }
        self.starved = false;
        let ghost start = self@;
        let mut events: Vec<TreeEvent> = Vec::new();
        assert(event_views(events@) =~= Seq::empty());
        let roots = self.root_items();
        let mut i: usize = roots.len();
        while i > 0
            invariant
                i <= roots.len(),
                roots@ == start.roots,
                start.wf(),
                start.roots_refined(self@, i as int, f, event_views(events@)),
                start.walked_from(
                    self@,
                    roots@,
                    i as int,
                    f,
                    Seq::empty(),
                    event_views(events@),
                    (MAX_DEPTH + 1) as nat,
                ),
                forall|n: &TreeNode| #[trigger] f.requires((n,)),
            decreases i,
        {
            let ghost now = self@;
            let ghost events_now = event_views(events@);
            proof {
                assert(now.contains(now.roots[i - 1]));
                assert(now.node_wf(now.roots[i - 1]));
            }
            i = i - 1;
            self.refine_below(&mut events, roots[i], &f);
            proof {
                start.lemma_root_step(now, self@, i + 1, f, events_now, event_views(events@));
                start.lemma_walked_from_step(
                    now,
                    self@,
                    roots@,
                    i as int,
                    f,
                    Seq::empty(),
                    events_now,
                    event_views(events@),
                    (MAX_DEPTH + 1) as nat,
                );
            }
        }
        proof {
            before.lemma_roots_finish(start, self@, f, event_views(events@));
            before.law_events_tell(self@, f, event_views(events@));
        }
        events
    }
}

/// The count of nodes that a slot map must report room for, at the least,
/// before a tree stops taking the children of one more node.
pub const ROOM_LIMIT: usize = 0xFFFF_FF00;

/// Whether an arena that reports room for `capacity` nodes can take the
/// children of one more node: it can as long as the capacity lies below
/// [`ROOM_LIMIT`].
pub fn capacity_leaves_room(capacity: usize) -> (room: bool)
    ensures
        room == (capacity < ROOM_LIMIT),
{
    capacity < ROOM_LIMIT
}

} // verus!
