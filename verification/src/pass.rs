//! What a refinement pass leaves behind.

use vstd::prelude::*;
use crate::arena::NodeKey;
use crate::events::{grow_recorded, shrink_recorded};
use crate::forest::{is_child_of, Forest, MAX_DEPTH};
use crate::tree_node::{NodeView, TreeNode};
use crate::tree_traits::EventView;

verus! {

impl Forest {
    /// The key is `top`, or its node lies inside the node of `top`.
    pub open spec fn at_or_inside(self, key: NodeKey, top: NodeKey) -> bool {
        key == top || self.node(key).inside(self.node(top))
    }

    /// The node under `key` is as the answer to `seen` asks for. `seen` is
    /// the node as it was shown, which differs from the node as it is now in
    /// its children at most. After a yes a branch has kept its children, and
    /// a leaf has been split unless it is not larger than the smallest size
    /// or the arena was full. After a no the node is a leaf.
    pub open spec fn follows(self, key: NodeKey, seen: NodeView, answer: bool) -> bool {
        let n = self.node(key);
        &&& n == (NodeView { children: n.children, ..seen })
        &&& if answer {
            match seen.children {
                Some(keys) => n.children == Some(keys),
                None => n.children is Some || n.size <= self.min_size || self.starved,
            }
        } else {
            n.children is None
        }
    }

    /// The predicate has been asked about the node under `key`, and the node
    /// is as its answer asks for.
    pub open spec fn decided<F: Fn(&TreeNode) -> bool>(self, f: F, key: NodeKey) -> bool {
        exists|seen: TreeNode, answer: bool| #[trigger]
            f.ensures((&seen,), answer) && self.follows(key, seen@, answer)
    }

    /// Whatever the predicate answers about the node as it stands, the node
    /// is as the answer asks for already: a pass has nothing to do at it.
    pub open spec fn settled_at<F: Fn(&TreeNode) -> bool>(self, f: F, key: NodeKey) -> bool {
        forall|seen: TreeNode, answer: bool|
            seen@ == self.node(key) && #[trigger] f.ensures((&seen,), answer) ==> if answer {
                self.node(key).children is Some || self.node(key).size <= self.min_size
            } else {
                self.node(key).children is None
            }
    }

    /// A pass has nothing to do at or below a node.
    pub open spec fn settled_below<F: Fn(&TreeNode) -> bool>(self, f: F, top: NodeKey) -> bool {
        forall|k: NodeKey|
            #[trigger] self.contains(k) && self.at_or_inside(k, top) ==> self.settled_at(f, k)
    }

    /// A pass has nothing to do anywhere in the tree.
    pub open spec fn settled<F: Fn(&TreeNode) -> bool>(self, f: F) -> bool {
        forall|k: NodeKey| #[trigger] self.contains(k) ==> self.settled_at(f, k)
    }

    /// The two trees have the same roots and sizes, and the later one is
    /// starved if the earlier one is.
    pub open spec fn same_frame(self, after: Forest) -> bool {
        &&& after.roots == self.roots
        &&& after.min_size == self.min_size
        &&& after.root_size == self.root_size
        &&& after.dim == self.dim
        &&& self.starved ==> after.starved
    }

    /// `after` is this tree with the part at and below `key` refined: the
    /// tree is well formed, what lies elsewhere is as it was, and every node
    /// at or below `key` is as the predicate's answer asks for. Where the
    /// pass had nothing to do, the tree is as it was and no event has been
    /// added.
    pub open spec fn refined_below<F: Fn(&TreeNode) -> bool>(
        self,
        after: Forest,
        key: NodeKey,
        f: F,
        events: Seq<EventView>,
        events_after: Seq<EventView>,
    ) -> bool {
        &&& self.settled_below(f, key) ==> after == self && events_after == events
        &&& after.wf()
        &&& self.same_frame(after)
        &&& after.contains(key)
        &&& after.node(key) == (NodeView { children: after.node(key).children, ..self.node(key) })
        &&& forall|k: NodeKey|
            #[trigger] self.contains(k) && !self.at_or_inside(k, key) ==> after.contains(k)
                && after.node(k) == self.node(k)
        &&& forall|k: NodeKey|
            #[trigger] after.contains(k) && !after.at_or_inside(k, key) ==> self.contains(k)
                && after.node(k) == self.node(k)
        &&& forall|k: NodeKey|
            #[trigger] after.contains(k) && after.at_or_inside(k, key) ==> after.decided(f, k)
    }

    /// What one visit does. `wanted` is the predicate's answer for the node
    /// under `key`, and `room` says whether the arena can take the children
    /// of one more node. After a no the node is made a leaf. After a yes a
    /// branch hands on its children; a leaf that is larger than the smallest
    /// size is split if there is room, and marks the tree as starved if
    /// there is none; any other leaf stays as it is. `pending` are the nodes
    /// to visit next.
    pub open spec fn visited(
        self,
        after: Forest,
        events: Seq<EventView>,
        events_after: Seq<EventView>,
        key: NodeKey,
        wanted: bool,
        room: bool,
        pending: Seq<NodeKey>,
    ) -> bool {
        let n = self.node(key);
        if !wanted {
            pending.len() == 0 && shrink_recorded(self, after, events, events_after, key)
        } else if n.children is Some {
            after == self && events_after == events && pending == n.children->0
        } else if n.size <= self.min_size {
            after == self && events_after == events && pending.len() == 0
        } else if !room {
            after == (Forest { starved: true, ..self }) && events_after == events && pending.len()
                == 0
        } else {
            self.grown(after, key, pending) && events_after == grow_recorded(
                after,
                events,
                n.pos,
                key,
                pending,
            )
        }
    }

    /// The state while the children of `key` are visited, last child first:
    /// `mid` is the tree after the visit of `key`, and the children from
    /// place `count` on have been visited.
    pub open spec fn children_refined<F: Fn(&TreeNode) -> bool>(
        self,
        now: Forest,
        key: NodeKey,
        pending: Seq<NodeKey>,
        count: int,
        f: F,
        events: Seq<EventView>,
        events_now: Seq<EventView>,
    ) -> bool {
        &&& self.settled_below(f, key) ==> now == self && events_now == events
        &&& now.wf()
        &&& self.same_frame(now)
        &&& now.contains(key)
        &&& now.node(key) == self.node(key)
        &&& forall|k: NodeKey|
            #[trigger] self.contains(k) && !self.node(k).inside(self.node(key)) ==> now.contains(k)
                && now.node(k) == self.node(k)
        &&& forall|k: NodeKey|
            #[trigger] now.contains(k) && !now.node(k).inside(now.node(key)) ==> self.contains(k)
                && now.node(k) == self.node(k)
        &&& forall|j: int, k: NodeKey|
            count <= j < pending.len() && #[trigger] now.contains(k) && #[trigger] now.at_or_inside(
                k,
                pending[j],
            ) ==> now.decided(f, k)
    }

    /// Making a leaf a leaf changes nothing.
    pub proof fn lemma_collapse_of_leaf(self, after: Forest, key: NodeKey)
        requires
            self.wf(),
            self.is_leaf(key),
            self.collapsed(after, key, Seq::empty()),
        ensures
            after == self,
    {
        self.lemma_leaf_is_empty(key);
        assert forall|k: NodeKey| after.nodes.dom().contains(k) == self.nodes.dom().contains(k) by {
            assert(after.contains(k) <==> self.contains(k) && !self.node(k).inside(self.node(key)));
        }
        assert(after.nodes.dom() =~= self.nodes.dom());
        assert forall|k: NodeKey| after.nodes.dom().contains(k) implies #[trigger] after.nodes[k]
            == self.nodes[k] by {
            assert(after.contains(k));
            if k != key {
                assert(after.node(k) == self.node(k));
            } else {
                assert(after.node(key) == (NodeView { children: None, ..self.node(key) }));
            }
        }
        assert(after.nodes =~= self.nodes);
        assert(after =~~= self);
    }

    /// A decision stays good as long as the node and the sizes stay the same
    /// and the tree does not stop being starved.
    pub proof fn lemma_decided_persists<F: Fn(&TreeNode) -> bool>(
        self,
        after: Forest,
        f: F,
        key: NodeKey,
    )
        requires
            self.decided(f, key),
            after.node(key) == self.node(key),
            after.min_size == self.min_size,
            self.starved ==> after.starved,
        ensures
            after.decided(f, key),
    {
        let (seen, answer) = choose|seen: TreeNode, answer: bool| #[trigger]
            f.ensures((&seen,), answer) && self.follows(key, seen@, answer);
        assert(f.ensures((&seen,), answer) && after.follows(key, seen@, answer));
    }

    /// After the visit of a node the node is as the answer asks for, and what
    /// lies elsewhere is as it was.
    #[verifier::rlimit(40)]
    pub proof fn lemma_visit_start<F: Fn(&TreeNode) -> bool>(
        self,
        mid: Forest,
        events: Seq<EventView>,
        events_after: Seq<EventView>,
        key: NodeKey,
        seen: TreeNode,
        wanted: bool,
        room: bool,
        pending: Seq<NodeKey>,
        f: F,
    )
        requires
            self.wf(),
            mid.wf(),
            self.contains(key),
            seen@ == self.node(key),
            f.ensures((&seen,), wanted),
            self.visited(mid, events, events_after, key, wanted, room, pending),
        ensures
            mid.children_refined(mid, key, pending, pending.len() as int, f, events_after, events_after),
            self.settled_below(f, key) ==> mid == self && events_after == events,
            mid.decided(f, key),
            self.same_frame(mid),
            mid.node(key) == (NodeView { children: mid.node(key).children, ..self.node(key) }),
            pending.len() > 0 ==> mid.node(key).children == Some(pending),
            forall|k: NodeKey|
                #[trigger] self.contains(k) && !self.at_or_inside(k, key) ==> mid.contains(k)
                    && mid.node(k) == self.node(k),
            forall|k: NodeKey|
                #[trigger] mid.contains(k) && !mid.at_or_inside(k, key) ==> self.contains(k)
                    && mid.node(k) == self.node(k),
    {
        let n = self.node(key);
        assert(self.node_wf(key));
        if self.settled_below(f, key) {
            assert(self.settled_at(f, key));
            assert(f.ensures((&seen,), wanted));
            if !wanted {
                assert(self.is_leaf(key));
                self.lemma_collapse_of_leaf(mid, key);
            }
        }
        if !wanted {
            if self.is_leaf(key) {
                self.lemma_collapsed_wf(mid, key, Seq::empty());
            } else {
                let removed = events_after.last()->Shrunk_removed;
                self.lemma_collapsed_wf(mid, key, removed);
            }
            assert(!n.inside(n));
            assert(mid.contains(key));
        } else if n.children is Some {
        } else if n.size <= self.min_size {
        } else if !room {
        } else {
            assert(mid.contains(key));
            assert forall|k: NodeKey| #[trigger]
                mid.contains(k) && !mid.at_or_inside(k, key) implies self.contains(k) && mid.node(k)
                == self.node(k) by {
                if pending.contains(k) {
                    let i = choose|i: int| 0 <= i < pending.len() && pending[i] == k;
                    assert(mid.node_wf(key));
                    assert(is_child_of(mid.node(pending[i]), mid.node(key), key, i, mid.dim));
                    mid.lemma_inside_parent(k);
                }
            }
        }
        assert(f.ensures((&seen,), wanted) && mid.follows(key, seen@, wanted));
    }

    /// While the children of a node are visited, what lies outside the node
    /// stays as it was.
    #[verifier::rlimit(40)]
    pub proof fn lemma_visit_step_frame<F: Fn(&TreeNode) -> bool>(
        self,
        now: Forest,
        next: Forest,
        key: NodeKey,
        pending: Seq<NodeKey>,
        count: int,
        f: F,
        events: Seq<EventView>,
        events_now: Seq<EventView>,
        events_next: Seq<EventView>,
    )
        requires
            self.children_refined(now, key, pending, count, f, events, events_now),
            0 < count <= pending.len(),
            now.node(key).children == Some(pending),
            now.refined_below(next, pending[count - 1], f, events_now, events_next),
        ensures
            next.contains(key),
            next.node(key) == self.node(key),
            forall|k: NodeKey|
                #[trigger] self.contains(k) && !self.node(k).inside(self.node(key))
                    ==> next.contains(k) && next.node(k) == self.node(k),
            forall|k: NodeKey|
                #[trigger] next.contains(k) && !next.node(k).inside(next.node(key))
                    ==> self.contains(k) && next.node(k) == self.node(k),
    {
        let c = pending[count - 1];
        assert(now.node_wf(key));
        assert(now.contains(c));
        assert(is_child_of(now.node(c), now.node(key), key, count - 1, now.dim));
        now.lemma_inside_parent(c);
        assert(!now.at_or_inside(key, c));
        assert(next.node(key) == now.node(key));
        assert forall|k: NodeKey| #[trigger]
            self.contains(k) && !self.node(k).inside(self.node(key)) implies next.contains(k)
            && next.node(k) == self.node(k) by {
            assert(now.contains(k) && now.node(k) == self.node(k));
            if now.at_or_inside(k, c) {
                now.lemma_at_or_inside_child(key, count - 1, k);
            }
        }
        assert forall|k: NodeKey| #[trigger]
            next.contains(k) && !next.node(k).inside(next.node(key)) implies self.contains(k)
            && next.node(k) == self.node(k) by {
            if next.at_or_inside(k, c) {
                next.lemma_at_or_inside_child(key, count - 1, k);
            }
            assert(now.contains(k) && next.node(k) == now.node(k));
        }
    }

    /// While the children of a node are visited, the decisions below the
    /// children that have been visited stay good.
    #[verifier::rlimit(40)]
    pub proof fn lemma_visit_step_decided<F: Fn(&TreeNode) -> bool>(
        self,
        now: Forest,
        next: Forest,
        key: NodeKey,
        pending: Seq<NodeKey>,
        count: int,
        f: F,
        events: Seq<EventView>,
        events_now: Seq<EventView>,
        events_next: Seq<EventView>,
        j: int,
        k: NodeKey,
    )
        requires
            self.children_refined(now, key, pending, count, f, events, events_now),
            0 < count <= pending.len(),
            now.node(key).children == Some(pending),
            now.refined_below(next, pending[count - 1], f, events_now, events_next),
            count - 1 <= j < pending.len(),
            next.contains(k),
            next.at_or_inside(k, pending[j]),
        ensures
            next.decided(f, k),
    {
        let c = pending[count - 1];
        assert(now.node_wf(key));
        assert(now.contains(c));
        assert(!now.at_or_inside(key, c)) by {
            assert(is_child_of(now.node(c), now.node(key), key, count - 1, now.dim));
        }
        assert(next.node(key) == now.node(key));
        if j != count - 1 {
            let s = pending[j];
            assert(next.node_wf(key));
            assert(next.contains(s));
            assert(next.contains(c));
            if next.at_or_inside(k, c) {
                next.lemma_parts_apart(key, j, count - 1, k);
            }
            assert(now.contains(k) && next.node(k) == now.node(k));
            assert(now.contains(s));
            if now.at_or_inside(s, c) {
                now.lemma_parts_apart(key, j, count - 1, s);
            }
            assert(next.node(s) == now.node(s));
            assert(now.at_or_inside(k, s));
            assert(now.decided(f, k));
            now.lemma_decided_persists(next, f, k);
        }
    }

    /// After the visit of the next child its part of the tree is refined as
    /// well.
    #[verifier::rlimit(40)]
    pub proof fn lemma_visit_step<F: Fn(&TreeNode) -> bool>(
        self,
        now: Forest,
        next: Forest,
        key: NodeKey,
        pending: Seq<NodeKey>,
        count: int,
        f: F,
        events: Seq<EventView>,
        events_now: Seq<EventView>,
        events_next: Seq<EventView>,
    )
        requires
            self.children_refined(now, key, pending, count, f, events, events_now),
            0 < count <= pending.len(),
            now.node(key).children == Some(pending),
            now.refined_below(next, pending[count - 1], f, events_now, events_next),
        ensures
            self.children_refined(next, key, pending, count - 1, f, events, events_next),
    {
        let c = pending[count - 1];
        if self.settled_below(f, key) {
            assert(now == self);
            assert(now.settled_below(f, c)) by {
                assert forall|k: NodeKey| #[trigger]
                    now.contains(k) && now.at_or_inside(k, c) implies now.settled_at(f, k) by {
                    now.lemma_at_or_inside_child(key, count - 1, k);
                }
            }
        }
        self.lemma_visit_step_frame(
            now,
            next,
            key,
            pending,
            count,
            f,
            events,
            events_now,
            events_next,
        );
        assert forall|j: int, k: NodeKey|
            count - 1 <= j < pending.len() && #[trigger] next.contains(k) && #[trigger] next.at_or_inside(
                k,
                pending[j],
            ) implies next.decided(f, k) by {
            self.lemma_visit_step_decided(
                now,
                next,
                key,
                pending,
                count,
                f,
                events,
                events_now,
                events_next,
                j,
                k,
            );
        }
    }

    /// What lies at or inside a child of a branch lies inside the branch.
    pub proof fn lemma_at_or_inside_child(self, key: NodeKey, index: int, k: NodeKey)
        requires
            self.wf(),
            self.is_branch(key),
            0 <= index < self.fanout(),
            self.contains(k),
            self.at_or_inside(k, self.node(key).children->0[index]),
        ensures
            self.node(k).inside(self.node(key)),
    {
        assert(self.node_wf(key));
        let child = self.node(key).children->0[index];
        assert(self.contains(self.node(key).children->0[index]));
        assert(is_child_of(self.node(child), self.node(key), key, index, self.dim));
        self.lemma_inside_parent(child);
        let n = self.node(k);
        let c = self.node(child);
        let t = self.node(key);
        if k != child {
            assert forall|a: int| 0 <= a < n.pos.len() implies t.pos[a] - t.size / 2
                <= #[trigger] n.pos[a] - n.size / 2 && n.pos[a] + n.size / 2 <= t.pos[a] + t.size / 2 by {
                assert(c.pos[a] - c.size / 2 <= n.pos[a] - n.size / 2 && n.pos[a] + n.size / 2
                    <= c.pos[a] + c.size / 2);
                assert(t.pos[a] - t.size / 2 <= c.pos[a] - c.size / 2 && c.pos[a] + c.size / 2
                    <= t.pos[a] + t.size / 2);
            }
        }
    }

    /// A node lies at or inside one child of a branch at most.
    pub proof fn lemma_parts_apart(self, key: NodeKey, i: int, j: int, k: NodeKey)
        requires
            self.wf(),
            self.is_branch(key),
            0 <= i < self.fanout(),
            0 <= j < self.fanout(),
            self.contains(k),
            self.at_or_inside(k, self.node(key).children->0[i]),
            self.at_or_inside(k, self.node(key).children->0[j]),
        ensures
            i == j,
    {
        let keys = self.node(key).children->0;
        assert(self.node_wf(key));
        assert(self.contains(keys[i]));
        assert(self.contains(keys[j]));
        self.lemma_children_distinct(key);
        let a = self.node(keys[i]);
        let b = self.node(keys[j]);
        let n = self.node(k);
        assert(self.node_wf(k));
        assert(self.node_wf(keys[i]));
        assert(self.node_wf(keys[j]));
        self.lemma_child_box(key, i, 0);
        self.lemma_child_box(key, j, 0);
        assert(a.overlaps(b)) by {
            assert forall|x: int| 0 <= x < a.pos.len() implies #[trigger] a.pos[x] - a.size / 2
                < b.pos[x] + b.size / 2 && b.pos[x] - b.size / 2 < a.pos[x] + a.size / 2 by {
                if k != keys[i] {
                    assert(a.pos[x] - a.size / 2 <= n.pos[x] - n.size / 2 && n.pos[x] + n.size / 2
                        <= a.pos[x] + a.size / 2);
                }
                if k != keys[j] {
                    assert(b.pos[x] - b.size / 2 <= n.pos[x] - n.size / 2 && n.pos[x] + n.size / 2
                        <= b.pos[x] + b.size / 2);
                }
            }
        }
        self.lemma_siblings_apart(key, i, j);
    }

    /// When all children have been visited, the part at and below the node
    /// is refined.
    #[verifier::rlimit(40)]
    pub proof fn lemma_visit_finish<F: Fn(&TreeNode) -> bool>(
        self,
        mid: Forest,
        after: Forest,
        key: NodeKey,
        pending: Seq<NodeKey>,
        f: F,
        events: Seq<EventView>,
        events_mid: Seq<EventView>,
        events_after: Seq<EventView>,
    )
        requires
            self.wf(),
            self.contains(key),
            mid.children_refined(after, key, pending, 0, f, events_mid, events_after),
            self.settled_below(f, key) ==> mid == self && events_mid == events,
            mid.decided(f, key),
            self.same_frame(mid),
            mid.node(key) == (NodeView { children: mid.node(key).children, ..self.node(key) }),
            mid.node(key).children is Some ==> mid.node(key).children == Some(pending),
            forall|k: NodeKey|
                #[trigger] self.contains(k) && !self.at_or_inside(k, key) ==> mid.contains(k)
                    && mid.node(k) == self.node(k),
            forall|k: NodeKey|
                #[trigger] mid.contains(k) && !mid.at_or_inside(k, key) ==> self.contains(k)
                    && mid.node(k) == self.node(k),
        ensures
            self.refined_below(after, key, f, events, events_after),
    {
        assert forall|k: NodeKey| #[trigger]
            self.contains(k) && !self.at_or_inside(k, key) implies after.contains(k) && after.node(k)
            == self.node(k) by {
            assert(mid.contains(k) && mid.node(k) == self.node(k));
            assert(!mid.node(k).inside(mid.node(key)));
        }
        assert forall|k: NodeKey| #[trigger]
            after.contains(k) && !after.at_or_inside(k, key) implies self.contains(k) && after.node(k)
            == self.node(k) by {
            assert(mid.contains(k) && after.node(k) == mid.node(k));
            assert(!mid.at_or_inside(k, key));
        }
        assert forall|k: NodeKey| #[trigger]
            after.contains(k) && after.at_or_inside(k, key) implies after.decided(f, k) by {
            if k == key {
                mid.lemma_decided_persists(after, f, key);
            } else {
                after.lemma_inside_overlaps(k, key);
                after.lemma_overlap_is_inside(k, key);
                after.lemma_inside_branch(key, k);
                let keys = after.node(key).children->0;
                assert(keys == pending);
                if keys.contains(k) {
                    let j = choose|j: int| 0 <= j < keys.len() && keys[j] == k;
                    assert(after.at_or_inside(k, pending[j]));
                } else {
                    let j = choose|j: int|
                        0 <= j < keys.len() && after.node(k).inside(#[trigger] after.node(keys[j]));
                    assert(after.at_or_inside(k, pending[j]));
                }
            }
        }
    }

    /// `after` is this tree after a refinement pass with the given events.
    /// The pass takes the tree for not starved, and goes over the roots, the
    /// last root first, as [`Forest::walked_from`] says. After it the tree is
    /// well formed, has the same roots and sizes, and every node is as the
    /// predicate's answer asks for. If the pass had nothing to do, the tree
    /// is as it was and there are no events.
    pub open spec fn refined<F: Fn(&TreeNode) -> bool>(
        self,
        after: Forest,
        f: F,
        events: Seq<EventView>,
    ) -> bool {
        &&& self.settled(f) ==> after == (Forest { starved: false, ..self }) && events.len() == 0
        &&& (Forest { starved: false, ..self }).walked_from(
            after,
            self.roots,
            0,
            f,
            Seq::empty(),
            events,
            (MAX_DEPTH + 1) as nat,
        )
        &&& after.wf()
        &&& after.roots == self.roots
        &&& after.min_size == self.min_size
        &&& after.root_size == self.root_size
        &&& after.dim == self.dim
        &&& forall|i: int|
            0 <= i < self.roots.len() ==> (#[trigger] after.node(self.roots[i])) == (NodeView {
                children: after.node(self.roots[i]).children,
                ..self.node(self.roots[i])
            })
        &&& forall|k: NodeKey| #[trigger] after.contains(k) ==> after.decided(f, k)
    }

    /// The state while the roots are refined, last root first: the roots
    /// from place `count` on have been refined.
    pub open spec fn roots_refined<F: Fn(&TreeNode) -> bool>(
        self,
        now: Forest,
        count: int,
        f: F,
        events_now: Seq<EventView>,
    ) -> bool {
        &&& self.settled(f) ==> now == self && events_now.len() == 0
        &&& now.wf()
        &&& self.same_frame(now)
        &&& forall|i: int|
            0 <= i < self.roots.len() ==> (#[trigger] now.node(self.roots[i])) == (NodeView {
                children: now.node(self.roots[i]).children,
                ..self.node(self.roots[i])
            })
        &&& forall|j: int, k: NodeKey|
            count <= j < self.roots.len() && #[trigger] now.contains(k) && #[trigger] now.at_or_inside(
                k,
                self.roots[j],
            ) ==> now.decided(f, k)
    }

    /// Refining the next root goes one step further.
    #[verifier::rlimit(40)]
    pub proof fn lemma_root_step<F: Fn(&TreeNode) -> bool>(
        self,
        now: Forest,
        next: Forest,
        count: int,
        f: F,
        events_now: Seq<EventView>,
        events_next: Seq<EventView>,
    )
        requires
            self.wf(),
            self.roots_refined(now, count, f, events_now),
            0 < count <= self.roots.len(),
            now.refined_below(next, self.roots[count - 1], f, events_now, events_next),
        ensures
            self.roots_refined(next, count - 1, f, events_next),
    {
        let r = self.roots[count - 1];
        if self.settled(f) {
            assert(now == self);
            assert(now.settled_below(f, r));
        }
        assert forall|i: int| 0 <= i < self.roots.len() implies (#[trigger] next.node(self.roots[i]))
            == (NodeView { children: next.node(self.roots[i]).children, ..self.node(self.roots[i]) }) by {
            let s = self.roots[i];
            assert(now.contains(now.roots[i]));
            assert(now.contains(now.roots[count - 1]));
            assert(now.node(s) == (NodeView { children: now.node(s).children, ..self.node(s) }));
            if s != r {
                assert(now.node_wf(s));
                assert(now.node_wf(r));
                assert(!now.at_or_inside(s, r));
            }
        }
        assert forall|j: int, k: NodeKey|
            count - 1 <= j < self.roots.len() && #[trigger] next.contains(k) && #[trigger] next.at_or_inside(
                k,
                self.roots[j],
            ) implies next.decided(f, k) by {
            if j != count - 1 {
                let s = self.roots[j];
                assert(next.contains(next.roots[j]));
                assert(next.contains(next.roots[count - 1]));
                assert(now.contains(now.roots[j]));
                assert(now.contains(now.roots[count - 1]));
                assert(next.node_wf(s));
                assert(next.node_wf(r));
                assert(next.node_wf(k));
                if next.at_or_inside(k, r) {
                    if next.is_planet() {
                        assert(next.node(s).direction != next.node(r).direction);
                    } else {
                        assert(j == 0 && count - 1 == 0);
                    }
                    assert(false);
                }
                assert(now.contains(k) && next.node(k) == now.node(k));
                assert(now.node_wf(s));
                assert(now.node_wf(r));
                assert(!now.at_or_inside(s, r));
                assert(next.node(s) == now.node(s));
                assert(now.at_or_inside(k, s));
                now.lemma_decided_persists(next, f, k);
            }
        }
    }

    /// When all roots have been refined, the pass is done.
    pub proof fn lemma_roots_finish<F: Fn(&TreeNode) -> bool>(
        self,
        start: Forest,
        after: Forest,
        f: F,
        events: Seq<EventView>,
    )
        requires
            self.wf(),
            start == (Forest { starved: false, ..self }),
            start.roots_refined(after, 0, f, events),
            start.walked_from(after, self.roots, 0, f, Seq::empty(), events, (MAX_DEPTH + 1) as nat),
        ensures
            self.refined(after, f, events),
    {
        if self.settled(f) {
            assert(start.settled(f)) by {
                assert forall|k: NodeKey| #[trigger] start.contains(k) implies start.settled_at(f, k) by {
                    assert(self.contains(k));
                    assert(self.settled_at(f, k));
                }
            }
        }
        assert forall|k: NodeKey| #[trigger] after.contains(k) implies after.decided(f, k) by {
            let i = after.lemma_under_root(k);
            assert(after.at_or_inside(k, start.roots[i]));
        }
        assert forall|i: int| 0 <= i < self.roots.len() implies (#[trigger] after.node(self.roots[i]))
            == (NodeView { children: after.node(self.roots[i]).children, ..self.node(self.roots[i]) }) by {
            assert(after.node(start.roots[i]) == (NodeView {
                children: after.node(start.roots[i]).children,
                ..start.node(start.roots[i])
            }));
        }
    }
}

} // verus!
