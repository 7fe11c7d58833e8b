//! The course of a refinement pass, visit by visit.

use vstd::prelude::*;
use crate::arena::NodeKey;
use crate::forest::Forest;
use crate::tree_node::TreeNode;
use crate::tree_traits::EventView;

verus! {

/// What is known of one visit: the node as it was shown to the predicate,
/// the predicate's answer, whether the arena had room, the tree and the
/// events after the visit, and the nodes that the visit has handed on.
pub struct Visit {
    pub seen: TreeNode,
    pub wanted: bool,
    pub room: bool,
    pub mid: Forest,
    pub mid_events: Seq<EventView>,
    pub pending: Seq<NodeKey>,
}

/// A state in the course of a pass: the tree and the events so far.
pub struct Stage {
    pub tree: Forest,
    pub events: Seq<EventView>,
}

impl Forest {
    /// `visit` is a visit of the node under `key` in this tree, with the
    /// given events before it.
    pub open spec fn visit_fits<F: Fn(&TreeNode) -> bool>(
        self,
        visit: Visit,
        key: NodeKey,
        f: F,
        events: Seq<EventView>,
    ) -> bool {
        &&& visit.seen@ == self.node(key)
        &&& f.ensures((&visit.seen,), visit.wanted)
        &&& self.visited(
            visit.mid,
            events,
            visit.mid_events,
            key,
            visit.wanted,
            visit.room,
            visit.pending,
        )
    }

    /// `after` and `events_after` are what the pass makes of this tree and
    /// of `events` at and below the node under `key`: the node is shown to
    /// the predicate and visited with the answer, and then the pass goes on
    /// in the same way at the nodes that the visit has handed on, the last of
    /// them first. What this leaves is as [`Forest::refined_below`] says.
    /// `levels` bounds the levels that the pass goes down.
    pub open spec fn walked<F: Fn(&TreeNode) -> bool>(
        self,
        after: Forest,
        key: NodeKey,
        f: F,
        events: Seq<EventView>,
        events_after: Seq<EventView>,
        levels: nat,
    ) -> bool
        decreases levels, 0nat,
    {
        levels > 0 && self.refined_below(after, key, f, events, events_after) && exists|
            visit: Visit,
        |
            #![trigger self.visit_fits(visit, key, f, events)]
            self.visit_fits(visit, key, f, events) && visit.mid.wf() && visit.mid.walked_from(
                after,
                visit.pending,
                0,
                f,
                visit.mid_events,
                events_after,
                (levels - 1) as nat,
            )
    }

    /// `after` and `events_after` are what the pass makes of this tree and
    /// of `events` at and below the nodes of `pending` from place `from` on,
    /// the last of them first.
    pub open spec fn walked_from<F: Fn(&TreeNode) -> bool>(
        self,
        after: Forest,
        pending: Seq<NodeKey>,
        from: int,
        f: F,
        events: Seq<EventView>,
        events_after: Seq<EventView>,
        levels: nat,
    ) -> bool
        decreases levels, pending.len() - from + 1,
    {
        if from < 0 || from >= pending.len() {
            after == self && events_after == events
        } else {
            exists|between: Stage|
                #![trigger self.same_frame(between.tree)]
                self.same_frame(between.tree) && self.walked_from(
                    between.tree,
                    pending,
                    from + 1,
                    f,
                    events,
                    between.events,
                    levels,
                ) && between.tree.walked(
                    after,
                    pending[from],
                    f,
                    between.events,
                    events_after,
                    levels,
                )
        }
    }

    /// A visit and the pass below it make up the pass at and below a node.
    pub proof fn lemma_walked_intro<F: Fn(&TreeNode) -> bool>(
        self,
        after: Forest,
        key: NodeKey,
        f: F,
        events: Seq<EventView>,
        events_after: Seq<EventView>,
        levels: nat,
        visit: Visit,
    )
        requires
            levels > 0,
            self.refined_below(after, key, f, events, events_after),
            self.visit_fits(visit, key, f, events),
            visit.mid.wf(),
            visit.mid.walked_from(
                after,
                visit.pending,
                0,
                f,
                visit.mid_events,
                events_after,
                (levels - 1) as nat,
            ),
        ensures
            self.walked(after, key, f, events, events_after, levels),
    {
    }

    /// The pass below one more node of a list goes one step further.
    pub proof fn lemma_walked_from_step<F: Fn(&TreeNode) -> bool>(
        self,
        between: Forest,
        after: Forest,
        pending: Seq<NodeKey>,
        from: int,
        f: F,
        events: Seq<EventView>,
        events_between: Seq<EventView>,
        events_after: Seq<EventView>,
        levels: nat,
    )
        requires
            0 <= from < pending.len(),
            self.same_frame(between),
            self.walked_from(between, pending, from + 1, f, events, events_between, levels),
            between.walked(after, pending[from], f, events_between, events_after, levels),
        ensures
            self.walked_from(after, pending, from, f, events, events_after, levels),
    {
        let stage = Stage { tree: between, events: events_between };
        assert(self.same_frame(stage.tree));
    }
}

} // verus!
