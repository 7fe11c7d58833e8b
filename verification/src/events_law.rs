//! What the events of a refinement pass tell of the tree that the pass
//! leaves.

use vstd::prelude::*;
use crate::arena::NodeKey;
use crate::events::{absorbs, grow_recorded, last_absorbing, leaves_among, shrink_recorded};
use crate::forest::{is_child_of, is_new_child, Forest, MAX_DEPTH};
use crate::laws::lemma_overlaps_symmetric;
use crate::tree_node::TreeNode;
use crate::tree_traits::EventView;
use crate::walk::{Stage, Visit};

verus! {

/// The event is true of the tree: a split names a branch and leaves that lie
/// inside it, and a shrinking names a leaf and at least one node that has
/// left.
pub open spec fn event_fits(forest: Forest, event: EventView) -> bool {
    match event {
        EventView::Grown { parent, children } => forest.is_branch(parent) && forall|i: int|
            0 <= i < children.len() ==> forest.is_leaf(#[trigger] children[i]) && forest.node(
                children[i],
            ).inside(forest.node(parent)),
        EventView::Shrunk { retained, removed } => forest.is_leaf(retained) && removed.len() > 0,
        EventView::NeighborSizesChanged(_) => false,
    }
}

/// Every event is true of the tree.
pub open spec fn events_fit(forest: Forest, events: Seq<EventView>) -> bool {
    forall|i: int| 0 <= i < events.len() ==> event_fits(forest, #[trigger] events[i])
}

/// The event names nothing that a pass at and below `top` will change: no
/// branch and no shrunk node at or below `top`, and no leaf below `top`.
pub open spec fn event_clear(forest: Forest, event: EventView, top: NodeKey) -> bool {
    match event {
        EventView::Grown { parent, children } => !forest.at_or_inside(parent, top) && forall|i: int|
            0 <= i < children.len() ==> !forest.node(#[trigger] children[i]).inside(
                forest.node(top),
            ),
        EventView::Shrunk { retained, .. } => !forest.at_or_inside(retained, top),
        EventView::NeighborSizesChanged(_) => true,
    }
}

/// No event names anything that a pass at and below `top` will change.
pub open spec fn events_clear(forest: Forest, events: Seq<EventView>, top: NodeKey) -> bool {
    forall|i: int| 0 <= i < events.len() ==> event_clear(forest, #[trigger] events[i], top)
}

/// The split that a leaf is listed under is the last that takes it in: no
/// later split names a branch that the centre of the leaf lies inside of.
pub open spec fn events_ordered(forest: Forest, events: Seq<EventView>) -> bool {
    forall|i: int, k: int, x: int|
        #![trigger events[i]->Grown_children[x], events[k]]
        0 <= i < k < events.len() && events[i] is Grown && 0 <= x
            < events[i]->Grown_children.len() ==> !absorbs(
            forest,
            events[k],
            forest.node(events[i]->Grown_children[x]).pos,
            forest.node(events[i]->Grown_children[x]).direction,
        )
}

/// The events are a true and orderly record of the tree.
pub open spec fn events_sound(forest: Forest, events: Seq<EventView>) -> bool {
    &&& events_fit(forest, events)
    &&& events_ordered(forest, events)
}

impl Forest {
    /// Neither of two nodes lies at or below the other.
    pub open spec fn apart(self, first: NodeKey, second: NodeKey) -> bool {
        !self.at_or_inside(first, second) && !self.at_or_inside(second, first)
    }

    /// A node whose centre lies strictly inside another node, and which
    /// does not hold that node at or below itself, lies inside that node.
    pub proof fn lemma_centre_inside(self, key: NodeKey, top: NodeKey)
        requires
            self.wf(),
            self.contains(key),
            self.contains(top),
            self.node(key).direction == self.node(top).direction,
            self.node(top).contains_point(self.node(key).pos),
            !self.at_or_inside(top, key),
        ensures
            self.node(key).inside(self.node(top)),
    {
        let n = self.node(key);
        let t = self.node(top);
        assert(self.node_wf(key));
        assert(self.node_wf(top));
        assert(n.overlaps(t)) by {
            assert forall|a: int| 0 <= a < n.pos.len() implies #[trigger] n.pos[a] - n.size / 2
                < t.pos[a] + t.size / 2 && t.pos[a] - t.size / 2 < n.pos[a] + n.size / 2 by {
                assert(t.low(a) < n.pos[a] < t.high(a));
            }
        }
        if n.depth == t.depth {
            self.lemma_level_unique(key, top);
        } else if n.depth < t.depth {
            lemma_overlaps_symmetric(n, t);
            self.lemma_overlap_is_inside(top, key);
        } else {
            self.lemma_overlap_is_inside(key, top);
        }
    }

    /// The centre of a node lies strictly inside every node that the node
    /// lies inside of, and strictly inside the node itself.
    pub proof fn lemma_centre_of_inner(self, key: NodeKey, top: NodeKey)
        requires
            self.wf(),
            self.contains(key),
            self.contains(top),
            self.at_or_inside(key, top),
        ensures
            self.node(top).contains_point(self.node(key).pos),
            self.node(top).direction == self.node(key).direction,
    {
        let n = self.node(key);
        let t = self.node(top);
        assert(self.node_wf(key));
        assert(self.node_wf(top));
        assert forall|a: int| 0 <= a < t.pos.len() && a < n.pos.len() implies t.low(a)
            < #[trigger] n.pos[a] < t.high(a) by {
            if key != top {
                assert(t.pos[a] - t.size / 2 <= n.pos[a] - n.size / 2 && n.pos[a] + n.size / 2
                    <= t.pos[a] + t.size / 2);
            }
        }
    }

    /// A node whose centre lies strictly inside a leaf is that leaf, if it
    /// is a leaf itself.
    pub proof fn lemma_centre_in_leaf(self, key: NodeKey, leaf: NodeKey)
        requires
            self.wf(),
            self.is_leaf(key),
            self.is_leaf(leaf),
            self.node(key).direction == self.node(leaf).direction,
            self.node(leaf).contains_point(self.node(key).pos),
        ensures
            key == leaf,
    {
        if !self.at_or_inside(leaf, key) {
            self.lemma_centre_inside(key, leaf);
            self.lemma_leaf_is_empty(leaf);
        } else if leaf != key {
            self.lemma_leaf_is_empty(key);
        }
    }

    /// What lies at or below one of two nodes that lie apart lies apart from
    /// the other.
    pub proof fn lemma_apart_below(self, key: NodeKey, first: NodeKey, second: NodeKey)
        requires
            self.wf(),
            self.contains(key),
            self.contains(first),
            self.contains(second),
            self.apart(first, second),
            self.at_or_inside(key, first),
        ensures
            self.apart(key, second),
    {
        let n = self.node(key);
        let a = self.node(first);
        let b = self.node(second);
        assert(self.node_wf(key));
        assert(self.node_wf(first));
        assert(self.node_wf(second));
        if self.at_or_inside(key, second) {
            // Then the two nodes have inner points in common.
            assert(a.overlaps(b)) by {
                assert forall|x: int| 0 <= x < a.pos.len() implies #[trigger] a.pos[x] - a.size / 2
                    < b.pos[x] + b.size / 2 && b.pos[x] - b.size / 2 < a.pos[x] + a.size / 2 by {
                    if key != first {
                        assert(a.pos[x] - a.size / 2 <= n.pos[x] - n.size / 2 && n.pos[x] + n.size
                            / 2 <= a.pos[x] + a.size / 2);
                    }
                    if key != second {
                        assert(b.pos[x] - b.size / 2 <= n.pos[x] - n.size / 2 && n.pos[x] + n.size
                            / 2 <= b.pos[x] + b.size / 2);
                    }
                }
            }
            if a.depth == b.depth {
                self.lemma_level_unique(first, second);
            } else if a.depth < b.depth {
                lemma_overlaps_symmetric(a, b);
                self.lemma_overlap_is_inside(second, first);
            } else {
                self.lemma_overlap_is_inside(first, second);
            }
        }
        if self.at_or_inside(second, key) {
            if second != key {
                if key != first {
                    assert(b.inside(a)) by {
                        assert forall|x: int| 0 <= x < b.pos.len() implies a.pos[x] - a.size / 2
                            <= #[trigger] b.pos[x] - b.size / 2 && b.pos[x] + b.size / 2 <= a.pos[x]
                            + a.size / 2 by {
                            assert(a.pos[x] - a.size / 2 <= n.pos[x] - n.size / 2 && n.pos[x]
                                + n.size / 2 <= a.pos[x] + a.size / 2);
                            assert(n.pos[x] - n.size / 2 <= b.pos[x] - b.size / 2 && b.pos[x]
                                + b.size / 2 <= n.pos[x] + n.size / 2);
                        }
                    }
                }
            }
        }
    }
}

/// What is kept of a list of keys are leaves of the list.
pub proof fn lemma_leaves_among(forest: Forest, keys: Seq<NodeKey>, key: NodeKey)
    requires
        leaves_among(forest, keys).contains(key),
    ensures
        keys.contains(key),
        forest.is_leaf(key),
    decreases keys.len(),
{
    if keys.len() > 0 {
        let head = leaves_among(forest, keys.drop_last());
        let all = leaves_among(forest, keys);
        let i = choose|i: int| 0 <= i < all.len() && all[i] == key;
        if forest.is_leaf(keys.last()) && i == head.len() {
            assert(keys[keys.len() - 1] == key);
        } else {
            assert(head[i] == key);
            assert(head.contains(key));
            lemma_leaves_among(forest, keys.drop_last(), key);
            let j = choose|j: int| 0 <= j < keys.drop_last().len() && keys.drop_last()[j] == key;
            assert(keys[j] == key);
        }
    }
}

/// The last of the first `count` events that takes a point in does take it
/// in, and no later one of them does.
pub proof fn lemma_last_absorbing(
    forest: Forest,
    events: Seq<EventView>,
    pos: Seq<i128>,
    direction: crate::planet_tree_impl::Direction,
    count: int,
)
    requires
        0 <= count <= events.len(),
    ensures
        ({
            let at = last_absorbing(forest, events, pos, direction, count);
            &&& -1 <= at < count
            &&& at >= 0 ==> absorbs(forest, events[at], pos, direction)
            &&& forall|k: int| at < k < count ==> !absorbs(forest, #[trigger] events[k], pos, direction)
        }),
    decreases count,
{
    if count > 0 {
        lemma_last_absorbing(forest, events, pos, direction, count - 1);
    }
}

/// What a pass at and below a node has yet to change.
pub open spec fn outsiders_clear(
    before: Forest,
    events: Seq<EventView>,
    after: Forest,
    events_after: Seq<EventView>,
    top: NodeKey,
) -> bool {
    forall|other: NodeKey|
        before.contains(other) && before.apart(other, top) && #[trigger] events_clear(
            before,
            events,
            other,
        ) ==> events_clear(after, events_after, other)
}

impl Forest {
    /// Events that name nothing at or below a node name nothing at or below
    /// a node inside it.
    pub proof fn lemma_clear_below(self, events: Seq<EventView>, top: NodeKey, inner: NodeKey)
        requires
            self.wf(),
            self.contains(top),
            self.contains(inner),
            self.node(inner).inside(self.node(top)),
            events_fit(self, events),
            events_clear(self, events, top),
        ensures
            events_clear(self, events, inner),
    {
        let t = self.node(top);
        let y = self.node(inner);
        assert(self.node_wf(top));
        assert(self.node_wf(inner));
        assert forall|i: int| 0 <= i < events.len() implies event_clear(
            self,
            #[trigger] events[i],
            inner,
        ) by {
            assert(event_clear(self, events[i], top));
            assert(event_fits(self, events[i]));
            match events[i] {
                EventView::Grown { parent, children } => {
                    self.lemma_inside_chain(parent, inner, top);
                    assert forall|x: int| 0 <= x < children.len() implies !self.node(
                        #[trigger] children[x],
                    ).inside(y) by {
                        assert(self.is_leaf(children[x]));
                        self.lemma_inside_chain(children[x], inner, top);
                    }
                },
                EventView::Shrunk { retained, .. } => {
                    self.lemma_inside_chain(retained, inner, top);
                },
                EventView::NeighborSizesChanged(_) => {},
            }
        }
    }

    /// What lies at or inside a node that lies inside another lies inside
    /// the other.
    pub proof fn lemma_inside_chain(self, key: NodeKey, inner: NodeKey, top: NodeKey)
        requires
            self.wf(),
            self.contains(key),
            self.contains(inner),
            self.contains(top),
            self.node(inner).inside(self.node(top)),
        ensures
            self.at_or_inside(key, inner) ==> self.node(key).inside(self.node(top)),
    {
        let n = self.node(key);
        let y = self.node(inner);
        let t = self.node(top);
        assert(self.node_wf(key));
        assert(self.node_wf(inner));
        assert(self.node_wf(top));
        if self.at_or_inside(key, inner) && key != inner {
            assert forall|a: int| 0 <= a < n.pos.len() implies t.pos[a] - t.size / 2
                <= #[trigger] n.pos[a] - n.size / 2 && n.pos[a] + n.size / 2 <= t.pos[a] + t.size / 2 by {
                assert(y.pos[a] - y.size / 2 <= n.pos[a] - n.size / 2 && n.pos[a] + n.size / 2
                    <= y.pos[a] + y.size / 2);
                assert(t.pos[a] - t.size / 2 <= y.pos[a] - y.size / 2 && y.pos[a] + y.size / 2
                    <= t.pos[a] + t.size / 2);
            }
        }
    }

    /// Events that are a true record of a tree are a true record of a tree
    /// with the same nodes.
    pub proof fn lemma_events_same_nodes(self, other: Forest, events: Seq<EventView>)
        requires
            other.nodes == self.nodes,
            events_sound(self, events),
        ensures
            events_sound(other, events),
            forall|top: NodeKey|
                #[trigger] events_clear(self, events, top) ==> events_clear(other, events, top),
    {
        assert forall|i: int| 0 <= i < events.len() implies event_fits(other, #[trigger] events[i]) by {
            assert(event_fits(self, events[i]));
            match events[i] {
                EventView::Grown { parent, children } => {
                    assert forall|x: int| 0 <= x < children.len() implies other.is_leaf(
                        #[trigger] children[x],
                    ) && other.node(children[x]).inside(other.node(parent)) by {
                        assert(self.is_leaf(children[x]));
                    }
                },
                _ => {},
            }
        }
        assert forall|i: int, k: int, x: int|
            #![trigger events[i]->Grown_children[x], events[k]]
            0 <= i < k < events.len() && events[i] is Grown && 0 <= x
                < events[i]->Grown_children.len() implies !absorbs(
            other,
            events[k],
            other.node(events[i]->Grown_children[x]).pos,
            other.node(events[i]->Grown_children[x]).direction,
        ) by {
            assert(!absorbs(
                self,
                events[k],
                self.node(events[i]->Grown_children[x]).pos,
                self.node(events[i]->Grown_children[x]).direction,
            ));
        }
        assert forall|top: NodeKey| #[trigger] events_clear(self, events, top) implies events_clear(
            other,
            events,
            top,
        ) by {
            assert forall|i: int| 0 <= i < events.len() implies event_clear(
                other,
                #[trigger] events[i],
                top,
            ) by {
                assert(event_clear(self, events[i], top));
                match events[i] {
                    EventView::Grown { parent, children } => {
                        assert forall|x: int| 0 <= x < children.len() implies !other.node(
                            #[trigger] children[x],
                        ).inside(other.node(top)) by {
                            assert(!self.node(children[x]).inside(self.node(top)));
                        }
                    },
                    _ => {},
                }
            }
        }
    }
}

/// Every node that the event names is in the later tree as it was in the
/// earlier one.
pub open spec fn names_kept(before: Forest, after: Forest, event: EventView) -> bool {
    match event {
        EventView::Grown { parent, children } => after.contains(parent) && after.node(parent)
            == before.node(parent) && forall|i: int|
            0 <= i < children.len() ==> after.contains(#[trigger] children[i]) && after.node(
                children[i],
            ) == before.node(children[i]),
        EventView::Shrunk { retained, .. } => after.contains(retained) && after.node(retained)
            == before.node(retained),
        EventView::NeighborSizesChanged(_) => true,
    }
}

/// An event of which every node has been kept is as true of the later tree
/// as of the earlier one, and takes the same points in.
pub proof fn lemma_event_kept(before: Forest, after: Forest, event: EventView)
    requires
        names_kept(before, after, event),
        event_fits(before, event),
    ensures
        event_fits(after, event),
        forall|pos: Seq<i128>, direction: crate::planet_tree_impl::Direction|
            #[trigger] absorbs(after, event, pos, direction) == absorbs(
                before,
                event,
                pos,
                direction,
            ),
{
    match event {
        EventView::Grown { parent, children } => {
            assert forall|x: int| 0 <= x < children.len() implies after.is_leaf(
                #[trigger] children[x],
            ) && after.node(children[x]).inside(after.node(parent)) by {
                assert(before.is_leaf(children[x]));
            }
        },
        _ => {},
    }
}

/// An event of which every node has been kept names nothing at or below a
/// node of the later tree if it named nothing at or below it in the earlier
/// one, as long as the node has kept its place.
pub proof fn lemma_event_clear_kept(before: Forest, after: Forest, event: EventView, top: NodeKey)
    requires
        names_kept(before, after, event),
        event_fits(before, event),
        event_clear(before, event, top),
        crate::pass_laws::same_place(after.node(top), before.node(top)),
    ensures
        event_clear(after, event, top),
{
    match event {
        EventView::Grown { parent, children } => {
            assert forall|x: int| 0 <= x < children.len() implies !after.node(
                #[trigger] children[x],
            ).inside(after.node(top)) by {
                assert(before.is_leaf(children[x]));
                assert(!before.node(children[x]).inside(before.node(top)));
            }
        },
        _ => {},
    }
}

impl Forest {
    /// The events after a branch has been made a leaf: they are a true and
    /// orderly record of the tree, and name nothing at or below the nodes
    /// that lie apart from the branch and that they named nothing at or
    /// below before.
    #[verifier::rlimit(40)]
    pub proof fn lemma_events_shrunk(
        self,
        mid: Forest,
        events: Seq<EventView>,
        events_mid: Seq<EventView>,
        key: NodeKey,
    )
        requires
            self.wf(),
            self.is_branch(key),
            events_sound(self, events),
            events_clear(self, events, key),
            shrink_recorded(self, mid, events, events_mid, key),
        ensures
            events_sound(mid, events_mid),
            outsiders_clear(self, events, mid, events_mid, key),
    {
        let removed = events_mid.last()->Shrunk_removed;
        self.lemma_collapsed_wf(mid, key, removed);
        let t = self.node(key);
        assert(self.node_wf(key));
        assert forall|i: int| 0 <= i < events.len() implies names_kept(
            self,
            mid,
            #[trigger] events[i],
        ) by {
            assert(event_fits(self, events[i]));
            assert(event_clear(self, events[i], key));
            match events[i] {
                EventView::Grown { parent, children } => {
                    assert(mid.contains(parent));
                    assert forall|x: int| 0 <= x < children.len() implies mid.contains(
                        #[trigger] children[x],
                    ) && mid.node(children[x]) == self.node(children[x]) by {
                        assert(self.is_leaf(children[x]));
                        assert(!self.node(children[x]).inside(t));
                        assert(mid.contains(children[x]));
                    }
                },
                EventView::Shrunk { retained, .. } => {
                    assert(mid.contains(retained));
                },
                EventView::NeighborSizesChanged(_) => {},
            }
        }
        assert forall|i: int| 0 <= i < events_mid.len() implies event_fits(
            mid,
            #[trigger] events_mid[i],
        ) by {
            if i < events.len() {
                assert(events_mid[i] == events_mid.drop_last()[i]);
                assert(event_fits(self, events[i]));
                lemma_event_kept(self, mid, events[i]);
            }
        }
        assert forall|i: int, k: int, x: int|
            #![trigger events_mid[i]->Grown_children[x], events_mid[k]]
            0 <= i < k < events_mid.len() && events_mid[i] is Grown && 0 <= x
                < events_mid[i]->Grown_children.len() implies !absorbs(
            mid,
            events_mid[k],
            mid.node(events_mid[i]->Grown_children[x]).pos,
            mid.node(events_mid[i]->Grown_children[x]).direction,
        ) by {
            assert(events_mid[i] == events_mid.drop_last()[i]);
            if k < events.len() {
                assert(events_mid[k] == events_mid.drop_last()[k]);
                let c = events[i]->Grown_children[x];
                assert(names_kept(self, mid, events[i]));
                assert(names_kept(self, mid, events[k]));
                assert(event_fits(self, events[k]));
                lemma_event_kept(self, mid, events[k]);
                assert(!absorbs(self, events[k], self.node(c).pos, self.node(c).direction));
            }
        }
        assert forall|other: NodeKey|
            self.contains(other) && self.apart(other, key) && #[trigger] events_clear(
                self,
                events,
                other,
            ) implies events_clear(mid, events_mid, other) by {
            assert(mid.contains(other));
            assert(mid.node(other) == self.node(other));
            assert forall|i: int| 0 <= i < events_mid.len() implies event_clear(
                mid,
                #[trigger] events_mid[i],
                other,
            ) by {
                if i < events.len() {
                    assert(events_mid[i] == events_mid.drop_last()[i]);
                    assert(event_fits(self, events[i]));
                    assert(event_clear(self, events[i], other));
                    lemma_event_clear_kept(self, mid, events[i], other);
                }
            }
        }
    }
}

/// The event lists the node among its leaves.
pub open spec fn lists(event: EventView, key: NodeKey) -> bool {
    event matches EventView::Grown { children, .. } && children.contains(key)
}

impl Forest {
    /// What a split leaves of the nodes that were there: all of them, as they
    /// were but for the node that has been split; and the new children are
    /// leaves inside that node.
    pub proof fn lemma_grown_frame(self, mid: Forest, key: NodeKey, pending: Seq<NodeKey>)
        requires
            self.wf(),
            self.is_leaf(key),
            self.node(key).size > self.min_size,
            self.grown(mid, key, pending),
        ensures
            mid.wf(),
            mid.is_branch(key),
            crate::pass_laws::same_place(mid.node(key), self.node(key)),
            forall|k: NodeKey| #[trigger] self.contains(k) ==> mid.contains(k),
            forall|k: NodeKey| #[trigger] self.contains(k) && k != key ==> mid.node(k) == self.node(k),
            forall|j: int|
                0 <= j < pending.len() ==> mid.is_leaf(#[trigger] pending[j]) && mid.node(
                    pending[j],
                ).inside(mid.node(key)) && !self.contains(pending[j]) && mid.node(pending[j]).depth
                    == mid.node(key).depth + 1,
    {
        self.lemma_grown_wf(mid, key, pending);
        assert(mid.contains(key));
        assert forall|j: int| 0 <= j < pending.len() implies mid.is_leaf(#[trigger] pending[j])
            && mid.node(pending[j]).inside(mid.node(key)) && !self.contains(pending[j])
            && mid.node(pending[j]).depth == mid.node(key).depth + 1 by {
            assert(pending.contains(pending[j]));
            assert(mid.contains(pending[j]));
            assert(is_new_child(mid.node(pending[j]), self.node(key), key, j, self.dim));
            mid.lemma_inside_parent(pending[j]);
        }
    }

    /// While a leaf is split, every event that does not list the leaf keeps
    /// the nodes it names.
    pub proof fn lemma_grown_keeps(
        self,
        mid: Forest,
        events: Seq<EventView>,
        key: NodeKey,
        pending: Seq<NodeKey>,
        i: int,
    )
        requires
            self.wf(),
            self.is_leaf(key),
            self.node(key).size > self.min_size,
            self.grown(mid, key, pending),
            events_fit(self, events),
            events_clear(self, events, key),
            0 <= i < events.len(),
            !lists(events[i], key),
        ensures
            names_kept(self, mid, events[i]),
    {
        self.lemma_grown_frame(mid, key, pending);
        assert(event_fits(self, events[i]));
        assert(event_clear(self, events[i], key));
        match events[i] {
            EventView::Grown { parent, children } => {
                assert forall|x: int| 0 <= x < children.len() implies mid.contains(
                    #[trigger] children[x],
                ) && mid.node(children[x]) == self.node(children[x]) by {
                    assert(self.is_leaf(children[x]));
                    assert(children.contains(children[x]));
                }
            },
            _ => {},
        }
    }

    /// An event that lists a leaf takes the centre of the leaf in.
    pub proof fn lemma_listed_is_absorbed(
        self,
        mid: Forest,
        events: Seq<EventView>,
        key: NodeKey,
        pending: Seq<NodeKey>,
        i: int,
    )
        requires
            self.wf(),
            self.is_leaf(key),
            self.node(key).size > self.min_size,
            self.grown(mid, key, pending),
            events_fit(self, events),
            events_clear(self, events, key),
            0 <= i < events.len(),
            lists(events[i], key),
        ensures
            absorbs(mid, events[i], self.node(key).pos, self.node(key).direction),
    {
        self.lemma_grown_frame(mid, key, pending);
        assert(event_fits(self, events[i]));
        assert(event_clear(self, events[i], key));
        let parent = events[i]->Grown_parent;
        let children = events[i]->Grown_children;
        let x = choose|x: int| 0 <= x < children.len() && children[x] == key;
        assert(self.node(children[x]).inside(self.node(parent)));
        self.lemma_centre_of_inner(key, parent);
    }

    /// An event that takes the centre of a leaf in names a branch that the
    /// leaf lies inside of, if it names nothing at or below the leaf.
    pub proof fn lemma_absorbed_is_inside(
        self,
        mid: Forest,
        events: Seq<EventView>,
        key: NodeKey,
        pending: Seq<NodeKey>,
        k: int,
    )
        requires
            self.wf(),
            self.is_leaf(key),
            self.node(key).size > self.min_size,
            self.grown(mid, key, pending),
            events_fit(self, events),
            events_clear(self, events, key),
            0 <= k < events.len(),
            absorbs(mid, events[k], self.node(key).pos, self.node(key).direction),
        ensures
            events[k] is Grown,
            self.is_branch(events[k]->Grown_parent),
            self.node(key).inside(self.node(events[k]->Grown_parent)),
            mid.node(key).inside(mid.node(events[k]->Grown_parent)),
            mid.node(events[k]->Grown_parent) == self.node(events[k]->Grown_parent),
    {
        self.lemma_grown_frame(mid, key, pending);
        assert(event_fits(self, events[k]));
        assert(event_clear(self, events[k], key));
        let parent = events[k]->Grown_parent;
        assert(parent != key);
        assert(mid.node(parent) == self.node(parent));
        self.lemma_centre_inside(key, parent);
    }

    /// An event that takes the centre of a new child in takes the centre of
    /// the node that has been split in.
    pub proof fn lemma_child_absorbed(
        self,
        mid: Forest,
        events: Seq<EventView>,
        key: NodeKey,
        pending: Seq<NodeKey>,
        k: int,
        j: int,
    )
        requires
            self.wf(),
            self.is_leaf(key),
            self.node(key).size > self.min_size,
            self.grown(mid, key, pending),
            events_fit(self, events),
            events_clear(self, events, key),
            0 <= k < events.len(),
            0 <= j < pending.len(),
            absorbs(mid, events[k], mid.node(pending[j]).pos, mid.node(pending[j]).direction),
        ensures
            absorbs(mid, events[k], self.node(key).pos, self.node(key).direction),
    {
        self.lemma_grown_frame(mid, key, pending);
        assert(event_fits(self, events[k]));
        assert(event_clear(self, events[k], key));
        let parent = events[k]->Grown_parent;
        let child = pending[j];
        assert(self.contains(parent));
        assert(parent != key);
        assert(mid.node(parent) == self.node(parent));
        assert(mid.node_wf(child));
        assert(mid.node_wf(key));
        assert(mid.node_wf(parent));
        if mid.at_or_inside(parent, child) {
            mid.lemma_inside_chain(parent, child, key);
            assert(self.node(parent).inside(self.node(key)));
        }
        mid.lemma_centre_inside(child, parent);
        // The branch holds the child, so it has inner points in common with
        // the node that has been split.
        let p = mid.node(parent);
        let n = mid.node(key);
        let c = mid.node(child);
        assert(n.overlaps(p)) by {
            assert forall|a: int| 0 <= a < n.pos.len() implies #[trigger] n.pos[a] - n.size / 2
                < p.pos[a] + p.size / 2 && p.pos[a] - p.size / 2 < n.pos[a] + n.size / 2 by {
                assert(p.pos[a] - p.size / 2 <= c.pos[a] - c.size / 2 && c.pos[a] + c.size / 2
                    <= p.pos[a] + p.size / 2);
                assert(n.pos[a] - n.size / 2 <= c.pos[a] - c.size / 2 && c.pos[a] + c.size / 2
                    <= n.pos[a] + n.size / 2);
            }
        }
        if n.depth == p.depth {
            mid.lemma_level_unique(key, parent);
        } else {
            mid.lemma_overlap_is_inside(key, parent);
            mid.lemma_centre_of_inner(key, parent);
        }
    }
}

/// An event that names nothing at or below a node names nothing at or below
/// a node inside it.
pub proof fn lemma_event_clear_below(forest: Forest, event: EventView, top: NodeKey, inner: NodeKey)
    requires
        forest.wf(),
        forest.contains(top),
        forest.contains(inner),
        forest.node(inner).inside(forest.node(top)),
        event_fits(forest, event),
        event_clear(forest, event, top),
    ensures
        event_clear(forest, event, inner),
{
    forest.lemma_clear_below(seq![event], top, inner);
    assert(seq![event][0] == event);
    assert(event_clear(forest, seq![event][0], inner));
}

impl Forest {
    /// The place in the events that takes a split in, or `-1`.
    pub open spec fn absorber(
        self,
        mid: Forest,
        events: Seq<EventView>,
        key: NodeKey,
    ) -> int {
        last_absorbing(
            mid,
            events,
            self.node(key).pos,
            mid.node(key).direction,
            events.len() as int,
        )
    }

    /// While a leaf is split, only the event that takes the split in can
    /// list the leaf.
    #[verifier::rlimit(40)]
    pub proof fn lemma_only_absorber_lists(
        self,
        mid: Forest,
        events: Seq<EventView>,
        key: NodeKey,
        pending: Seq<NodeKey>,
        i: int,
    )
        requires
            self.wf(),
            self.is_leaf(key),
            self.node(key).size > self.min_size,
            self.grown(mid, key, pending),
            events_sound(self, events),
            events_clear(self, events, key),
            0 <= i < events.len(),
            i != self.absorber(mid, events, key),
        ensures
            !lists(events[i], key),
            names_kept(self, mid, events[i]),
            event_fits(mid, events[i]),
    {
        self.lemma_grown_frame(mid, key, pending);
        let at = self.absorber(mid, events, key);
        let pos = self.node(key).pos;
        let dir = self.node(key).direction;
        lemma_last_absorbing(mid, events, pos, dir, events.len() as int);
        if lists(events[i], key) {
            self.lemma_listed_is_absorbed(mid, events, key, pending, i);
            assert(i <= at) by {
                if i > at {
                    assert(!absorbs(mid, events[i], pos, dir));
                }
            }
            self.lemma_absorbed_is_inside(mid, events, key, pending, at);
            let parent = events[at]->Grown_parent;
            self.lemma_centre_of_inner(key, parent);
            assert(absorbs(self, events[at], pos, dir));
            let children = events[i]->Grown_children;
            let x = choose|x: int| 0 <= x < children.len() && children[x] == key;
            assert(!absorbs(
                self,
                events[at],
                self.node(events[i]->Grown_children[x]).pos,
                self.node(events[i]->Grown_children[x]).direction,
            ));
        }
        self.lemma_grown_keeps(mid, events, key, pending, i);
        assert(event_fits(self, events[i]));
        lemma_event_kept(self, mid, events[i]);
    }

    /// The events after a split, one by one: the event that takes the split
    /// in has a new list of leaves, or the split has an event of its own at
    /// the end; the other events are as they were.
    pub proof fn lemma_grown_events(
        self,
        mid: Forest,
        events: Seq<EventView>,
        events_mid: Seq<EventView>,
        key: NodeKey,
        pending: Seq<NodeKey>,
    )
        requires
            self.wf(),
            self.is_leaf(key),
            self.node(key).size > self.min_size,
            self.grown(mid, key, pending),
            events_mid == grow_recorded(mid, events, self.node(key).pos, key, pending),
        ensures
            ({
                let at = self.absorber(mid, events, key);
                &&& -1 <= at < events.len()
                &&& forall|k: int|
                    at < k < events.len() ==> !absorbs(
                        mid,
                        #[trigger] events[k],
                        self.node(key).pos,
                        self.node(key).direction,
                    )
                &&& if at >= 0 {
                    &&& events_mid.len() == events.len()
                    &&& events[at] is Grown
                    &&& absorbs(mid, events[at], self.node(key).pos, self.node(key).direction)
                    &&& events_mid[at] == (EventView::Grown {
                        parent: events[at]->Grown_parent,
                        children: leaves_among(mid, events[at]->Grown_children) + pending,
                    })
                    &&& forall|i: int|
                        0 <= i < events.len() && i != at ==> #[trigger] events_mid[i] == events[i]
                } else {
                    &&& events_mid.len() == events.len() + 1
                    &&& events_mid[events.len() as int] == (EventView::Grown {
                        parent: key,
                        children: pending,
                    })
                    &&& forall|i: int| 0 <= i < events.len() ==> #[trigger] events_mid[i] == events[i]
                }
            }),
    {
        self.lemma_grown_frame(mid, key, pending);
        lemma_last_absorbing(
            mid,
            events,
            self.node(key).pos,
            self.node(key).direction,
            events.len() as int,
        );
    }
}

impl Forest {
    /// A leaf of the list that the event taking a split in has after the
    /// split: it was listed before and is as it was, or it is a new child.
    pub proof fn lemma_absorbed_leaf(
        self,
        mid: Forest,
        events: Seq<EventView>,
        key: NodeKey,
        pending: Seq<NodeKey>,
        x: int,
    ) -> (old_place: int)
        requires
            self.wf(),
            self.is_leaf(key),
            self.node(key).size > self.min_size,
            self.grown(mid, key, pending),
            events_sound(self, events),
            events_clear(self, events, key),
            self.absorber(mid, events, key) >= 0,
            0 <= x < (leaves_among(mid, events[self.absorber(mid, events, key)]->Grown_children)
                + pending).len(),
        ensures
            ({
                let at = self.absorber(mid, events, key);
                let listed = events[at]->Grown_children;
                let list = leaves_among(mid, listed) + pending;
                if x < leaves_among(mid, listed).len() {
                    &&& 0 <= old_place < listed.len()
                    &&& listed[old_place] == list[x]
                    &&& list[x] != key
                    &&& mid.is_leaf(list[x])
                    &&& mid.node(list[x]) == self.node(list[x])
                    &&& self.is_leaf(list[x])
                } else {
                    &&& old_place == x - leaves_among(mid, listed).len()
                    &&& 0 <= old_place < pending.len()
                    &&& list[x] == pending[old_place]
                }
            }),
    {
        self.lemma_grown_frame(mid, key, pending);
        let at = self.absorber(mid, events, key);
        lemma_last_absorbing(
            mid,
            events,
            self.node(key).pos,
            self.node(key).direction,
            events.len() as int,
        );
        let listed = events[at]->Grown_children;
        let kept = leaves_among(mid, listed);
        if x < kept.len() {
            assert(kept.contains(kept[x]));
            lemma_leaves_among(mid, listed, kept[x]);
            let place = choose|j: int| 0 <= j < listed.len() && listed[j] == kept[x];
            assert(event_fits(self, events[at]));
            assert(self.is_leaf(listed[place]));
            place
        } else {
            x - kept.len()
        }
    }

    /// The events after a split are true of the tree.
    #[verifier::rlimit(40)]
    pub proof fn lemma_grown_fit(
        self,
        mid: Forest,
        events: Seq<EventView>,
        events_mid: Seq<EventView>,
        key: NodeKey,
        pending: Seq<NodeKey>,
    )
        requires
            self.wf(),
            self.is_leaf(key),
            self.node(key).size > self.min_size,
            self.grown(mid, key, pending),
            events_sound(self, events),
            events_clear(self, events, key),
            events_mid == grow_recorded(mid, events, self.node(key).pos, key, pending),
        ensures
            events_fit(mid, events_mid),
    {
        self.lemma_grown_frame(mid, key, pending);
        self.lemma_grown_events(mid, events, events_mid, key, pending);
        let at = self.absorber(mid, events, key);
        assert forall|i: int| 0 <= i < events_mid.len() implies event_fits(
            mid,
            #[trigger] events_mid[i],
        ) by {
            if i < events.len() && i != at {
                self.lemma_only_absorber_lists(mid, events, key, pending, i);
            } else if at >= 0 {
                self.lemma_absorbed_is_inside(mid, events, key, pending, at);
                let parent = events[at]->Grown_parent;
                let listed = events[at]->Grown_children;
                let list = leaves_among(mid, listed) + pending;
                assert(event_fits(self, events[at]));
                assert(mid.is_branch(parent));
                assert forall|x: int| 0 <= x < list.len() implies mid.is_leaf(#[trigger] list[x])
                    && mid.node(list[x]).inside(mid.node(parent)) by {
                    let place = self.lemma_absorbed_leaf(mid, events, key, pending, x);
                    if x < leaves_among(mid, listed).len() {
                        assert(self.node(listed[place]).inside(self.node(parent)));
                    } else {
                        mid.lemma_inside_chain(pending[place], key, parent);
                    }
                }
            }
        }
    }

    /// The events after a split are in order.
    #[verifier::rlimit(40)]
    pub proof fn lemma_grown_ordered(
        self,
        mid: Forest,
        events: Seq<EventView>,
        events_mid: Seq<EventView>,
        key: NodeKey,
        pending: Seq<NodeKey>,
        i: int,
        k: int,
        x: int,
    )
        requires
            self.wf(),
            self.is_leaf(key),
            self.node(key).size > self.min_size,
            self.grown(mid, key, pending),
            events_sound(self, events),
            events_clear(self, events, key),
            events_mid == grow_recorded(mid, events, self.node(key).pos, key, pending),
            0 <= i < k < events_mid.len(),
            events_mid[i] is Grown,
            0 <= x < events_mid[i]->Grown_children.len(),
        ensures
            !absorbs(
                mid,
                events_mid[k],
                mid.node(events_mid[i]->Grown_children[x]).pos,
                mid.node(events_mid[i]->Grown_children[x]).direction,
            ),
    {
        self.lemma_grown_frame(mid, key, pending);
        self.lemma_grown_events(mid, events, events_mid, key, pending);
        let at = self.absorber(mid, events, key);
        let c = events_mid[i]->Grown_children[x];
        let pos = mid.node(c).pos;
        let dir = mid.node(c).direction;
        if absorbs(mid, events_mid[k], pos, dir) {
            // The leaf is a new child, or it was listed before.
            let fresh = i == at && x >= leaves_among(mid, events[at]->Grown_children).len();
            if i == at {
                let place = self.lemma_absorbed_leaf(mid, events, key, pending, x);
            } else {
                self.lemma_only_absorber_lists(mid, events, key, pending, i);
                assert(event_fits(self, events[i]));
                assert(self.is_leaf(events[i]->Grown_children[x]));
                assert(events[i]->Grown_children.contains(c));
            }
            if k < events.len() {
                // The later event is an old one, with the branch it named.
                assert(events_mid[k] is Grown);
                assert(events[k] is Grown);
                assert(events_mid[k]->Grown_parent == events[k]->Grown_parent);
                assert(absorbs(mid, events[k], pos, dir));
                assert(event_fits(self, events[k]));
                assert(event_clear(self, events[k], key));
                let parent = events[k]->Grown_parent;
                assert(parent != key);
                assert(mid.node(parent) == self.node(parent));
                if fresh {
                    let place = self.lemma_absorbed_leaf(mid, events, key, pending, x);
                    self.lemma_child_absorbed(mid, events, key, pending, k, place);
                } else {
                    let place = if i == at {
                        self.lemma_absorbed_leaf(mid, events, key, pending, x)
                    } else {
                        x
                    };
                    assert(events[i]->Grown_children[place] == c);
                    assert(mid.node(c) == self.node(c));
                    assert(absorbs(self, events[k], self.node(c).pos, self.node(c).direction));
                    assert(!absorbs(
                        self,
                        events[k],
                        self.node(events[i]->Grown_children[place]).pos,
                        self.node(events[i]->Grown_children[place]).direction,
                    ));
                }
            } else {
                // The later event is the event of the split itself.
                assert(at < 0);
                assert(events_mid[k]->Grown_parent == key);
                assert(mid.node(c) == self.node(c));
                assert(self.node(key).contains_point(self.node(c).pos));
                self.lemma_centre_in_leaf(c, key);
                self.lemma_listed_is_absorbed(mid, events, key, pending, i);
            }
        }
    }
}

impl Forest {
    /// After a split, an event names nothing at or below a new child.
    #[verifier::rlimit(40)]
    pub proof fn lemma_grown_clear_child(
        self,
        mid: Forest,
        events: Seq<EventView>,
        events_mid: Seq<EventView>,
        key: NodeKey,
        pending: Seq<NodeKey>,
        j: int,
        i: int,
    )
        requires
            self.wf(),
            self.is_leaf(key),
            self.node(key).size > self.min_size,
            self.grown(mid, key, pending),
            events_sound(self, events),
            events_clear(self, events, key),
            events_mid == grow_recorded(mid, events, self.node(key).pos, key, pending),
            0 <= j < pending.len(),
            0 <= i < events_mid.len(),
        ensures
            event_clear(mid, events_mid[i], pending[j]),
    {
        self.lemma_grown_frame(mid, key, pending);
        self.lemma_grown_events(mid, events, events_mid, key, pending);
        let at = self.absorber(mid, events, key);
        let child = pending[j];
        if i < events.len() && i != at {
            self.lemma_only_absorber_lists(mid, events, key, pending, i);
            assert(event_fits(self, events[i]));
            assert(event_clear(self, events[i], key));
            lemma_event_clear_kept(self, mid, events[i], key);
            lemma_event_clear_below(mid, events[i], key, child);
        } else if at >= 0 {
            let parent = events[at]->Grown_parent;
            let listed = events[at]->Grown_children;
            let list = leaves_among(mid, listed) + pending;
            assert(event_fits(self, events[at]));
            assert(event_clear(self, events[at], key));
            assert(self.contains(parent));
            assert(parent != key);
            assert(mid.node(parent) == self.node(parent));
            mid.lemma_inside_chain(parent, child, key);
            assert forall|x: int| 0 <= x < list.len() implies !mid.node(#[trigger] list[x]).inside(
                mid.node(child),
            ) by {
                let place = self.lemma_absorbed_leaf(mid, events, key, pending, x);
                if x < leaves_among(mid, listed).len() {
                    assert(!self.node(listed[place]).inside(self.node(key)));
                    mid.lemma_inside_chain(list[x], child, key);
                }
            }
        }
    }

    /// After a split, an event names nothing at or below a node that lies
    /// apart from the split node, if the events named nothing there before.
    #[verifier::rlimit(40)]
    pub proof fn lemma_grown_clear_outsider(
        self,
        mid: Forest,
        events: Seq<EventView>,
        events_mid: Seq<EventView>,
        key: NodeKey,
        pending: Seq<NodeKey>,
        other: NodeKey,
        i: int,
    )
        requires
            self.wf(),
            self.is_leaf(key),
            self.node(key).size > self.min_size,
            self.grown(mid, key, pending),
            events_sound(self, events),
            events_clear(self, events, key),
            events_mid == grow_recorded(mid, events, self.node(key).pos, key, pending),
            self.contains(other),
            self.apart(other, key),
            events_clear(self, events, other),
            0 <= i < events_mid.len(),
        ensures
            event_clear(mid, events_mid[i], other),
    {
        self.lemma_grown_frame(mid, key, pending);
        self.lemma_grown_events(mid, events, events_mid, key, pending);
        let at = self.absorber(mid, events, key);
        assert(mid.contains(other));
        assert(mid.node(other) == self.node(other));
        assert(mid.apart(key, other));
        if i < events.len() && i != at {
            self.lemma_only_absorber_lists(mid, events, key, pending, i);
            assert(event_fits(self, events[i]));
            assert(event_clear(self, events[i], other));
            lemma_event_clear_kept(self, mid, events[i], other);
        } else {
            let list = events_mid[i]->Grown_children;
            if at >= 0 {
                let parent = events[at]->Grown_parent;
                assert(event_fits(self, events[at]));
                assert(event_clear(self, events[at], key));
                assert(event_clear(self, events[at], other));
                assert(self.contains(parent));
                assert(parent != key);
                assert(mid.node(parent) == self.node(parent));
            }
            assert forall|x: int| 0 <= x < list.len() implies !mid.node(#[trigger] list[x]).inside(
                mid.node(other),
            ) by {
                if at >= 0 {
                    let listed = events[at]->Grown_children;
                    let place = self.lemma_absorbed_leaf(mid, events, key, pending, x);
                    if x < leaves_among(mid, listed).len() {
                        assert(!self.node(listed[place]).inside(self.node(other)));
                    } else {
                        mid.lemma_apart_below(pending[place], key, other);
                    }
                } else {
                    mid.lemma_apart_below(pending[x], key, other);
                }
            }
        }
    }

    /// The events after the visit of a node: they are a true and orderly
    /// record of the tree; they name nothing at or below the nodes that the
    /// visit has handed on; and they name nothing at or below the nodes that
    /// lie apart from the node and that they named nothing at or below
    /// before.
    #[verifier::rlimit(40)]
    pub proof fn lemma_events_visited(
        self,
        mid: Forest,
        events: Seq<EventView>,
        events_mid: Seq<EventView>,
        key: NodeKey,
        wanted: bool,
        room: bool,
        pending: Seq<NodeKey>,
    )
        requires
            self.wf(),
            self.contains(key),
            events_sound(self, events),
            events_clear(self, events, key),
            self.visited(mid, events, events_mid, key, wanted, room, pending),
        ensures
            events_sound(mid, events_mid),
            forall|j: int|
                0 <= j < pending.len() ==> events_clear(mid, events_mid, #[trigger] pending[j]),
            outsiders_clear(self, events, mid, events_mid, key),
    {
        let n = self.node(key);
        assert(self.node_wf(key));
        if !wanted && self.is_branch(key) {
            self.lemma_events_shrunk(mid, events, events_mid, key);
        } else if wanted && n.children is None && n.size > self.min_size && room {
            self.lemma_grown_fit(mid, events, events_mid, key, pending);
            assert forall|i: int, k: int, x: int|
                #![trigger events_mid[i]->Grown_children[x], events_mid[k]]
                0 <= i < k < events_mid.len() && events_mid[i] is Grown && 0 <= x
                    < events_mid[i]->Grown_children.len() implies !absorbs(
                mid,
                events_mid[k],
                mid.node(events_mid[i]->Grown_children[x]).pos,
                mid.node(events_mid[i]->Grown_children[x]).direction,
            ) by {
                self.lemma_grown_ordered(mid, events, events_mid, key, pending, i, k, x);
            }
            assert forall|j: int| 0 <= j < pending.len() implies events_clear(
                mid,
                events_mid,
                #[trigger] pending[j],
            ) by {
                assert forall|i: int| 0 <= i < events_mid.len() implies event_clear(
                    mid,
                    #[trigger] events_mid[i],
                    pending[j],
                ) by {
                    self.lemma_grown_clear_child(mid, events, events_mid, key, pending, j, i);
                }
            }
            assert forall|other: NodeKey|
                self.contains(other) && self.apart(other, key) && #[trigger] events_clear(
                    self,
                    events,
                    other,
                ) implies events_clear(mid, events_mid, other) by {
                assert forall|i: int| 0 <= i < events_mid.len() implies event_clear(
                    mid,
                    #[trigger] events_mid[i],
                    other,
                ) by {
                    self.lemma_grown_clear_outsider(
                        mid,
                        events,
                        events_mid,
                        key,
                        pending,
                        other,
                        i,
                    );
                }
            }
        } else {
            // Nothing has changed but, at most, that the tree is starved.
            if !wanted {
                self.lemma_collapse_of_leaf(mid, key);
            }
            assert(mid.nodes == self.nodes);
            assert(events_mid == events);
            self.lemma_events_same_nodes(mid, events);
            assert forall|j: int| 0 <= j < pending.len() implies events_clear(
                mid,
                events_mid,
                #[trigger] pending[j],
            ) by {
                let keys = n.children->0;
                assert(self.contains(keys[j]));
                assert(is_child_of(self.node(keys[j]), n, key, j, self.dim));
                self.lemma_inside_parent(keys[j]);
                self.lemma_clear_below(events, key, keys[j]);
                assert(events_clear(self, events, pending[j]));
            }
        }
    }
}

impl Forest {
    /// The node lies apart from every node of a list from place `from` on.
    pub open spec fn apart_from_rest(self, key: NodeKey, pending: Seq<NodeKey>, from: int) -> bool {
        forall|m: int| from <= m < pending.len() ==> self.apart(key, #[trigger] pending[m])
    }

    /// The nodes of a list are nodes of the tree that lie apart from each
    /// other.
    pub open spec fn all_apart(self, pending: Seq<NodeKey>) -> bool {
        &&& forall|j: int| 0 <= j < pending.len() ==> self.contains(#[trigger] pending[j])
        &&& forall|i: int, j: int|
            0 <= i < pending.len() && 0 <= j < pending.len() && i != j ==> self.apart(
                #[trigger] pending[i],
                #[trigger] pending[j],
            )
    }

    /// What a pass below the nodes of a list from place `from` on leaves
    /// alone: the nodes that lie apart from all of them. They are as they
    /// were, and the events name nothing at or below them if they named
    /// nothing there before.
    pub open spec fn rest_kept(
        self,
        events: Seq<EventView>,
        after: Forest,
        events_after: Seq<EventView>,
        pending: Seq<NodeKey>,
        from: int,
    ) -> bool {
        forall|other: NodeKey|
            #[trigger] self.contains(other) && self.apart_from_rest(other, pending, from) ==> {
                &&& after.contains(other)
                &&& after.node(other) == self.node(other)
                &&& events_clear(self, events, other) ==> events_clear(after, events_after, other)
            }
    }

    /// The children of a branch lie apart from each other.
    pub proof fn lemma_children_apart(self, key: NodeKey)
        requires
            self.wf(),
            self.is_branch(key),
        ensures
            self.all_apart(self.node(key).children->0),
    {
        let keys = self.node(key).children->0;
        assert(self.node_wf(key));
        assert forall|j: int| 0 <= j < keys.len() implies self.contains(#[trigger] keys[j]) by {}
        assert forall|i: int, j: int|
            0 <= i < keys.len() && 0 <= j < keys.len() && i != j implies self.apart(
            #[trigger] keys[i],
            #[trigger] keys[j],
        ) by {
            assert(self.contains(keys[i]));
            assert(self.contains(keys[j]));
            if self.at_or_inside(keys[i], keys[j]) {
                self.lemma_parts_apart(key, i, j, keys[i]);
            }
            if self.at_or_inside(keys[j], keys[i]) {
                self.lemma_parts_apart(key, i, j, keys[j]);
            }
        }
    }

    /// The roots lie apart from each other.
    pub proof fn lemma_roots_apart(self)
        requires
            self.wf(),
        ensures
            self.all_apart(self.roots),
    {
        assert forall|j: int| 0 <= j < self.roots.len() implies self.contains(
            #[trigger] self.roots[j],
        ) by {}
        assert forall|i: int, j: int|
            0 <= i < self.roots.len() && 0 <= j < self.roots.len() && i != j implies self.apart(
            #[trigger] self.roots[i],
            #[trigger] self.roots[j],
        ) by {
            let a = self.roots[i];
            let b = self.roots[j];
            assert(self.contains(self.roots[i]));
            assert(self.contains(self.roots[j]));
            assert(self.node_wf(a));
            assert(self.node_wf(b));
            assert(self.is_planet());
            assert(self.node(a).direction != self.node(b).direction);
        }
    }

    /// What the events tell after a pass at and below a node: they are a
    /// true and orderly record of the tree, and they name nothing at or
    /// below the nodes that lie apart from the node and that they named
    /// nothing at or below before.
    #[verifier::rlimit(40)]
    pub proof fn lemma_events_walked<F: Fn(&TreeNode) -> bool>(
        self,
        after: Forest,
        key: NodeKey,
        f: F,
        events: Seq<EventView>,
        events_after: Seq<EventView>,
        levels: nat,
    )
        requires
            self.wf(),
            self.contains(key),
            events_sound(self, events),
            events_clear(self, events, key),
            self.walked(after, key, f, events, events_after, levels),
        ensures
            events_sound(after, events_after),
            outsiders_clear(self, events, after, events_after, key),
        decreases levels, 0nat,
    {
        let visit = choose|visit: Visit|
            #![trigger self.visit_fits(visit, key, f, events)]
            self.visit_fits(visit, key, f, events) && visit.mid.wf() && visit.mid.walked_from(
                after,
                visit.pending,
                0,
                f,
                visit.mid_events,
                events_after,
                (levels - 1) as nat,
            );
        let mid = visit.mid;
        let pending = visit.pending;
        self.lemma_events_visited(
            mid,
            events,
            visit.mid_events,
            key,
            visit.wanted,
            visit.room,
            pending,
        );
        self.lemma_visit_start(
            mid,
            events,
            visit.mid_events,
            key,
            visit.seen,
            visit.wanted,
            visit.room,
            pending,
            f,
        );
        if pending.len() > 0 {
            mid.lemma_children_apart(key);
        }
        mid.lemma_events_walked_from(
            after,
            pending,
            0,
            f,
            visit.mid_events,
            events_after,
            (levels - 1) as nat,
        );
        assert forall|other: NodeKey|
            self.contains(other) && self.apart(other, key) && #[trigger] events_clear(
                self,
                events,
                other,
            ) implies events_clear(after, events_after, other) by {
            assert(mid.contains(other) && mid.node(other) == self.node(other));
            assert(events_clear(mid, visit.mid_events, other));
            assert(mid.apart(other, key));
            assert forall|m: int| 0 <= m < pending.len() implies mid.apart(
                other,
                #[trigger] pending[m],
            ) by {
                assert(mid.node_wf(key));
                assert(mid.contains(pending[m]));
                assert(is_child_of(mid.node(pending[m]), mid.node(key), key, m, mid.dim));
                mid.lemma_inside_parent(pending[m]);
                mid.lemma_apart_below(pending[m], key, other);
            }
            assert(mid.apart_from_rest(other, pending, 0));
        }
    }

    /// What the events tell after a pass at and below the nodes of a list
    /// from place `from` on.
    #[verifier::rlimit(40)]
    pub proof fn lemma_events_walked_from<F: Fn(&TreeNode) -> bool>(
        self,
        after: Forest,
        pending: Seq<NodeKey>,
        from: int,
        f: F,
        events: Seq<EventView>,
        events_after: Seq<EventView>,
        levels: nat,
    )
        requires
            self.wf(),
            self.all_apart(pending),
            0 <= from <= pending.len(),
            events_sound(self, events),
            forall|j: int| 0 <= j < pending.len() ==> events_clear(self, events, #[trigger] pending[j]),
            self.walked_from(after, pending, from, f, events, events_after, levels),
        ensures
            after.wf(),
            events_sound(after, events_after),
            self.rest_kept(events, after, events_after, pending, from),
        decreases levels, pending.len() - from + 1,
    {
        if from < pending.len() {
            let between = choose|between: Stage|
                #![trigger self.same_frame(between.tree)]
                self.same_frame(between.tree) && self.walked_from(
                    between.tree,
                    pending,
                    from + 1,
                    f,
                    events,
                    between.events,
                    levels,
                ) && between.tree.walked(
                    after,
                    pending[from],
                    f,
                    between.events,
                    events_after,
                    levels,
                );
            let now = between.tree;
            let node = pending[from];
            self.lemma_events_walked_from(now, pending, from + 1, f, events, between.events, levels);
            assert(self.contains(pending[from]));
            assert(self.apart_from_rest(node, pending, from + 1)) by {
                assert forall|m: int| from + 1 <= m < pending.len() implies self.apart(
                    node,
                    #[trigger] pending[m],
                ) by {
                    assert(self.apart(pending[from], pending[m]));
                }
            }
            assert(now.contains(node) && now.node(node) == self.node(node));
            assert(events_clear(now, between.events, node));
            now.lemma_events_walked(after, node, f, between.events, events_after, levels);
            assert forall|other: NodeKey| #[trigger]
                self.contains(other) && self.apart_from_rest(other, pending, from) implies {
                &&& after.contains(other)
                &&& after.node(other) == self.node(other)
                &&& events_clear(self, events, other) ==> events_clear(after, events_after, other)
            } by {
                assert(self.apart_from_rest(other, pending, from + 1)) by {
                    assert forall|m: int| from + 1 <= m < pending.len() implies self.apart(
                        other,
                        #[trigger] pending[m],
                    ) by {}
                }
                assert(now.contains(other) && now.node(other) == self.node(other));
                assert(self.apart(other, pending[from]));
                assert(now.apart(other, node));
                assert(!now.at_or_inside(other, node));
                if events_clear(self, events, other) {
                    assert(events_clear(now, between.events, other));
                }
            }
        }
    }

    /// What the events of a refinement pass tell of the tree that the pass
    /// leaves: every split names a node that is a branch now and leaves that
    /// lie inside it; every shrinking names a node that is a leaf now and at
    /// least one node that has left; and there are no other events.
    pub proof fn law_events_tell<F: Fn(&TreeNode) -> bool>(
        self,
        after: Forest,
        f: F,
        events: Seq<EventView>,
    )
        requires
            self.wf(),
            self.refined(after, f, events),
        ensures
            events_fit(after, events),
    {
        let start = Forest { starved: false, ..self };
        self.lemma_starved_wf(false);
        start.lemma_roots_apart();
        let none = Seq::<EventView>::empty();
        assert(events_sound(start, none));
        assert forall|j: int| 0 <= j < start.roots.len() implies events_clear(
            start,
            none,
            #[trigger] start.roots[j],
        ) by {}
        start.lemma_events_walked_from(
            after,
            self.roots,
            0,
            f,
            none,
            events,
            (MAX_DEPTH + 1) as nat,
        );
    }
}

/// Events that are true of a tree are true of the tree after the sizes of
/// the neighbours have been brought up to date.
pub proof fn lemma_events_fit_updated(forest: Forest, keys: Seq<NodeKey>, events: Seq<EventView>)
    requires
        events_fit(forest, events),
    ensures
        events_fit(forest.updated_all(keys), events),
{
    let after = forest.updated_all(keys);
    forest.lemma_updated_all_keeps(keys);
    assert forall|i: int| 0 <= i < events.len() implies event_fits(after, #[trigger] events[i]) by {
        assert(event_fits(forest, events[i]));
        match events[i] {
            EventView::Grown { parent, children } => {
                assert(forest.contains(parent));
                assert(after.contains(parent) == forest.contains(parent));
                assert forall|x: int| 0 <= x < children.len() implies after.is_leaf(
                    #[trigger] children[x],
                ) && after.node(children[x]).inside(after.node(parent)) by {
                    assert(forest.is_leaf(children[x]));
                    assert(after.contains(children[x]) == forest.contains(children[x]));
                }
            },
            EventView::Shrunk { retained, .. } => {
                assert(forest.contains(retained));
                assert(after.contains(retained) == forest.contains(retained));
            },
            EventView::NeighborSizesChanged(_) => {},
        }
    }
}

} // verus!
