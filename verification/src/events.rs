//! How a refinement pass writes down what it has done.

use vstd::prelude::*;
use crate::arena::{arena_get, NodeKey};
use crate::forest::Forest;
use crate::ntree::{copy_keys, NTree};
use crate::planet_tree_impl::Direction;
use crate::refine::append_keys;
use crate::tree_traits::{event_views, EventView, TreeEvent};

verus! {

/// The event tells of a branch on the given face that the point lies
/// strictly inside of.
pub open spec fn absorbs(forest: Forest, event: EventView, pos: Seq<i128>, direction: Direction) -> bool {
    event matches EventView::Grown { parent, .. } && forest.contains(parent) && forest.node(
        parent,
    ).direction == direction && forest.node(parent).contains_point(pos)
}

/// The place of the last of the first `count` events that absorbs the
/// point, or `-1` if none of them does.
pub open spec fn last_absorbing(
    forest: Forest,
    events: Seq<EventView>,
    pos: Seq<i128>,
    direction: Direction,
    count: int,
) -> int
    decreases count,
{
    if count <= 0 {
        -1
    } else if absorbs(forest, events[count - 1], pos, direction) {
        count - 1
    } else {
        last_absorbing(forest, events, pos, direction, count - 1)
    }
}

/// Those of the keys, in their order, under which the tree holds a leaf.
pub open spec fn leaves_among(forest: Forest, keys: Seq<NodeKey>) -> Seq<NodeKey>
    decreases keys.len(),
{
    if keys.len() == 0 {
        Seq::empty()
    } else if forest.is_leaf(keys.last()) {
        leaves_among(forest, keys.drop_last()).push(keys.last())
    } else {
        leaves_among(forest, keys.drop_last())
    }
}

/// The events after a split has been written down. If an earlier event
/// tells of a branch on the same face that the centre of the split node lies
/// inside of, the last such event takes the split in: of its children those
/// stay that are still leaves, and the new children follow them. Otherwise
/// the split gets an event of its own at the end.
pub open spec fn grow_recorded(
    forest: Forest,
    events: Seq<EventView>,
    pos: Seq<i128>,
    parent_key: NodeKey,
    new_children: Seq<NodeKey>,
) -> Seq<EventView> {
    let at = last_absorbing(
        forest,
        events,
        pos,
        forest.node(parent_key).direction,
        events.len() as int,
    );
    if at >= 0 {
        events.update(
            at,
            EventView::Grown {
                parent: events[at]->Grown_parent,
                children: leaves_among(forest, events[at]->Grown_children) + new_children,
            },
        )
    } else {
        events.push(EventView::Grown { parent: parent_key, children: new_children })
    }
}

impl<const D: usize> NTree<D> {
    /// Those of the keys, in their order, under which the tree holds a
    /// leaf.
    pub fn leaves_of(&self, keys: &Vec<NodeKey>) -> (leaves: Vec<NodeKey>)
        ensures
            leaves@ == leaves_among(self@, keys@),
    {
        let mut leaves: Vec<NodeKey> = Vec::new();
        let mut i: usize = 0;
        while i < keys.len()
            invariant
                i <= keys.len(),
                leaves@ == leaves_among(self@, keys@.take(i as int)),
            decreases keys.len() - i,
        {
            proof {
                assert(keys@.take(i as int + 1).drop_last() =~= keys@.take(i as int));
            }
            match arena_get(&self.nodes, keys[i]) {
                Some(node) => {
                    if !node.has_children() {
                        leaves.push(keys[i]);
                    }
                },
                None => {},
            }
            i = i + 1;
        }
        assert(keys@.take(keys.len() as int) =~= keys@);
        leaves
    }

    /// Writes down that the leaf `parent_key`, whose centre is `pos`, has
    /// been split into `new_children`: see [`grow_recorded`].
    #[verifier::rlimit(40)]
    pub fn grow_event(
        &self,
        events: &mut Vec<TreeEvent>,
        pos: &Vec<i128>,
        parent_key: NodeKey,
        new_children: &Vec<NodeKey>,
    )
        requires
            self@.wf(),
            self@.contains(parent_key),
        ensures
            event_views(final(events)@) == grow_recorded(
                self@,
                event_views(old(events)@),
                pos@,
                parent_key,
                new_children@,
            ),
    {
        let ghost forest = self@;
        let ghost before = event_views(events@);
        let direction = self.get_node_unchecked(parent_key).direction();
        let mut i: usize = events.len();
        while i > 0
            invariant
                i <= events.len(),
                events@ == old(events)@,
                forest == self@,
                forest.wf(),
                before == event_views(events@),
                direction == forest.node(parent_key).direction,
                last_absorbing(forest, before, pos@, direction, before.len() as int)
                    == last_absorbing(forest, before, pos@, direction, i as int),
            decreases i,
        {
            i = i - 1;
            let absorbed: Option<(NodeKey, Vec<NodeKey>)> = match &events[i] {
                TreeEvent::Grown { parent, children } => {
                    match arena_get(&self.nodes, *parent) {
                        Some(node) => {
                            proof {
                                assert(forest.contains(*parent));
                                lemma_shape_in_range(forest, *parent);
                            }
                            if node.direction() == direction && node.contains_point(pos) {
                                Some((*parent, self.leaves_of(children)))
                            } else {
                                None
                            }
                        },
                        None => None,
                    }
                },
                _ => None,
            };
            assert(before[i as int] == events@[i as int]@);
            match absorbed {
                Some(found) => {
                    let parent = found.0;
                    let mut children = found.1;
                    append_keys(&mut children, new_children);
                    events[i] = TreeEvent::Grown { parent, children };
                    proof {
                        assert(absorbs(forest, before[i as int], pos@, direction));
                        assert(event_views(events@) =~= grow_recorded(
                            forest,
                            before,
                            pos@,
                            parent_key,
                            new_children@,
                        ));
                    }
                    return ;
                },
                None => {
                    assert(!absorbs(forest, before[i as int], pos@, direction));
                },
            }
        }
        events.push(TreeEvent::Grown { parent: parent_key, children: copy_keys(new_children) });
        proof {
            assert(event_views(events@) =~= grow_recorded(
                forest,
                before,
                pos@,
                parent_key,
                new_children@,
            ));
        }
    }

    /// Makes a node a leaf and, if it was a branch, writes down which nodes
    /// have left the arena.
    #[verifier::rlimit(40)]
    pub fn shrink_event(&mut self, events: &mut Vec<TreeEvent>, parent_key: NodeKey)
        requires
            old(self)@.wf(),
            old(self)@.contains(parent_key),
        ensures
            final(self)@.wf(),
            final(self).slots() == old(self).slots(),
            shrink_recorded(
                old(self)@,
                final(self)@,
                event_views(old(events)@),
                event_views(final(events)@),
                parent_key,
            ),
    {
        let ghost before = self@;
        let ghost earlier = event_views(events@);
        let removed_nodes = self.remove_children_recursively(parent_key);
        if removed_nodes.len() > 0 {
            let ghost removed = removed_nodes@;
            events.push(TreeEvent::Shrunk { retained: parent_key, removed: removed_nodes });
            proof {
                let later = event_views(events@);
                assert(later.drop_last() =~= earlier);
                assert(later.last() == (EventView::Shrunk { retained: parent_key, removed }));
                before.lemma_removed_of_branch(self@, parent_key, removed);
            }
        } else {
            proof {
                before.lemma_removed_of_branch(self@, parent_key, removed_nodes@);
                assert(removed_nodes@ =~= Seq::empty());
                assert(event_views(events@) =~= earlier);
            }
        }
    }
}

/// What making a node a leaf does to the tree and to the events. A leaf
/// stays as it is and nothing is written down. Below a branch everything is
/// taken away, and an event at the end names the branch and the nodes that
/// have left.
pub open spec fn shrink_recorded(
    before: Forest,
    after: Forest,
    events: Seq<EventView>,
    events_after: Seq<EventView>,
    key: NodeKey,
) -> bool {
    if before.is_leaf(key) {
        events_after == events && before.collapsed(after, key, Seq::empty())
    } else {
        &&& events_after.len() == events.len() + 1
        &&& events_after.drop_last() == events
        &&& events_after.last() matches EventView::Shrunk { retained, removed }
        &&& retained == key
        &&& removed.len() > 0
        &&& before.collapsed(after, key, removed)
    }
}

/// The values of a node of a well-formed tree stay within the limit.
pub proof fn lemma_shape_in_range(forest: Forest, key: NodeKey)
    requires
        forest.wf(),
        forest.contains(key),
    ensures
        forest.node(key).in_range(),
{
    let n = forest.node(key);
    assert(forest.node_wf(key));
    forest.lemma_sizes(n.depth as int);
    assert forall|a: int| 0 <= a < n.pos.len() implies -crate::fixed::COORD_LIMIT
        <= #[trigger] n.pos[a] <= crate::fixed::COORD_LIMIT by {
        assert(-crate::fixed::COORD_LIMIT <= n.pos[a] - n.size / 2 && n.pos[a] + n.size / 2
            <= crate::fixed::COORD_LIMIT);
    }
}

} // verus!
