//! What holds of refinement passes with a predicate that looks at the place
//! of a node alone.

use vstd::prelude::*;
use crate::arena::NodeKey;
use crate::forest::{is_child_of, Forest};
use crate::sizes::keys_to_update;
use crate::tree_node::{NodeView, TreeNode};
use crate::tree_traits::EventView;

verus! {

/// The two nodes take the same place: they have the same edge length,
/// centre, level and face, and the same centre in the world.
pub open spec fn same_place(a: NodeView, b: NodeView) -> bool {
    &&& a.size == b.size
    &&& a.pos == b.pos
    &&& a.depth == b.depth
    &&& a.direction == b.direction
    &&& a.world_pos == b.world_pos
}

/// The predicate looks at the place of a node alone: an answer that it can
/// give for one node it can give for every node that takes the same place.
pub open spec fn shape_blind<F: Fn(&TreeNode) -> bool>(f: F) -> bool {
    forall|first: TreeNode, second: TreeNode, answer: bool|
        #![trigger f.ensures((&first,), answer), f.ensures((&second,), answer)]
        same_place(first@, second@) && f.ensures((&first,), answer) ==> f.ensures(
            (&second,),
            answer,
        )
}

/// The predicate has one answer at most for every node.
pub open spec fn single_valued<F: Fn(&TreeNode) -> bool>(f: F) -> bool {
    forall|seen: TreeNode, first: bool, second: bool|
        #![trigger f.ensures((&seen,), first), f.ensures((&seen,), second)]
        f.ensures((&seen,), first) && f.ensures((&seen,), second) ==> first == second
}

/// What a refinement pass followed by bringing the sizes up to date makes of
/// a tree: the pass gives some tree, and the sizes are then brought up to
/// date around the nodes that its events name.
pub open spec fn passed<F: Fn(&TreeNode) -> bool>(
    before: Forest,
    after: Forest,
    f: F,
    events: Seq<EventView>,
) -> bool {
    exists|refined: Forest|
        #![trigger before.refined(refined, f, events)]
        before.refined(refined, f, events) && after == refined.updated_all(keys_to_update(events))
}

impl Forest {
    /// Bringing sizes up to date changes the sizes that the nodes keep for
    /// their neighbours and nothing else.
    #[verifier::rlimit(40)]
    pub proof fn lemma_updated_all_keeps(self, keys: Seq<NodeKey>)
        ensures
            ({
                let after = self.updated_all(keys);
                &&& after.roots == self.roots
                &&& after.min_size == self.min_size
                &&& after.root_size == self.root_size
                &&& after.dim == self.dim
                &&& after.starved == self.starved
                &&& forall|k: NodeKey| #[trigger] after.contains(k) == self.contains(k)
                &&& forall|k: NodeKey|
                    #[trigger] self.contains(k) ==> same_place(after.node(k), self.node(k))
                        && after.node(k).children == self.node(k).children && after.node(k).parent
                        == self.node(k).parent
            }),
        decreases keys.len(),
    {
        if keys.len() > 0 {
            self.lemma_updated_all_keeps(keys.drop_last());
            let before = self.updated_all(keys.drop_last());
            let after = self.updated_all(keys);
            let key = keys.last();
            if before.contains(key) {
                assert(after == before.with_neighbor_sizes(key));
                before.lemma_corrected_keeps(key, 2 * before.dim as int, Seq::empty());
                let corrected = before.neighbors_corrected(
                    key,
                    2 * before.dim as int,
                    Seq::empty(),
                );
                assert forall|k: NodeKey| #[trigger] after.contains(k) == self.contains(k) by {
                    assert(before.contains(k) == self.contains(k));
                    assert(corrected.contains(k) == before.contains(k));
                }
                assert forall|k: NodeKey| #[trigger] self.contains(k) implies same_place(
                    after.node(k),
                    self.node(k),
                ) && after.node(k).children == self.node(k).children && after.node(k).parent
                    == self.node(k).parent by {
                    assert(before.contains(k));
                    assert(corrected.contains(k));
                    assert(corrected.node(k) == (NodeView {
                        neighbor_sizes: corrected.node(k).neighbor_sizes,
                        ..before.node(k)
                    }));
                }
            }
        }
    }

    /// In a tree that is not starved, a node that is as the predicate's
    /// answer asks for is a node that a pass has nothing to do at, if the
    /// predicate looks at the place alone and has one answer. This stays so
    /// when the sizes that the node keeps for its neighbours change.
    pub proof fn lemma_decided_is_settled<F: Fn(&TreeNode) -> bool>(
        self,
        later: Forest,
        f: F,
        key: NodeKey,
    )
        requires
            self.wf(),
            self.contains(key),
            self.decided(f, key),
            !self.starved,
            shape_blind(f),
            single_valued(f),
            later.min_size == self.min_size,
            same_place(later.node(key), self.node(key)),
            later.node(key).children == self.node(key).children,
        ensures
            later.settled_at(f, key),
    {
        let (seen0, answer0) = choose|seen: TreeNode, answer: bool| #[trigger]
            f.ensures((&seen,), answer) && self.follows(key, seen@, answer);
        assert(self.node_wf(key));
        assert forall|seen: TreeNode, answer: bool|
            seen@ == later.node(key) && #[trigger] f.ensures((&seen,), answer) implies if answer {
            later.node(key).children is Some || later.node(key).size <= later.min_size
        } else {
            later.node(key).children is None
        } by {
            assert(same_place(seen@, seen0@));
            assert(f.ensures((&seen0,), answer));
            assert(answer == answer0);
        }
    }

    /// After a pass that has not left the tree starved, a pass with the same
    /// predicate has nothing to do, if the predicate looks at the place of a
    /// node alone and has one answer.
    pub proof fn law_refined_is_settled<F: Fn(&TreeNode) -> bool>(
        self,
        after: Forest,
        f: F,
        events: Seq<EventView>,
    )
        requires
            self.refined(after, f, events),
            !after.starved,
            shape_blind(f),
            single_valued(f),
        ensures
            after.settled(f),
    {
        assert forall|k: NodeKey| #[trigger] after.contains(k) implies after.settled_at(f, k) by {
            after.lemma_decided_is_settled(after, f, k);
        }
    }
}

/// Idempotence of the refinement pass: a second pass with the same
/// predicate reports no events and leaves the tree as it is. This is said of
/// a predicate that looks at the place of a node alone and has one answer,
/// and of a first pass that has not left the tree starved.
pub proof fn law_insert_twice<F: Fn(&TreeNode) -> bool>(
    before: Forest,
    once: Forest,
    twice: Forest,
    f: F,
    first: Seq<EventView>,
    second: Seq<EventView>,
)
    requires
        before.refined(once, f, first),
        once.refined(twice, f, second),
        !once.starved,
        shape_blind(f),
        single_valued(f),
    ensures
        second.len() == 0,
        twice == once,
{
    before.law_refined_is_settled(once, f, first);
    assert((Forest { starved: false, ..once }) =~~= once);
}

/// Idempotence of the pass that also brings the sizes up to date: a second
/// such pass with the same predicate reports no events and leaves the tree
/// as it is. This is said of a predicate that looks at the place of a node
/// alone and has one answer, and of a first pass that has not left the tree
/// starved.
pub proof fn law_insert_and_update_twice<F: Fn(&TreeNode) -> bool>(
    before: Forest,
    once: Forest,
    twice: Forest,
    f: F,
    first: Seq<EventView>,
    second: Seq<EventView>,
)
    requires
        passed(before, once, f, first),
        passed(once, twice, f, second),
        !once.starved,
        shape_blind(f),
        single_valued(f),
    ensures
        second.len() == 0,
        twice == once,
{
    let refined = choose|refined: Forest|
        #![trigger before.refined(refined, f, first)]
        before.refined(refined, f, first) && once == refined.updated_all(keys_to_update(first));
    let again = choose|again: Forest|
        #![trigger once.refined(again, f, second)]
        once.refined(again, f, second) && twice == again.updated_all(keys_to_update(second));
    refined.lemma_updated_all_keeps(keys_to_update(first));
    assert(once.settled(f)) by {
        assert forall|k: NodeKey| #[trigger] once.contains(k) implies once.settled_at(f, k) by {
            assert(refined.contains(k));
            refined.lemma_decided_is_settled(once, f, k);
        }
    }
    assert((Forest { starved: false, ..once }) =~~= once);
    assert(second =~= Seq::empty());
    assert(keys_to_update(second) =~= Seq::empty());
}

impl Forest {
    /// A node that is as the predicate's answer asks for, in a tree that is
    /// not starved: it is a branch exactly if the answer is yes and it is
    /// larger than the smallest size.
    pub proof fn lemma_decided_shape<F: Fn(&TreeNode) -> bool>(
        self,
        f: F,
        key: NodeKey,
        seen: TreeNode,
        answer: bool,
    )
        requires
            self.wf(),
            self.contains(key),
            !self.starved,
            f.ensures((&seen,), answer),
            self.follows(key, seen@, answer),
        ensures
            same_place(seen@, self.node(key)),
            self.node(key).children is Some <==> answer && self.node(key).size > self.min_size,
    {
        assert(self.node_wf(key));
    }

    /// Shrink–grow round trip: two trees that passes with the same
    /// predicate have left, neither of them starved, hold the same places,
    /// and a place is a leaf in the one exactly if it is a leaf in the other,
    /// whatever the trees were before the passes. This is said of trees with
    /// the same sizes and with roots in the same places, and of a predicate
    /// that looks at the place of a node alone and has one answer. It
    /// returns, for a node of the one tree, the node in the same place of
    /// the other.
    #[verifier::rlimit(40)]
    pub proof fn law_same_refinement<F: Fn(&TreeNode) -> bool>(
        self,
        other: Forest,
        f: F,
        key: NodeKey,
    ) -> (twin: NodeKey)
        requires
            self.wf(),
            other.wf(),
            !self.starved,
            !other.starved,
            forall|k: NodeKey| #[trigger] self.contains(k) ==> self.decided(f, k),
            forall|k: NodeKey| #[trigger] other.contains(k) ==> other.decided(f, k),
            shape_blind(f),
            single_valued(f),
            self.roots == other.roots,
            self.min_size == other.min_size,
            self.root_size == other.root_size,
            self.dim == other.dim,
            forall|i: int|
                0 <= i < self.roots.len() ==> same_place(
                    self.node(#[trigger] self.roots[i]),
                    other.node(self.roots[i]),
                ),
            self.contains(key),
        ensures
            other.contains(twin),
            same_place(self.node(key), other.node(twin)),
            self.is_leaf(key) <==> other.is_leaf(twin),
        decreases self.node(key).depth,
    {
        assert(self.node_wf(key));
        let n = self.node(key);
        let twin = match n.parent {
            None => {
                let i = choose|i: int| 0 <= i < self.roots.len() && self.roots[i] == key;
                assert(other.contains(other.roots[i]));
                assert(same_place(self.node(self.roots[i]), other.node(self.roots[i])));
                key
            },
            Some(parent) => {
                let mate = self.law_same_refinement(other, f, parent);
                assert(self.node_wf(parent));
                assert(other.node_wf(mate));
                let keys = self.node(parent).children->0;
                let i = choose|i: int| 0 <= i < keys.len() && keys[i] == key;
                let twins = other.node(mate).children->0;
                let twin = twins[i];
                assert(other.contains(twins[i]));
                assert(self.contains(keys[i]));
                assert(is_child_of(self.node(keys[i]), self.node(parent), parent, i, self.dim));
                assert(is_child_of(other.node(twins[i]), other.node(mate), mate, i, other.dim));
                assert(self.node(key).pos =~= other.node(twin).pos);
                twin
            },
        };
        let (seen, answer) = choose|seen: TreeNode, answer: bool| #[trigger]
            f.ensures((&seen,), answer) && self.follows(key, seen@, answer);
        let (seen2, answer2) = choose|seen: TreeNode, answer: bool| #[trigger]
            f.ensures((&seen,), answer) && other.follows(twin, seen@, answer);
        self.lemma_decided_shape(f, key, seen, answer);
        other.lemma_decided_shape(f, twin, seen2, answer2);
        assert(same_place(seen@, seen2@));
        assert(f.ensures((&seen2,), answer));
        assert(answer == answer2);
        twin
    }
}

} // verus!
