//! The sizes of the neighbours that every node keeps for its faces.

use vstd::prelude::*;
use crate::arena::{arena_index, arena_index_mut, NodeKey};
use crate::fixed::UNKNOWN_SIZE;
use crate::forest::{is_child_of, Forest};
use crate::neighbors::lemma_face_is_step;
use crate::node_traits::{
    all_neighbor_directions, face_direction, face_weight_sum, is_face_direction,
    lemma_face_weight_sum_of_face, neighbor_index, opposite, opposite_direction, valid_dimension,
};
use crate::ntree::NTree;
use crate::planet_tree_impl::{
    lemma_transform_keeps_faces, map_from_dir_to_dir, map_from_dir_to_dir_spec, Direction,
};
use crate::node_traits::neighbor_dir_from_index;
use crate::tree_node::{NodeView, TreeNode};
use crate::tree_traits::{event_views, EventView, NeighborSizeEvent, TreeEvent};
use crate::visited::{visited_insert, visited_marks, visited_new, visited_or_insert, VisitedNodes};

verus! {

/// What a slot holds after a neighbour of edge length `subject` has looked
/// at it. A slot that holds `subject` stays. Any other slot takes `subject`
/// if the node itself, of edge length `own`, is smaller, and `own` if it is
/// not.
pub open spec fn corrected_size(slot: int, own: int, subject: int) -> int {
    if slot == subject {
        slot
    } else if own < subject {
        subject
    } else {
        own
    }
}

/// The larger of two sizes.
pub open spec fn larger_size(a: int, b: int) -> int {
    if a < b {
        b
    } else {
        a
    }
}

impl Forest {
    /// This tree with one slot of one node written.
    pub open spec fn with_slot(self, key: NodeKey, face: int, size: i128) -> Forest {
        Forest {
            nodes: self.nodes.insert(
                key,
                NodeView {
                    neighbor_sizes: self.node(key).neighbor_sizes.update(face, size),
                    ..self.node(key)
                },
            ),
            ..self
        }
    }

    /// Writing a slot with nothing or with a size that is not below the
    /// node's own keeps the tree well formed.
    #[verifier::rlimit(40)]
    pub proof fn lemma_with_slot_wf(self, key: NodeKey, face: int, size: i128)
        requires
            self.wf(),
            self.contains(key),
            0 <= face < 2 * self.dim,
            size == UNKNOWN_SIZE || size >= self.node(key).size,
        ensures
            self.with_slot(key, face, size).wf(),
    {
        let after = self.with_slot(key, face, size);
        assert forall|k: NodeKey| #[trigger] after.contains(k) implies after.node_wf(k) by {
            assert(self.contains(k));
            assert(self.node_wf(k));
            let n = self.node(k);
            let m = after.node(k);
            assert(after.shape_wf(m)) by {
                assert forall|f: int| 0 <= f < 2 * self.dim implies #[trigger] m.neighbor_sizes[f]
                    == UNKNOWN_SIZE || m.neighbor_sizes[f] >= m.size by {
                    assert(n.neighbor_sizes[f] == UNKNOWN_SIZE || n.neighbor_sizes[f] >= n.size);
                }
            }
            match n.parent {
                Some(p) => {
                    assert(self.contains(p));
                },
                None => {},
            }
            assert(after.parent_wf(k));
            match n.children {
                Some(keys) => {
                    assert forall|i: int| 0 <= i < keys.len() implies after.contains(
                        #[trigger] keys[i],
                    ) && is_child_of(after.node(keys[i]), m, k, i, after.dim) by {
                        assert(self.contains(keys[i]));
                        assert(is_child_of(self.node(keys[i]), n, k, i, self.dim));
                    }
                },
                None => {},
            }
            assert(after.children_wf(k));
        }
        assert forall|i: int| 0 <= i < after.roots.len() implies {
            &&& after.contains(#[trigger] after.roots[i])
            &&& after.node(after.roots[i]).parent is None
            &&& after.is_planet() ==> after.node(after.roots[i]).direction == Direction::at(i)
        } by {
            assert(self.contains(self.roots[i]));
        }
    }

    /// The direction in which a neighbour across face `face` of `key` sees
    /// `key`: the opposite of the face's direction, on a planet taken into
    /// the coordinates of the neighbour's face.
    pub open spec fn back_direction(self, key: NodeKey, neighbour: NodeKey, face: int) -> Seq<i32> {
        let back = opposite(face_direction(self.dim, face));
        if self.is_planet() {
            map_from_dir_to_dir_spec(self.node(key).direction, self.node(neighbour).direction, back)
        } else {
            back
        }
    }

    /// The slot of a neighbour across face `face` of `key` that stands for
    /// the face towards `key`.
    pub open spec fn back_face(self, key: NodeKey, neighbour: NodeKey, face: int) -> int {
        face_weight_sum(self.back_direction(key, neighbour, face)) - 1
    }

    /// The leaves across face `face` of a node.
    pub open spec fn face_neighbors(self, key: NodeKey, face: int) -> Seq<NodeKey> {
        self.neighbors(key, face_direction(self.dim, face))
    }

    /// `slot` of `neighbour` stands for a face towards `key`, as seen across
    /// one of the first `faces` faces of `key`, or across the next face if
    /// `neighbour` is among `extra`.
    pub open spec fn looks_back(
        self,
        key: NodeKey,
        neighbour: NodeKey,
        slot: int,
        faces: int,
        extra: Seq<NodeKey>,
    ) -> bool {
        ||| exists|face: int|
            0 <= face < faces && (#[trigger] self.face_neighbors(key, face)).contains(neighbour)
                && self.back_face(key, neighbour, face) == slot
        ||| extra.contains(neighbour) && self.back_face(key, neighbour, faces) == slot
    }

    /// What a slot holds after the neighbours across the first `faces` faces
    /// of `key`, and those among `extra` across the next, have been
    /// corrected.
    #[verifier::opaque]
    pub open spec fn slot_corrected(
        self,
        key: NodeKey,
        k: NodeKey,
        slot: int,
        faces: int,
        extra: Seq<NodeKey>,
    ) -> i128 {
        if self.looks_back(key, k, slot, faces, extra) {
            corrected_size(
                self.node(k).neighbor_sizes[slot] as int,
                self.node(k).size as int,
                self.node(key).size as int,
            ) as i128
        } else {
            self.node(k).neighbor_sizes[slot]
        }
    }

    /// This tree after the neighbours across the first `faces` faces of
    /// `key`, and those among `extra` across the next, have been corrected.
    #[verifier::opaque]
    pub open spec fn neighbors_corrected(self, key: NodeKey, faces: int, extra: Seq<NodeKey>) -> Forest {
        Forest {
            nodes: Map::new(
                |k: NodeKey| self.contains(k),
                |k: NodeKey|
                    NodeView {
                        neighbor_sizes: Seq::new(
                            self.node(k).neighbor_sizes.len(),
                            |slot: int| self.slot_corrected(key, k, slot, faces, extra),
                        ),
                        ..self.node(k)
                    },
            ),
            ..self
        }
    }

    /// The edge length of the largest of the given nodes, zero if there is
    /// none.
    pub open spec fn coarsest(self, found: Seq<NodeKey>) -> int
        decreases found.len(),
    {
        if found.len() == 0 {
            0
        } else {
            larger_size(self.node(found.last()).size as int, self.coarsest(found.drop_last()))
        }
    }

    /// What slot `face` of `key` holds in the end: if there are leaves
    /// across the face, the larger of the node's own size and the size of
    /// the largest of them; otherwise what it held.
    pub open spec fn own_slot(self, key: NodeKey, face: int, held: i128) -> i128 {
        let found = self.face_neighbors(key, face);
        if found.len() > 0 {
            larger_size(self.node(key).size as int, self.coarsest(found)) as i128
        } else {
            held
        }
    }

    /// The largest of some nodes is not larger than a bound on all of them.
    pub proof fn lemma_coarsest_bound(self, found: Seq<NodeKey>, bound: int)
        requires
            bound >= 0,
            forall|i: int| 0 <= i < found.len() ==> self.node(#[trigger] found[i]).size <= bound,
        ensures
            self.coarsest(found) <= bound,
        decreases found.len(),
    {
        if found.len() > 0 {
            assert(self.node(found[found.len() - 1]).size <= bound);
            let rest = found.drop_last();
            assert forall|i: int| 0 <= i < rest.len() implies self.node(#[trigger] rest[i]).size
                <= bound by {
                assert(rest[i] == found[i]);
            }
            self.lemma_coarsest_bound(rest, bound);
        }
    }

    /// Against the size of the node, the largest of the leaves that a search
    /// finds counts as much as any one of them: the search finds one leaf,
    /// or leaves that are all smaller than the node.
    pub proof fn lemma_coarsest_found(self, key: NodeKey, dir: Seq<i32>, other: NodeKey)
        requires
            self.wf(),
            self.contains(key),
            is_face_direction(dir),
            dir.len() == self.dim,
            self.neighbors(key, dir).contains(other),
        ensures
            larger_size(self.node(key).size as int, self.coarsest(self.neighbors(key, dir)))
                == larger_size(self.node(key).size as int, self.node(other).size as int),
    {
        let found = self.neighbors(key, dir);
        let own = self.node(key).size as int;
        assert(self.node_wf(key));
        self.lemma_neighbors_one_or_smaller(key, dir, other);
        assert(self.node_wf(other));
        if found == seq![other] {
            assert(found.last() == other);
            assert(found.drop_last() =~= Seq::empty());
            assert(self.coarsest(found.drop_last()) == 0);
        } else {
            assert forall|i: int| 0 <= i < found.len() implies self.node(#[trigger] found[i]).size
                <= own - 1 by {
                assert(found.contains(found[i]));
                self.lemma_neighbors_one_or_smaller(key, dir, found[i]);
                if found == seq![found[i]] {
                    let at = choose|at: int| 0 <= at < found.len() && found[at] == other;
                    assert(seq![found[i]][at] == other);
                }
            }
            self.lemma_coarsest_bound(found, own - 1);
        }
    }

    /// This tree after the sizes around `key` have been brought up to date:
    /// every leaf across a face of `key` has had its slot towards `key`
    /// corrected, and `key` holds for every face with leaves across it the
    /// larger of its own size and theirs.
    pub open spec fn with_neighbor_sizes(self, key: NodeKey) -> Forest {
        let corrected = self.neighbors_corrected(key, 2 * self.dim as int, Seq::empty());
        Forest {
            nodes: corrected.nodes.insert(
                key,
                NodeView {
                    neighbor_sizes: Seq::new(
                        self.node(key).neighbor_sizes.len(),
                        |face: int|
                            self.own_slot(key, face, corrected.node(key).neighbor_sizes[face]),
                    ),
                    ..self.node(key)
                },
            ),
            ..self
        }
    }

    /// The tree after the neighbours of `key` have been corrected and `key`
    /// has taken its sizes for the first `faces` faces.
    pub open spec fn own_written(self, key: NodeKey, faces: int) -> Forest {
        let corrected = self.neighbors_corrected(key, 2 * self.dim as int, Seq::empty());
        Forest {
            nodes: corrected.nodes.insert(
                key,
                NodeView {
                    neighbor_sizes: Seq::new(
                        self.node(key).neighbor_sizes.len(),
                        |face: int|
                            if face < faces {
                                self.own_slot(key, face, corrected.node(key).neighbor_sizes[face])
                            } else {
                                corrected.node(key).neighbor_sizes[face]
                            },
                    ),
                    ..self.node(key)
                },
            ),
            ..self
        }
    }

    /// Correcting the neighbours of a node changes the sizes that the nodes
    /// keep for their neighbours and nothing else.
    pub proof fn lemma_corrected_keeps(self, key: NodeKey, faces: int, extra: Seq<NodeKey>)
        ensures
            ({
                let after = self.neighbors_corrected(key, faces, extra);
                &&& after.roots == self.roots
                &&& after.min_size == self.min_size
                &&& after.root_size == self.root_size
                &&& after.dim == self.dim
                &&& after.starved == self.starved
                &&& forall|k: NodeKey| #[trigger] after.contains(k) == self.contains(k)
                &&& forall|k: NodeKey|
                    #[trigger] self.contains(k) ==> after.node(k) == (NodeView {
                        neighbor_sizes: after.node(k).neighbor_sizes,
                        ..self.node(k)
                    }) && after.node(k).neighbor_sizes.len() == self.node(k).neighbor_sizes.len()
            }),
    {
        reveal(Forest::neighbors_corrected);
    }

    /// Before the node has taken any size, only its neighbours have
    /// changed.
    pub proof fn lemma_own_start(self, key: NodeKey)
        requires
            self.wf(),
            self.contains(key),
        ensures
            self.own_written(key, 0) == self.neighbors_corrected(
                key,
                2 * self.dim as int,
                Seq::empty(),
            ),
    {
        let corrected = self.neighbors_corrected(key, 2 * self.dim as int, Seq::empty());
        self.lemma_corrected_keeps(key, 2 * self.dim as int, Seq::empty());
        let a = self.own_written(key, 0);
        assert(corrected.contains(key));
        assert(a.nodes[key].neighbor_sizes =~= corrected.nodes[key].neighbor_sizes);
        assert(a.nodes[key] == corrected.nodes[key]);
        assert(a.nodes =~= corrected.nodes);
    }

    /// Taking the size for the next face goes one step further.
    #[verifier::rlimit(40)]
    pub proof fn lemma_own_step(self, key: NodeKey, face: int)
        requires
            self.wf(),
            self.contains(key),
            0 <= face < 2 * self.dim,
            forall|j: int|
                0 <= j < self.face_neighbors(key, face).len() ==> self.contains(
                    #[trigger] self.face_neighbors(key, face)[j],
                ),
        ensures
            ({
                let now = self.own_written(key, face);
                let found = self.face_neighbors(key, face);
                &&& now.contains(key)
                &&& now.node(key).size == self.node(key).size
                &&& if found.len() > 0 {
                    let size = larger_size(
                        self.node(key).size as int,
                        now.node(found.last()).size as int,
                    );
                    &&& now.contains(found.last())
                    &&& size >= now.node(key).size
                    &&& size == size as i128
                    &&& now.with_slot(key, face, size as i128) == self.own_written(key, face + 1)
                } else {
                    now == self.own_written(key, face + 1)
                }
            }),
    {
        let corrected = self.neighbors_corrected(key, 2 * self.dim as int, Seq::empty());
        self.lemma_corrected_keeps(key, 2 * self.dim as int, Seq::empty());
        let now = self.own_written(key, face);
        let next = self.own_written(key, face + 1);
        let found = self.face_neighbors(key, face);
        assert(self.node_wf(key));
        assert(corrected.contains(key));
        let held = now.nodes[key].neighbor_sizes;
        let wanted = next.nodes[key].neighbor_sizes;
        assert(held.len() == wanted.len());
        assert forall|f: int| 0 <= f < held.len() && f != face implies held[f] == wanted[f] by {}
        if found.len() > 0 {
            let last = found.last();
            assert(self.contains(found[found.len() - 1]));
            assert(self.node_wf(last));
            assert(corrected.contains(last));
            assert(now.node(last).size == self.node(last).size);
            let size = larger_size(self.node(key).size as int, now.node(last).size as int);
            let dir = face_direction(self.dim, face);
            assert(dir == face_direction(dir.len(), face));
            assert(found.contains(last)) by {
                assert(found[found.len() - 1] == last);
            }
            self.lemma_coarsest_found(key, dir, last);
            assert(wanted[face] == size as i128);
            assert(held.update(face, size as i128) =~= wanted);
            let written = now.with_slot(key, face, size as i128);
            assert(written.nodes[key] == next.nodes[key]);
            assert(written.nodes =~= next.nodes);
        } else {
            assert(held =~= wanted);
            assert(now.nodes[key] == next.nodes[key]);
            assert(now.nodes =~= next.nodes);
        }
    }

    /// When the node has taken its sizes for all faces, the sizes around it
    /// are up to date.
    pub proof fn lemma_own_done(self, key: NodeKey)
        requires
            self.wf(),
            self.contains(key),
        ensures
            self.own_written(key, 2 * self.dim as int) == self.with_neighbor_sizes(key),
    {
        let a = self.own_written(key, 2 * self.dim as int);
        let b = self.with_neighbor_sizes(key);
        assert(self.node_wf(key));
        assert(a.nodes[key].neighbor_sizes =~= b.nodes[key].neighbor_sizes);
        assert(a.nodes[key] == b.nodes[key]);
        assert(a.nodes =~= b.nodes);
    }

    /// A neighbour's slot has changed by the time the neighbours across the
    /// first `faces` faces, and those among `extra` across the next, have
    /// been corrected.
    pub open spec fn changed_by(self, key: NodeKey, k: NodeKey, faces: int, extra: Seq<NodeKey>) -> bool {
        exists|slot: int|
            0 <= slot < 2 * self.dim && #[trigger] self.slot_corrected(key, k, slot, faces, extra)
                != self.node(k).neighbor_sizes[slot]
    }

    /// The marks by that time: a node that had a mark keeps it, and a
    /// neighbour whose slot has changed is marked as changed.
    pub open spec fn marks_corrected(
        self,
        marks: Map<NodeKey, NeighborSizeEvent>,
        key: NodeKey,
        faces: int,
        extra: Seq<NodeKey>,
    ) -> Map<NodeKey, NeighborSizeEvent> {
        Map::new(
            |k: NodeKey| marks.contains_key(k) || (self.contains(k) && self.changed_by(key, k, faces, extra)),
            |k: NodeKey|
                if marks.contains_key(k) {
                    marks[k]
                } else {
                    NeighborSizeEvent::ChangedSize
                },
        )
    }

    /// The marks after the sizes around `key` have been brought up to date:
    /// as [`Forest::marks_corrected`] says, and `key` is marked as new.
    pub open spec fn marks_after(self, marks: Map<NodeKey, NeighborSizeEvent>, key: NodeKey) -> Map<
        NodeKey,
        NeighborSizeEvent,
    > {
        self.marks_corrected(marks, key, 2 * self.dim as int, Seq::empty()).insert(
            key,
            NeighborSizeEvent::New,
        )
    }
}

impl<const D: usize> NTree<D> {
    /// A neighbour of edge length `subject_size` looks at the slot of a node
    /// for the face that `direction` names: see [`corrected_size`]. Says
    /// whether the slot has changed. A direction that names no face changes
    /// nothing.
    pub fn update_neighbor_size(
        &mut self,
        neighbour_key: NodeKey,
        subject_size: i128,
        direction: [i32; D],
    ) -> (event: NeighborSizeEvent)
        requires
            old(self)@.wf(),
            old(self)@.contains(neighbour_key),
            face_weight_sum(direction@) <= 2 * D,
        ensures
            final(self)@.wf(),
            final(self).slots() == old(self).slots(),
            face_weight_sum(direction@) >= 0,
            face_weight_sum(direction@) == 0 ==> final(self)@ == old(self)@ && event
                == NeighborSizeEvent::Unchanged,
            face_weight_sum(direction@) != 0 ==> ({
                let face = face_weight_sum(direction@) - 1;
                let node = old(self)@.node(neighbour_key);
                let size = corrected_size(
                    node.neighbor_sizes[face] as int,
                    node.size as int,
                    subject_size as int,
                );
                &&& final(self)@ == old(self)@.with_slot(neighbour_key, face, size as i128)
                &&& event == if size == node.neighbor_sizes[face] {
                    NeighborSizeEvent::Unchanged
                } else {
                    NeighborSizeEvent::ChangedSize
                }
            }),
    {
        let ghost before = self@;
        proof {
            assert(before.node_wf(neighbour_key));
            lemma_face_weight_sum_bounds(direction@);
        }
        let face = match neighbor_index::<D>(direction) {
            Some(index) => index,
            None => {
                return NeighborSizeEvent::Unchanged;
            },
        };
        let neighbour = arena_index_mut(&mut self.nodes, neighbour_key);
        let neighbor_size = neighbour.size;
        let held = neighbour.neighbor_sizes[face];
        let mut event = NeighborSizeEvent::Unchanged;
        if held != subject_size {
            if neighbor_size < subject_size {
                neighbour.neighbor_sizes[face] = subject_size;
                event = NeighborSizeEvent::ChangedSize;
            } else if held != neighbor_size {
                neighbour.neighbor_sizes[face] = neighbor_size;
                event = NeighborSizeEvent::ChangedSize;
            }
        }
        proof {
            let node = before.node(neighbour_key);
            let size = corrected_size(
                node.neighbor_sizes[face as int] as int,
                node.size as int,
                subject_size as int,
            );
            assert(node.neighbor_sizes.update(face as int, held) =~= node.neighbor_sizes);
            assert(self@ =~~= before.with_slot(neighbour_key, face as int, size as i128));
            assert(node.neighbor_sizes[face as int] == UNKNOWN_SIZE || node.neighbor_sizes[face as int]
                >= node.size);
            before.lemma_with_slot_wf(neighbour_key, face as int, size as i128);
        }
        event
    }
}

/// The weights of the components of a vector add up to zero or more.
pub proof fn lemma_face_weight_sum_bounds(dir: Seq<i32>)
    ensures
        face_weight_sum(dir) >= 0,
    decreases dir.len(),
{
    if dir.len() > 0 {
        lemma_face_weight_sum_bounds(dir.drop_last());
    }
}

/// Looking at a slot twice with the same neighbour changes nothing the
/// second time.
pub proof fn lemma_corrected_twice(slot: int, own: int, subject: int)
    ensures
        corrected_size(corrected_size(slot, own, subject), own, subject) == corrected_size(
            slot,
            own,
            subject,
        ),
{
}

/// The vector that points the other way from a face is the vector of the
/// face across.
pub proof fn lemma_opposite_face(d: nat, face: int)
    requires
        0 <= face < 2 * d,
    ensures
        opposite(face_direction(d, face)) == face_direction(
            d,
            if face % 2 == 0 {
                face + 1
            } else {
                face - 1
            },
        ),
{
    let other = if face % 2 == 0 {
        face + 1
    } else {
        face - 1
    };
    assert(opposite(face_direction(d, face)) =~= face_direction(d, other));
}

/// The opposite of the vector of a face, on a planet taken into the
/// coordinates of another face, is the vector of a face.
#[verifier::rlimit(40)]
pub proof fn lemma_back_is_face(dim: nat, planet: bool, from: Direction, to: Direction, face: int)
    requires
        0 <= face < 2 * dim,
        planet ==> dim == 2,
    ensures
        ({
            let back = opposite(face_direction(dim, face));
            let seen = if planet {
                map_from_dir_to_dir_spec(from, to, back)
            } else {
                back
            };
            &&& is_face_direction(seen)
            &&& seen.len() == dim
            &&& 0 <= face_weight_sum(seen) - 1 < 2 * dim
        }),
{
    lemma_opposite_face(dim, face);
    let other = if face % 2 == 0 {
        face + 1
    } else {
        face - 1
    };
    if planet {
        lemma_transform_keeps_faces(from, to, other);
        let r = choose|r: int|
            0 <= r < 4 && #[trigger] face_direction(2, r) == map_from_dir_to_dir_spec(
                from,
                to,
                face_direction(2, other),
            );
        lemma_face_weight_sum_of_face(2, r);
        let seen = face_direction(2, r);
        assert(seen.len() == 2);
        assert(seen == face_direction(seen.len(), r));
    } else {
        lemma_face_weight_sum_of_face(dim, other);
        let seen = face_direction(dim, other);
        assert(seen.len() == dim);
        assert(seen == face_direction(seen.len(), other));
    }
}

impl Forest {
    /// The direction back from a neighbour is the vector of a face.
    pub proof fn lemma_back_face(self, key: NodeKey, neighbour: NodeKey, face: int)
        requires
            self.wf(),
            self.contains(key),
            self.contains(neighbour),
            0 <= face < 2 * self.dim,
        ensures
            is_face_direction(self.back_direction(key, neighbour, face)),
            self.back_direction(key, neighbour, face).len() == self.dim,
            0 <= self.back_face(key, neighbour, face) < 2 * self.dim,
    {
        let dim = self.dim;
        let planet = self.is_planet();
        assert(planet ==> dim == 2);
        lemma_back_is_face(
            dim,
            planet,
            self.node(key).direction,
            self.node(neighbour).direction,
            face,
        );
    }

    /// Before any neighbour has been corrected the tree is as it was.
    pub proof fn lemma_correct_start(self, marks: Map<NodeKey, NeighborSizeEvent>, key: NodeKey)
        requires
            self.wf(),
        ensures
            self.neighbors_corrected(key, 0, Seq::empty()) == self,
            self.marks_corrected(marks, key, 0, Seq::empty()) == marks,
    {
        reveal(Forest::slot_corrected);
        reveal(Forest::neighbors_corrected);
        let after = self.neighbors_corrected(key, 0, Seq::empty());
        assert forall|k: NodeKey, slot: int| !self.looks_back(key, k, slot, 0, Seq::empty()) by {}
        assert forall|k: NodeKey| self.contains(k) implies #[trigger] after.nodes[k] == self.nodes[k] by {
            assert(after.nodes[k].neighbor_sizes =~= self.nodes[k].neighbor_sizes);
        }
        assert(after.nodes =~= self.nodes);
        assert forall|k: NodeKey| !self.changed_by(key, k, 0, Seq::empty()) by {}
        assert(self.marks_corrected(marks, key, 0, Seq::empty()) =~= marks);
    }

    /// When all leaves across a face have been corrected, the face is done.
    #[verifier::rlimit(40)]
    pub proof fn lemma_correct_face_done(
        self,
        marks: Map<NodeKey, NeighborSizeEvent>,
        key: NodeKey,
        face: int,
    )
        requires
            0 <= face,
        ensures
            self.neighbors_corrected(key, face, self.face_neighbors(key, face))
                == self.neighbors_corrected(key, face + 1, Seq::empty()),
            self.marks_corrected(marks, key, face, self.face_neighbors(key, face))
                == self.marks_corrected(marks, key, face + 1, Seq::empty()),
    {
        reveal(Forest::slot_corrected);
        reveal(Forest::neighbors_corrected);
        let list = self.face_neighbors(key, face);
        let a = self.neighbors_corrected(key, face, list);
        let b = self.neighbors_corrected(key, face + 1, Seq::empty());
        assert forall|k: NodeKey, slot: int|
            self.looks_back(key, k, slot, face, list) == self.looks_back(
                key,
                k,
                slot,
                face + 1,
                Seq::empty(),
            ) by {
            if self.looks_back(key, k, slot, face, list) {
                if list.contains(k) && self.back_face(key, k, face) == slot {
                    assert(self.face_neighbors(key, face).contains(k));
                } else {
                    let f = choose|f: int|
                        0 <= f < face && (#[trigger] self.face_neighbors(key, f)).contains(k)
                            && self.back_face(key, k, f) == slot;
                    assert(self.face_neighbors(key, f).contains(k));
                }
            }
            if self.looks_back(key, k, slot, face + 1, Seq::empty()) {
                let f = choose|f: int|
                    0 <= f < face + 1 && (#[trigger] self.face_neighbors(key, f)).contains(k)
                        && self.back_face(key, k, f) == slot;
                if f < face {
                    assert(self.face_neighbors(key, f).contains(k));
                }
            }
        }
        assert forall|k: NodeKey| self.contains(k) implies #[trigger] a.nodes[k] == b.nodes[k] by {
            assert(a.nodes[k].neighbor_sizes =~= b.nodes[k].neighbor_sizes);
        }
        assert(a.nodes =~= b.nodes);
        assert forall|k: NodeKey|
            self.changed_by(key, k, face, list) == self.changed_by(key, k, face + 1, Seq::empty()) by {
            if self.changed_by(key, k, face, list) {
                let slot = choose|slot: int|
                    0 <= slot < 2 * self.dim && #[trigger] self.slot_corrected(
                        key,
                        k,
                        slot,
                        face,
                        list,
                    ) != self.node(k).neighbor_sizes[slot];
                assert(self.slot_corrected(key, k, slot, face + 1, Seq::empty()) != self.node(
                    k,
                ).neighbor_sizes[slot]);
            }
            if self.changed_by(key, k, face + 1, Seq::empty()) {
                let slot = choose|slot: int|
                    0 <= slot < 2 * self.dim && #[trigger] self.slot_corrected(
                        key,
                        k,
                        slot,
                        face + 1,
                        Seq::empty(),
                    ) != self.node(k).neighbor_sizes[slot];
                assert(self.slot_corrected(key, k, slot, face, list) != self.node(
                    k,
                ).neighbor_sizes[slot]);
            }
        }
        assert(self.marks_corrected(marks, key, face, list) =~= self.marks_corrected(
            marks,
            key,
            face + 1,
            Seq::empty(),
        ));
    }

    /// With one more leaf across the face a slot looks back exactly if it
    /// did before or is the slot of that leaf towards the node.
    pub proof fn lemma_looks_back_step(self, key: NodeKey, face: int, count: int)
        requires
            0 <= count < self.face_neighbors(key, face).len(),
        ensures
            forall|k: NodeKey, slot: int|
                #![trigger self.looks_back(key, k, slot, face, self.face_neighbors(key, face).take(count + 1))]
                self.looks_back(key, k, slot, face, self.face_neighbors(key, face).take(count + 1))
                    == (self.looks_back(key, k, slot, face, self.face_neighbors(key, face).take(count))
                    || (k == self.face_neighbors(key, face)[count] && slot == self.back_face(
                    key,
                    k,
                    face,
                ))),
    {
        let list = self.face_neighbors(key, face);
        let m = list[count];
        let head = list.take(count);
        let next = list.take(count + 1);
        assert(next =~= head.push(m));
        assert forall|k: NodeKey, slot: int|
            #![trigger self.looks_back(key, k, slot, face, next)]
            self.looks_back(key, k, slot, face, next) == (self.looks_back(key, k, slot, face, head)
                || (k == m && slot == self.back_face(key, k, face))) by {
            if next.contains(k) {
                let i = choose|i: int| 0 <= i < next.len() && next[i] == k;
                if i < count {
                    assert(head[i] == k);
                }
            }
            if head.contains(k) {
                let i = choose|i: int| 0 <= i < head.len() && head[i] == k;
                assert(next[i] == k);
            }
            assert(next[count] == m);
        }
    }

    /// Correcting the next leaf across a face goes one step further in the
    /// tree.
    #[verifier::rlimit(40)]
    pub proof fn lemma_correct_one(self, key: NodeKey, face: int, count: int)
        requires
            self.wf(),
            self.contains(key),
            0 <= face < 2 * self.dim,
            0 <= count < self.face_neighbors(key, face).len(),
            self.contains(self.face_neighbors(key, face)[count]),
        ensures
            ({
                let list = self.face_neighbors(key, face);
                let m = list[count];
                let slot = self.back_face(key, m, face);
                let now = self.neighbors_corrected(key, face, list.take(count));
                let size = corrected_size(
                    now.node(m).neighbor_sizes[slot] as int,
                    now.node(m).size as int,
                    self.node(key).size as int,
                );
                &&& now.contains(m)
                &&& 0 <= slot < 2 * self.dim
                &&& now.node(m).neighbor_sizes[slot] == self.slot_corrected(
                    key,
                    m,
                    slot,
                    face,
                    list.take(count),
                )
                &&& size == self.slot_corrected(key, m, slot, face, list.take(count + 1))
                &&& now.with_slot(m, slot, size as i128) == self.neighbors_corrected(
                    key,
                    face,
                    list.take(count + 1),
                )
            }),
    {
        reveal(Forest::slot_corrected);
        reveal(Forest::neighbors_corrected);
        let list = self.face_neighbors(key, face);
        let m = list[count];
        let g = self.back_face(key, m, face);
        let head = list.take(count);
        let next = list.take(count + 1);
        let now = self.neighbors_corrected(key, face, head);
        let after = self.neighbors_corrected(key, face, next);
        let subject = self.node(key).size as int;
        let held = now.node(m).neighbor_sizes[g];
        let size = corrected_size(held as int, now.node(m).size as int, subject);
        self.lemma_back_face(key, m, face);
        self.lemma_looks_back_step(key, face, count);
        assert(self.node_wf(m));
        assert(self.node_wf(key));
        lemma_corrected_twice(
            self.node(m).neighbor_sizes[g] as int,
            self.node(m).size as int,
            subject,
        );
        assert(held == self.slot_corrected(key, m, g, face, head));
        assert(self.looks_back(key, m, g, face, next));
        assert(self.node(m).neighbor_sizes[g] == UNKNOWN_SIZE || self.node(m).neighbor_sizes[g]
            >= self.node(m).size);
        assert(size as i128 == size);
        let written = now.with_slot(m, g, size as i128);
        assert forall|k: NodeKey| self.contains(k) implies #[trigger] written.nodes[k]
            == after.nodes[k] by {
            assert forall|slot: int| 0 <= slot < self.node(k).neighbor_sizes.len() implies written.nodes[k].neighbor_sizes[slot]
                == after.nodes[k].neighbor_sizes[slot] by {
                assert(self.looks_back(key, k, slot, face, next) == (self.looks_back(
                    key,
                    k,
                    slot,
                    face,
                    head,
                ) || (k == m && slot == self.back_face(key, k, face))));
            }
            assert(written.nodes[k].neighbor_sizes =~= after.nodes[k].neighbor_sizes);
        }
        assert(written.nodes =~= after.nodes);
    }

    /// Correcting the next leaf across a face goes one step further in the
    /// marks: the leaf gets a mark if its slot changes and it has none.
    #[verifier::rlimit(40)]
    pub proof fn lemma_mark_one(
        self,
        marks: Map<NodeKey, NeighborSizeEvent>,
        key: NodeKey,
        face: int,
        count: int,
    )
        requires
            self.wf(),
            self.contains(key),
            0 <= face < 2 * self.dim,
            0 <= count < self.face_neighbors(key, face).len(),
            self.contains(self.face_neighbors(key, face)[count]),
        ensures
            ({
                let list = self.face_neighbors(key, face);
                let m = list[count];
                let slot = self.back_face(key, m, face);
                let had = self.marks_corrected(marks, key, face, list.take(count));
                self.marks_corrected(marks, key, face, list.take(count + 1)) == if self.slot_corrected(
                    key,
                    m,
                    slot,
                    face,
                    list.take(count + 1),
                ) != self.slot_corrected(key, m, slot, face, list.take(count)) && !had.contains_key(
                    m,
                ) {
                    had.insert(m, NeighborSizeEvent::ChangedSize)
                } else {
                    had
                }
            }),
    {
        reveal(Forest::slot_corrected);
        let list = self.face_neighbors(key, face);
        let m = list[count];
        let g = self.back_face(key, m, face);
        let head = list.take(count);
        let next = list.take(count + 1);
        let subject = self.node(key).size as int;
        self.lemma_back_face(key, m, face);
        self.lemma_looks_back_step(key, face, count);
        lemma_corrected_twice(
            self.node(m).neighbor_sizes[g] as int,
            self.node(m).size as int,
            subject,
        );
        let before = self.slot_corrected(key, m, g, face, head);
        let after = self.slot_corrected(key, m, g, face, next);
        assert(self.looks_back(key, m, g, face, next));
        let had = self.marks_corrected(marks, key, face, head);
        let have = self.marks_corrected(marks, key, face, next);
        assert forall|k: NodeKey, slot: int|
            !(k == m && slot == g) implies #[trigger] self.slot_corrected(key, k, slot, face, next)
            == self.slot_corrected(key, k, slot, face, head) by {
            assert(self.looks_back(key, k, slot, face, next) == (self.looks_back(
                key,
                k,
                slot,
                face,
                head,
            ) || (k == m && slot == self.back_face(key, k, face))));
        }
        assert forall|k: NodeKey|
            self.changed_by(key, k, face, next) == (self.changed_by(key, k, face, head) || (k == m
                && after != before)) by {
            if self.changed_by(key, k, face, next) {
                let slot = choose|slot: int|
                    0 <= slot < 2 * self.dim && #[trigger] self.slot_corrected(
                        key,
                        k,
                        slot,
                        face,
                        next,
                    ) != self.node(k).neighbor_sizes[slot];
                if !(k == m && slot == g) {
                    assert(self.slot_corrected(key, k, slot, face, head) != self.node(
                        k,
                    ).neighbor_sizes[slot]);
                } else if after == before {
                    assert(self.slot_corrected(key, k, slot, face, head) != self.node(
                        k,
                    ).neighbor_sizes[slot]);
                }
            }
            if self.changed_by(key, k, face, head) {
                let slot = choose|slot: int|
                    0 <= slot < 2 * self.dim && #[trigger] self.slot_corrected(
                        key,
                        k,
                        slot,
                        face,
                        head,
                    ) != self.node(k).neighbor_sizes[slot];
                if !(k == m && slot == g) {
                    assert(self.slot_corrected(key, k, slot, face, next) != self.node(
                        k,
                    ).neighbor_sizes[slot]);
                } else {
                    assert(self.looks_back(key, m, g, face, head));
                    assert(after == before);
                    assert(self.slot_corrected(key, k, slot, face, next) != self.node(
                        k,
                    ).neighbor_sizes[slot]);
                }
            }
            if k == m && after != before {
                assert(!self.looks_back(key, m, g, face, head));
                assert(self.slot_corrected(key, m, g, face, next) != self.node(m).neighbor_sizes[g]);
            }
        }
        if after != before && !had.contains_key(m) {
            assert(have =~= had.insert(m, NeighborSizeEvent::ChangedSize));
        } else {
            assert(have =~= had);
        }
    }
}

impl<const D: usize> NTree<D> {
    /// The leaves across every face of a node, one list for each face.
    pub fn gather_neighbors(&self, node_key: NodeKey) -> (lists: Vec<Vec<NodeKey>>)
        requires
            self@.wf(),
            self@.contains(node_key),
        ensures
            lists.len() == 2 * D,
            forall|face: int|
                0 <= face < 2 * D ==> (#[trigger] lists@[face])@ == self@.face_neighbors(
                    node_key,
                    face,
                ),
            forall|face: int, j: int|
                0 <= face < 2 * D && 0 <= j < lists@[face]@.len() ==> self@.is_leaf(
                    #[trigger] lists@[face]@[j],
                ),
    {
        let directions = all_neighbor_directions::<D>();
        let mut lists: Vec<Vec<NodeKey>> = Vec::new();
        let mut face: usize = 0;
        while face < 2 * D
            invariant
                face <= 2 * D,
                valid_dimension(D),
                self@.wf(),
                self@.dim == D,
                self@.contains(node_key),
                directions.len() == 2 * D,
                forall|i: int|
                    0 <= i < 2 * D ==> (#[trigger] directions[i])@ == face_direction(D as nat, i),
                lists.len() == face,
                forall|i: int|
                    0 <= i < face ==> (#[trigger] lists@[i])@ == self@.face_neighbors(node_key, i),
                forall|i: int, j: int|
                    0 <= i < face && 0 <= j < lists@[i]@.len() ==> self@.is_leaf(
                        #[trigger] lists@[i]@[j],
                    ),
            decreases 2 * D - face,
        {
            let direction = directions[face];
            assert(direction@.len() == D);
            assert(direction@ == face_direction(D as nat, face as int));
            assert(is_face_direction(direction@));
            let found = self.get_neighbors(node_key, direction);
            lists.push(found);
            face = face + 1;
        }
        lists
    }

    /// The direction in which a leaf across a face of a node sees the node:
    /// see [`Forest::back_direction`].
    pub fn back_direction(&self, node_key: NodeKey, neighbour_key: NodeKey, face: usize) -> (back: [
        i32;
        D
    ])
        requires
            self@.wf(),
            self@.contains(node_key),
            self@.contains(neighbour_key),
            face < 2 * D,
        ensures
            back@ == self@.back_direction(node_key, neighbour_key, face as int),
            is_face_direction(back@),
    {
        let direction = neighbor_dir_from_index::<D>(face);
        proof {
            assert(direction@.len() == D);
            assert(direction@ == face_direction(direction@.len(), face as int));
            assert(is_face_direction(direction@));
            lemma_face_is_step(direction@);
            self@.lemma_back_face(node_key, neighbour_key, face as int);
            lemma_opposite_face(D as nat, face as int);
        }
        let opposite_dir = opposite_direction(direction);
        if self.roots.len() == 6 {
            let from = arena_index(&self.nodes, node_key).direction();
            let to = arena_index(&self.nodes, neighbour_key).direction();
            let flat: [i32; 2] = [opposite_dir[0], opposite_dir[1]];
            assert(flat@ =~= opposite_dir@);
            let turned = map_from_dir_to_dir(from, to, flat);
            let mut back: [i32; D] = opposite_dir;
            back[0] = turned[0];
            back[1] = turned[1];
            assert(back@ =~= turned@);
            back
        } else {
            opposite_dir
        }
    }

    /// Corrects the slots of the leaves across one face of a node.
    #[verifier::rlimit(40)]
    fn correct_face(
        &mut self,
        node_key: NodeKey,
        face: usize,
        list: &Vec<NodeKey>,
        visited_nodes: &mut VisitedNodes,
        Ghost(origin): Ghost<Forest>,
        Ghost(marks): Ghost<Map<NodeKey, NeighborSizeEvent>>,
    )
        requires
            origin.wf(),
            origin.dim == D,
            origin.contains(node_key),
            face < 2 * D,
            list@ == origin.face_neighbors(node_key, face as int),
            forall|j: int| 0 <= j < list@.len() ==> origin.contains(#[trigger] list@[j]),
            old(self)@.wf(),
            old(self)@ == origin.neighbors_corrected(node_key, face as int, Seq::empty()),
            visited_marks(*old(visited_nodes)) == origin.marks_corrected(
                marks,
                node_key,
                face as int,
                Seq::empty(),
            ),
        ensures
            final(self)@.wf(),
            final(self).slots() == old(self).slots(),
            final(self)@ == origin.neighbors_corrected(node_key, face + 1, Seq::empty()),
            visited_marks(*final(visited_nodes)) == origin.marks_corrected(
                marks,
                node_key,
                face + 1,
                Seq::empty(),
            ),
    {
        proof {
            origin.lemma_corrected_keeps(node_key, face as int, Seq::empty());
            assert(self@.contains(node_key) == origin.contains(node_key));
        }
        let node_size = arena_index(&self.nodes, node_key).size();
        let mut j: usize = 0;
        proof {
            assert(list@.take(0) =~= Seq::empty());
        }
        while j < list.len()
            invariant
                j <= list.len(),
                origin.wf(),
                origin.dim == D,
                origin.contains(node_key),
                face < 2 * D,
                list@ == origin.face_neighbors(node_key, face as int),
                forall|i: int| 0 <= i < list@.len() ==> origin.contains(#[trigger] list@[i]),
                node_size == origin.node(node_key).size,
                self@.wf(),
                self.slots() == old(self).slots(),
                self@ == origin.neighbors_corrected(node_key, face as int, list@.take(j as int)),
                visited_marks(*visited_nodes) == origin.marks_corrected(
                    marks,
                    node_key,
                    face as int,
                    list@.take(j as int),
                ),
            decreases list.len() - j,
        {
            let neighbour_key = list[j];
            let ghost now = self@;
            proof {
                assert(origin.contains(list@[j as int]));
                origin.lemma_correct_one(node_key, face as int, j as int);
                origin.lemma_mark_one(marks, node_key, face as int, j as int);
                origin.lemma_corrected_keeps(node_key, face as int, list@.take(j as int));
                assert(now.contains(node_key) == origin.contains(node_key));
                assert(now.contains(neighbour_key) == origin.contains(neighbour_key));
            }
            let back = self.back_direction(node_key, neighbour_key, face);
            proof {
                assert(now.node(node_key).direction == origin.node(node_key).direction);
                assert(now.node(neighbour_key).direction == origin.node(neighbour_key).direction);
                assert(now.back_direction(node_key, neighbour_key, face as int)
                    == origin.back_direction(node_key, neighbour_key, face as int));
                assert(face_weight_sum(back@) - 1 == origin.back_face(
                    node_key,
                    neighbour_key,
                    face as int,
                ));
            }
            let event = self.update_neighbor_size(neighbour_key, node_size, back);
            if event == NeighborSizeEvent::ChangedSize {
                visited_or_insert(visited_nodes, neighbour_key, NeighborSizeEvent::ChangedSize);
            }
            j = j + 1;
        }
        proof {
            assert(list@.take(list.len() as int) =~= list@);
            origin.lemma_correct_face_done(marks, node_key, face as int);
        }
    }

    /// Brings the sizes around a node up to date: every leaf across a face
    /// of the node has its slot towards the node corrected, and is marked as
    /// changed if the slot changes and the leaf has no mark yet; then the
    /// node takes for every face with leaves across it the larger of its own
    /// size and theirs, and is marked as new. See
    /// [`Forest::with_neighbor_sizes`] and [`Forest::marks_after`].
    #[verifier::rlimit(40)]
    pub fn update_neighbor_sizes(&mut self, node_key: NodeKey, visited_nodes: &mut VisitedNodes)
        requires
            old(self)@.wf(),
            old(self)@.contains(node_key),
        ensures
            final(self)@.wf(),
            final(self).slots() == old(self).slots(),
            final(self)@ == old(self)@.with_neighbor_sizes(node_key),
            visited_marks(*final(visited_nodes)) == old(self)@.marks_after(
                visited_marks(*old(visited_nodes)),
                node_key,
            ),
    {
        let ghost origin = self@;
        let ghost marks = visited_marks(*visited_nodes);
        let lists = self.gather_neighbors(node_key);
        let node_size = arena_index(&self.nodes, node_key).size();
        proof {
            origin.lemma_correct_start(marks, node_key);
        }
        let mut face: usize = 0;
        while face < 2 * D
            invariant
                face <= 2 * D,
                origin.wf(),
                origin.dim == D,
                origin.contains(node_key),
                lists.len() == 2 * D,
                forall|i: int|
                    0 <= i < 2 * D ==> (#[trigger] lists@[i])@ == origin.face_neighbors(node_key, i),
                forall|i: int, j: int|
                    0 <= i < 2 * D && 0 <= j < lists@[i]@.len() ==> origin.is_leaf(
                        #[trigger] lists@[i]@[j],
                    ),
                self@.wf(),
                self.slots() == old(self).slots(),
                self@ == origin.neighbors_corrected(node_key, face as int, Seq::empty()),
                visited_marks(*visited_nodes) == origin.marks_corrected(
                    marks,
                    node_key,
                    face as int,
                    Seq::empty(),
                ),
            decreases 2 * D - face,
        {
            proof {
                assert forall|j: int| 0 <= j < lists@[face as int]@.len() implies origin.contains(
                    #[trigger] lists@[face as int]@[j],
                ) by {
                    assert(origin.is_leaf(lists@[face as int]@[j]));
                }
            }
            self.correct_face(
                node_key,
                face,
                &lists[face],
                visited_nodes,
                Ghost(origin),
                Ghost(marks),
            );
            face = face + 1;
        }
        let ghost corrected = self@;
        proof {
            origin.lemma_own_start(node_key);
        }
        let mut face: usize = 0;
        while face < 2 * D
            invariant
                face <= 2 * D,
                origin.wf(),
                origin.dim == D,
                origin.contains(node_key),
                node_size == origin.node(node_key).size,
                lists.len() == 2 * D,
                forall|i: int|
                    0 <= i < 2 * D ==> (#[trigger] lists@[i])@ == origin.face_neighbors(node_key, i),
                forall|i: int, j: int|
                    0 <= i < 2 * D && 0 <= j < lists@[i]@.len() ==> origin.is_leaf(
                        #[trigger] lists@[i]@[j],
                    ),
                self@.wf(),
                self.slots() == old(self).slots(),
                self@ == origin.own_written(node_key, face as int),
            decreases 2 * D - face,
        {
            let found = &lists[face];
            let ghost now = self@;
            proof {
                origin.lemma_own_step(node_key, face as int);
            }
            if found.len() > 0 {
                let last = found[found.len() - 1];
                proof {
                    assert(origin.is_leaf(lists@[face as int]@[found.len() - 1]));
                }
                let neighbour_size = arena_index(&self.nodes, last).size();
                let size = if neighbour_size < node_size {
                    node_size
                } else {
                    neighbour_size
                };
                proof {
                    now.lemma_with_slot_wf(node_key, face as int, size);
                }
                let node = arena_index_mut(&mut self.nodes, node_key);
                node.set_neighbor_size(face, size);
                proof {
                    assert(self@ =~~= now.with_slot(node_key, face as int, size));
                }
            }
            face = face + 1;
        }
        visited_insert(visited_nodes, node_key, NeighborSizeEvent::New);
        proof {
            origin.lemma_own_done(node_key);
        }
    }
}

/// The nodes that an event asks to bring up to date: the children of a
/// split, and the node that was made a leaf.
pub open spec fn keys_of_event(event: EventView) -> Seq<NodeKey> {
    match event {
        EventView::Grown { children, .. } => children,
        EventView::Shrunk { retained, .. } => seq![retained],
        EventView::NeighborSizesChanged(_) => Seq::empty(),
    }
}

/// The nodes that a list of events asks to bring up to date, in the order of
/// the events.
pub open spec fn keys_to_update(events: Seq<EventView>) -> Seq<NodeKey>
    decreases events.len(),
{
    if events.len() == 0 {
        Seq::empty()
    } else {
        keys_to_update(events.drop_last()) + keys_of_event(events.last())
    }
}

impl Forest {
    /// This tree after the sizes around each of the given nodes have been
    /// brought up to date, one node after the other. A key without a node is
    /// passed over.
    pub open spec fn updated_all(self, keys: Seq<NodeKey>) -> Forest
        decreases keys.len(),
    {
        if keys.len() == 0 {
            self
        } else {
            let before = self.updated_all(keys.drop_last());
            if before.contains(keys.last()) {
                before.with_neighbor_sizes(keys.last())
            } else {
                before
            }
        }
    }
}

impl<const D: usize> NTree<D> {
    /// Brings the sizes up to date around every node that the events of a
    /// refinement pass name: the children of every split and every node that
    /// was made a leaf, in the order of the events.
    #[verifier::rlimit(40)]
    pub fn update_neighbors_from_events(&mut self, events: &mut Vec<TreeEvent>)
        requires
            old(self)@.wf(),
        ensures
            final(self)@.wf(),
            final(events)@ == old(events)@,
            final(self)@ == old(self)@.updated_all(keys_to_update(event_views(old(events)@))),
    {
        let ghost origin = self@;
        let ghost views = event_views(events@);
        let mut visited_nodes = visited_new();
        let mut i: usize = 0;
        proof {
            assert(views.take(0) =~= Seq::empty());
        }
        while i < events.len()
            invariant
                i <= events.len(),
                events@ == old(events)@,
                views == event_views(events@),
                self@.wf(),
                self@ == origin.updated_all(keys_to_update(views.take(i as int))),
            decreases events.len() - i,
        {
            let ghost done = keys_to_update(views.take(i as int));
            proof {
                assert(views.take(i as int + 1).drop_last() =~= views.take(i as int));
                assert(views.take(i as int + 1).last() == events@[i as int]@);
            }
            match &events[i] {
                TreeEvent::Grown { parent: _, children } => {
                    let mut j: usize = 0;
                    proof {
                        assert(done + children@.take(0) =~= done);
                    }
                    while j < children.len()
                        invariant
                            j <= children.len(),
                            self@.wf(),
                            self@ == origin.updated_all(done + children@.take(j as int)),
                        decreases children.len() - j,
                    {
                        proof {
                            let next = done + children@.take(j as int + 1);
                            assert(next.drop_last() =~= done + children@.take(j as int));
                            assert(next.last() == children@[j as int]);
                        }
                        if self.get_node(children[j]).is_some() {
                            self.update_neighbor_sizes(children[j], &mut visited_nodes);
                        }
                        j = j + 1;
                    }
                    proof {
                        assert(children@.take(children.len() as int) =~= children@);
                    }
                },
                TreeEvent::Shrunk { retained, removed: _ } => {
                    proof {
                        let next = done + seq![*retained];
                        assert(next.drop_last() =~= done);
                        assert(next.last() == *retained);
                    }
                    if self.get_node(*retained).is_some() {
                        self.update_neighbor_sizes(*retained, &mut visited_nodes);
                    }
                },
                TreeEvent::NeighborSizesChanged(_) => {
                    proof {
                        assert(done + Seq::<NodeKey>::empty() =~= done);
                    }
                },
            }
            i = i + 1;
        }
        proof {
            assert(views.take(events.len() as int) =~= views);
        }
    }

    /// A refinement pass, followed by bringing the sizes up to date around
    /// every node that the pass has made or made a leaf. Returns the events
    /// of the pass.
    pub fn insert_and_update_neighbors<F: Fn(&TreeNode) -> bool>(&mut self, f: F) -> (events: Vec<
        TreeEvent,
    >)
        requires
            old(self)@.wf(),
            forall|n: &TreeNode| #[trigger] f.requires((n,)),
        ensures
            final(self)@.wf(),
            exists|refined: Forest|
                #![trigger old(self)@.refined(refined, f, event_views(events@))]
                old(self)@.refined(refined, f, event_views(events@)) && final(self)@
                    == refined.updated_all(keys_to_update(event_views(events@))),
            crate::events_law::events_fit(final(self)@, event_views(events@)),
    {
        let mut events = self.insert(f);
        let ghost refined = self@;
        self.update_neighbors_from_events(&mut events);
        proof {
            crate::events_law::lemma_events_fit_updated(
                refined,
                keys_to_update(event_views(events@)),
                event_views(events@),
            );
            assert(old(self)@.refined(refined, f, event_views(events@)) && self@
                == refined.updated_all(keys_to_update(event_views(events@))));
        }
        events
    }
}

} // verus!
