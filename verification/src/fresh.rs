//! Right slots stay right: bringing the sizes around a leaf up to date
//! leaves every slot that was right as it should be.

use vstd::prelude::*;
use crate::arena::NodeKey;
use crate::fixed::UNKNOWN_SIZE;
use crate::forest::Forest;
use crate::neighbors::lemma_face_is_step;
use crate::node_traits::{face_direction, is_face_direction, is_zero};
use crate::sizes::larger_size;
use crate::tree_node::NodeView;

verus! {

impl Forest {
    /// The other tree differs from this one at most in the sizes that the
    /// nodes keep for their neighbours.
    pub open spec fn same_but_sizes(self, other: Forest) -> bool {
        &&& other.roots == self.roots
        &&& other.dim == self.dim
        &&& other.min_size == self.min_size
        &&& other.root_size == self.root_size
        &&& forall|k: NodeKey| #[trigger] other.contains(k) == self.contains(k)
        &&& forall|k: NodeKey|
            #[trigger] self.contains(k) ==> other.node(k) == (NodeView {
                neighbor_sizes: other.node(k).neighbor_sizes,
                ..self.node(k)
            })
    }

    /// Slot `face` of a leaf is right: it holds nothing, or the larger of
    /// the size of the leaf and the size of a leaf across that face.
    pub open spec fn slot_right(self, key: NodeKey, face: int) -> bool {
        let slot = self.node(key).neighbor_sizes[face];
        slot == UNKNOWN_SIZE || exists|other: NodeKey|
            #[trigger] self.face_neighbors(key, face).contains(other) && slot == larger_size(
                self.node(key).size as int,
                self.node(other).size as int,
            )
    }

    /// What a search finds does not depend on the sizes that the nodes keep
    /// for their neighbours.
    #[verifier::rlimit(40)]
    pub proof fn lemma_found_kept(self, other: Forest, key: NodeKey, dir: Seq<i32>, found: NodeKey)
        requires
            self.wf(),
            other.wf(),
            self.same_but_sizes(other),
            self.contains(key),
            is_face_direction(dir),
            dir.len() == self.dim,
        ensures
            self.neighbors(key, dir).contains(found) == other.neighbors(key, dir).contains(found),
    {
        lemma_face_is_step(dir);
        assert(other.contains(key));
        self.law_climb_ends_at_edge(key, dir);
        other.law_climb_ends_at_edge(key, dir);
        assert(self.contains(self.root_of(key)));
        assert(other.root_of(key) == self.root_of(key));
        assert(is_zero(self.ascent(key, dir).left) == is_zero(other.ascent(key, dir).left));
        if self.contains(found) {
            assert(other.contains(found));
        }
        if self.is_planet() && !is_zero(self.ascent(key, dir).left) {
            self.law_neighbors_across_edge(key, dir, found);
            other.law_neighbors_across_edge(key, dir, found);
        } else {
            self.law_neighbors_are_leaves_across(key, dir, found);
            other.law_neighbors_are_leaves_across(key, dir, found);
        }
    }

    /// Bringing the sizes around a node up to date changes the sizes that
    /// the nodes keep for their neighbours and nothing else.
    pub proof fn lemma_update_keeps_shape(self, key: NodeKey)
        requires
            self.wf(),
            self.contains(key),
        ensures
            self.same_but_sizes(self.with_neighbor_sizes(key)),
    {
        self.lemma_corrected_keeps(key, 2 * self.dim as int, Seq::empty());
        let corrected = self.neighbors_corrected(key, 2 * self.dim as int, Seq::empty());
        let after = self.with_neighbor_sizes(key);
        assert forall|k: NodeKey| #[trigger] after.contains(k) == self.contains(k) by {
            assert(corrected.contains(k) == self.contains(k));
        }
        assert forall|k: NodeKey| #[trigger] self.contains(k) implies after.node(k) == (NodeView {
            neighbor_sizes: after.node(k).neighbor_sizes,
            ..self.node(k)
        }) by {
            assert(corrected.contains(k));
        }
    }

    /// A tree that differs from a well-formed tree at most in the sizes that
    /// the nodes keep for their neighbours is well formed if every slot
    /// holds nothing or a size that is not below the size of its node.
    #[verifier::rlimit(40)]
    pub proof fn lemma_resized_wf(self, other: Forest)
        requires
            self.wf(),
            self.same_but_sizes(other),
            forall|k: NodeKey|
                #[trigger] self.contains(k) ==> other.node(k).neighbor_sizes.len() == 2 * self.dim,
            forall|k: NodeKey, f: int|
                self.contains(k) && 0 <= f < 2 * self.dim ==> (#[trigger] other.node(
                    k,
                ).neighbor_sizes[f]) == UNKNOWN_SIZE || other.node(k).neighbor_sizes[f]
                    >= self.node(k).size,
        ensures
            other.wf(),
    {
        assert forall|k: NodeKey| #[trigger] other.contains(k) implies other.node_wf(k) by {
            assert(self.contains(k));
            assert(self.node_wf(k));
            let n = self.node(k);
            let m = other.node(k);
            assert(other.shape_wf(m)) by {
                assert forall|f: int| 0 <= f < 2 * self.dim implies #[trigger] m.neighbor_sizes[f]
                    == UNKNOWN_SIZE || m.neighbor_sizes[f] >= m.size by {
                    assert(other.node(k).neighbor_sizes[f] == UNKNOWN_SIZE || other.node(
                        k,
                    ).neighbor_sizes[f] >= self.node(k).size);
                }
            }
            match n.parent {
                Some(p) => {
                    assert(self.contains(p));
                    assert(other.contains(p));
                },
                None => {},
            }
            assert(other.parent_wf(k));
            match n.children {
                Some(keys) => {
                    assert forall|i: int| 0 <= i < keys.len() implies other.contains(
                        #[trigger] keys[i],
                    ) && crate::forest::is_child_of(other.node(keys[i]), m, k, i, other.dim) by {
                        assert(self.contains(keys[i]));
                        assert(crate::forest::is_child_of(self.node(keys[i]), n, k, i, self.dim));
                    }
                },
                None => {},
            }
            assert(other.children_wf(k));
        }
        assert forall|i: int| 0 <= i < other.roots.len() implies {
            &&& other.contains(#[trigger] other.roots[i])
            &&& other.node(other.roots[i]).parent is None
            &&& other.is_planet() ==> other.node(other.roots[i]).direction
                == crate::planet_tree_impl::Direction::at(i) && other.on_cube(
                other.node(other.roots[i]),
            )
        } by {
            assert(self.contains(self.roots[i]));
            if other.is_planet() {
                assert(self.contains(self.roots[0]));
                assert(self.contains(self.roots[2]));
                assert(self.on_cube(self.node(self.roots[i])));
            }
        }
    }

    /// The tree is well formed after the sizes around a node have been
    /// brought up to date.
    #[verifier::rlimit(40)]
    pub proof fn lemma_update_wf(self, key: NodeKey)
        requires
            self.wf(),
            self.contains(key),
        ensures
            self.with_neighbor_sizes(key).wf(),
    {
        let after = self.with_neighbor_sizes(key);
        let faces = 2 * self.dim as int;
        let none = Seq::<NodeKey>::empty();
        let corrected = self.neighbors_corrected(key, faces, none);
        self.lemma_update_keeps_shape(key);
        self.lemma_corrected_keeps(key, faces, none);
        assert(self.node_wf(key));
        self.lemma_sizes(self.node(key).depth as int);
        assert forall|k: NodeKey| #[trigger] self.contains(k) implies after.node(
            k,
        ).neighbor_sizes.len() == 2 * self.dim by {
            assert(self.node_wf(k));
            assert(corrected.contains(k));
        }
        assert forall|k: NodeKey, f: int| self.contains(k) && 0 <= f < 2 * self.dim implies (
        #[trigger] after.node(k).neighbor_sizes[f]) == UNKNOWN_SIZE || after.node(
            k,
        ).neighbor_sizes[f] >= self.node(k).size by {
            assert(self.node_wf(k));
            assert(corrected.contains(k));
            let held = self.node(k).neighbor_sizes[f];
            assert(held == UNKNOWN_SIZE || held >= self.node(k).size);
            if k == key {
                self.lemma_own_slot_kept(key, f);
                let found = self.face_neighbors(key, f);
                if found.len() > 0 {
                    let dir = face_direction(self.dim, f);
                    assert(dir == face_direction(dir.len(), f));
                    assert(is_face_direction(dir));
                    assert forall|i: int| 0 <= i < found.len() implies self.node(
                        #[trigger] found[i],
                    ).size <= self.root_size by {
                        assert(found.contains(found[i]));
                        self.lemma_found_is_other(key, dir, found[i]);
                        assert(self.node_wf(found[i]));
                        self.lemma_sizes(self.node(found[i]).depth as int);
                    }
                    self.lemma_coarsest_bound(found, self.root_size);
                    self.lemma_coarsest_found(key, dir, found[0]);
                }
            } else {
                assert(after.node(k) == corrected.node(k));
                self.lemma_slot_corrected_bound(key, k, f);
            }
        }
        self.lemma_resized_wf(after);
    }

    /// A corrected slot holds nothing or a size that is not below the size
    /// of its node.
    pub proof fn lemma_slot_corrected_bound(self, key: NodeKey, other: NodeKey, slot: int)
        requires
            self.wf(),
            self.contains(key),
            self.contains(other),
            0 <= slot < 2 * self.dim,
        ensures
            ({
                let after = self.neighbors_corrected(key, 2 * self.dim as int, Seq::empty()).node(
                    other,
                ).neighbor_sizes[slot];
                after == UNKNOWN_SIZE || after >= self.node(other).size
            }),
    {
        reveal(Forest::neighbors_corrected);
        reveal(Forest::slot_corrected);
        assert(self.node_wf(other));
        assert(self.node_wf(key));
        let held = self.node(other).neighbor_sizes[slot];
        assert(held == UNKNOWN_SIZE || held >= self.node(other).size);
    }

    /// Neighbour sizes stay right: after the sizes around a leaf have been
    /// brought up to date, every slot of a leaf that was right is right
    /// again, in the tree as it then is.
    #[verifier::rlimit(40)]
    pub proof fn law_update_keeps_slots_right(self, key: NodeKey, leaf: NodeKey, face: int)
        requires
            self.wf(),
            self.is_leaf(key),
            self.is_leaf(leaf),
            0 <= face < 2 * self.dim,
            self.slot_right(leaf, face),
        ensures
            self.with_neighbor_sizes(key).slot_right(leaf, face),
    {
        let after = self.with_neighbor_sizes(key);
        let faces = 2 * self.dim as int;
        let none = Seq::<NodeKey>::empty();
        let corrected = self.neighbors_corrected(key, faces, none);
        let dir = face_direction(self.dim, face);
        assert(dir == face_direction(dir.len(), face));
        assert(is_face_direction(dir));
        self.lemma_update_wf(key);
        self.lemma_update_keeps_shape(key);
        self.lemma_corrected_keeps(key, faces, none);
        assert(self.node_wf(key));
        assert(self.node_wf(leaf));
        assert(after.contains(leaf));
        assert(after.node(leaf).size == self.node(leaf).size);
        let old_slot = self.node(leaf).neighbor_sizes[face];
        let new_slot = after.node(leaf).neighbor_sizes[face];
        if leaf == key {
            let found = self.face_neighbors(key, face);
            assert(corrected.contains(key));
            assert(new_slot == self.own_slot(key, face, corrected.node(key).neighbor_sizes[face]));
            if found.len() > 0 {
                let other = found[0];
                assert(found.contains(other));
                self.lemma_coarsest_found(key, dir, other);
                self.lemma_found_is_other(key, dir, other);
                self.lemma_found_kept(after, key, dir, other);
                assert(after.face_neighbors(key, face).contains(other));
                assert(after.node(other).size == self.node(other).size);
            } else {
                self.lemma_own_slot_kept(key, face);
                if old_slot != UNKNOWN_SIZE {
                    let other = choose|other: NodeKey|
                        #[trigger] self.face_neighbors(key, face).contains(other) && old_slot
                            == larger_size(
                            self.node(key).size as int,
                            self.node(other).size as int,
                        );
                    assert(found.contains(other));
                }
            }
        } else {
            assert(after.node(leaf) == corrected.node(leaf));
            if self.looks_back(key, leaf, face, faces, none) {
                let seen = choose|seen: int|
                    0 <= seen < faces && (#[trigger] self.face_neighbors(key, seen)).contains(leaf)
                        && self.back_face(key, leaf, seen) == face;
                self.law_fresh_back_slot(key, seen, leaf);
                self.law_back_slot_looks_back(key, seen, leaf);
                self.lemma_found_kept(after, leaf, dir, key);
                assert(after.face_neighbors(leaf, face).contains(key));
                assert(after.contains(key));
                assert(after.node(key).size == self.node(key).size);
            } else {
                self.lemma_slot_kept(key, leaf, face);
                if old_slot != UNKNOWN_SIZE {
                    let other = choose|other: NodeKey|
                        #[trigger] self.face_neighbors(leaf, face).contains(other) && old_slot
                            == larger_size(
                            self.node(leaf).size as int,
                            self.node(other).size as int,
                        );
                    self.lemma_found_is_other(leaf, dir, other);
                    self.lemma_found_kept(after, leaf, dir, other);
                    assert(after.face_neighbors(leaf, face).contains(other));
                    assert(after.node(other).size == self.node(other).size);
                }
            }
        }
    }

    /// A slot that does not look back at the node whose neighbours are
    /// corrected stays as it is.
    pub proof fn lemma_slot_kept(self, key: NodeKey, other: NodeKey, slot: int)
        requires
            self.wf(),
            self.contains(key),
            self.contains(other),
            0 <= slot < 2 * self.dim,
            !self.looks_back(key, other, slot, 2 * self.dim as int, Seq::empty()),
        ensures
            self.neighbors_corrected(key, 2 * self.dim as int, Seq::empty()).node(
                other,
            ).neighbor_sizes[slot] == self.node(other).neighbor_sizes[slot],
    {
        reveal(Forest::neighbors_corrected);
        reveal(Forest::slot_corrected);
        assert(self.node_wf(other));
    }

    /// No slot of a node looks back at the node itself, so correcting its
    /// neighbours leaves its own slots as they are.
    pub proof fn lemma_own_slot_kept(self, key: NodeKey, slot: int)
        requires
            self.wf(),
            self.contains(key),
            0 <= slot < 2 * self.dim,
        ensures
            self.neighbors_corrected(key, 2 * self.dim as int, Seq::empty()).node(
                key,
            ).neighbor_sizes[slot] == self.node(key).neighbor_sizes[slot],
    {
        let faces = 2 * self.dim as int;
        let none = Seq::<NodeKey>::empty();
        if self.looks_back(key, key, slot, faces, none) {
            let seen = choose|seen: int|
                0 <= seen < faces && (#[trigger] self.face_neighbors(key, seen)).contains(key)
                    && self.back_face(key, key, seen) == slot;
            let dir = face_direction(self.dim, seen);
            assert(dir == face_direction(dir.len(), seen));
            assert(is_face_direction(dir));
            self.lemma_found_is_other(key, dir, key);
        }
        self.lemma_slot_kept(key, key, slot);
    }
}

impl Forest {
    /// Neighbour sizes are made right: after the sizes around a leaf have
    /// been brought up to date, its slot for every face with a leaf across it
    /// is right, and so is the slot of every leaf across one of its faces
    /// that looks back at it.
    #[verifier::rlimit(40)]
    pub proof fn law_update_makes_slots_right(self, key: NodeKey, face: int, other: NodeKey)
        requires
            self.wf(),
            self.is_leaf(key),
            0 <= face < 2 * self.dim,
            self.face_neighbors(key, face).contains(other),
        ensures
            self.with_neighbor_sizes(key).slot_right(key, face),
            0 <= self.back_face(key, other, face) < 2 * self.dim,
            self.with_neighbor_sizes(key).slot_right(other, self.back_face(key, other, face)),
    {
        let after = self.with_neighbor_sizes(key);
        let dir = face_direction(self.dim, face);
        assert(dir == face_direction(dir.len(), face));
        assert(is_face_direction(dir));
        self.lemma_update_wf(key);
        self.lemma_update_keeps_shape(key);
        self.lemma_found_is_other(key, dir, other);
        assert(self.node_wf(key));
        assert(self.node_wf(other));
        assert(after.contains(key) && after.contains(other));
        assert(after.node(key).size == self.node(key).size);
        assert(after.node(other).size == self.node(other).size);
        self.law_fresh_neighbor_size(key, face, other);
        self.lemma_found_kept(after, key, dir, other);
        assert(after.face_neighbors(key, face).contains(other));
        self.law_fresh_back_slot(key, face, other);
        self.law_back_slot_looks_back(key, face, other);
        let back = self.back_face(key, other, face);
        let way = face_direction(self.dim, back);
        assert(way == face_direction(way.len(), back));
        assert(is_face_direction(way));
        self.lemma_found_kept(after, other, way, key);
        assert(after.face_neighbors(other, back).contains(key));
    }

    /// Neighbour sizes stay right through a run of updates: after the sizes
    /// around each of some leaves have been brought up to date, one after
    /// the other, every slot of a leaf that was right is right again.
    #[verifier::rlimit(40)]
    pub proof fn law_updates_keep_slots_right(self, keys: Seq<NodeKey>, leaf: NodeKey, face: int)
        requires
            self.wf(),
            forall|i: int|
                0 <= i < keys.len() && self.contains(#[trigger] keys[i]) ==> self.is_leaf(keys[i]),
            self.is_leaf(leaf),
            0 <= face < 2 * self.dim,
            self.slot_right(leaf, face),
        ensures
            self.updated_all(keys).wf(),
            self.updated_all(keys).is_leaf(leaf),
            self.updated_all(keys).slot_right(leaf, face),
        decreases keys.len(),
    {
        if keys.len() > 0 {
            let rest = keys.drop_last();
            let key = keys.last();
            assert forall|i: int| 0 <= i < rest.len() && self.contains(
                #[trigger] rest[i],
            ) implies self.is_leaf(rest[i]) by {
                assert(rest[i] == keys[i]);
            }
            self.law_updates_keep_slots_right(rest, leaf, face);
            self.lemma_updated_all_keeps(rest);
            self.lemma_updated_all_keeps(keys);
            let before = self.updated_all(rest);
            if before.contains(key) {
                assert(self.contains(key));
                assert(keys[keys.len() - 1] == key);
                assert(self.is_leaf(key));
                assert(before.is_leaf(key));
                before.lemma_update_wf(key);
                before.law_update_keeps_slots_right(key, leaf, face);
            }
        }
    }
}

} // verus!
