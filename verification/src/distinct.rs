//! No leaf is found twice: the search collects the leaves below different
//! children of a branch, and these have no leaf in common.

use vstd::prelude::*;
use vstd::seq_lib::lemma_no_dup_in_concat;
use crate::adjacency::lemma_border_side;
use crate::arena::NodeKey;
use crate::forest::{Forest, MAX_DEPTH};
use crate::geometry::lemma_signs_differ;
use crate::laws::law_child_ordering_back;
use crate::neighbors::{border_sides, lemma_face_is_step, lemma_first_nonzero_of_opposite};
use crate::node_traits::{
    border_component, child_sign, first_nonzero, is_face_direction, octant_index, opposite,
    two_pow,
};

verus! {

/// Two of the sides that face back along a direction lead to different
/// children.
pub proof fn lemma_border_sides_differ(dir: Seq<i32>, j: int, k: int)
    requires
        is_face_direction(dir),
        dir.len() == 2 || dir.len() == 3,
        0 <= j < border_sides(dir).len(),
        0 <= k < border_sides(dir).len(),
        octant_index(border_sides(dir)[j]) == octant_index(border_sides(dir)[k]),
    ensures
        j == k,
{
    if j != k {
        lemma_face_is_step(dir);
        lemma_first_nonzero_of_opposite(dir, 0);
        lemma_border_side(dir, j);
        lemma_border_side(dir, k);
        reveal_with_fuel(two_pow, 4);
        assert(two_pow(0) == 1 && two_pow(1) == 2 && two_pow(2) == 4);
        lemma_signs_differ(j, k, 2);
        let b = choose|b: int| 0 <= b < 2 && child_sign(j, b) != child_sign(k, b);
        if dir.len() == 2 {
            assert(j / 2 == 0 && k / 2 == 0);
            assert(b == 0);
        }
        let axis = first_nonzero(dir);
        let a = if b < axis {
            b
        } else {
            b + 1
        };
        let back = opposite(dir);
        let first = border_sides(dir)[j];
        let second = border_sides(dir)[k];
        assert(first[a] == border_component(back, j, a) as i32);
        assert(second[a] == border_component(back, k, a) as i32);
        law_child_ordering_back(first, a);
        law_child_ordering_back(second, a);
        assert(false);
    }
}

impl Forest {
    /// A leaf that is collected below the children of a branch is collected
    /// below one of them.
    pub proof fn lemma_border_of_below(self, key: NodeKey, dir: Seq<i32>, count: int, leaf: NodeKey) -> (k:
        int)
        requires
            self.wf(),
            self.is_branch(key),
            is_face_direction(dir),
            dir.len() == self.dim,
            0 <= count <= border_sides(dir).len(),
            self.border_leaves_of(key, border_sides(dir), count).contains(leaf),
        ensures
            0 <= k < count,
            self.border_leaves(
                self.node(key).children->0[octant_index(border_sides(dir)[k]) as int],
                border_sides(dir),
            ).contains(leaf),
        decreases count,
    {
        let sides = border_sides(dir);
        if count > 0 {
            self.lemma_border_child(key, dir, count - 1);
            let child = self.node(key).children->0[octant_index(sides[count - 1]) as int];
            let below = self.border_leaves(child, sides);
            let rest = self.border_leaves_of(key, sides, count - 1);
            let all = below + rest;
            assert(self.border_leaves_of(key, sides, count) == all);
            let i = choose|i: int| 0 <= i < all.len() && all[i] == leaf;
            if i < below.len() {
                assert(below[i] == leaf);
                count - 1
            } else {
                assert(rest[i - below.len()] == leaf);
                self.lemma_border_of_below(key, dir, count - 1, leaf)
            }
        } else {
            assert(self.border_leaves_of(key, sides, count) =~= Seq::empty());
            0
        }
    }

    /// No leaf lies at or below two children of one branch.
    pub proof fn lemma_below_one_child(self, parent: NodeKey, i: int, j: int, leaf: NodeKey)
        requires
            self.wf(),
            self.is_branch(parent),
            0 <= i < self.fanout(),
            0 <= j < self.fanout(),
            self.contains(leaf),
            self.at_or_inside(leaf, self.node(parent).children->0[i]),
            self.at_or_inside(leaf, self.node(parent).children->0[j]),
        ensures
            i == j,
    {
        assert(self.node_wf(parent));
        let first = self.node(parent).children->0[i];
        let second = self.node(parent).children->0[j];
        assert(self.contains(first) && self.contains(second));
        assert(self.node_wf(first));
        assert(self.node_wf(second));
        assert(self.node_wf(leaf));
        let l = self.node(leaf);
        let f = self.node(first);
        let s = self.node(second);
        assert forall|a: int| 0 <= a < f.pos.len() implies #[trigger] f.pos[a] - f.size / 2
            < s.pos[a] + s.size / 2 && s.pos[a] - s.size / 2 < f.pos[a] + f.size / 2 by {
            assert(f.pos[a] - f.size / 2 <= l.pos[a] - l.size / 2);
            assert(l.pos[a] + l.size / 2 <= f.pos[a] + f.size / 2);
            assert(s.pos[a] - s.size / 2 <= l.pos[a] - l.size / 2);
            assert(l.pos[a] + l.size / 2 <= s.pos[a] + s.size / 2);
        }
        assert(f.overlaps(s));
        self.lemma_siblings_apart(parent, i, j);
    }

    /// What the search collects at and below a node holds no leaf twice.
    pub proof fn lemma_border_once(self, key: NodeKey, dir: Seq<i32>)
        requires
            self.wf(),
            self.contains(key),
            is_face_direction(dir),
            dir.len() == self.dim,
        ensures
            self.border_leaves(key, border_sides(dir)).no_duplicates(),
        decreases MAX_DEPTH + 1 - self.node(key).depth, border_sides(dir).len() + 1,
    {
        if self.node(key).children is Some {
            self.lemma_border_of_once(key, dir, border_sides(dir).len() as int);
        }
    }

    /// What the search collects below the children of a branch on the first
    /// `count` sides holds no leaf twice.
    pub proof fn lemma_border_of_once(self, key: NodeKey, dir: Seq<i32>, count: int)
        requires
            self.wf(),
            self.is_branch(key),
            is_face_direction(dir),
            dir.len() == self.dim,
            0 <= count <= border_sides(dir).len(),
        ensures
            self.border_leaves_of(key, border_sides(dir), count).no_duplicates(),
        decreases MAX_DEPTH + 1 - self.node(key).depth, count,
    {
        let sides = border_sides(dir);
        if count > 0 {
            self.lemma_border_child(key, dir, count - 1);
            let index = octant_index(sides[count - 1]) as int;
            let child = self.node(key).children->0[index];
            let below = self.border_leaves(child, sides);
            let rest = self.border_leaves_of(key, sides, count - 1);
            assert(self.border_leaves_of(key, sides, count) == below + rest);
            self.lemma_border_once(child, dir);
            self.lemma_border_of_once(key, dir, count - 1);
            assert forall|i: int, j: int| 0 <= i < below.len() && 0 <= j < rest.len() implies below[i]
                != rest[j] by {
                if below[i] == rest[j] {
                    let leaf = below[i];
                    assert(below.contains(leaf));
                    assert(rest.contains(leaf));
                    self.lemma_border_sound(child, dir, leaf);
                    let k = self.lemma_border_of_below(key, dir, count - 1, leaf);
                    self.lemma_border_child(key, dir, k);
                    let other = self.node(key).children->0[octant_index(sides[k]) as int];
                    self.lemma_border_sound(other, dir, leaf);
                    self.lemma_below_one_child(
                        key,
                        index,
                        octant_index(sides[k]) as int,
                        leaf,
                    );
                    lemma_border_sides_differ(dir, count - 1, k);
                }
            }
            lemma_no_dup_in_concat(below, rest);
        } else {
            assert(self.border_leaves_of(key, sides, count) =~= Seq::empty());
        }
    }

    /// A search finds no leaf twice.
    pub proof fn law_neighbors_once(self, key: NodeKey, dir: Seq<i32>)
        requires
            self.wf(),
            self.contains(key),
            is_face_direction(dir),
            dir.len() == self.dim,
        ensures
            self.neighbors(key, dir).no_duplicates(),
    {
        self.lemma_search_start(key, dir);
        match self.shared_parent(key, dir) {
            Some((top, steps)) => {
                self.lemma_descent_holds_target(top, steps);
                let end = self.descent(top, steps);
                self.lemma_entry_direction(key, top, dir);
                if self.node(end).children is Some {
                    self.lemma_border_once(end, self.entry_direction(key, top, dir));
                }
            },
            None => {},
        }
    }
}

} // verus!
