//! What it means to make a branch a leaf again.

use vstd::prelude::*;
use crate::arena::NodeKey;
use crate::forest::{is_child_of, Forest};
use crate::planet_tree_impl::Direction;
use crate::tree_node::NodeView;

verus! {

/// `n` lies inside one of the first `count` of the nodes under `keys`.
pub open spec fn inside_any(n: NodeView, forest: Forest, keys: Seq<NodeKey>, count: int) -> bool {
    exists|j: int| 0 <= j < count && n.inside(#[trigger] forest.node(keys[j]))
}

impl Forest {
    /// `after` is this tree with everything below `key` taken away: the nodes
    /// that lay inside `key` have left and are listed in `removed`, each
    /// once; `key` is a leaf; and nothing else differs.
    pub open spec fn collapsed(self, after: Forest, key: NodeKey, removed: Seq<NodeKey>) -> bool {
        &&& forall|k: NodeKey|
            #![trigger after.contains(k)]
            #![trigger self.contains(k)]
            after.contains(k) <==> self.contains(k) && !self.node(k).inside(self.node(key))
        &&& forall|k: NodeKey| #[trigger] after.contains(k) && k != key ==> after.node(k) == self.node(k)
        &&& after.node(key) == (NodeView { children: None, ..self.node(key) })
        &&& removed.no_duplicates()
        &&& forall|k: NodeKey|
            #[trigger] removed.contains(k) <==> self.contains(k) && self.node(k).inside(self.node(key))
        &&& after.roots == self.roots
        &&& after.min_size == self.min_size
        &&& after.root_size == self.root_size
        &&& after.dim == self.dim
        &&& after.starved == self.starved
    }

    /// The state in the middle of making `key` a leaf: the first `count` of
    /// its children are leaves already, what lay inside them has left and is
    /// listed in `removed`.
    pub open spec fn children_collapsed(
        self,
        now: Forest,
        children: Seq<NodeKey>,
        count: int,
        removed: Seq<NodeKey>,
    ) -> bool {
        &&& forall|k: NodeKey|
            #![trigger now.contains(k)]
            #![trigger self.contains(k)]
            now.contains(k) <==> self.contains(k) && !inside_any(self.node(k), self, children, count)
        &&& forall|k: NodeKey|
            #[trigger] now.contains(k) ==> now.node(k) == if children.take(count).contains(k) {
                NodeView { children: None, ..self.node(k) }
            } else {
                self.node(k)
            }
        &&& removed.no_duplicates()
        &&& forall|k: NodeKey|
            #[trigger] removed.contains(k) <==> self.contains(k) && inside_any(
                self.node(k),
                self,
                children,
                count,
            )
        &&& now.roots == self.roots
        &&& now.min_size == self.min_size
        &&& now.root_size == self.root_size
        &&& now.dim == self.dim
        &&& now.starved == self.starved
    }

    /// Nothing lies inside a leaf.
    pub proof fn lemma_leaf_is_empty(self, key: NodeKey)
        requires
            self.wf(),
            self.is_leaf(key),
        ensures
            forall|k: NodeKey| self.contains(k) ==> !(#[trigger] self.node(k)).inside(self.node(key)),
    {
        assert forall|k: NodeKey| self.contains(k) implies !(#[trigger] self.node(k)).inside(
            self.node(key),
        ) by {
            if self.node(k).inside(self.node(key)) {
                self.lemma_inside_overlaps(k, key);
                self.lemma_overlap_is_inside(k, key);
            }
        }
    }

    /// Below a branch something is taken away, below a leaf nothing.
    pub proof fn lemma_removed_of_branch(self, after: Forest, key: NodeKey, removed: Seq<NodeKey>)
        requires
            self.wf(),
            self.contains(key),
            self.collapsed(after, key, removed),
        ensures
            self.is_branch(key) <==> removed.len() > 0,
    {
        if self.is_leaf(key) {
            self.lemma_leaf_is_empty(key);
            if removed.len() > 0 {
                assert(removed.contains(removed[0]));
            }
        } else {
            assert(self.node_wf(key));
            let keys = self.node(key).children->0;
            crate::node_traits::lemma_two_pow_positive(self.dim);
            assert(self.contains(keys[0]));
            assert(keys.contains(keys[0]));
            self.lemma_inside_branch(key, keys[0]);
            assert(removed.contains(keys[0]));
        }
    }

    /// A node lies inside a branch exactly if it is one of its children or
    /// lies inside one of them.
    #[verifier::rlimit(40)]
    pub proof fn lemma_inside_branch(self, key: NodeKey, k: NodeKey)
        requires
            self.wf(),
            self.is_branch(key),
            self.contains(k),
        ensures
            self.node(k).inside(self.node(key)) <==> self.node(key).children->0.contains(k)
                || inside_any(
                self.node(k),
                self,
                self.node(key).children->0,
                self.node(key).children->0.len() as int,
            ),
    {
        let keys = self.node(key).children->0;
        let n = self.node(k);
        let t = self.node(key);
        assert(self.node_wf(key));
        assert(self.node_wf(k));
        if n.inside(t) {
            self.lemma_inside_overlaps(k, key);
            let i = self.lemma_below_branch(k, key);
            if k == keys[i] {
            } else {
                assert(n.inside(self.node(keys[i])));
            }
        }
        if keys.contains(k) {
            let i = choose|i: int| 0 <= i < keys.len() && keys[i] == k;
            assert forall|a: int| 0 <= a < n.pos.len() implies t.pos[a] - t.size / 2
                <= #[trigger] n.pos[a] - n.size / 2 && n.pos[a] + n.size / 2 <= t.pos[a] + t.size
                / 2 by {
                self.lemma_child_box(key, i, a);
            }
            self.lemma_child_box(key, i, 0);
        }
        if inside_any(n, self, keys, keys.len() as int) {
            let j = choose|j: int| 0 <= j < keys.len() && n.inside(#[trigger] self.node(keys[j]));
            let c = self.node(keys[j]);
            assert forall|a: int| 0 <= a < n.pos.len() implies t.pos[a] - t.size / 2
                <= #[trigger] n.pos[a] - n.size / 2 && n.pos[a] + n.size / 2 <= t.pos[a] + t.size
                / 2 by {
                self.lemma_child_box(key, j, a);
                assert(c.pos[a] - c.size / 2 <= n.pos[a] - n.size / 2 && n.pos[a] + n.size / 2
                    <= c.pos[a] + c.size / 2);
            }
            self.lemma_child_box(key, j, 0);
        }
    }

    /// Taking away everything below a node keeps the tree well formed.
    #[verifier::rlimit(40)]
    pub proof fn lemma_collapsed_wf(self, after: Forest, key: NodeKey, removed: Seq<NodeKey>)
        requires
            self.wf(),
            self.contains(key),
            self.collapsed(after, key, removed),
        ensures
            after.wf(),
            after.is_leaf(key),
    {
        let t = self.node(key);
        assert(self.node_wf(key));
        assert(!t.inside(t));
        assert(after.contains(key));
        assert forall|k: NodeKey| #[trigger] after.contains(k) implies after.node_wf(k) by {
            assert(self.contains(k));
            assert(self.node_wf(k));
            let n = self.node(k);
            let m = after.node(k);
            assert(after.shape_wf(m));
            match n.parent {
                Some(p) => {
                    self.lemma_inside_parent(k);
                    assert(self.node_wf(p));
                    let pn = self.node(p);
                    if pn.inside(t) {
                        assert(n.inside(t)) by {
                            assert forall|a: int| 0 <= a < n.pos.len() implies t.pos[a] - t.size / 2
                                <= #[trigger] n.pos[a] - n.size / 2 && n.pos[a] + n.size / 2
                                <= t.pos[a] + t.size / 2 by {
                                assert(t.pos[a] - t.size / 2 <= pn.pos[a] - pn.size / 2 && pn.pos[a]
                                    + pn.size / 2 <= t.pos[a] + t.size / 2);
                            }
                        }
                    }
                    assert(after.contains(p));
                    assert(p != key);
                    assert(after.node(p) == pn);
                },
                None => {},
            }
            assert(after.parent_wf(k));
            if k != key {
                match n.children {
                    Some(keys) => {
                        assert forall|i: int| 0 <= i < keys.len() implies after.contains(
                            #[trigger] keys[i],
                        ) && is_child_of(after.node(keys[i]), m, k, i, after.dim) by {
                            let c = keys[i];
                            assert(self.contains(c));
                            assert(is_child_of(self.node(c), n, k, i, self.dim));
                            assert(self.node_wf(c));
                            self.lemma_inside_parent(c);
                            if self.node(c).inside(t) {
                                self.lemma_inside_overlaps(c, key);
                                let cn = self.node(c);
                                assert(n.overlaps(t)) by {
                                    assert forall|a: int| 0 <= a < n.pos.len() implies #[trigger] n.pos[a]
                                        - n.size / 2 < t.pos[a] + t.size / 2 && t.pos[a] - t.size
                                        / 2 < n.pos[a] + n.size / 2 by {
                                        assert(n.pos[a] - n.size / 2 <= cn.pos[a] - cn.size / 2
                                            && cn.pos[a] + cn.size / 2 <= n.pos[a] + n.size / 2);
                                        assert(cn.pos[a] - cn.size / 2 < t.pos[a] + t.size / 2
                                            && t.pos[a] - t.size / 2 < cn.pos[a] + cn.size / 2);
                                    }
                                }
                                if n.depth == t.depth {
                                    self.lemma_level_unique(k, key);
                                } else {
                                    self.lemma_overlap_is_inside(k, key);
                                }
                            }
                            assert(after.contains(c));
                            if c == key {
                                assert(after.node(c) == (NodeView { children: None, ..self.node(c) }));
                            }
                        }
                    },
                    None => {},
                }
            }
            assert(after.children_wf(k));
        }
        assert forall|i: int| 0 <= i < after.roots.len() implies {
            &&& after.contains(#[trigger] after.roots[i])
            &&& after.node(after.roots[i]).parent is None
            &&& after.is_planet() ==> after.node(after.roots[i]).direction == Direction::at(i)
        } by {
            let r = self.roots[i];
            assert(self.contains(r));
            assert(self.node_wf(r));
            assert(!self.node(r).inside(t));
        }
    }

    /// Before any child is made a leaf, nothing has changed.
    pub proof fn lemma_collapse_start(self, children: Seq<NodeKey>)
        ensures
            self.children_collapsed(self, children, 0, Seq::empty()),
    {
        assert(children.take(0) =~= Seq::empty());
    }

    /// While the children of a branch are made leaves one after the other,
    /// the next child is still there and as it was.
    pub proof fn lemma_collapse_next_child(
        self,
        now: Forest,
        key: NodeKey,
        count: int,
        removed: Seq<NodeKey>,
    )
        requires
            self.wf(),
            self.is_branch(key),
            0 <= count < self.fanout(),
            self.children_collapsed(now, self.node(key).children->0, count, removed),
        ensures
            now.contains(self.node(key).children->0[count]),
            now.contains(key),
            now.node(self.node(key).children->0[count]) == self.node(
                self.node(key).children->0[count],
            ),
            self.node(self.node(key).children->0[count]).depth == self.node(key).depth + 1,
    {
        let children = self.node(key).children->0;
        let c = children[count];
        assert(self.node_wf(key));
        assert(self.contains(c));
        assert(self.node_wf(c));
        self.lemma_children_distinct(key);
        if inside_any(self.node(c), self, children, count) {
            let j = choose|j: int|
                0 <= j < count && self.node(c).inside(#[trigger] self.node(children[j]));
            assert(self.contains(children[j]));
            self.lemma_inside_overlaps(c, children[j]);
            self.lemma_siblings_apart(key, count, j);
        }
        assert(now.contains(c));
        if children.take(count).contains(c) {
            let head = children.take(count);
            let j = choose|j: int| 0 <= j < head.len() && head[j] == c;
            assert(children[j] == c);
        }
        if inside_any(self.node(key), self, children, count) {
            let j = choose|j: int|
                0 <= j < count && self.node(key).inside(#[trigger] self.node(children[j]));
            assert(self.contains(children[j]));
            assert(self.node_wf(children[j]));
        }
        assert(now.contains(key));
    }

    /// While the children of a branch are made leaves, the branch itself
    /// stays in the arena.
    pub proof fn lemma_collapse_next_child_parent(self, now: Forest, key: NodeKey, removed: Seq<NodeKey>)
        requires
            self.wf(),
            self.is_branch(key),
            self.children_collapsed(
                now,
                self.node(key).children->0,
                self.fanout() as int,
                removed,
            ),
        ensures
            now.contains(key),
    {
        let children = self.node(key).children->0;
        assert(self.node_wf(key));
        if inside_any(self.node(key), self, children, self.fanout() as int) {
            let j = choose|j: int|
                0 <= j < self.fanout() && self.node(key).inside(#[trigger] self.node(children[j]));
            assert(self.contains(children[j]));
            assert(self.node_wf(children[j]));
        }
    }

    /// Making the next child a leaf goes one step further.
    #[verifier::rlimit(40)]
    pub proof fn lemma_collapse_step(
        self,
        now: Forest,
        next: Forest,
        key: NodeKey,
        count: int,
        removed: Seq<NodeKey>,
        sub: Seq<NodeKey>,
    )
        requires
            self.wf(),
            self.is_branch(key),
            0 <= count < self.fanout(),
            self.children_collapsed(now, self.node(key).children->0, count, removed),
            now.collapsed(next, self.node(key).children->0[count], sub),
        ensures
            self.children_collapsed(next, self.node(key).children->0, count + 1, removed + sub),
    {
        let children = self.node(key).children->0;
        let c = children[count];
        self.lemma_collapse_next_child(now, key, count, removed);
        self.lemma_children_distinct(key);
        assert(self.node_wf(key));
        let cn = self.node(c);
        assert(children.take(count + 1) =~= children.take(count).push(c));
        // Being inside the next child is the same before and now.
        assert forall|k: NodeKey| now.contains(k) implies (#[trigger] now.node(k)).inside(now.node(c))
            == self.node(k).inside(cn) by {
            let a = now.node(k);
            let b = self.node(k);
            assert(a.pos == b.pos && a.size == b.size && a.depth == b.depth && a.direction
                == b.direction);
        }
        assert forall|k: NodeKey|
            inside_any(self.node(k), self, children, count + 1) <==> inside_any(
                self.node(k),
                self,
                children,
                count,
            ) || self.node(k).inside(cn) by {
            if inside_any(self.node(k), self, children, count + 1) {
                let j = choose|j: int|
                    0 <= j < count + 1 && self.node(k).inside(#[trigger] self.node(children[j]));
                if j < count {
                    assert(inside_any(self.node(k), self, children, count));
                }
            }
            if inside_any(self.node(k), self, children, count) {
                let j = choose|j: int|
                    0 <= j < count && self.node(k).inside(#[trigger] self.node(children[j]));
                assert(self.node(k).inside(self.node(children[j])));
            }
            if self.node(k).inside(cn) {
                assert(self.node(k).inside(self.node(children[count])));
            }
        }
        assert forall|k: NodeKey|
            #![trigger next.contains(k)]
            #![trigger self.contains(k)]
            next.contains(k) <==> self.contains(k) && !inside_any(
                self.node(k),
                self,
                children,
                count + 1,
            ) by {
            assert(next.contains(k) <==> now.contains(k) && !now.node(k).inside(now.node(c)));
            assert(now.contains(k) <==> self.contains(k) && !inside_any(
                self.node(k),
                self,
                children,
                count,
            ));
        }
        assert forall|k: NodeKey| #[trigger] next.contains(k) implies next.node(k) == if children.take(
            count + 1,
        ).contains(k) {
            NodeView { children: None, ..self.node(k) }
        } else {
            self.node(k)
        } by {
            assert(now.contains(k));
            if k == c {
                assert(children.take(count + 1)[count] == c);
            } else {
                assert(next.node(k) == now.node(k));
                if children.take(count).contains(k) {
                    let head = children.take(count);
                    let j = choose|j: int| 0 <= j < head.len() && head[j] == k;
                    assert(children.take(count + 1)[j] == k);
                }
                if children.take(count + 1).contains(k) {
                    let head = children.take(count + 1);
                    let j = choose|j: int| 0 <= j < head.len() && head[j] == k;
                    assert(children.take(count)[j] == k);
                }
            }
        }
        let all = removed + sub;
        assert forall|k: NodeKey| #[trigger] all.contains(k) <==> self.contains(k) && inside_any(
            self.node(k),
            self,
            children,
            count + 1,
        ) by {
            if all.contains(k) {
                let j = choose|j: int| 0 <= j < all.len() && all[j] == k;
                if j < removed.len() {
                    assert(removed[j] == k);
                    assert(removed.contains(k));
                } else {
                    assert(sub[j - removed.len()] == k);
                    assert(sub.contains(k));
                    assert(now.contains(k));
                }
            }
            if removed.contains(k) {
                let j = choose|j: int| 0 <= j < removed.len() && removed[j] == k;
                assert(all[j] == k);
            }
            if sub.contains(k) {
                let j = choose|j: int| 0 <= j < sub.len() && sub[j] == k;
                assert(all[removed.len() + j] == k);
            }
            if self.contains(k) && self.node(k).inside(cn) && !inside_any(
                self.node(k),
                self,
                children,
                count,
            ) {
                assert(now.contains(k));
                assert(sub.contains(k));
            }
        }
        assert forall|i: int, j: int| 0 <= i < all.len() && 0 <= j < all.len() && i != j implies all[i]
            != all[j] by {
            if i < removed.len() && j >= removed.len() {
                assert(removed.contains(removed[i]));
                assert(sub.contains(sub[j - removed.len()]));
                if all[i] == all[j] {
                    assert(!now.contains(all[i]));
                }
            }
            if j < removed.len() && i >= removed.len() {
                assert(removed.contains(removed[j]));
                assert(sub.contains(sub[i - removed.len()]));
                if all[i] == all[j] {
                    assert(!now.contains(all[i]));
                }
            }
        }
    }

    /// When all children are leaves and are taken away, and the branch is
    /// made a leaf, everything below the branch has gone.
    #[verifier::rlimit(40)]
    pub proof fn lemma_collapse_finish(
        self,
        now: Forest,
        after: Forest,
        key: NodeKey,
        removed: Seq<NodeKey>,
    )
        requires
            self.wf(),
            self.is_branch(key),
            self.children_collapsed(
                now,
                self.node(key).children->0,
                self.fanout() as int,
                removed,
            ),
            forall|k: NodeKey|
                #![trigger after.contains(k)]
                #![trigger now.contains(k)]
                after.contains(k) <==> now.contains(k) && !self.node(key).children->0.contains(k),
            forall|k: NodeKey| #[trigger] after.contains(k) && k != key ==> after.node(k) == now.node(k),
            after.node(key) == (NodeView { children: None, ..now.node(key) }),
            after.roots == now.roots,
            after.min_size == now.min_size,
            after.root_size == now.root_size,
            after.dim == now.dim,
            after.starved == now.starved,
        ensures
            self.collapsed(after, key, removed + self.node(key).children->0),
    {
        let children = self.node(key).children->0;
        let n = children.len() as int;
        let all = removed + children;
        assert(self.node_wf(key));
        self.lemma_children_distinct(key);
        assert(children.take(n) =~= children);
        assert(!children.contains(key)) by {
            if children.contains(key) {
                let i = choose|i: int| 0 <= i < n && children[i] == key;
                assert(self.contains(children[i]));
                assert(is_child_of(self.node(children[i]), self.node(key), key, i, self.dim));
            }
        }
        assert forall|k: NodeKey| self.contains(k) implies (#[trigger] self.node(k)).inside(
            self.node(key),
        ) == (children.contains(k) || inside_any(self.node(k), self, children, n)) by {
            self.lemma_inside_branch(key, k);
        }
        assert forall|k: NodeKey|
            #![trigger after.contains(k)]
            #![trigger self.contains(k)]
            after.contains(k) <==> self.contains(k) && !self.node(k).inside(self.node(key)) by {
            assert(after.contains(k) <==> now.contains(k) && !children.contains(k));
            assert(now.contains(k) <==> self.contains(k) && !inside_any(
                self.node(k),
                self,
                children,
                n,
            ));
            if self.contains(k) {
                assert(self.node(k).inside(self.node(key)) == (children.contains(k) || inside_any(
                    self.node(k),
                    self,
                    children,
                    n,
                )));
            }
        }
        assert forall|k: NodeKey| #[trigger] after.contains(k) && k != key implies after.node(k)
            == self.node(k) by {
            assert(now.contains(k));
        }
        assert(now.contains(key)) by {
            assert(!self.node(key).inside(self.node(key)));
            assert(after.contains(key) <==> self.contains(key) && !self.node(key).inside(
                self.node(key),
            ));
        }
        assert forall|k: NodeKey| #[trigger] all.contains(k) <==> self.contains(k) && self.node(
            k,
        ).inside(self.node(key)) by {
            if all.contains(k) {
                let j = choose|j: int| 0 <= j < all.len() && all[j] == k;
                if j < removed.len() {
                    assert(removed[j] == k);
                    assert(removed.contains(k));
                } else {
                    assert(children[j - removed.len()] == k);
                    assert(children.contains(k));
                    assert(self.contains(children[j - removed.len()]));
                }
            }
            if removed.contains(k) {
                let j = choose|j: int| 0 <= j < removed.len() && removed[j] == k;
                assert(all[j] == k);
            }
            if children.contains(k) {
                let j = choose|j: int| 0 <= j < children.len() && children[j] == k;
                assert(all[removed.len() + j] == k);
                assert(self.contains(children[j]));
            }
        }
        assert forall|i: int, j: int| 0 <= i < all.len() && 0 <= j < all.len() && i != j implies all[i]
            != all[j] by {
            if i < removed.len() && j >= removed.len() {
                self.lemma_child_not_inside_sibling(key, removed[i], j - removed.len(), removed);
            }
            if j < removed.len() && i >= removed.len() {
                self.lemma_child_not_inside_sibling(key, removed[j], i - removed.len(), removed);
            }
        }
    }

    /// A child of a branch does not lie inside a child of that branch.
    pub proof fn lemma_child_not_inside_sibling(
        self,
        key: NodeKey,
        k: NodeKey,
        index: int,
        removed: Seq<NodeKey>,
    )
        requires
            self.wf(),
            self.is_branch(key),
            0 <= index < self.fanout(),
            removed.contains(k),
            forall|x: NodeKey|
                #[trigger] removed.contains(x) <==> self.contains(x) && inside_any(
                    self.node(x),
                    self,
                    self.node(key).children->0,
                    self.fanout() as int,
                ),
        ensures
            k != self.node(key).children->0[index],
    {
        let children = self.node(key).children->0;
        assert(self.node_wf(key));
        if k == children[index] {
            let j = choose|j: int|
                0 <= j < children.len() && self.node(k).inside(#[trigger] self.node(children[j]));
            assert(self.contains(children[j]));
            assert(self.contains(children[index]));
            self.lemma_inside_overlaps(k, children[j]);
            self.lemma_siblings_apart(key, index, j);
            assert(self.node_wf(k));
        }
    }
}

} // verus!
