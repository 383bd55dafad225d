//! The bookkeeping of the counts while an operation rewrites a node and
//! brings the nodes above it up to date.

use crate::object_pool::key_none_value_spec;
use crate::octree::detail::{content_population, cubed, ROOT_NODE_KEY};
use crate::octree::types::{Octree, VoxelData};
use crate::spatial::math::vector::V3c;
use vstd::prelude::*;

verus! {

impl<T: VoxelData, const DIM: usize> Octree<T, DIM> {
    /// After the content of a node was replaced by one that records the
    /// same population, each count is right, if the node is a leaf now or
    /// was none before.
    pub(crate) proof fn lemma_interior_changed_counts(&self, after: &Self, node: usize)
        requires
            self.inv(),
            after.structure_ok(),
            self.live(node),
            self.content_changed(after, node),
            after.content(node) is Leaf || !(self.content(node) is Leaf),
            content_population(after.content(node), self.cube_of(node).size as int)
                == content_population(self.content(node), self.cube_of(node).size as int),
        ensures
            after.inv(),
    {
        assert forall|k: usize| after.live(k) implies #[trigger] after.count_ok(k) by {
            assert(after.live(k) == self.live(k));
            assert(self.count_ok(k));
            assert(self.node_ok(k));
            assert forall|o: u32| o < 8 implies #[trigger] after.child_population(k, o)
                == self.child_population(k, o) by {
                let c = self.child_key(k, o);
                if c != key_none_value_spec() {
                    self.lemma_child(k, o);
                }
            }
            if k != node {
                self.lemma_count_carried(after, k);
            } else if !(after.content(node) is Leaf) {
                assert(after.child_population(k, 0) == self.child_population(k, 0));
                assert(after.child_population(k, 1) == self.child_population(k, 1));
                assert(after.child_population(k, 2) == self.child_population(k, 2));
                assert(after.child_population(k, 3) == self.child_population(k, 3));
                assert(after.child_population(k, 4) == self.child_population(k, 4));
                assert(after.child_population(k, 5) == self.child_population(k, 5));
                assert(after.child_population(k, 6) == self.child_population(k, 6));
                assert(after.child_population(k, 7) == self.child_population(k, 7));
            }
        }
    }

    /// The node `node` was rewritten: what lay under it is gone if
    /// `pruned`, and no other node has changed.
    pub(crate) open spec fn replaced(&self, after: &Self, node: usize, pruned: bool) -> bool {
        &&& self.same_frame(after)
        &&& after.places == self.places
        &&& after.nodes.slots() == self.nodes.slots()
        &&& after.live(node)
        &&& forall|k: usize| #[trigger]
            after.live(k) == (self.live(k) && !(pruned && self.under(k, node)))
        &&& forall|k: usize| k != node && #[trigger] after.live(k) ==> self.kept(after, k)
        &&& !pruned ==> forall|o: u32|
            o < 8 ==> #[trigger] after.child_key(node, o) == self.child_key(node, o)
    }

    /// Whether `after` has the nodes of `self` with the same child keys,
    /// each a leaf with the same brick or no leaf in either, and as many
    /// slots.
    pub(crate) open spec fn alike(&self, after: &Self) -> bool {
        &&& after.nodes.slots() == self.nodes.slots()
        &&& forall|k: usize| #[trigger] after.live(k) == self.live(k)
        &&& forall|k: usize| #[trigger]
            self.live(k) ==> {
                &&& after.content(k) == self.content(k) || (!(after.content(k) is Leaf) && !(
                self.content(k) is Leaf))
                &&& forall|o: u32|
                    o < 8 ==> #[trigger] after.child_key(k, o) == self.child_key(k, o)
            }
    }

    /// The count of the node is off by what the node below it has come to
    /// record more or less: it recorded `before`, and records `now`.
    pub(crate) open spec fn stale(&self, node: usize, before: u32, now: u32) -> bool {
        content_population(self.content(node), self.cube_of(node).size as int) + now
            == self.children_population(node) + before
    }

    /// Every count is right but that of the node above `node`, which is
    /// off by what `node` has come to record more or less.
    pub(crate) open spec fn pending(&self, node: usize, before: u32, now: u32) -> bool {
        &&& forall|k: usize|
            self.live(k) && (node == ROOT_NODE_KEY || k != self.places@[node].parent)
                ==> #[trigger] self.count_ok(k)
        &&& node != ROOT_NODE_KEY ==> self.stale(self.places@[node].parent, before, now)
    }

    /// After a node was rewritten, each of the other nodes finds what its
    /// children record unchanged, but for the rewritten node itself.
    pub(crate) proof fn lemma_replaced_counts(
        &self,
        after: &Self,
        node: usize,
        pruned: bool,
        k: usize,
    )
        requires
            self.structure_ok(),
            self.live(node),
            self.replaced(after, node, pruned),
            after.live(k),
            k != node,
        ensures
            after.content(k) == self.content(k),
            forall|o: u32|
                o < 8 && self.child_key(k, o) != node ==> #[trigger] after.child_population(k, o)
                    == self.child_population(k, o),
            forall|o: u32| o < 8 ==> #[trigger] after.child_key(k, o) == self.child_key(k, o),
            (node == ROOT_NODE_KEY || k != self.places@[node].parent) && self.count_ok(k)
                ==> after.count_ok(k),
    {
        self.nodes.lemma_live_key_is_a_slot(node);
        assert(self.kept(after, k));
        assert(self.node_ok(k));
        assert forall|o: u32| o < 8 && self.child_key(k, o) != node implies #[trigger] after.child_population(
            k,
            o,
        ) == self.child_population(k, o) by {
            let c = self.child_key(k, o);
            assert(after.child_key(k, o) == c);
            if c != key_none_value_spec() {
                self.lemma_child(k, o);
                assert(after.live(c)) by {
                    if pruned && self.under(c, node) {
                        self.lemma_under_step(c, node);
                        assert(self.under(k, node));
                    }
                }
                assert(self.kept(after, c));
            }
        }
        if (node == ROOT_NODE_KEY || k != self.places@[node].parent) && self.count_ok(k) {
            assert forall|o: u32| o < 8 implies #[trigger] after.child_population(k, o)
                == self.child_population(k, o) by {
                if self.child_key(k, o) == node {
                    self.lemma_child(k, o);
                }
            }
            self.lemma_count_carried(after, k);
        }
    }

    /// After a node was rewritten, the node above it finds the sum of what
    /// its children record changed by what the rewritten node records more
    /// or less.
    pub(crate) proof fn lemma_replaced_parent(&self, after: &Self, node: usize, pruned: bool)
        requires
            self.structure_ok(),
            after.structure_ok(),
            self.live(node),
            self.replaced(after, node, pruned),
            node != ROOT_NODE_KEY,
        ensures
            ({
                let parent = self.places@[node].parent;
                let size = self.cube_of(node).size as int;
                &&& after.live(parent)
                &&& parent != node
                &&& after.content(parent) == self.content(parent)
                &&& after.children_population(parent) + content_population(
                    self.content(node),
                    size,
                ) == self.children_population(parent) + content_population(
                    after.content(node),
                    size,
                )
            }),
    {
        let parent = self.places@[node].parent;
        let octant = self.places@[node].octant;
        self.lemma_parent(node);
        self.lemma_child(parent, octant);
        assert(after.live(parent)) by {
            if self.under(parent, node) {
                self.lemma_under_within(parent, node);
            }
        }
        self.lemma_replaced_counts(after, node, pruned, parent);
        assert forall|o: u32| o < 8 && o != octant implies #[trigger] after.child_population(
            parent,
            o,
        ) == self.child_population(parent, o) by {
            if self.child_key(parent, o) == node {
                self.lemma_child(parent, o);
            }
        }
        assert(after.child_key(parent, octant) == node);
        assert(after.child_population(parent, 0) == self.child_population(parent, 0) || octant == 0);
        assert(after.child_population(parent, 1) == self.child_population(parent, 1) || octant == 1);
        assert(after.child_population(parent, 2) == self.child_population(parent, 2) || octant == 2);
        assert(after.child_population(parent, 3) == self.child_population(parent, 3) || octant == 3);
        assert(after.child_population(parent, 4) == self.child_population(parent, 4) || octant == 4);
        assert(after.child_population(parent, 5) == self.child_population(parent, 5) || octant == 5);
        assert(after.child_population(parent, 6) == self.child_population(parent, 6) || octant == 6);
        assert(after.child_population(parent, 7) == self.child_population(parent, 7) || octant == 7);
    }

    /// After a node was rewritten, the voxels outside its cube are the
    /// same.
    pub(crate) proof fn lemma_replaced_frame(
        &self,
        after: &Self,
        node: usize,
        pruned: bool,
        p: V3c<u32>,
    )
        requires
            self.structure_ok(),
            self.live(node),
            self.replaced(after, node, pruned),
            !self.cube_of(node).contains(p),
        ensures
            after.stored(p) == self.stored(p),
    {
        let cube = self.cube_of(node);
        assert(self.agrees_outside(after, cube)) by {
            assert forall|k: usize| #[trigger]
                self.live(k) && !self.cube_of(k).within(cube) implies {
                &&& after.content(k) == self.content(k)
                &&& forall|o: u32|
                    o < 8 ==> #[trigger] after.child_key(k, o) == self.child_key(k, o)
            } by {
                assert(k != node);
                if self.under(k, node) {
                    self.lemma_under_within(k, node);
                }
                assert(after.live(k) == (self.live(k) && !(pruned && self.under(k, node))));
                assert(self.kept(after, k));
            }
        }
        self.lemma_voxel_frame(after, cube, p);
    }

    /// After a node was rewritten, a node other than it that could not be
    /// collapsed cannot be collapsed, unless it is the node above; and
    /// neither can that node, if the rewritten node is no leaf.
    pub(crate) proof fn lemma_replaced_tidy(
        &self,
        after: &Self,
        node: usize,
        pruned: bool,
        k: usize,
    )
        requires
            self.structure_ok(),
            self.live(node),
            self.replaced(after, node, pruned),
            after.live(k),
            k != node,
        ensures
            !self.collapsible(k) && (node == ROOT_NODE_KEY || k != self.places@[node].parent
                || !(after.content(node) is Leaf)) ==> !after.collapsible(k),
            (node != ROOT_NODE_KEY && k == self.places@[node].parent && !(after.content(
                node,
            ) is Leaf)) ==> !after.collapsible(k),
    {
        self.nodes.lemma_live_key_is_a_slot(node);
        assert(self.kept(after, k));
        assert(self.node_ok(k));
        if node != ROOT_NODE_KEY && k == self.places@[node].parent && !(after.content(
            node,
        ) is Leaf) {
            self.lemma_parent(node);
            assert(after.child_key(k, self.places@[node].octant) == node);
            after.lemma_tidy_by_child(k, self.places@[node].octant);
        } else if !self.collapsible(k) && (node == ROOT_NODE_KEY || k
            != self.places@[node].parent) {
            assert forall|o: u32| o < 8 implies ({
                let child = #[trigger] self.child_key(k, o);
                &&& after.child_key(k, o) == child
                &&& child != key_none_value_spec() ==> after.content(child) == self.content(child)
                    || !(after.content(child) is Leaf)
            }) by {
                let c = self.child_key(k, o);
                assert(after.child_key(k, o) == c);
                if c != key_none_value_spec() {
                    self.lemma_child(k, o);
                    if c != node {
                        assert(after.live(c)) by {
                            if pruned && self.under(c, node) {
                                self.lemma_under_step(c, node);
                                assert(self.under(k, node));
                            }
                        }
                        assert(self.kept(after, c));
                    }
                }
            }
            self.lemma_tidy_kept(after, k);
        }
    }

    /// After a node was rewritten, every count is right but that of the
    /// node above it, if every count was right before and the node itself
    /// has a right count now.
    pub(crate) proof fn lemma_replaced_pending(
        &self,
        after: &Self,
        node: usize,
        pruned: bool,
        before: u32,
        now: u32,
        was: int,
        is: int,
    )
        requires
            self.structure_ok(),
            after.structure_ok(),
            self.live(node),
            self.replaced(after, node, pruned),
            forall|k: usize| self.live(k) && k != node ==> #[trigger] self.count_ok(k),
            after.count_ok(node),
            was == content_population(self.content(node), self.cube_of(node).size as int),
            is == content_population(after.content(node), self.cube_of(node).size as int),
            is + before == was + now,
        ensures
            after.pending(node, before, now),
    {
        assert forall|k: usize|
            after.live(k) && (node == ROOT_NODE_KEY || k != after.places@[node].parent)
                implies #[trigger] after.count_ok(k) by {
            if k != node {
                assert(self.count_ok(k));
                self.lemma_replaced_counts(after, node, pruned, k);
            }
        }
        if node != ROOT_NODE_KEY {
            self.lemma_replaced_parent(after, node, pruned);
            let parent = self.places@[node].parent;
            self.lemma_parent(node);
            assert(self.count_ok(parent));
            self.lemma_child(parent, self.places@[node].octant);
        }
    }

    /// What the children of a node record stays the same when only the
    /// content of the node changes, and is at most the number of lattice
    /// points in the cube of the node.
    pub(crate) proof fn lemma_children_population_kept(&self, after: &Self, node: usize)
        requires
            self.structure_ok(),
            self.live(node),
            self.content_changed(after, node),
        ensures
            after.children_population(node) == self.children_population(node),
            0 <= self.children_population(node) <= cubed(self.cube_of(node).size as int),
    {
        assert(self.node_ok(node));
        self.lemma_countable(self.cube_of(node));
        let half = cubed(self.cube_of(node).size as int / 2);
        assert forall|o: u32| o < 8 implies #[trigger] after.child_population(node, o)
            == self.child_population(node, o) && 0 <= self.child_population(node, o) <= half
            && (self.cube_of(node).size == DIM ==> self.child_population(node, o) == 0) by {
            assert(self.link_ok(node, o));
            if self.child_key(node, o) != key_none_value_spec() {
                self.lemma_child(node, o);
            }
        }
        assert(after.child_population(node, 0) == self.child_population(node, 0));
        assert(after.child_population(node, 1) == self.child_population(node, 1));
        assert(after.child_population(node, 2) == self.child_population(node, 2));
        assert(after.child_population(node, 3) == self.child_population(node, 3));
        assert(after.child_population(node, 4) == self.child_population(node, 4));
        assert(after.child_population(node, 5) == self.child_population(node, 5));
        assert(after.child_population(node, 6) == self.child_population(node, 6));
        assert(after.child_population(node, 7) == self.child_population(node, 7));
    }

    /// A count moved by what the node below has come to record more or
    /// less.
    pub(crate) fn adjusted_count(count: u32, before: u32, now: u32) -> (adjusted: u32)
        requires
            0 <= count + now - before <= u32::MAX,
        ensures
            adjusted == count + now - before,
    {
        if now >= before {
            count + (now - before)
        } else {
            count - (before - now)
        }
    }

    /// With every count right, nothing is pending.
    pub(crate) proof fn lemma_nothing_pending(&self, node: usize)
        requires
            self.inv(),
            self.live(node),
        ensures
            self.pending(node, 0, 0),
    {
        if node != ROOT_NODE_KEY {
            self.lemma_parent(node);
            assert(self.count_ok(self.places@[node].parent));
        }
    }

    /// A node that cannot be collapsed cannot be collapsed in an octree
    /// that is like its own.
    pub(crate) proof fn lemma_alike_tidy(&self, current: &Self, node: usize)
        requires
            self.structure_ok(),
            !self.collapsible(node),
            self.alike(current),
            current.live(node),
        ensures
            !current.collapsible(node),
    {
        assert(self.live(node) == current.live(node));
        assert forall|o: u32| o < 8 implies ({
            let child = #[trigger] self.child_key(node, o);
            &&& current.child_key(node, o) == child
            &&& child != key_none_value_spec() ==> current.content(child) == self.content(child)
                || !(current.content(child) is Leaf)
        }) by {
            let child = self.child_key(node, o);
            if child != key_none_value_spec() {
                self.lemma_child(node, o);
            }
        }
        self.lemma_tidy_kept(current, node);
    }

    /// An octree stays like another when a node that is no leaf gets a
    /// content that is none either.
    pub(crate) proof fn lemma_alike_settled(&self, current: &Self, after: &Self, node: usize)
        requires
            self.alike(current),
            current.live(node),
            current.replaced(after, node, false),
            !(current.content(node) is Leaf),
            !(after.content(node) is Leaf),
        ensures
            self.alike(after),
    {
        assert forall|k: usize| #[trigger] after.live(k) == self.live(k) by {
            assert(after.live(k) == (current.live(k) && !(false && current.under(k, node))));
            assert(current.live(k) == self.live(k));
        }
        assert forall|k: usize| #[trigger] self.live(k) implies {
            &&& after.content(k) == self.content(k) || (!(after.content(k) is Leaf) && !(
            self.content(k) is Leaf))
            &&& forall|o: u32| o < 8 ==> #[trigger] after.child_key(k, o) == self.child_key(k, o)
        } by {
            assert(current.live(k) == self.live(k));
            assert(after.live(k));
            if k != node {
                assert(current.kept(after, k));
            }
            assert forall|o: u32| o < 8 implies #[trigger] after.child_key(k, o) == self.child_key(
                k,
                o,
            ) by {
                assert(after.child_key(k, o) == current.child_key(k, o));
            }
        }
    }

    /// After a node with all that lay under it was taken out of the tree,
    /// every count is right but that of the node above it, which is off by
    /// what the node recorded.
    pub(crate) proof fn lemma_node_removed_counts(
        &self,
        emptied: &Self,
        after: &Self,
        node: usize,
        before: u32,
    )
        requires
            self.inv(),
            emptied.structure_ok(),
            after.structure_ok(),
            self.live(node),
            node != ROOT_NODE_KEY,
            self.replaced(emptied, node, true),
            emptied.content(node) == self.content(node),
            emptied.child_removed(after, self.places@[node].parent, self.places@[node].octant),
            forall|other: usize|
                other != self.places@[node].parent && #[trigger] after.live(other) ==> emptied.kept(
                    after,
                    other,
                ),
            before == content_population(self.content(node), self.cube_of(node).size as int),
        ensures
            forall|k: usize|
                after.live(k) && k != self.places@[node].parent ==> #[trigger] after.count_ok(k),
            after.stale(self.places@[node].parent, before, 0),
            after.live(self.places@[node].parent),
    {
        let parent = self.places@[node].parent;
        let octant = self.places@[node].octant;
        self.lemma_parent(node);
        self.lemma_child(parent, octant);
        self.lemma_replaced_parent(emptied, node, true);
        emptied.lemma_child(parent, octant);
        assert(after.live(parent) == emptied.live(parent));
        assert forall|k: usize| after.live(k) && k != parent implies #[trigger] after.count_ok(
            k,
        ) by {
            assert(k != node);
            assert(after.live(k) == emptied.live(k));
            assert(self.count_ok(k));
            self.lemma_replaced_counts(emptied, node, true, k);
            assert(emptied.count_ok(k));
            assert(emptied.kept(after, k));
            assert(emptied.node_ok(k));
            assert forall|o: u32| o < 8 implies #[trigger] after.child_population(k, o)
                == emptied.child_population(k, o) by {
                let c = emptied.child_key(k, o);
                assert(after.child_key(k, o) == c);
                if c != key_none_value_spec() {
                    emptied.lemma_child(k, o);
                    assert(c != node);
                    assert(after.live(c) == emptied.live(c));
                }
            }
            emptied.lemma_count_carried(after, k);
        }
        assert(self.count_ok(parent));
        assert forall|o: u32| o < 8 && o != octant implies #[trigger] after.child_population(
            parent,
            o,
        ) == emptied.child_population(parent, o) by {
            let c = emptied.child_key(parent, o);
            assert(after.child_key(parent, o) == c);
            if c != key_none_value_spec() {
                emptied.lemma_child(parent, o);
                assert(c != node);
                assert(after.live(c) == emptied.live(c));
            }
        }
        assert(after.child_population(parent, octant) == 0);
        assert(emptied.child_population(parent, octant) == before);
        assert(after.child_population(parent, 0) == emptied.child_population(parent, 0) || octant == 0);
        assert(after.child_population(parent, 1) == emptied.child_population(parent, 1) || octant == 1);
        assert(after.child_population(parent, 2) == emptied.child_population(parent, 2) || octant == 2);
        assert(after.child_population(parent, 3) == emptied.child_population(parent, 3) || octant == 3);
        assert(after.child_population(parent, 4) == emptied.child_population(parent, 4) || octant == 4);
        assert(after.child_population(parent, 5) == emptied.child_population(parent, 5) || octant == 5);
        assert(after.child_population(parent, 6) == emptied.child_population(parent, 6) || octant == 6);
        assert(after.child_population(parent, 7) == emptied.child_population(parent, 7) || octant == 7);
    }

    /// Every count is right but that of `node`, which is off by what a
    /// node below it has come to record more or less.
    pub(crate) open spec fn owing(&self, node: usize, before: u32, now: u32) -> bool {
        &&& forall|k: usize| self.live(k) && k != node ==> #[trigger] self.count_ok(k)
        &&& self.stale(node, before, now)
    }
}

} // verus!
