//! Refinement of a leaf into eight leaves with its brick, and the collapse
//! of eight leaves with equal bricks into one. Neither changes a voxel: a
//! leaf above the level of the bricks stands for its brick repeated along
//! each axis.

use crate::object_pool::{key_might_be_valid, key_none_value_spec};
use crate::octree::brick::{brick_is_all, brick_same, plane_is_all, row_is_all};
use crate::octree::detail::{
    brick_voxel, content_population, cubed, leaf_population, lemma_index_in_brick,
    lemma_pow2_positive, mat_index_spec, ROOT_NODE_KEY,
};
use crate::octree::types::{Brick, NodeContent, Octree, VoxelData};
use crate::spatial::math::vector::V3c;
use crate::spatial::{lemma_child_contains, Cube};
use vstd::prelude::*;

verus! {

/// A uniform brick holds its one voxel for every position.
pub proof fn lemma_uniform_brick_voxel<T, const DIM: usize>(
    brick: Brick<T, DIM>,
    v: T,
    cube: Cube,
    p: V3c<u32>,
)
    requires
        DIM >= 1,
        brick_is_all(brick, v),
        cube.contains(p),
    ensures
        brick_voxel(brick, cube, p) == v,
{
    let index = mat_index_spec::<DIM>(cube, p);
    lemma_index_in_brick::<DIM>(cube, p);
    let x = index.x as int;
    let y = index.y as int;
    let z = index.z as int;
    assert(plane_is_all(brick[x], v));
    assert(row_is_all(brick[x][y], v));
    assert(brick[x][y][z] == v);
}

impl<T: VoxelData, const DIM: usize> Octree<T, DIM> {
    /// While a leaf is refined: the node is interior already, its first
    /// `upto` octants hold new leaves with the brick, the others nothing,
    /// and no other node has changed.
    pub(crate) open spec fn refining(
        &self,
        current: &Self,
        node: usize,
        upto: u32,
        brick: Brick<T, DIM>,
        count: u32,
    ) -> bool {
        &&& self.same_frame(current)
        &&& current.live(node)
        &&& current.places@[node] == self.places@[node]
        &&& current.content(node) == NodeContent::<T, DIM>::Internal(count)
        &&& forall|o: u32|
            o < 8 ==> {
                let child = #[trigger] current.child_key(node, o);
                if o < upto {
                    &&& child != key_none_value_spec()
                    &&& !self.live(child)
                    &&& current.live(child)
                    &&& current.content(child) == NodeContent::<T, DIM>::Leaf(brick)
                } else {
                    child == key_none_value_spec()
                }
            }
        &&& forall|k: usize| k != node && #[trigger] self.live(k) ==> self.kept(current, k)
        &&& forall|k: usize| #[trigger]
            current.live(k) ==> self.live(k) || current.content(k) == NodeContent::<
                T,
                DIM,
            >::Leaf(brick)
    }

    /// What `make_uniform_children` changes: the leaf has become an
    /// interior node over eight new leaves with its brick.
    pub(crate) open spec fn refined(&self, after: &Self, node: usize) -> bool {
        self.content(node) matches NodeContent::Leaf(brick) && self.refining(
            after,
            node,
            8,
            brick,
            leaf_population(brick, self.cube_of(node).size as int) as u32,
        )
    }

    /// One more octant of a leaf under refinement has its new leaf.
    pub(crate) proof fn lemma_refining_round(
        &self,
        before: &Self,
        after: &Self,
        node: usize,
        octant: u32,
        child: usize,
        brick: Brick<T, DIM>,
        count: u32,
    )
        requires
            octant < 8,
            self.live(node),
            self.refining(before, node, octant, brick, count),
            before.child_added(after, node, octant, child, NodeContent::Leaf(brick)),
            forall|k: usize| k != node && #[trigger] before.live(k) ==> before.kept(after, k),
            after.structure_ok(),
        ensures
            self.refining(after, node, (octant + 1) as u32, brick, count),
    {
        assert(after.live(node) == before.live(node));
        assert forall|k: usize| k != node && #[trigger] self.live(k) implies self.kept(
            after,
            k,
        ) by {
            assert(self.kept(before, k));
            assert(before.live(k));
            assert(before.kept(after, k));
            assert forall|o: u32| o < 8 implies #[trigger] after.child_key(k, o) == self.child_key(
                k,
                o,
            ) by {
                assert(before.child_key(k, o) == self.child_key(k, o));
            }
        }
        assert(!self.live(child)) by {
            if self.live(child) {
                if child != node {
                    assert(self.kept(before, child));
                }
            }
        }
        assert forall|k: usize| #[trigger] after.live(k) implies self.live(k) || after.content(k)
            == NodeContent::<T, DIM>::Leaf(brick) by {
            if k != child {
                assert(after.live(k) == before.live(k));
                assert(before.live(k));
                if !self.live(k) {
                    assert(k != node);
                    assert(before.kept(after, k));
                }
            }
        }
        assert forall|o: u32| o < 8 implies ({
            let c = #[trigger] after.child_key(node, o);
            if o < octant + 1 {
                &&& c != key_none_value_spec()
                &&& !self.live(c)
                &&& after.live(c)
                &&& after.content(c) == NodeContent::<T, DIM>::Leaf(brick)
            } else {
                c == key_none_value_spec()
            }
        }) by {
            let c = after.child_key(node, o);
            if o != octant {
                assert(c == before.child_key(node, o));
                if o < octant {
                    assert(before.live(c));
                    assert(c != node) by {
                        assert(!self.live(c));
                    }
                    assert(before.kept(after, c));
                }
            } else {
                after.nodes.lemma_live_key_is_a_slot(child);
            }
        }
    }

    /// After a refinement each count is right.
    pub(crate) proof fn lemma_refined_counts(&self, after: &Self, node: usize)
        requires
            self.inv(),
            after.structure_ok(),
            self.live(node),
            self.cube_of(node).size > DIM,
            self.refined(after, node),
        ensures
            after.inv(),
    {
        let brick = self.content(node)->Leaf_0;
        let cube = self.cube_of(node);
        assert(self.node_ok(node));
        self.lemma_leaf_population_halves(brick, cube);
        self.lemma_countable(cube);
        let part = leaf_population(brick, cube.size as int / 2);
        assert(after.cube_of(node) == cube);
        assert forall|o: u32| o < 8 implies #[trigger] after.child_population(node, o) == part by {
            let c = after.child_key(node, o);
            assert(c != key_none_value_spec());
        }
        assert(after.count_ok(node)) by {
            assert(after.child_population(node, 0) == part);
            assert(after.child_population(node, 1) == part);
            assert(after.child_population(node, 2) == part);
            assert(after.child_population(node, 3) == part);
            assert(after.child_population(node, 4) == part);
            assert(after.child_population(node, 5) == part);
            assert(after.child_population(node, 6) == part);
            assert(after.child_population(node, 7) == part);
        }
        assert forall|k: usize| after.live(k) implies #[trigger] after.count_ok(k) by {
            if k == node {
            } else if self.live(k) {
                self.lemma_refined_count_of(after, node, k);
            } else {
                assert(after.content(k) is Leaf);
            }
        }
    }

    /// After a refinement the count of a node that was there before, other
    /// than the refined node, is right.
    pub(crate) proof fn lemma_refined_count_of(&self, after: &Self, node: usize, k: usize)
        requires
            self.inv(),
            self.live(node),
            self.cube_of(node).size > DIM,
            self.refined(after, node),
            self.live(k),
            k != node,
        ensures
            after.count_ok(k),
    {
        let brick = self.content(node)->Leaf_0;
        assert(self.node_ok(node));
        self.lemma_leaf_population_halves(brick, self.cube_of(node));
        self.lemma_countable(self.cube_of(node));
        assert(self.kept(after, k));
        assert(self.node_ok(k));
        assert(self.count_ok(k));
        assert forall|o: u32| o < 8 implies #[trigger] after.child_population(k, o)
            == self.child_population(k, o) by {
            assert(self.link_ok(k, o));
            let c = self.child_key(k, o);
            assert(after.child_key(k, o) == c);
            if c != key_none_value_spec() {
                if c != node {
                    assert(self.kept(after, c));
                } else {
                    self.lemma_child(k, o);
                    assert(self.cube_of(node).size == self.cube_of(k).size / 2);
                }
            }
        }
        self.lemma_count_carried(after, k);
    }

    /// After a refinement a node other than the refined one that could not
    /// be collapsed cannot be collapsed, and neither can a new node.
    pub(crate) proof fn lemma_refined_tidy(&self, after: &Self, node: usize, k: usize)
        requires
            self.structure_ok(),
            after.structure_ok(),
            self.live(node),
            self.cube_of(node).size > DIM,
            self.refined(after, node),
            after.live(k),
            k != node,
            self.live(k) ==> !self.collapsible(k),
        ensures
            !after.collapsible(k),
    {
        if self.live(k) {
            assert(self.kept(after, k));
            assert forall|o: u32| o < 8 implies ({
                let child = #[trigger] self.child_key(k, o);
                &&& after.child_key(k, o) == child
                &&& child != key_none_value_spec() ==> after.content(child) == self.content(child)
                    || !(after.content(child) is Leaf)
            }) by {
                let child = self.child_key(k, o);
                assert(after.child_key(k, o) == child);
                if child != key_none_value_spec() {
                    self.lemma_child(k, o);
                    if child != node {
                        assert(self.kept(after, child));
                    }
                }
            }
            self.lemma_tidy_kept(after, k);
        } else {
            assert(after.content(k) is Leaf);
            assert(after.node_ok(k));
            assert(after.childless(k));
            assert(after.child_key(k, 0) == key_none_value_spec());
            after.lemma_tidy_by_child(k, 0);
        }
    }

    /// After a refinement every voxel is the same.
    pub(crate) proof fn lemma_refined_model(&self, after: &Self, node: usize, p: V3c<u32>)
        requires
            self.structure_ok(),
            after.structure_ok(),
            self.live(node),
            self.cube_of(node).size > DIM,
            self.refined(after, node),
        ensures
            after.stored(p) == self.stored(p),
    {
        let brick = self.content(node)->Leaf_0;
        let cube = self.cube_of(node);
        assert(self.node_ok(node));
        lemma_pow2_positive(DIM as int);
        if cube.contains(p) {
            self.lemma_lookup_through(node, p);
            after.lemma_lookup_through(node, p);
            let o = cube.octant_of(p);
            self.lemma_cube_splits(cube, o);
            lemma_child_contains(cube, p, o);
            let c = after.child_key(node, o);
            assert(c != key_none_value_spec());
            assert(after.voxel_in(node, cube, p) == after.voxel_in(c, cube.child(o), p));
            self.lemma_same_index_below(cube, o, p);
            assert(brick_voxel(brick, cube.child(o), p) == brick_voxel(brick, cube, p));
        } else {
            assert(self.agrees_outside(after, cube)) by {
                assert forall|k: usize| #[trigger]
                    self.live(k) && !self.cube_of(k).within(cube) implies {
                    &&& after.content(k) == self.content(k)
                    &&& forall|o: u32|
                        o < 8 ==> #[trigger] after.child_key(k, o) == self.child_key(k, o)
                } by {
                    assert(k != node);
                    assert(self.kept(after, k));
                }
            }
            self.lemma_voxel_frame(after, cube, p);
        }
    }

    /// Turns a leaf above the level of the bricks into an interior
    /// node over eight new leaves, each with the brick of the leaf.
    pub(crate) fn make_uniform_children(&mut self, node: usize, size: u32)
        requires
            old(self).inv(),
            old(self).live(node),
            old(self).content(node) is Leaf,
            old(self).cube_of(node).size == size,
            size > DIM,
        ensures
            final(self).inv(),
            old(self).refined(final(self), node),
            forall|p: V3c<u32>| #[trigger] final(self).stored(p) == old(self).stored(p),
            forall|k: usize|
                final(self).live(k) && k != node && (old(self).live(k) ==> !old(self).collapsible(
                    k,
                )) ==> !#[trigger] final(self).collapsible(k),
    {
        proof {
            assert(self.node_ok(node));
            self.lemma_countable(self.cube_of(node));
        }
        let content = *self.nodes.get(node);
        let brick = *content.leaf_data();
        let count = Self::population_of(&content, size);
        self.set_content(node, NodeContent::Internal(count));
        proof {
            old(self).lemma_content_changed(self, node);
            old(self).lemma_leaf_population_halves(brick, old(self).cube_of(node));
            assert(old(self).childless(node));
            assert forall|o: u32| o < 8 implies #[trigger] self.child_key(node, o)
                == key_none_value_spec() by {
                assert(old(self).child_key(node, o) == key_none_value_spec());
            }
        }
        let mut octant: u32 = 0;
        while octant < 8
            invariant
                octant <= 8,
                self.structure_ok(),
                old(self).structure_ok(),
                old(self).live(node),
                old(self).cube_of(node).size == size,
                size > DIM,
                0 <= leaf_population(brick, size as int / 2) <= cubed(size as int / 2),
                old(self).refining(self, node, octant, brick, count),
            decreases 8 - octant,
        {
            let ghost before = *self;
            proof {
                assert(before.child_key(node, octant) == key_none_value_spec());
            }
            let child = self.allocate_child(node, octant, NodeContent::Leaf(brick));
            proof {
                old(self).lemma_refining_round(&before, self, node, octant, child, brick, count);
            }
            octant += 1;
        }
        proof {
            old(self).lemma_refined_counts(self, node);
            assert forall|p: V3c<u32>| #[trigger] self.stored(p) == old(self).stored(p) by {
                old(self).lemma_refined_model(self, node, p);
            }
            assert forall|k: usize|
                self.live(k) && k != node && (old(self).live(k) ==> !old(self).collapsible(
                    k,
                )) implies !#[trigger] self.collapsible(k) by {
                old(self).lemma_refined_tidy(self, node, k);
            }
        }
    }

    /// Whether the octant of the node holds a leaf with the brick `first`.
    pub(crate) open spec fn equal_leaf_child(
        &self,
        node: usize,
        octant: u32,
        first: Brick<T, DIM>,
    ) -> bool {
        let child = self.child_key(node, octant);
        &&& child != key_none_value_spec()
        &&& self.content(child) == NodeContent::<T, DIM>::Leaf(first)
    }

    /// The brick of the leaf in the first octant of the node.
    pub(crate) open spec fn first_brick(&self, node: usize) -> Brick<T, DIM> {
        self.content(self.child_key(node, 0))->Leaf_0
    }

    /// Whether the eight octants of the node hold leaves whose bricks are
    /// equal, voxel by voxel.
    pub(crate) open spec fn collapsible(&self, node: usize) -> bool {
        forall|o: u32| o < 8 ==> #[trigger] self.equal_leaf_child(node, o, self.first_brick(node))
    }

    /// No node has eight octants with leaves whose bricks are equal: every
    /// node that could be collapsed has been.
    pub closed spec fn is_simplified(&self) -> bool {
        forall|k: usize| self.live(k) ==> !#[trigger] self.collapsible(k)
    }

    /// An octree that differs from a well-formed one in nothing but the
    /// setting is well formed, stands for the same, and is in simplified
    /// form if the other is.
    pub(crate) proof fn lemma_setting_changed(&self, after: &Self)
        requires
            self.inv(),
            after.octree_size == self.octree_size,
            after.nodes == self.nodes,
            after.node_children == self.node_children,
            after.places == self.places,
        ensures
            after.inv(),
            self.is_simplified() ==> after.is_simplified(),
            forall|p: V3c<u32>| #[trigger] after.stored(p) == self.stored(p),
    {
        assert forall|k: usize| #[trigger] self.live(k) implies self.kept(after, k) by {}
        self.lemma_structure_carried(after);
        assert forall|k: usize| after.live(k) implies #[trigger] after.count_ok(k) by {
            assert(self.count_ok(k));
            assert forall|o: u32| o < 8 implies #[trigger] after.child_population(k, o)
                == self.child_population(k, o) by {}
            self.lemma_count_carried(after, k);
        }
        if self.is_simplified() {
            assert forall|k: usize| after.live(k) implies !#[trigger] after.collapsible(k) by {
                assert(!self.collapsible(k));
                self.lemma_tidy_kept(after, k);
            }
        }
        assert forall|p: V3c<u32>| #[trigger] after.stored(p) == self.stored(p) by {
            if self.root_cube().contains(p) {
                assert(self.agrees_below(after, self.root_cube(), p));
                assert(self.node_ok(ROOT_NODE_KEY));
                self.lemma_lookup_same(
                    after,
                    ROOT_NODE_KEY,
                    self.root_cube(),
                    p,
                );
            }
        }
    }

    /// What the simplified form stands for.
    pub(crate) proof fn lemma_is_simplified(&self)
        ensures
            self.is_simplified() == (forall|k: usize|
                self.live(k) ==> !#[trigger] self.collapsible(k)),
    {
    }

    /// A node that could not be collapsed cannot be collapsed after a
    /// change that keeps its child keys and, of each child, the content or
    /// the fact that it is no leaf.
    pub(crate) proof fn lemma_tidy_kept(&self, after: &Self, k: usize)
        requires
            !self.collapsible(k),
            forall|o: u32|
                o < 8 ==> {
                    let child = #[trigger] self.child_key(k, o);
                    &&& after.child_key(k, o) == child
                    &&& child != key_none_value_spec() ==> after.content(child) == self.content(
                        child,
                    ) || !(after.content(child) is Leaf)
                },
        ensures
            !after.collapsible(k),
    {
        if after.collapsible(k) {
            let first = after.first_brick(k);
            assert(after.equal_leaf_child(k, 0, first));
            assert(self.child_key(k, 0) == after.child_key(k, 0));
            assert(self.first_brick(k) == first);
            assert forall|o: u32| o < 8 implies #[trigger] self.equal_leaf_child(k, o, first) by {
                assert(after.equal_leaf_child(k, o, first));
                assert(self.child_key(k, o) == after.child_key(k, o));
            }
        }
    }

    /// A node with a child that is no leaf, or without a child in some
    /// octant, cannot be collapsed.
    pub(crate) proof fn lemma_tidy_by_child(&self, k: usize, o: u32)
        requires
            o < 8,
            self.child_key(k, o) == key_none_value_spec() || !(self.content(
                self.child_key(k, o),
            ) is Leaf),
        ensures
            !self.collapsible(k),
    {
        if self.collapsible(k) {
            assert(self.equal_leaf_child(k, o, self.first_brick(k)));
        }
    }

    /// What `simplify` changes where it collapses the node: the node is a
    /// leaf with the brick of its former children, which are gone, and no
    /// other node has changed.
    pub(crate) open spec fn collapsed(&self, after: &Self, node: usize) -> bool {
        &&& self.same_frame(after)
        &&& after.places == self.places
        &&& after.nodes.slots() == self.nodes.slots()
        &&& after.live(node)
        &&& after.content(node) == NodeContent::<T, DIM>::Leaf(self.first_brick(node))
        &&& after.childless(node)
        &&& forall|k: usize| #[trigger] after.live(k) == (self.live(k) && !self.under(k, node))
        &&& forall|k: usize| k != node && #[trigger] after.live(k) ==> self.kept(after, k)
    }

    /// Nothing lies under a node without children.
    pub(crate) proof fn lemma_nothing_under_childless(&self, node: usize)
        requires
            self.structure_ok(),
            self.live(node),
            self.childless(node),
        ensures
            forall|k: usize| self.live(k) ==> !#[trigger] self.under(k, node),
            self.subtrees_removed(self, node, 8),
    {
        assert forall|k: usize| self.live(k) implies !#[trigger] self.under(k, node) by {
            if self.under(k, node) {
                self.lemma_under_branch(k, node);
            }
        }
    }

    /// The children of a collapsible node are leaves without anything
    /// under them, and each records an eighth of what a leaf with their
    /// brick records for the whole node.
    pub(crate) proof fn lemma_collapsible_child(&self, node: usize, octant: u32)
        requires
            self.structure_ok(),
            self.live(node),
            octant < 8,
            self.equal_leaf_child(node, octant, self.first_brick(node)),
        ensures
            ({
                let child = self.child_key(node, octant);
                let first = self.first_brick(node);
                &&& self.live(child)
                &&& self.childless(child)
                &&& self.cube_of(node).size > DIM
                &&& 8 * self.child_population(node, octant) == leaf_population(
                    first,
                    self.cube_of(node).size as int,
                )
                &&& 0 <= leaf_population(first, self.cube_of(node).size as int) <= cubed(
                    self.cube_of(node).size as int,
                )
            }),
    {
        self.lemma_child(node, octant);
        self.lemma_leaf_population_halves(self.first_brick(node), self.cube_of(node));
    }

    /// A collapsed node records what its children recorded together; every
    /// other count but that of the node above stays right.
    pub(crate) proof fn lemma_collapsed_counts(&self, after: &Self, node: usize, k: usize)
        requires
            self.structure_ok(),
            after.structure_ok(),
            self.live(node),
            self.collapsible(node),
            self.collapsed(after, node),
            after.live(k),
        ensures
            content_population(after.content(node), self.cube_of(node).size as int)
                == self.children_population(node),
            k != node && (node == ROOT_NODE_KEY || k != self.places@[node].parent) && self.count_ok(
                k,
            ) ==> after.count_ok(k),
            k != node && self.count_ok(k) ==> forall|o: u32|
                o < 8 && self.child_key(k, o) != node ==> #[trigger] after.child_population(k, o)
                    == self.child_population(k, o),
    {
        let first = self.first_brick(node);
        assert(self.equal_leaf_child(node, 0, first));
        assert(self.equal_leaf_child(node, 1, first));
        assert(self.equal_leaf_child(node, 2, first));
        assert(self.equal_leaf_child(node, 3, first));
        assert(self.equal_leaf_child(node, 4, first));
        assert(self.equal_leaf_child(node, 5, first));
        assert(self.equal_leaf_child(node, 6, first));
        assert(self.equal_leaf_child(node, 7, first));
        self.lemma_collapsible_child(node, 0);
        self.lemma_collapsible_child(node, 1);
        self.lemma_collapsible_child(node, 2);
        self.lemma_collapsible_child(node, 3);
        self.lemma_collapsible_child(node, 4);
        self.lemma_collapsible_child(node, 5);
        self.lemma_collapsible_child(node, 6);
        self.lemma_collapsible_child(node, 7);
        if k != node && self.count_ok(k) {
            assert(self.kept(after, k));
            assert(self.node_ok(k));
            assert forall|o: u32| o < 8 && self.child_key(k, o) != node implies #[trigger] after.child_population(
                k,
                o,
            ) == self.child_population(k, o) by {
                let c = self.child_key(k, o);
                assert(after.child_key(k, o) == c);
                if c != key_none_value_spec() {
                    self.lemma_child(k, o);
                    assert(after.live(c)) by {
                        if self.under(c, node) {
                            self.lemma_under_step(c, node);
                            assert(self.under(k, node));
                        }
                    }
                    assert(self.kept(after, c));
                }
            }
            if node == ROOT_NODE_KEY || k != self.places@[node].parent {
                assert forall|o: u32| o < 8 implies #[trigger] after.child_population(k, o)
                    == self.child_population(k, o) by {
                    if self.child_key(k, o) == node {
                        self.nodes.lemma_live_key_is_a_slot(node);
                        self.lemma_child(k, o);
                    }
                }
                self.lemma_count_carried(after, k);
            }
        }
    }

    /// A collapse leaves every voxel the same.
    pub(crate) proof fn lemma_collapsed_model(&self, after: &Self, node: usize, p: V3c<u32>)
        requires
            self.structure_ok(),
            after.structure_ok(),
            self.live(node),
            self.collapsible(node),
            self.collapsed(after, node),
        ensures
            after.stored(p) == self.stored(p),
    {
        let cube = self.cube_of(node);
        let first = self.first_brick(node);
        lemma_pow2_positive(DIM as int);
        if cube.contains(p) {
            self.lemma_lookup_through(node, p);
            after.lemma_lookup_through(node, p);
            let o = cube.octant_of(p);
            assert(self.equal_leaf_child(node, 0, first));
            self.lemma_child(node, 0);
            self.lemma_cube_splits(cube, o);
            lemma_child_contains(cube, p, o);
            assert(self.equal_leaf_child(node, o, first));
            self.lemma_child(node, o);
            let c = self.child_key(node, o);
            assert(self.voxel_in(node, cube, p) == self.voxel_in(c, cube.child(o), p));
            self.lemma_same_index_below(cube, o, p);
            assert(brick_voxel(first, cube.child(o), p) == brick_voxel(first, cube, p));
        } else {
            assert(self.agrees_outside(after, cube)) by {
                assert forall|k: usize| #[trigger]
                    self.live(k) && !self.cube_of(k).within(cube) implies {
                    &&& after.content(k) == self.content(k)
                    &&& forall|o: u32|
                        o < 8 ==> #[trigger] after.child_key(k, o) == self.child_key(k, o)
                } by {
                    assert(k != node);
                    if self.under(k, node) {
                        self.lemma_under_within(k, node);
                    }
                    assert(after.live(k) == (self.live(k) && !self.under(k, node)));
                    assert(self.kept(after, k));
                }
            }
            self.lemma_voxel_frame(after, cube, p);
        }
    }

    /// Whether the eight octants of the node hold leaves whose bricks are
    /// equal, voxel by voxel; if so, the brick of the first.
    pub(crate) fn equal_children(&self, node: usize) -> (found: Option<Brick<T, DIM>>)
        requires
            self.structure_ok(),
            self.live(node),
        ensures
            match found {
                Some(brick) => self.collapsible(node) && self.first_brick(node) == brick,
                None => !self.collapsible(node),
            },
    {
        proof {
            self.nodes.lemma_live_key_is_a_slot(node);
        }
        let first = *self.node_children[node].index(0);
        if !key_might_be_valid(first) {
            assert(!self.equal_leaf_child(node, 0, self.first_brick(node)));
            return None;
        }
        proof {
            self.lemma_child(node, 0);
        }
        let brick = match self.nodes.get(first) {
            NodeContent::Leaf(brick) => *brick,
            _ => {
                assert(!self.equal_leaf_child(node, 0, self.first_brick(node)));
                return None;
            },
        };
        let mut octant: u32 = 1;
        assert(self.equal_leaf_child(node, 0, brick));
        while octant < 8
            invariant
                1 <= octant <= 8,
                self.structure_ok(),
                self.live(node),
                node < self.node_children@.len(),
                brick == self.first_brick(node),
                forall|o: u32| o < octant ==> #[trigger] self.equal_leaf_child(node, o, brick),
            decreases 8 - octant,
        {
            let child = *self.node_children[node].index(octant);
            if !key_might_be_valid(child) {
                assert(!self.equal_leaf_child(node, octant, brick));
                return None;
            }
            proof {
                self.lemma_child(node, octant);
            }
            match self.nodes.get(child) {
                NodeContent::Leaf(other) => {
                    if !brick_same(other, &brick) {
                        assert(!self.equal_leaf_child(node, octant, brick));
                        return None;
                    }
                },
                _ => {
                    assert(!self.equal_leaf_child(node, octant, brick));
                    return None;
                },
            }
            octant += 1;
        }
        Some(brick)
    }

    /// Collapses the node into a leaf if its eight octants hold leaves
    /// whose bricks are equal, voxel by voxel, and says whether it did. A
    /// key that names no node is left alone.
    pub(crate) fn simplify(&mut self, node: usize) -> (done: bool)
        requires
            old(self).structure_ok(),
        ensures
            final(self).structure_ok(),
            done == (old(self).live(node) && old(self).collapsible(node)),
            !done ==> *final(self) == *old(self),
            done ==> old(self).collapsed(final(self), node),
    {
        if !self.nodes.key_is_valid(node) {
            return false;
        }
        let brick = match self.equal_children(node) {
            Some(brick) => brick,
            None => {
                return false;
            },
        };
        let mut octant: u32 = 0;
        while octant < 8
            invariant
                octant <= 8,
                self.structure_ok(),
                old(self).structure_ok(),
                old(self).live(node),
                self.live(node),
                old(self).collapsible(node),
                brick == old(self).first_brick(node),
                old(self).subtrees_removed(self, node, octant),
            decreases 8 - octant,
        {
            let ghost before = *self;
            proof {
                assert(old(self).equal_leaf_child(node, octant, brick));
                old(self).lemma_collapsible_child(node, octant);
                let child = old(self).child_key(node, octant);
                assert(before.child_key(node, octant) == child);
                before.lemma_child(node, octant);
                assert(before.content(child) == old(self).content(child));
                assert(before.childless(child)) by {
                    assert(before.node_ok(child));
                }
                before.lemma_nothing_under_childless(child);
            }
            self.remove_childless_child(node, octant);
            proof {
                old(self).lemma_subtree_round(&before, &before, self, node, octant);
                assert(self.live(node));
            }
            octant += 1;
        }
        proof {
            old(self).lemma_subtrees_all(self, node);
            assert(old(self).equal_leaf_child(node, 0, brick));
            old(self).lemma_collapsible_child(node, 0);
        }
        let ghost emptied = *self;
        self.forget_children(node);
        let ghost compact = *self;
        self.set_content(node, NodeContent::Leaf(brick));
        proof {
            let origin = *old(self);
            let after = *self;
            assert(compact.childless(node)) by {
                assert(emptied.kept(&compact, node));
                assert forall|o: u32| o < 8 implies #[trigger] compact.child_key(node, o)
                    == key_none_value_spec() by {
                    assert(emptied.child_key(node, o) == key_none_value_spec());
                }
            }
            assert(compact.cube_of(node) == origin.cube_of(node));
            compact.lemma_content_changed(&after, node);
            assert(after.childless(node)) by {
                assert forall|o: u32| o < 8 implies #[trigger] after.child_key(node, o)
                    == key_none_value_spec() by {
                    assert(compact.child_key(node, o) == key_none_value_spec());
                }
            }
            assert forall|k: usize| #[trigger] after.live(k) == (origin.live(k) && !origin.under(
                k,
                node,
            )) by {
                assert(after.live(k) == compact.live(k));
                assert(compact.live(k) == emptied.live(k));
            }
            assert forall|k: usize| k != node && #[trigger] after.live(k) implies origin.kept(
                &after,
                k,
            ) by {
                assert(compact.live(k));
                assert(emptied.live(k));
                assert(emptied.kept(&compact, k));
                assert(compact.kept(&after, k));
                assert forall|o: u32| o < 8 implies #[trigger] after.child_key(k, o)
                    == origin.child_key(k, o) by {
                    assert(compact.child_key(k, o) == emptied.child_key(k, o));
                    assert(emptied.child_key(k, o) == origin.child_key(k, o));
                }
            }
        }
        true
    }
}

} // verus!
