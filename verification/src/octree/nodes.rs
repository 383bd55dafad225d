//! The steps on single nodes of which the operations of the octree are made.

use crate::object_pool::{key_might_be_valid, key_none_value, key_none_value_spec};
use crate::octree::brick::{brick_population, count_brick, lemma_brick_count_bounds};
use crate::octree::detail::{
    brick_voxel, content_population, cubed, leaf_population, lemma_cubed_halves,
    lemma_cubed_monotonic, lemma_cubed_product, lemma_index_in_child, lemma_pow2_divides,
    lemma_pow2_gap, lemma_pow2_positive, mat_index_spec, ROOT_NODE_KEY,
};
use crate::spatial::math::vector::V3c;
use crate::octree::types::{Brick, NodeChildren, NodeContent, Octree, Place, VoxelData};
use crate::spatial::Cube;
use vstd::prelude::*;

verus! {

impl<T: VoxelData, const DIM: usize> Octree<T, DIM> {
    /// Replaces what a node holds.
    pub(crate) fn set_content(&mut self, key: usize, content: NodeContent<T, DIM>)
        requires
            old(self).nodes.wf(),
            old(self).live(key),
        ensures
            final(self).nodes.wf(),
            final(self).nodes.slots() == old(self).nodes.slots(),
            final(self).content(key) == content,
            forall|other: usize| final(self).live(other) == old(self).live(other),
            forall|other: usize|
                other != key && old(self).live(other) ==> final(self).content(other) == old(self).content(other),
            final(self).node_children == old(self).node_children,
            final(self).places == old(self).places,
            old(self).same_frame(final(self)),
    {
        let slot = self.nodes.get_mut(key);
        *slot = content;
    }

    /// Puts a key under an octant of a node.
    pub(crate) fn set_child(&mut self, key: usize, octant: u32, child: usize)
        requires
            key < old(self).node_children@.len(),
            octant < 8,
        ensures
            final(self).nodes == old(self).nodes,
            final(self).places == old(self).places,
            old(self).same_frame(final(self)),
            final(self).node_children@.len() == old(self).node_children@.len(),
            final(self).node_children@[key as int].default_key == old(self).node_children@[key as int].default_key,
            final(self).child_key(key, octant) == child,
            forall|o: u32|
                o < 8 && o != octant ==> #[trigger] final(self).child_key(key, o) == old(self).child_key(key, o),
            forall|other: int|
                0 <= other < old(self).node_children@.len() && other != key
                    ==> #[trigger] final(self).node_children@[other] == old(self).node_children@[other],
    {
        let slot = self.node_children[key].index_mut(octant);
        *slot = child;
    }

    /// Leaves a node without children.
    pub(crate) fn unset_children(&mut self, key: usize)
        requires
            key < old(self).node_children@.len(),
        ensures
            final(self).nodes == old(self).nodes,
            final(self).places == old(self).places,
            old(self).same_frame(final(self)),
            final(self).node_children@.len() == old(self).node_children@.len(),
            final(self).node_children@[key as int].default_key == key_none_value_spec(),
            final(self).node_children@[key as int].content is NoChildren,
            final(self).childless(key),
            forall|other: int|
                0 <= other < old(self).node_children@.len() && other != key
                    ==> #[trigger] final(self).node_children@[other] == old(self).node_children@[other],
    {
        self.node_children[key] = NodeChildren::new(key_none_value());
    }

    /// What `allocate_child` changes, as a relation between the octree
    /// before and after.
    pub(crate) open spec fn child_added(
        &self,
        after: &Self,
        key: usize,
        octant: u32,
        child: usize,
        content: NodeContent<T, DIM>,
    ) -> bool {
        &&& self.same_frame(after)
        &&& !self.live(child)
        &&& after.live(child)
        &&& after.content(child) == content
        &&& after.childless(child)
        &&& after.places@ == self.places@.insert(
            child,
            Place { cube: self.cube_of(key).child(octant), parent: key, octant },
        )
        &&& after.child_key(key, octant) == child
        &&& forall|other: usize|
            other != child ==> #[trigger] after.live(other) == self.live(other)
        &&& forall|other: usize| #[trigger]
            self.live(other) ==> after.content(other) == self.content(other)
        &&& forall|other: usize, o: u32|
            self.live(other) && o < 8 && !(other == key && o == octant)
                ==> #[trigger] after.child_key(other, o) == self.child_key(other, o)
    }

    /// An octree to which a suitable child was added is well formed, and
    /// none of its other nodes but the parent has changed.
    pub(crate) proof fn lemma_child_added(
        &self,
        after: &Self,
        key: usize,
        octant: u32,
        child: usize,
        content: NodeContent<T, DIM>,
    )
        requires
            self.structure_ok(),
            self.live(key),
            octant < 8,
            self.child_key(key, octant) == key_none_value_spec(),
            !(self.content(key) is Leaf),
            self.cube_of(key).size > DIM,
            0 <= content_population(content, self.cube_of(key).size as int / 2) <= cubed(
                self.cube_of(key).size as int / 2,
            ),
            self.child_added(after, key, octant, child, content),
            after.nodes.wf(),
            after.node_children@.len() == after.nodes.slots(),
            forall|k: int|
                0 <= k < after.node_children@.len() ==> (#[trigger] after.node_children@[k]).default_key
                    == key_none_value_spec(),
        ensures
            after.structure_ok(),
            forall|other: usize|
                other != key && #[trigger] self.live(other) ==> self.kept(after, other),
    {
        assert(self.node_ok(key));
        self.lemma_cube_splits(self.cube_of(key), octant);
        after.nodes.lemma_live_key_is_a_slot(child);
        assert(self.live(ROOT_NODE_KEY));
        assert(child != ROOT_NODE_KEY);
        assert forall|other: usize| other != key && #[trigger] self.live(other) implies self.kept(
            after,
            other,
        ) by {
            assert(other != child);
            assert(after.live(other) == self.live(other));
        }
        assert forall|k: usize| after.live(k) implies #[trigger] after.node_ok(k) by {
            if k == child {
                assert forall|o: u32| o < 8 implies #[trigger] after.link_ok(k, o) by {
                    assert(after.child_key(k, o) == key_none_value_spec());
                }
                assert(after.live(key) == self.live(key));
                assert(after.node_ok(k));
            } else {
                assert(after.live(k) == self.live(k));
                assert(self.node_ok(k));
                assert(after.places@[k] == self.places@[k]);
                assert(after.content(k) == self.content(k));
                assert forall|o: u32| o < 8 implies #[trigger] after.link_ok(k, o) by {
                    assert(self.link_ok(k, o));
                    if k == key && o == octant {
                    } else {
                        let c = self.child_key(k, o);
                        assert(after.child_key(k, o) == c);
                        if c != key_none_value_spec() {
                            assert(self.live(c));
                            assert(c != child);
                            assert(after.live(c) == self.live(c));
                        }
                    }
                }
                if self.content(k) is Leaf {
                    assert(self.childless(k));
                    assert forall|o: u32| o < 8 implies #[trigger] after.child_key(k, o)
                        == key_none_value_spec() by {
                        assert(self.child_key(k, o) == key_none_value_spec());
                    }
                }
                if k != ROOT_NODE_KEY {
                    self.lemma_parent(k);
                    let place = self.places@[k];
                    assert(place.parent != child);
                    assert(after.live(place.parent) == self.live(place.parent));
                    assert(after.child_key(place.parent, place.octant) == self.child_key(
                        place.parent,
                        place.octant,
                    ));
                }
                assert(after.node_ok(k));
            }
        }
    }

    /// Adds a node with the given content under an octant of a node that
    /// has no child there.
    pub(crate) fn allocate_child(
        &mut self,
        key: usize,
        octant: u32,
        content: NodeContent<T, DIM>,
    ) -> (child: usize)
        requires
            old(self).structure_ok(),
            old(self).live(key),
            octant < 8,
            old(self).child_key(key, octant) == key_none_value_spec(),
            !(old(self).content(key) is Leaf),
            old(self).cube_of(key).size > DIM,
            0 <= content_population(content, old(self).cube_of(key).size as int / 2) <= cubed(
                old(self).cube_of(key).size as int / 2,
            ),
        ensures
            final(self).structure_ok(),
            old(self).child_added(final(self), key, octant, child, content),
            forall|other: usize|
                other != key && #[trigger] old(self).live(other) ==> old(self).kept(
                    final(self),
                    other,
                ),
    {
        proof {
            assert(self.node_ok(key));
            self.nodes.lemma_live_key_is_a_slot(key);
        }
        let child = self.nodes.push(content);
        if child < self.node_children.len() {
            self.node_children[child] = NodeChildren::new(key_none_value());
        } else {
            self.node_children.push(NodeChildren::new(key_none_value()));
        }
        let ghost middle = *self;
        assert(middle.childless(child));
        self.set_child(key, octant, child);
        let ghost linked = *self;
        proof {
            self.places@ = self.places@.insert(
                child,
                Place { cube: old(self).cube_of(key).child(octant), parent: key, octant },
            );
            let before = *old(self);
            let after = *self;
            assert(after.childless(child)) by {
                assert forall|o: u32| o < 8 implies #[trigger] after.child_key(child, o)
                    == key_none_value_spec() by {
                    assert(middle.child_key(child, o) == key_none_value_spec());
                }
            }
            assert forall|other: usize, o: u32|
                before.live(other) && o < 8 && !(other == key && o == octant)
                    implies #[trigger] after.child_key(other, o) == before.child_key(other, o) by {
                before.nodes.lemma_live_key_is_a_slot(other);
                assert(other != child);
                assert(middle.node_children@[other as int] == before.node_children@[other as int]);
                assert(middle.child_key(other, o) == before.child_key(other, o));
                assert(after.node_children == linked.node_children);
                if other != key {
                    assert(linked.node_children@[other as int] == middle.node_children@[other as int]);
                } else {
                    assert(linked.child_key(key, o) == middle.child_key(key, o));
                }
                assert(after.child_key(other, o) == linked.child_key(other, o));
            }
            before.lemma_child_added(&after, key, octant, child, content);
        }
        child
    }

    /// The edge of a cube of the tree, and the edges below it, are small
    /// enough to count the voxels of the cube.
    pub(crate) proof fn lemma_countable(&self, cube: Cube)
        requires
            self.dims_ok(),
            self.cube_ok(cube),
        ensures
            1 <= DIM <= cube.size,
            cubed(DIM as int) <= cubed(cube.size as int) <= u32::MAX,
            cube.size * cube.size <= u32::MAX,
            DIM * DIM * DIM <= u32::MAX,
            cubed(cube.size as int / 2) <= cubed(cube.size as int),
            cube.size > DIM ==> cubed(cube.size as int) == 8 * cubed(cube.size as int / 2),
            0 <= cubed(cube.size as int / 2),
            cube.size as int % (DIM as int) == 0,
            1 <= cube.size as int / (DIM as int) <= cube.size,
            cubed(DIM as int) * cubed(cube.size as int / (DIM as int)) == cubed(cube.size as int),
            0 <= cubed(cube.size as int / (DIM as int)) <= cubed(cube.size as int),
    {
        lemma_pow2_positive(DIM as int);
        self.lemma_cube_fits(cube);
        lemma_pow2_divides(cube.size as int, DIM as int);
        lemma_pow2_positive(cube.size as int / (DIM as int));
        lemma_cubed_product(DIM as int, cube.size as int / (DIM as int));
        assert(cube.size as int / (DIM as int) <= cube.size) by (nonlinear_arith)
            requires
                (cube.size as int / (DIM as int)) * DIM == cube.size,
                DIM >= 1,
                cube.size as int / (DIM as int) >= 1,
        ;
        lemma_cubed_monotonic(cube.size as int / (DIM as int), cube.size as int);
        lemma_cubed_monotonic(DIM as int, cube.size as int);
        lemma_cubed_monotonic(cube.size as int, cube.size as int);
        lemma_cubed_monotonic(cube.size as int / 2, cube.size as int);
        if cube.size > DIM {
            lemma_pow2_gap(cube.size as int, DIM as int);
            lemma_cubed_halves(cube.size as int);
        }
    }

    /// The number of voxels that are not empty under a node of edge `size`,
    /// as its content records it.
    pub(crate) fn population_of(content: &NodeContent<T, DIM>, size: u32) -> (n: u32)
        requires
            1 <= DIM <= size,
            size as int % (DIM as int) == 0,
            cubed(size as int) <= u32::MAX,
            cubed(DIM as int) * cubed(size as int / (DIM as int)) == cubed(size as int),
            DIM * DIM * DIM <= u32::MAX,
        ensures
            n == content_population(*content, size as int),
    {
        match content {
            NodeContent::Nothing => 0,
            NodeContent::Internal(count) => *count,
            NodeContent::Leaf(brick) => {
                let times = size / (DIM as u32);
                let inside = count_brick(brick);
                proof {
                    let t = times as int;
                    lemma_cubed_monotonic(t, size as int);
                    assert(t * t <= cubed(size as int)) by (nonlinear_arith)
                        requires
                            0 <= t <= size,
                            size >= 1,
                            cubed(size as int) == size * size * size,
                    ;
                    assert(inside * cubed(t) <= cubed(DIM as int) * cubed(t)) by (nonlinear_arith)
                        requires
                            0 <= inside <= cubed(DIM as int),
                            0 <= cubed(t),
                    ;
                    assert(cubed(DIM as int) == DIM * DIM * DIM);
                    assert(cubed(t) == t * t * t);
                }
                inside * (times * times * times)
            },
        }
    }

    /// What the child under the octant records as its population.
    pub(crate) fn child_population_of(&self, node: usize, octant: u32, size: u32) -> (n: u32)
        requires
            self.structure_ok(),
            self.live(node),
            self.cube_of(node).size == size,
            octant < 8,
        ensures
            n == self.child_population(node, octant),
            n <= cubed(size as int / 2),
    {
        proof {
            assert(self.node_ok(node));
            assert(self.link_ok(node, octant));
            self.nodes.lemma_live_key_is_a_slot(node);
            self.lemma_countable(self.cube_of(node));
        }
        let child = *self.node_children[node].index(octant);
        if key_might_be_valid(child) {
            proof {
                assert(self.node_ok(child));
                self.lemma_cube_splits(self.cube_of(node), octant);
                self.lemma_countable(self.cube_of(child));
            }
            Self::population_of(self.nodes.get(child), size / 2)
        } else {
            0
        }
    }

    /// The number of voxels that are not empty under a node, as the
    /// contents of its children record it.
    pub(crate) fn count_cached_children(&self, node: usize, size: u32) -> (n: u32)
        requires
            self.structure_ok(),
            self.live(node),
            self.cube_of(node).size == size,
        ensures
            n == self.children_population(node),
            n <= cubed(size as int),
    {
        proof {
            assert(self.node_ok(node));
            self.lemma_countable(self.cube_of(node));
            if size == DIM {
                assert forall|o: u32| o < 8 implies self.child_population(node, o) == 0 by {
                    assert(self.link_ok(node, o));
                }
            }
        }
        let c0 = self.child_population_of(node, 0, size);
        let c1 = self.child_population_of(node, 1, size);
        let c2 = self.child_population_of(node, 2, size);
        let c3 = self.child_population_of(node, 3, size);
        let c4 = self.child_population_of(node, 4, size);
        let c5 = self.child_population_of(node, 5, size);
        let c6 = self.child_population_of(node, 6, size);
        let c7 = self.child_population_of(node, 7, size);
        c0 + c1 + c2 + c3 + c4 + c5 + c6 + c7
    }

    /// What `remove_childless_child` changes, as a relation between the
    /// octree before and after.
    pub(crate) open spec fn child_removed(&self, after: &Self, node: usize, octant: u32) -> bool {
        let child = self.child_key(node, octant);
        &&& self.same_frame(after)
        &&& after.places == self.places
        &&& after.nodes.slots() == self.nodes.slots()
        &&& !after.live(child)
        &&& after.child_key(node, octant) == key_none_value_spec()
        &&& forall|other: usize|
            other != child ==> #[trigger] after.live(other) == self.live(other)
        &&& forall|other: usize| #[trigger]
            after.live(other) ==> after.content(other) == self.content(other)
        &&& forall|other: usize, o: u32|
            self.live(other) && o < 8 && !(other == node && o == octant)
                ==> #[trigger] after.child_key(other, o) == self.child_key(other, o)
    }

    /// An octree from which a childless child was removed is well formed,
    /// and none of its other nodes but the parent has changed.
    pub(crate) proof fn lemma_child_removed(&self, after: &Self, node: usize, octant: u32)
        requires
            self.structure_ok(),
            self.live(node),
            octant < 8,
            self.child_key(node, octant) != key_none_value_spec(),
            self.childless(self.child_key(node, octant)),
            self.child_removed(after, node, octant),
            after.nodes.wf(),
            after.node_children@.len() == after.nodes.slots(),
            forall|k: int|
                0 <= k < after.node_children@.len() ==> (#[trigger] after.node_children@[k]).default_key
                    == key_none_value_spec(),
        ensures
            after.structure_ok(),
            forall|other: usize|
                other != node && #[trigger] after.live(other) ==> self.kept(after, other),
    {
        let child = self.child_key(node, octant);
        self.lemma_child(node, octant);
        assert forall|other: usize| other != node && #[trigger] after.live(other) implies self.kept(
            after,
            other,
        ) by {
            assert(other != child);
            assert(after.live(other) == self.live(other));
        }
        assert forall|k: usize| after.live(k) implies #[trigger] after.node_ok(k) by {
            assert(k != child);
            assert(after.live(k) == self.live(k));
            assert(self.node_ok(k));
            assert forall|o: u32| o < 8 implies #[trigger] after.link_ok(k, o) by {
                assert(self.link_ok(k, o));
                if k == node && o == octant {
                } else {
                    let c = self.child_key(k, o);
                    assert(after.child_key(k, o) == c);
                    if c != key_none_value_spec() {
                        assert(c != child);
                        assert(after.live(c) == self.live(c));
                    }
                }
            }
            if self.content(k) is Leaf {
                assert(self.childless(k));
                assert forall|o: u32| o < 8 implies #[trigger] after.child_key(k, o)
                    == key_none_value_spec() by {
                    assert(self.child_key(k, o) == key_none_value_spec());
                }
            }
            if k != ROOT_NODE_KEY {
                self.lemma_parent(k);
                let place = self.places@[k];
                assert(place.parent != child) by {
                    if place.parent == child {
                        assert(self.child_key(child, place.octant) == key_none_value_spec());
                    }
                }
                assert(after.live(place.parent) == self.live(place.parent));
                assert(after.child_key(place.parent, place.octant) == self.child_key(
                    place.parent,
                    place.octant,
                ));
            }
            assert(after.node_ok(k));
        }
    }

    /// Releases the child under an octant of a node, which has no children
    /// of its own, and takes its key out of the node.
    pub(crate) fn remove_childless_child(&mut self, node: usize, octant: u32)
        requires
            old(self).structure_ok(),
            old(self).live(node),
            octant < 8,
            old(self).child_key(node, octant) != key_none_value_spec(),
            old(self).childless(old(self).child_key(node, octant)),
        ensures
            final(self).structure_ok(),
            old(self).child_removed(final(self), node, octant),
            forall|other: usize|
                other != node && #[trigger] final(self).live(other) ==> old(self).kept(
                    final(self),
                    other,
                ),
    {
        proof {
            assert(self.node_ok(node));
            assert(self.link_ok(node, octant));
            self.nodes.lemma_live_key_is_a_slot(node);
        }
        let child = *self.node_children[node].index(octant);
        self.nodes.free(child);
        let ghost middle = *self;
        self.set_child(node, octant, key_none_value());
        proof {
            let before = *old(self);
            let after = *self;
            assert forall|other: usize, o: u32|
                before.live(other) && o < 8 && !(other == node && o == octant)
                    implies #[trigger] after.child_key(other, o) == before.child_key(other, o) by {
                before.nodes.lemma_live_key_is_a_slot(other);
                assert(middle.node_children == before.node_children);
                if other != node {
                    assert(after.node_children@[other as int] == middle.node_children@[other as int]);
                } else {
                    assert(after.child_key(node, o) == middle.child_key(node, o));
                }
            }
            before.lemma_child_removed(&after, node, octant);
        }
    }

    /// What `deallocate_children_of` leaves of the octree once it has dealt
    /// with the octants below `upto`: the nodes under those octants are
    /// gone, and nothing else has changed.
    pub(crate) open spec fn subtrees_removed(&self, after: &Self, node: usize, upto: u32) -> bool {
        &&& self.same_frame(after)
        &&& after.places == self.places
        &&& after.nodes.slots() == self.nodes.slots()
        &&& forall|k: usize| #[trigger]
            after.live(k) == (self.live(k) && !(self.under(k, node) && self.branch(k, node)
                < upto))
        &&& forall|k: usize| #[trigger]
            after.live(k) ==> after.content(k) == self.content(k)
        &&& forall|k: usize, o: u32|
            after.live(k) && o < 8 && k != node ==> #[trigger] after.child_key(k, o)
                == self.child_key(k, o)
        &&& forall|o: u32|
            o < 8 ==> #[trigger] after.child_key(node, o) == if o < upto {
                key_none_value_spec()
            } else {
                self.child_key(node, o)
            }
    }

    /// An octree with the same nodes, contents, places and child keys as a
    /// well-formed one is well formed.
    pub(crate) proof fn lemma_structure_carried(&self, after: &Self)
        requires
            self.structure_ok(),
            after.octree_size == self.octree_size,
            forall|k: usize| #[trigger] after.live(k) == self.live(k),
            forall|k: usize| #[trigger] self.live(k) ==> self.kept(after, k),
            after.nodes.wf(),
            after.node_children@.len() == after.nodes.slots(),
            forall|k: int|
                0 <= k < after.node_children@.len() ==> (#[trigger] after.node_children@[k]).default_key
                    == key_none_value_spec(),
        ensures
            after.structure_ok(),
    {
        assert forall|k: usize| after.live(k) implies #[trigger] after.node_ok(k) by {
            assert(self.live(k));
            assert(self.node_ok(k));
            assert(self.kept(after, k));
            assert forall|o: u32| o < 8 implies #[trigger] after.link_ok(k, o) by {
                assert(self.link_ok(k, o));
                let c = self.child_key(k, o);
                assert(after.child_key(k, o) == c);
                if c != key_none_value_spec() {
                    assert(self.live(c));
                    assert(self.kept(after, c));
                }
            }
            if self.content(k) is Leaf {
                assert(self.childless(k));
                assert forall|o: u32| o < 8 implies #[trigger] after.child_key(k, o)
                    == key_none_value_spec() by {
                    assert(self.child_key(k, o) == key_none_value_spec());
                }
            }
            if k != ROOT_NODE_KEY {
                self.lemma_parent(k);
                let place = self.places@[k];
                assert(self.kept(after, place.parent));
                assert(after.child_key(place.parent, place.octant) == self.child_key(
                    place.parent,
                    place.octant,
                ));
            }
        }
    }

    /// Gives a node whose child keys all name no node the compact form of a
    /// node without children.
    pub(crate) fn forget_children(&mut self, node: usize)
        requires
            old(self).structure_ok(),
            old(self).live(node),
            old(self).childless(node),
        ensures
            final(self).structure_ok(),
            old(self).same_frame(final(self)),
            final(self).places == old(self).places,
            final(self).nodes == old(self).nodes,
            forall|k: usize| #[trigger] final(self).live(k) == old(self).live(k),
            forall|k: usize| #[trigger] old(self).live(k) ==> old(self).kept(final(self), k),
            final(self).node_children@[node as int].content is NoChildren,
    {
        proof {
            self.nodes.lemma_live_key_is_a_slot(node);
        }
        self.unset_children(node);
        proof {
            let before = *old(self);
            let after = *self;
            assert forall|k: usize| #[trigger] before.live(k) implies before.kept(&after, k) by {
                before.nodes.lemma_live_key_is_a_slot(k);
                assert forall|o: u32| o < 8 implies #[trigger] after.child_key(k, o)
                    == before.child_key(k, o) by {
                    if k != node {
                        assert(after.node_children@[k as int] == before.node_children@[k as int]);
                    } else {
                        assert(before.child_key(k, o) == key_none_value_spec());
                        assert(after.child_key(k, o) == key_none_value_spec());
                    }
                }
            }
            assert forall|k: int| 0 <= k < after.node_children@.len() implies (
            #[trigger] after.node_children@[k]).default_key == key_none_value_spec() by {
                if k != node {
                    assert(after.node_children@[k] == before.node_children@[k]);
                }
            }
            before.lemma_structure_carried(&after);
        }
    }

    /// One round of `deallocate_children_of`: with the octants below
    /// `octant` dealt with in `before`, the nodes under the child in
    /// `octant` released in `middle`, and that child released in `after`,
    /// the octants up to `octant` are dealt with.
    pub(crate) proof fn lemma_subtree_round(
        &self,
        before: &Self,
        middle: &Self,
        after: &Self,
        node: usize,
        octant: u32,
    )
        requires
            self.structure_ok(),
            before.structure_ok(),
            middle.structure_ok(),
            self.live(node),
            octant < 8,
            self.subtrees_removed(before, node, octant),
            before.child_key(node, octant) != key_none_value_spec(),
            before.subtrees_removed(middle, before.child_key(node, octant), 8),
            middle.child_removed(after, node, octant),
        ensures
            self.subtrees_removed(after, node, (octant + 1) as u32),
    {
        let child = before.child_key(node, octant);
        assert(before.live(node)) by {
            if self.under(node, node) {
                self.lemma_under_within(node, node);
            }
        }
        assert(self.child_key(node, octant) == child);
        self.lemma_child(node, octant);
        before.lemma_child(node, octant);
        assert(middle.live(node)) by {
            if before.under(node, child) {
                before.lemma_under_within(node, child);
            }
        }
        assert(node != child);
        assert(middle.child_key(node, octant) == child);
        assert forall|k: usize| #[trigger]
            after.live(k) == (self.live(k) && !(self.under(k, node) && self.branch(k, node)
                < octant + 1)) by {
            assert(before.live(k) == (self.live(k) && !(self.under(k, node) && self.branch(
                k,
                node,
            ) < octant)));
            assert(middle.live(k) == (before.live(k) && !(before.under(k, child)
                && before.branch(k, child) < 8)));
            if k != child {
                assert(after.live(k) == middle.live(k));
            }
            if self.live(k) {
                if k == child || self.under(k, child) {
                    self.lemma_branch_under(k, node, octant);
                }
                if self.under(k, node) && self.branch(k, node) == octant {
                    self.lemma_under_branch(k, node);
                }
                if before.live(k) && before.under(k, child) {
                    before.lemma_under_branch(k, child);
                }
            }
        }
        assert forall|k: usize| #[trigger] after.live(k) implies after.content(k) == self.content(
            k,
        ) by {
            assert(k != child);
            assert(after.live(k) == middle.live(k));
            assert(middle.live(k));
            assert(before.live(k));
        }
        assert forall|k: usize, o: u32|
            after.live(k) && o < 8 && k != node implies #[trigger] after.child_key(k, o)
                == self.child_key(k, o) by {
            assert(k != child);
            assert(after.live(k) == middle.live(k));
            assert(middle.live(k));
            assert(before.live(k));
            assert(middle.child_key(k, o) == before.child_key(k, o));
            assert(after.child_key(k, o) == middle.child_key(k, o));
        }
        assert forall|o: u32| o < 8 implies #[trigger] after.child_key(node, o) == if o < octant
            + 1 {
            key_none_value_spec()
        } else {
            self.child_key(node, o)
        } by {
            if o != octant {
                assert(after.child_key(node, o) == middle.child_key(node, o));
                assert(middle.child_key(node, o) == before.child_key(node, o));
            }
        }
    }

    /// A round of `deallocate_children_of` on an octant without a child.
    pub(crate) proof fn lemma_subtree_round_empty(&self, before: &Self, node: usize, octant: u32)
        requires
            self.structure_ok(),
            self.live(node),
            octant < 8,
            self.subtrees_removed(before, node, octant),
            before.child_key(node, octant) == key_none_value_spec(),
        ensures
            self.subtrees_removed(before, node, (octant + 1) as u32),
    {
        assert forall|k: usize| #[trigger]
            before.live(k) == (self.live(k) && !(self.under(k, node) && self.branch(k, node)
                < octant + 1)) by {
            assert(before.live(k) == (self.live(k) && !(self.under(k, node) && self.branch(
                k,
                node,
            ) < octant)));
            if self.live(k) && self.under(k, node) && self.branch(k, node) == octant {
                self.lemma_under_branch(k, node);
            }
        }
    }

    /// Once every octant is dealt with, all that lay under the node is gone.
    pub(crate) proof fn lemma_subtrees_all(&self, after: &Self, node: usize)
        requires
            self.structure_ok(),
            self.live(node),
            self.subtrees_removed(after, node, 8),
        ensures
            forall|k: usize| #[trigger] after.live(k) == (self.live(k) && !self.under(k, node)),
            after.live(node),
            after.childless(node),
    {
        assert forall|k: usize| #[trigger] after.live(k) == (self.live(k) && !self.under(
            k,
            node,
        )) by {
            if self.live(k) && self.under(k, node) {
                self.lemma_under_branch(k, node);
            }
        }
        if self.under(node, node) {
            self.lemma_under_within(node, node);
        }
    }

    /// Releases every node under the given node, and leaves the node
    /// without children.
    pub(crate) fn deallocate_children_of(&mut self, node: usize)
        requires
            old(self).structure_ok(),
            old(self).live(node),
        ensures
            final(self).structure_ok(),
            old(self).subtrees_removed(final(self), node, 8),
            final(self).childless(node),
            final(self).live(node),
            final(self).node_children@[node as int].content is NoChildren,
        decreases old(self).cube_of(node).size,
    {
        let mut octant: u32 = 0;
        while octant < 8
            invariant
                octant <= 8,
                self.structure_ok(),
                old(self).structure_ok(),
                old(self).live(node),
                self.live(node),
                old(self).subtrees_removed(self, node, octant),
            decreases 8 - octant,
        {
            let ghost before = *self;
            proof {
                self.nodes.lemma_live_key_is_a_slot(node);
                assert(self.node_ok(node));
                assert(self.link_ok(node, octant));
            }
            let child = *self.node_children[node].index(octant);
            if key_might_be_valid(child) {
                proof {
                    assert(old(self).child_key(node, octant) == child);
                    old(self).lemma_child(node, octant);
                }
                self.deallocate_children_of(child);
                let ghost middle = *self;
                proof {
                    before.lemma_subtrees_all(&middle, child);
                    assert(middle.live(node)) by {
                        if before.under(node, child) {
                            before.lemma_under_within(node, child);
                        }
                    }
                    assert(middle.child_key(node, octant) == child);
                }
                self.remove_childless_child(node, octant);
                proof {
                    old(self).lemma_subtree_round(&before, &middle, self, node, octant);
                    assert(self.live(node));
                }
            } else {
                proof {
                    old(self).lemma_subtree_round_empty(&before, node, octant);
                }
            }
            octant += 1;
        }
        proof {
            old(self).lemma_subtrees_all(self, node);
        }
        let ghost emptied = *self;
        self.forget_children(node);
        proof {
            let origin = *old(self);
            let after = *self;
            assert(origin.subtrees_removed(&after, node, 8)) by {
                assert forall|k: usize| #[trigger]
                    after.live(k) == (origin.live(k) && !(origin.under(k, node) && origin.branch(
                        k,
                        node,
                    ) < 8)) by {
                    assert(after.live(k) == emptied.live(k));
                }
                assert forall|k: usize| #[trigger] after.live(k) implies after.content(k)
                    == origin.content(k) by {
                    assert(emptied.live(k));
                    assert(emptied.kept(&after, k));
                }
                assert forall|k: usize, o: u32|
                    after.live(k) && o < 8 && k != node implies #[trigger] after.child_key(k, o)
                        == origin.child_key(k, o) by {
                    assert(emptied.live(k));
                    assert(emptied.kept(&after, k));
                    assert(emptied.child_key(k, o) == origin.child_key(k, o));
                }
                assert forall|o: u32| o < 8 implies #[trigger] after.child_key(node, o)
                    == key_none_value_spec() by {
                    assert(emptied.kept(&after, node));
                    assert(emptied.child_key(node, o) == key_none_value_spec());
                }
            }
            assert(after.childless(node)) by {
                assert forall|o: u32| o < 8 implies #[trigger] after.child_key(node, o)
                    == key_none_value_spec() by {}
            }
        }
    }

    /// The content of `node` is the only difference between the two
    /// octrees.
    pub(crate) open spec fn content_changed(&self, after: &Self, node: usize) -> bool {
        &&& self.same_frame(after)
        &&& after.places == self.places
        &&& after.node_children == self.node_children
        &&& forall|k: usize| #[trigger] after.live(k) == self.live(k)
        &&& forall|k: usize|
            k != node && #[trigger] self.live(k) ==> after.content(k) == self.content(k)
    }

    /// A well-formed octree stays well formed when a node gets a content
    /// that suits it: a leaf only where the node has no children, and a
    /// population within the cube.
    pub(crate) proof fn lemma_content_changed(&self, after: &Self, node: usize)
        requires
            self.structure_ok(),
            self.live(node),
            self.content_changed(after, node),
            after.nodes.wf(),
            after.nodes.slots() == self.nodes.slots(),
            after.content(node) is Leaf ==> self.childless(node),
            0 <= content_population(after.content(node), self.cube_of(node).size as int) <= cubed(
                self.cube_of(node).size as int,
            ),
        ensures
            after.structure_ok(),
            forall|k: usize| k != node && #[trigger] self.live(k) ==> self.kept(after, k),
    {
        assert forall|k: usize| k != node && #[trigger] self.live(k) implies self.kept(
            after,
            k,
        ) by {
            assert(after.live(k) == self.live(k));
        }
        assert forall|k: usize| after.live(k) implies #[trigger] after.node_ok(k) by {
            assert(after.live(k) == self.live(k));
            assert(self.node_ok(k));
            assert forall|o: u32| o < 8 implies #[trigger] after.link_ok(k, o) by {
                assert(self.link_ok(k, o));
                let c = self.child_key(k, o);
                if c != key_none_value_spec() {
                    assert(after.live(c) == self.live(c));
                }
            }
            if k != ROOT_NODE_KEY {
                self.lemma_parent(k);
                assert(after.live(self.places@[k].parent) == self.live(self.places@[k].parent));
            }
            if k != node {
                if self.content(k) is Leaf {
                    assert(self.childless(k));
                    assert(after.childless(k));
                }
            } else {
                if after.content(k) is Leaf {
                    assert(self.childless(k));
                    assert forall|o: u32| o < 8 implies #[trigger] after.child_key(k, o)
                        == key_none_value_spec() by {
                        assert(self.child_key(k, o) == key_none_value_spec());
                    }
                }
            }
        }
    }

    /// The count of a node stays right while its content, its cube and what
    /// its children record stay the same.
    pub(crate) proof fn lemma_count_carried(&self, after: &Self, node: usize)
        requires
            self.count_ok(node),
            after.content(node) == self.content(node),
            forall|o: u32|
                o < 8 ==> #[trigger] after.child_population(node, o) == self.child_population(
                    node,
                    o,
                ),
        ensures
            after.count_ok(node),
            after.children_population(node) == self.children_population(node),
    {
        assert(after.child_population(node, 0) == self.child_population(node, 0));
        assert(after.child_population(node, 1) == self.child_population(node, 1));
        assert(after.child_population(node, 2) == self.child_population(node, 2));
        assert(after.child_population(node, 3) == self.child_population(node, 3));
        assert(after.child_population(node, 4) == self.child_population(node, 4));
        assert(after.child_population(node, 5) == self.child_population(node, 5));
        assert(after.child_population(node, 6) == self.child_population(node, 6));
        assert(after.child_population(node, 7) == self.child_population(node, 7));
    }

    /// A leaf records at most as many voxels as its cube has lattice
    /// points.
    pub(crate) proof fn lemma_leaf_population_bound(&self, brick: Brick<T, DIM>, cube: Cube)
        requires
            self.dims_ok(),
            self.cube_ok(cube),
        ensures
            0 <= leaf_population(brick, cube.size as int) <= cubed(cube.size as int),
    {
        self.lemma_countable(cube);
        lemma_brick_count_bounds(brick, DIM as int);
        assert(cubed(DIM as int) == DIM * DIM * DIM);
        let inside = brick_population(brick);
        let times = cubed(cube.size as int / (DIM as int));
        assert(0 <= inside * times <= cubed(DIM as int) * times) by (nonlinear_arith)
            requires
                0 <= inside <= cubed(DIM as int),
                0 <= times,
        ;
    }

    /// What a leaf of an edge above the bricks records is eight times what
    /// a leaf with the same brick and half the edge records.
    pub(crate) proof fn lemma_leaf_population_halves(&self, brick: Brick<T, DIM>, cube: Cube)
        requires
            self.dims_ok(),
            self.cube_ok(cube),
            cube.size > DIM,
        ensures
            leaf_population(brick, cube.size as int) == 8 * leaf_population(
                brick,
                cube.size as int / 2,
            ),
            0 <= leaf_population(brick, cube.size as int / 2) <= cubed(cube.size as int / 2),
            0 <= leaf_population(brick, cube.size as int) <= cubed(cube.size as int),
    {
        self.lemma_leaf_population_bound(brick, cube);
        self.lemma_cube_splits(cube, 0);
        self.lemma_leaf_population_bound(brick, cube.child(0));
        lemma_pow2_positive(DIM as int);
        lemma_pow2_divides(cube.size as int, DIM as int);
        let inside = brick_population(brick);
        let m = (cube.size as int / 2) / (DIM as int);
        lemma_pow2_gap(cube.size as int, DIM as int);
        lemma_pow2_divides(cube.size as int / 2, DIM as int);
        lemma_pow2_positive(m);
        lemma_cubed_halves(2 * m);
        assert(inside * (8 * cubed(m)) == 8 * (inside * cubed(m))) by (nonlinear_arith);
    }

    /// A position has the same index in the brick of a leaf whether the
    /// leaf covers a cube of the tree or the octant of that cube that holds
    /// the position.
    pub(crate) proof fn lemma_same_index_below(&self, cube: Cube, octant: u32, p: V3c<u32>)
        requires
            self.dims_ok(),
            self.cube_ok(cube),
            cube.size > DIM,
            octant < 8,
            cube.child(octant).contains(p),
        ensures
            mat_index_spec::<DIM>(cube.child(octant), p) == mat_index_spec::<DIM>(cube, p),
            forall|brick: Brick<T, DIM>| #[trigger]
                brick_voxel(brick, cube.child(octant), p) == brick_voxel(brick, cube, p),
    {
        self.lemma_cube_splits(cube, octant);
        lemma_pow2_positive(DIM as int);
        lemma_pow2_gap(cube.size as int, DIM as int);
        lemma_pow2_divides(cube.size as int / 2, DIM as int);
        lemma_index_in_child::<DIM>(cube, octant, p);
    }
}

} // verus!
