//! The steps of insertion and clearing on one node: adding a child,
//! writing and clearing the node at the level of the operation, and
//! bringing a node above it up to date.

use crate::object_pool::key_none_value_spec;
use crate::octree::brick::{fill_region, in_region, lemma_bricks_equal, uniform_brick};
use crate::octree::detail::{
    brick_voxel, content_population, lemma_index_in_brick, lemma_pow2_positive, mat_index_spec,
    write_region, ROOT_NODE_KEY,
};
use crate::octree::reshape::lemma_uniform_brick_voxel;
use crate::octree::types::{Brick, NodeContent, Octree, Place, VoxelData};
use crate::spatial::math::vector::V3c;
use crate::spatial::{lemma_child_contains, Cube};
use vstd::prelude::*;

verus! {

/// What a clearing leaves of the voxel stored for a position in the node
/// at the level of the clearing: nothing where it takes the node out, and
/// else the empty voxel in its region in place of a stored voxel.
pub open spec fn cleared<T: VoxelData>(stored: Option<T>, whole: bool, inside: bool) -> Option<T> {
    if whole {
        None
    } else {
        match stored {
            Some(v) => Some(
                if inside {
                    T::empty_value()
                } else {
                    v
                },
            ),
            None => None,
        }
    }
}

impl<T: VoxelData, const DIM: usize> Octree<T, DIM> {
    /// After a node without voxels was added under a node, each count is
    /// right.
    pub(crate) proof fn lemma_child_added_counts(
        &self,
        after: &Self,
        key: usize,
        octant: u32,
        child: usize,
    )
        requires
            self.inv(),
            after.structure_ok(),
            self.live(key),
            octant < 8,
            self.child_key(key, octant) == key_none_value_spec(),
            self.child_added(after, key, octant, child, NodeContent::Internal(0)),
            forall|other: usize|
                other != key && #[trigger] self.live(other) ==> self.kept(after, other),
        ensures
            after.inv(),
    {
        assert forall|k: usize| after.live(k) implies #[trigger] after.count_ok(k) by {
            if k == child {
                assert forall|o: u32| o < 8 implies after.child_population(k, o) == 0 by {
                    assert(after.child_key(k, o) == key_none_value_spec());
                }
            } else {
                assert(after.live(k) == self.live(k));
                assert(self.count_ok(k));
                assert(self.node_ok(k));
                assert(after.places@[k] == self.places@[k]);
                assert forall|o: u32| o < 8 implies #[trigger] after.child_population(k, o)
                    == self.child_population(k, o) by {
                    if k == key && o == octant {
                    } else {
                        let c = self.child_key(k, o);
                        assert(after.child_key(k, o) == c);
                        if c != key_none_value_spec() {
                            self.lemma_child(k, o);
                        }
                    }
                }
                self.lemma_count_carried(after, k);
            }
        }
    }

    /// After a node without children that is no leaf was added under a
    /// node, neither of the two can be collapsed, and no other node that
    /// could not be collapsed before.
    pub(crate) proof fn lemma_child_added_tidy(
        &self,
        after: &Self,
        key: usize,
        octant: u32,
        child: usize,
        k: usize,
    )
        requires
            self.structure_ok(),
            after.structure_ok(),
            self.live(key),
            octant < 8,
            self.child_key(key, octant) == key_none_value_spec(),
            self.child_added(after, key, octant, child, NodeContent::Internal(0)),
            forall|other: usize|
                other != key && #[trigger] self.live(other) ==> self.kept(after, other),
            after.live(k),
            self.live(k) && k != key ==> !self.collapsible(k),
        ensures
            !after.collapsible(k),
    {
        if k == child {
            assert(after.child_key(k, 0) == key_none_value_spec());
            after.lemma_tidy_by_child(k, 0);
        } else if k == key {
            after.lemma_tidy_by_child(k, octant);
        } else {
            assert(after.live(k) == self.live(k));
            assert(self.kept(after, k));
            assert forall|o: u32| o < 8 implies ({
                let c = #[trigger] self.child_key(k, o);
                &&& after.child_key(k, o) == c
                &&& c != key_none_value_spec() ==> after.content(c) == self.content(c) || !(
                after.content(c) is Leaf)
            }) by {
                let c = self.child_key(k, o);
                assert(after.child_key(k, o) == c);
                if c != key_none_value_spec() {
                    self.lemma_child(k, o);
                }
            }
            self.lemma_tidy_kept(after, k);
        }
    }

    /// After a node without children that is no leaf was added under a
    /// node, every voxel is the same.
    pub(crate) proof fn lemma_child_added_model(
        &self,
        after: &Self,
        key: usize,
        octant: u32,
        child: usize,
        p: V3c<u32>,
    )
        requires
            self.structure_ok(),
            after.structure_ok(),
            self.live(key),
            octant < 8,
            self.child_key(key, octant) == key_none_value_spec(),
            !(self.content(key) is Leaf),
            self.cube_of(key).size > DIM,
            self.child_added(after, key, octant, child, NodeContent::Internal(0)),
            forall|other: usize|
                other != key && #[trigger] self.live(other) ==> self.kept(after, other),
        ensures
            after.stored(p) == self.stored(p),
    {
        let cube = self.cube_of(key);
        assert(self.node_ok(key));
        assert(after.live(key) == self.live(key));
        assert(after.places@[key] == self.places@[key]);
        if cube.contains(p) {
            self.lemma_lookup_through(key, p);
            after.lemma_lookup_through(key, p);
            let o = cube.octant_of(p);
            self.lemma_cube_splits(cube, o);
            lemma_child_contains(cube, p, o);
            let below = cube.child(o);
            if o == octant {
                assert(after.childless(child));
                assert(after.child_key(child, below.octant_of(p)) == key_none_value_spec()) by {
                    after.lemma_cube_fits(below);
                }
                assert(after.voxel_in(child, below, p).is_none());
            } else {
                let c = self.child_key(key, o);
                assert(after.child_key(key, o) == c);
                if c != key_none_value_spec() {
                    self.lemma_child(key, o);
                    assert(self.agrees_below(after, below, p)) by {
                        assert forall|k: usize| #[trigger]
                            self.live(k) && self.cube_of(k).within(below) && self.cube_of(
                                k,
                            ).contains(p) implies {
                            &&& after.content(k) == self.content(k)
                            &&& forall|oo: u32|
                                oo < 8 ==> #[trigger] after.child_key(k, oo) == self.child_key(
                                    k,
                                    oo,
                                )
                        } by {
                            assert(k != key);
                            assert(self.kept(after, k));
                        }
                    }
                    self.lemma_lookup_same(after, c, below, p);
                }
            }
        } else {
            assert(self.agrees_outside(after, cube)) by {
                assert forall|k: usize| #[trigger]
                    self.live(k) && !self.cube_of(k).within(cube) implies {
                    &&& after.content(k) == self.content(k)
                    &&& forall|o: u32|
                        o < 8 ==> #[trigger] after.child_key(k, o) == self.child_key(k, o)
                } by {
                    assert(k != key);
                    assert(self.kept(after, k));
                }
            }
            self.lemma_voxel_frame(after, cube, p);
        }
    }

    /// Adds an interior node without voxels under the octant of a node
    /// that is no leaf and has no child there; a node that held nothing
    /// becomes an interior node first.
    pub(crate) fn add_empty_child(&mut self, key: usize, octant: u32) -> (child: usize)
        requires
            old(self).inv(),
            old(self).live(key),
            octant < 8,
            old(self).child_key(key, octant) == key_none_value_spec(),
            !(old(self).content(key) is Leaf),
            old(self).cube_of(key).size > DIM,
        ensures
            final(self).inv(),
            old(self).same_frame(final(self)),
            final(self).live(child),
            !old(self).live(child),
            final(self).places@[child] == (Place {
                cube: old(self).cube_of(key).child(octant),
                parent: key,
                octant,
            }),
            final(self).content(child) == NodeContent::<T, DIM>::Internal(0),
            forall|k: usize| #[trigger]
                old(self).live(k) ==> final(self).live(k) && final(self).places@[k] == old(self).places@[k],
            forall|p: V3c<u32>| #[trigger] final(self).stored(p) == old(self).stored(p),
            forall|k: usize|
                final(self).live(k) && (old(self).live(k) && k != key ==> !old(self).collapsible(
                    k,
                )) ==> !#[trigger] final(self).collapsible(k),
    {
        let is_nothing = match self.nodes.get(key) {
            NodeContent::Nothing => true,
            _ => false,
        };
        if is_nothing {
            self.set_content(key, NodeContent::Internal(0));
            proof {
                assert(old(self).node_ok(key));
                old(self).lemma_countable(old(self).cube_of(key));
                old(self).lemma_content_changed(self, key);
                old(self).lemma_interior_changed_counts(self, key);
                assert forall|p: V3c<u32>| #[trigger] self.stored(p) == old(self).stored(p) by {
                    old(self).lemma_interior_changed(self, key, p);
                }
                assert(old(self).replaced(self, key, false));
                assert forall|k: usize|
                    self.live(k) && k != key && !old(self).collapsible(
                        k,
                    ) implies !#[trigger] self.collapsible(k) by {
                    old(self).lemma_replaced_tidy(self, key, false, k);
                }
            }
        }
        let ghost before = *self;
        proof {
            assert(before.node_ok(key));
            before.lemma_countable(before.cube_of(key));
            assert(before.child_key(key, octant) == key_none_value_spec());
        }
        let child = self.allocate_child(key, octant, NodeContent::Internal(0));
        proof {
            before.lemma_child_added_counts(self, key, octant, child);
            assert forall|p: V3c<u32>| #[trigger] self.stored(p) == old(self).stored(p) by {
                before.lemma_child_added_model(self, key, octant, child, p);
            }
            assert forall|k: usize| #[trigger] old(self).live(k) implies self.live(k)
                && self.places@[k] == old(self).places@[k] by {
                assert(before.live(k) == old(self).live(k));
                if k != key {
                    assert(before.kept(self, k));
                }
            }
            assert(!old(self).live(child));
            assert forall|k: usize|
                self.live(k) && (old(self).live(k) && k != key ==> !old(self).collapsible(
                    k,
                )) implies !#[trigger] self.collapsible(k) by {
                before.lemma_child_added_tidy(self, key, octant, child, k);
            }
        }
        child
    }

    /// The voxel stored for `p` under the node, or the empty voxel where
    /// none is stored.
    pub(crate) open spec fn voxel_under(&self, key: usize, cube: Cube, p: V3c<u32>) -> T {
        match self.voxel_in(key, cube, p) {
            Some(v) => v,
            None => T::empty_value(),
        }
    }

    /// After a node was rewritten into a leaf, the octree holds in the cube
    /// of the node the voxels of the leaf's brick, and elsewhere what it
    /// held.
    pub(crate) proof fn lemma_written_model(
        &self,
        after: &Self,
        key: usize,
        region: Cube,
        data: T,
        p: V3c<u32>,
    )
        requires
            self.structure_ok(),
            after.structure_ok(),
            self.live(key),
            self.replaced(after, key, true),
            region.within(self.cube_of(key)),
            after.content(key) matches NodeContent::Leaf(brick) && forall|q: V3c<u32>|
                self.cube_of(key).contains(q) ==> #[trigger] brick_voxel(
                    brick,
                    self.cube_of(key),
                    q,
                ) == if region.contains(q) {
                    data
                } else {
                    self.voxel_under(key, self.cube_of(key), q)
                },
        ensures
            after.stored(p) == if self.cube_of(key).contains(p) {
                Some(
                    if region.contains(p) {
                        data
                    } else {
                        self.voxel(p)
                    },
                )
            } else {
                self.stored(p)
            },
    {
        let cube = self.cube_of(key);
        if cube.contains(p) {
            self.lemma_lookup_through(key, p);
            after.lemma_lookup_through(key, p);
            let brick = after.content(key)->Leaf_0;
            assert(after.voxel_in(key, cube, p) == Some(brick_voxel(brick, cube, p)));
        } else {
            self.lemma_replaced_frame(after, key, true, p);
        }
    }

    /// A node that is a leaf in two well-formed octrees, with the same
    /// cube and the same voxel stored for each position of the cube, has
    /// the same brick in both.
    pub(crate) proof fn lemma_same_leaf(&self, after: &Self, key: usize)
        requires
            self.structure_ok(),
            after.structure_ok(),
            self.live(key),
            after.live(key),
            after.cube_of(key) == self.cube_of(key),
            self.content(key) is Leaf,
            after.content(key) is Leaf,
            forall|p: V3c<u32>|
                self.cube_of(key).contains(p) ==> #[trigger] after.stored(p) == self.stored(p),
        ensures
            after.content(key) == self.content(key),
    {
        let cube = self.cube_of(key);
        let a = self.content(key)->Leaf_0;
        let b = after.content(key)->Leaf_0;
        assert(self.node_ok(key));
        assert(after.node_ok(key));
        self.lemma_cube_fits(cube);
        lemma_pow2_positive(DIM as int);
        assert forall|x: int, y: int, z: int|
            0 <= x < DIM && 0 <= y < DIM && 0 <= z < DIM implies #[trigger] a[x][y][z]
                == b[x][y][z] by {
            let p = V3c {
                x: (cube.min_position.x + x) as u32,
                y: (cube.min_position.y + y) as u32,
                z: (cube.min_position.z + z) as u32,
            };
            assert(cube.contains(p));
            self.lemma_lookup_through(key, p);
            after.lemma_lookup_through(key, p);
            assert(after.stored(p) == self.stored(p));
            lemma_index_in_brick::<DIM>(cube, p);
            let index = mat_index_spec::<DIM>(cube, p);
            assert(index.x == x && index.y == y && index.z == z);
        }
        lemma_bricks_equal(a, b);
    }

    /// Fills the region of a write in the node at the level of the write:
    /// the node becomes a leaf, uniform where the write covers it, and
    /// else with the voxels it held but in the cube of the write. Returns
    /// what the node recorded as its population before, and what it records
    /// now.
    pub(crate) fn write_target(
        &mut self,
        key: usize,
        bounds: &Cube,
        position: &V3c<u32>,
        insert_size: u32,
        data: T,
    ) -> (counts: (u32, u32))
        requires
            old(self).inv(),
            old(self).live(key),
            old(self).cube_of(key) == *bounds,
            bounds.contains(*position),
            insert_size >= 1,
            insert_size < DIM ==> bounds.size == DIM,
        ensures
            final(self).structure_ok(),
            old(self).replaced(final(self), key, true),
            final(self).content(key) is Leaf,
            counts.0 == content_population(old(self).content(key), bounds.size as int),
            counts.1 == content_population(final(self).content(key), bounds.size as int),
            final(self).pending(key, counts.0, counts.1),
            old(self).content(key) is Leaf && (forall|p: V3c<u32>|
                bounds.contains(p) ==> #[trigger] final(self).stored(p) == old(self).stored(p))
                ==> final(self).content(key) == old(self).content(key) && counts.0 == counts.1
                && old(self).alike(final(self)),
            forall|k: usize|
                final(self).live(k) && (key == ROOT_NODE_KEY || k != old(self).places@[key].parent)
                    && (k == key || !old(self).collapsible(k)) ==> !#[trigger] final(self).collapsible(k),
            forall|p: V3c<u32>| #[trigger]
                final(self).stored(p) == if bounds.contains(p) {
                    Some(
                        if write_region(*bounds, *position, insert_size, DIM).contains(p) {
                            data
                        } else {
                            old(self).voxel(p)
                        },
                    )
                } else {
                    old(self).stored(p)
                },
    {
        proof {
            assert(self.node_ok(key));
            self.lemma_countable(*bounds);
            self.lemma_cube_fits(*bounds);
            T::lemma_empty_value_is_empty();
        }
        let content = *self.nodes.get(key);
        let before = Self::population_of(&content, bounds.size);
        let ghost region = write_region(*bounds, *position, insert_size, DIM);
        if insert_size as usize >= DIM {
            self.deallocate_children_of(key);
            let ghost emptied = *self;
            let brick: Brick<T, DIM> = uniform_brick(data);
            self.set_content(key, NodeContent::Leaf(brick));
            proof {
                let origin = *old(self);
                let after = *self;
                origin.lemma_subtrees_all(&emptied, key);
                origin.lemma_leaf_population_bound(brick, *bounds);
                emptied.lemma_content_changed(&after, key);
                assert(origin.replaced(&after, key, true)) by {
                    assert forall|k: usize| #[trigger] after.live(k) == (origin.live(k)
                        && !origin.under(k, key)) by {
                        assert(after.live(k) == emptied.live(k));
                    }
                    assert forall|k: usize| k != key && #[trigger] after.live(k) implies origin.kept(
                        &after,
                        k,
                    ) by {
                        assert(emptied.live(k));
                        assert(emptied.kept(&after, k));
                        assert forall|o: u32| o < 8 implies #[trigger] after.child_key(k, o)
                            == origin.child_key(k, o) by {
                            assert(emptied.child_key(k, o) == origin.child_key(k, o));
                        }
                    }
                }
                assert forall|q: V3c<u32>| bounds.contains(q) implies #[trigger] brick_voxel(
                    brick,
                    *bounds,
                    q,
                ) == data by {
                    lemma_uniform_brick_voxel(brick, data, *bounds, q);
                }
                assert forall|p: V3c<u32>| #[trigger]
                    after.stored(p) == if bounds.contains(p) {
                        Some(
                            if region.contains(p) {
                                data
                            } else {
                                origin.voxel(p)
                            },
                        )
                    } else {
                        origin.stored(p)
                    } by {
                    origin.lemma_written_model(&after, key, region, data, p);
                }
            }
        } else {
            let mut brick: Brick<T, DIM> = match content {
                NodeContent::Leaf(brick) => brick,
                _ => uniform_brick(T::new_empty()),
            };
            let ghost base = brick;
            let mut index = Self::mat_index(bounds, position);
            index.cut_each_component(&(DIM - insert_size as usize));
            fill_region(&mut brick, index, insert_size as usize, data);
            self.set_content(key, NodeContent::Leaf(brick));
            proof {
                let origin = *old(self);
                let after = *self;
                assert(origin.childless(key)) by {
                    assert forall|o: u32| o < 8 implies #[trigger] origin.child_key(key, o)
                        == key_none_value_spec() by {
                        assert(origin.link_ok(key, o));
                    }
                }
                origin.lemma_leaf_population_bound(brick, *bounds);
                origin.lemma_content_changed(&after, key);
                origin.lemma_nothing_under_childless(key);
                assert(origin.replaced(&after, key, true)) by {
                    assert forall|k: usize| #[trigger] after.live(k) == (origin.live(k)
                        && !origin.under(k, key)) by {
                        assert(after.live(k) == origin.live(k));
                    }
                    assert forall|k: usize| k != key && #[trigger] after.live(k) implies origin.kept(
                        &after,
                        k,
                    ) by {
                        assert(origin.live(k));
                    }
                }
                assert forall|q: V3c<u32>| bounds.contains(q) implies #[trigger] brick_voxel(
                    brick,
                    *bounds,
                    q,
                ) == if region.contains(q) {
                    data
                } else {
                    origin.voxel_under(key, *bounds, q)
                } by {
                    let at = mat_index_spec::<DIM>(*bounds, q);
                    lemma_index_in_brick::<DIM>(*bounds, q);
                    lemma_index_in_brick::<DIM>(*bounds, *position);
                    assert(at.x == q.x - bounds.min_position.x);
                    assert(region.contains(q) == in_region(
                        index,
                        insert_size as usize,
                        at.x as int,
                        at.y as int,
                        at.z as int,
                    ));
                    if !(origin.content(key) is Leaf) {
                        let o = bounds.octant_of(q);
                        assert(o < 8);
                        assert(origin.child_key(key, o) == key_none_value_spec());
                        assert(origin.voxel_in(key, *bounds, q).is_none());
                        lemma_uniform_brick_voxel(base, T::empty_value(), *bounds, q);
                    }
                }
                assert forall|p: V3c<u32>| #[trigger]
                    after.stored(p) == if bounds.contains(p) {
                        Some(
                            if region.contains(p) {
                                data
                            } else {
                                origin.voxel(p)
                            },
                        )
                    } else {
                        origin.stored(p)
                    } by {
                    origin.lemma_written_model(&after, key, region, data, p);
                }
            }
        }
        let after = Self::population_of(self.nodes.get(key), bounds.size);
        proof {
            if old(self).content(key) is Leaf && (forall|p: V3c<u32>|
                bounds.contains(p) ==> #[trigger] self.stored(p) == old(self).stored(p)) {
                old(self).lemma_same_leaf(self, key);
                assert(old(self).childless(key));
                old(self).lemma_nothing_under_childless(key);
                assert(old(self).alike(self)) by {
                    assert forall|k: usize| #[trigger] self.live(k) == old(self).live(k) by {
                        assert(self.live(k) == (old(self).live(k) && !(true && old(self).under(
                            k,
                            key,
                        ))));
                    }
                    assert forall|k: usize| #[trigger] old(self).live(k) implies {
                        &&& self.content(k) == old(self).content(k) || (!(self.content(
                            k,
                        ) is Leaf) && !(old(self).content(k) is Leaf))
                        &&& forall|o: u32|
                            o < 8 ==> #[trigger] self.child_key(k, o) == old(self).child_key(k, o)
                    } by {
                        assert(self.live(k));
                        if k != key {
                            assert(old(self).kept(self, k));
                        } else {
                            assert(self.node_ok(key));
                            assert(self.childless(key));
                            assert forall|o: u32| o < 8 implies #[trigger] self.child_key(k, o)
                                == old(self).child_key(k, o) by {
                                assert(old(self).child_key(k, o) == key_none_value_spec());
                            }
                        }
                    }
                }
            }
            assert forall|k: usize|
                self.live(k) && (key == ROOT_NODE_KEY || k != old(self).places@[key].parent) && (k
                    == key || !old(self).collapsible(k)) implies !#[trigger] self.collapsible(
                k,
            ) by {
                if k == key {
                    assert(self.node_ok(key));
                    assert(self.childless(key));
                    assert(self.child_key(key, 0) == key_none_value_spec());
                    self.lemma_tidy_by_child(key, 0);
                } else {
                    old(self).lemma_replaced_tidy(self, key, true, k);
                }
            }
            old(self).lemma_replaced_pending(
                self,
                key,
                true,
                before,
                after,
                before as int,
                after as int,
            );
        }
        (before, after)
    }

    /// Brings a node above a written node up to date: collapses it if
    /// asked and possible, and else corrects its count by what the node
    /// below has come to record more or less. Says whether it collapsed the
    /// node.
    pub(crate) fn settle_after_insert(
        &mut self,
        node: usize,
        size: u32,
        try_simplify: bool,
        before: u32,
        now: u32,
    ) -> (simplified: bool)
        requires
            old(self).structure_ok(),
            old(self).live(node),
            old(self).cube_of(node).size == size,
            !(old(self).content(node) is Leaf),
            old(self).stale(node, before, now),
            forall|k: usize| old(self).live(k) && k != node ==> #[trigger] old(self).count_ok(k),
        ensures
            final(self).structure_ok(),
            old(self).replaced(final(self), node, simplified),
            final(self).pending(node, before, now),
            forall|p: V3c<u32>| #[trigger] final(self).stored(p) == old(self).stored(p),
            simplified == (try_simplify && old(self).collapsible(node)),
            simplified ==> final(self).content(node) is Leaf,
            !simplified ==> !(final(self).content(node) is Leaf),
            try_simplify || !old(self).collapsible(node) ==> !final(self).collapsible(node),
            forall|k: usize|
                final(self).live(k) && k != node && (node == ROOT_NODE_KEY || k != old(self).places@[node].parent) && !old(self).collapsible(k) ==> !#[trigger] final(self).collapsible(k),
    {
        let ghost was = content_population(self.content(node), size as int);
        if try_simplify {
            if self.simplify(node) {
                proof {
                    let origin = *old(self);
                    let after = *self;
                    origin.lemma_collapsed_counts(&after, node, node);
                    let is = content_population(after.content(node), size as int);
                    origin.lemma_replaced_pending(&after, node, true, before, now, was, is);
                    assert forall|p: V3c<u32>| #[trigger] after.stored(p) == origin.stored(p) by {
                        origin.lemma_collapsed_model(&after, node, p);
                    }
                    assert(after.child_key(node, 0) == key_none_value_spec());
                    after.lemma_tidy_by_child(node, 0);
                    assert forall|k: usize|
                        after.live(k) && k != node && (node == ROOT_NODE_KEY || k
                            != origin.places@[node].parent) && !origin.collapsible(
                            k,
                        ) implies !#[trigger] after.collapsible(k) by {
                        origin.lemma_replaced_tidy(&after, node, true, k);
                    }
                }
                return true;
            }
        }
        proof {
            assert(self.node_ok(node));
            self.lemma_countable(self.cube_of(node));
        }
        let content = *self.nodes.get(node);
        let count = match content {
            NodeContent::Nothing => self.count_cached_children(node, size),
            NodeContent::Internal(count) => {
                proof {
                    self.lemma_children_population_kept(self, node);
                }
                let adjusted = Self::adjusted_count(count, before, now);
                let most = size * size * size;
                if adjusted < most {
                    adjusted
                } else {
                    most
                }
            },
            NodeContent::Leaf(_) => 0,
        };
        self.set_content(node, NodeContent::Internal(count));
        proof {
            let origin = *old(self);
            let after = *self;
            origin.lemma_children_population_kept(&after, node);
            origin.lemma_content_changed(&after, node);
            assert(origin.replaced(&after, node, false));
            assert(after.count_ok(node));
            origin.lemma_replaced_pending(&after, node, false, before, now, was, count as int);
            assert forall|p: V3c<u32>| #[trigger] after.stored(p) == origin.stored(p) by {
                origin.lemma_interior_changed(&after, node, p);
            }
            if !origin.collapsible(node) {
                assert forall|o: u32| o < 8 implies ({
                    let child = #[trigger] origin.child_key(node, o);
                    &&& after.child_key(node, o) == child
                    &&& child != key_none_value_spec() ==> after.content(child) == origin.content(
                        child,
                    ) || !(after.content(child) is Leaf)
                }) by {
                    let child = origin.child_key(node, o);
                    if child != key_none_value_spec() {
                        origin.lemma_child(node, o);
                    }
                }
                origin.lemma_tidy_kept(&after, node);
            }
            assert forall|k: usize|
                after.live(k) && k != node && (node == ROOT_NODE_KEY || k
                    != origin.places@[node].parent) && !origin.collapsible(
                    k,
                ) implies !#[trigger] after.collapsible(k) by {
                origin.lemma_replaced_tidy(&after, node, false, k);
            }
        }
        false
    }

    /// After the childless child under an octant of a node was removed,
    /// the voxels outside that octant are the same, and those inside are
    /// not stored.
    pub(crate) proof fn lemma_child_removed_model(
        &self,
        after: &Self,
        node: usize,
        octant: u32,
        p: V3c<u32>,
    )
        requires
            self.structure_ok(),
            after.structure_ok(),
            self.live(node),
            octant < 8,
            self.child_key(node, octant) != key_none_value_spec(),
            self.child_removed(after, node, octant),
            forall|other: usize|
                other != node && #[trigger] after.live(other) ==> self.kept(after, other),
        ensures
            after.stored(p) == if self.cube_of(node).child(octant).contains(p) {
                None
            } else {
                self.stored(p)
            },
    {
        let cube = self.cube_of(node);
        let child = self.child_key(node, octant);
        self.lemma_child(node, octant);
        assert(after.live(node) == self.live(node));
        lemma_child_contains(cube, p, octant);
        self.lemma_cube_splits(cube, octant);
        if cube.contains(p) {
            self.lemma_lookup_through(node, p);
            after.lemma_lookup_through(node, p);
            let o = cube.octant_of(p);
            self.lemma_cube_splits(cube, o);
            lemma_child_contains(cube, p, o);
            let below = cube.child(o);
            if o != octant {
                let c = self.child_key(node, o);
                assert(after.child_key(node, o) == c);
                if c != key_none_value_spec() {
                    self.lemma_child(node, o);
                    assert(self.agrees_below(after, below, p)) by {
                        assert forall|k: usize| #[trigger]
                            self.live(k) && self.cube_of(k).within(below) && self.cube_of(
                                k,
                            ).contains(p) implies {
                            &&& after.content(k) == self.content(k)
                            &&& forall|oo: u32|
                                oo < 8 ==> #[trigger] after.child_key(k, oo) == self.child_key(
                                    k,
                                    oo,
                                )
                        } by {
                            assert(k != node);
                            assert(k != child);
                            assert(after.live(k) == self.live(k));
                            assert(self.kept(after, k));
                        }
                    }
                    self.lemma_lookup_same(after, c, below, p);
                }
            }
        } else {
            assert(self.agrees_outside(after, cube)) by {
                assert forall|k: usize| #[trigger]
                    self.live(k) && !self.cube_of(k).within(cube) implies {
                    &&& after.content(k) == self.content(k)
                    &&& forall|o: u32|
                        o < 8 ==> #[trigger] after.child_key(k, o) == self.child_key(k, o)
                } by {
                    assert(k != node);
                    assert(k != child);
                    assert(after.live(k) == self.live(k));
                    assert(self.kept(after, k));
                }
            }
            self.lemma_voxel_frame(after, cube, p);
        }
    }

    /// Clears the region of a clearing in the node at the level of the
    /// clearing. A clearing of less than a brick resets the voxels of the
    /// region in the brick of a leaf. A larger one takes the node out of the
    /// tree with all that lies under it; the root stays and holds nothing.
    /// `above` and `octant` name the node above and the octant of the node
    /// there. Returns what the node recorded as its population before, and
    /// what is left of it.
    pub(crate) fn clear_target(
        &mut self,
        key: usize,
        bounds: &Cube,
        position: &V3c<u32>,
        clear_size: u32,
        above: usize,
        octant: u32,
    ) -> (counts: (u32, u32))
        requires
            old(self).inv(),
            old(self).live(key),
            old(self).cube_of(key) == *bounds,
            bounds.contains(*position),
            clear_size >= 1,
            clear_size < DIM ==> bounds.size == DIM,
            key != ROOT_NODE_KEY ==> old(self).places@[key].parent == above,
            key != ROOT_NODE_KEY ==> old(self).places@[key].octant == octant,
        ensures
            final(self).structure_ok(),
            old(self).same_frame(final(self)),
            final(self).places == old(self).places,
            forall|k: usize|
                #[trigger] old(self).live(k) && k != key && !old(self).under(k, key)
                    ==> final(self).live(k) && final(self).content(k) == old(self).content(k),
            forall|p: V3c<u32>| #[trigger]
                final(self).stored(p) == if bounds.contains(p) {
                    cleared(
                        old(self).stored(p),
                        clear_size >= DIM,
                        write_region(*bounds, *position, clear_size, DIM).contains(p),
                    )
                } else {
                    old(self).stored(p)
                },
            key == ROOT_NODE_KEY ==> final(self).inv(),
            key != ROOT_NODE_KEY && clear_size >= DIM ==> final(self).live(above) && final(self).child_key(above, octant) == key_none_value_spec(),
            key == ROOT_NODE_KEY && clear_size >= DIM ==> {
                &&& final(self).content(ROOT_NODE_KEY) is Nothing
                &&& final(self).childless(ROOT_NODE_KEY)
                &&& forall|k: usize| #[trigger] final(self).live(k) ==> k == ROOT_NODE_KEY
            },
            key != ROOT_NODE_KEY ==> final(self).owing(above, counts.0, counts.1),
    {
        proof {
            assert(self.node_ok(key));
            assert(self.node_ok(ROOT_NODE_KEY));
            self.lemma_countable(*bounds);
            self.lemma_cube_fits(*bounds);
            T::lemma_empty_value_is_empty();
            if key != ROOT_NODE_KEY {
                self.lemma_parent(key);
            }
        }
        let ghost region = write_region(*bounds, *position, clear_size, DIM);
        if clear_size as usize >= DIM {
            let before = Self::population_of(self.nodes.get(key), bounds.size);
            self.deallocate_children_of(key);
            let ghost emptied = *self;
            proof {
                let origin = *old(self);
                origin.lemma_subtrees_all(&emptied, key);
                assert(origin.replaced(&emptied, key, true)) by {
                    assert forall|k: usize| k != key && #[trigger] emptied.live(k) implies origin.kept(
                        &emptied,
                        k,
                    ) by {}
                }
            }
            if key != ROOT_NODE_KEY {
                proof {
                    old(self).lemma_replaced_counts(&emptied, key, true, above);
                    old(self).lemma_replaced_parent(&emptied, key, true);
                    assert(emptied.child_key(above, octant) == key);
                    old(self).nodes.lemma_live_key_is_a_slot(key);
                }
                self.remove_childless_child(above, octant);
                proof {
                    let origin = *old(self);
                    let after = *self;
                    origin.lemma_node_removed_counts(&emptied, &after, key, before);
                    assert forall|p: V3c<u32>| #[trigger]
                        after.stored(p) == if bounds.contains(p) {
                            None
                        } else {
                            origin.stored(p)
                        } by {
                        emptied.lemma_child_removed_model(&after, above, octant, p);
                        if !bounds.contains(p) {
                            origin.lemma_replaced_frame(&emptied, key, true, p);
                        }
                    }
                    assert forall|k: usize|
                        #[trigger] origin.live(k) && k != key && !origin.under(
                            k,
                            key,
                        ) implies after.live(k) && after.content(k) == origin.content(k) by {
                        assert(emptied.live(k) == (origin.live(k) && !(true && origin.under(
                            k,
                            key,
                        ))));
                        assert(after.live(k) == emptied.live(k));
                        assert(origin.kept(&emptied, k));
                    }
                }
            } else {
                self.set_content(key, NodeContent::Nothing);
                proof {
                    let origin = *old(self);
                    let after = *self;
                    emptied.lemma_content_changed(&after, key);
                    assert(origin.replaced(&after, key, true)) by {
                        assert forall|k: usize| #[trigger] after.live(k) == (origin.live(k) && !(
                        true && origin.under(k, key))) by {
                            assert(after.live(k) == emptied.live(k));
                        }
                        assert forall|k: usize| k != key && #[trigger] after.live(k) implies origin.kept(
                            &after,
                            k,
                        ) by {
                            assert(emptied.live(k));
                            assert(emptied.kept(&after, k));
                            assert forall|o: u32| o < 8 implies #[trigger] after.child_key(k, o)
                                == origin.child_key(k, o) by {
                                assert(emptied.child_key(k, o) == origin.child_key(k, o));
                            }
                        }
                    }
                    assert(after.count_ok(key)) by {
                        assert forall|o: u32| o < 8 implies after.child_population(key, o) == 0 by {
                            assert(emptied.child_key(key, o) == key_none_value_spec());
                        }
                    }
                    origin.lemma_replaced_pending(
                        &after,
                        key,
                        true,
                        before,
                        0,
                        before as int,
                        0,
                    );
                    assert forall|k: usize| after.live(k) implies #[trigger] after.count_ok(k) by {}
                    assert forall|k: usize| #[trigger] after.live(k) implies k
                        == ROOT_NODE_KEY by {
                        assert(after.live(k) == (origin.live(k) && !(true && origin.under(
                            k,
                            key,
                        ))));
                        if k != ROOT_NODE_KEY {
                            origin.lemma_under_root(k);
                        }
                    }
                    assert(after.childless(key)) by {
                        assert forall|o: u32| o < 8 implies #[trigger] after.child_key(key, o)
                            == key_none_value_spec() by {
                            assert(emptied.child_key(key, o) == key_none_value_spec());
                        }
                    }
                    assert forall|k: usize|
                        #[trigger] origin.live(k) && k != key && !origin.under(
                            k,
                            key,
                        ) implies after.live(k) && after.content(k) == origin.content(k) by {
                        assert(after.live(k) == (origin.live(k) && !(true && origin.under(
                            k,
                            key,
                        ))));
                        assert(origin.kept(&after, k));
                    }
                    assert forall|p: V3c<u32>| #[trigger]
                        after.stored(p) == if bounds.contains(p) {
                            None
                        } else {
                            origin.stored(p)
                        } by {
                        if bounds.contains(p) {
                            let o = bounds.octant_of(p);
                            assert(o < 8);
                            assert(after.child_key(key, o) == key_none_value_spec()) by {
                                assert(emptied.child_key(key, o) == key_none_value_spec());
                            }
                        }
                    }
                }
            }
            (before, 0)
        } else {
            let content = *self.nodes.get(key);
            match content {
                NodeContent::Leaf(brick) => {
                    let index = Self::mat_index(bounds, position);
                    let mut empty = brick[index.x][index.y][index.z];
                    empty.clear();
                    let counts = self.write_target(key, bounds, position, clear_size, empty);
                    proof {
                        let origin = *old(self);
                        let after = *self;
                        assert forall|p: V3c<u32>| bounds.contains(p) implies (
                        #[trigger] origin.stored(p)).is_some() by {
                            origin.lemma_lookup_through(key, p);
                        }
                        if key != ROOT_NODE_KEY {
                            origin.lemma_replaced_parent(&after, key, true);
                        } else {
                            assert forall|k: usize| after.live(k) implies #[trigger] after.count_ok(
                                k,
                            ) by {}
                        }
                        assert forall|k: usize|
                            #[trigger] origin.live(k) && k != key && !origin.under(
                                k,
                                key,
                            ) implies after.live(k) && after.content(k) == origin.content(k) by {
                            assert(after.live(k) == (origin.live(k) && !(true && origin.under(
                                k,
                                key,
                            ))));
                            assert(origin.kept(&after, k));
                        }
                    }
                    counts
                },
                _ => {
                    proof {
                        let origin = *old(self);
                        origin.lemma_nothing_pending(key);
                        if key != ROOT_NODE_KEY {
                            assert forall|k: usize|
                                origin.live(k) && k != above implies #[trigger] origin.count_ok(
                                k,
                            ) by {}
                        }
                        assert forall|p: V3c<u32>| bounds.contains(p) implies (
                        #[trigger] origin.stored(p)).is_none() by {
                            origin.lemma_lookup_through(key, p);
                            let o = bounds.octant_of(p);
                            assert(o < 8);
                            assert(origin.link_ok(key, o));
                        }
                    }
                    (0, 0)
                },
            }
        }
    }

    /// Brings a node above a cleared node up to date: corrects its count
    /// by what the node below has come to record more or less. A node whose
    /// count comes down to nothing holds nothing; a node that holds nothing
    /// but has children gets the count that they record.
    pub(crate) fn settle_after_clear(&mut self, node: usize, size: u32, before: u32, now: u32)
        requires
            old(self).structure_ok(),
            old(self).live(node),
            old(self).cube_of(node).size == size,
            !(old(self).content(node) is Leaf),
            old(self).owing(node, before, now),
        ensures
            final(self).structure_ok(),
            old(self).replaced(final(self), node, false),
            final(self).pending(node, before, now),
            forall|p: V3c<u32>| #[trigger] final(self).stored(p) == old(self).stored(p),
            !(final(self).content(node) is Leaf),
            old(self).content(node) matches NodeContent::Internal(count) ==> 0 <= count + now
                - before <= u32::MAX,
            old(self).content(node) matches NodeContent::Internal(count) ==> final(self).content(
                node,
            ) == if count + now - before > 0 {
                NodeContent::<T, DIM>::Internal((count + now - before) as u32)
            } else {
                NodeContent::<T, DIM>::Nothing
            },
            old(self).content(node) is Nothing ==> final(self).content(node) == if old(self).node_children@[node as int].content is NoChildren {
                NodeContent::<T, DIM>::Nothing
            } else {
                NodeContent::<T, DIM>::Internal(old(self).children_population(node) as u32)
            },
    {
        proof {
            assert(self.node_ok(node));
            self.lemma_countable(self.cube_of(node));
            self.lemma_children_population_kept(self, node);
            self.nodes.lemma_live_key_is_a_slot(node);
        }
        let ghost was = content_population(self.content(node), size as int);
        let content = *self.nodes.get(node);
        let settled = match content {
            NodeContent::Nothing => {
                if !self.node_children[node].is_empty() {
                    NodeContent::Internal(self.count_cached_children(node, size))
                } else {
                    proof {
                        assert forall|o: u32| o < 8 implies self.child_population(node, o) == 0 by {
                            assert(self.child_key(node, o) == key_none_value_spec());
                        }
                    }
                    NodeContent::Nothing
                }
            },
            NodeContent::Internal(count) => {
                let adjusted = Self::adjusted_count(count, before, now);
                if adjusted > 0 {
                    NodeContent::Internal(adjusted)
                } else {
                    NodeContent::Nothing
                }
            },
            NodeContent::Leaf(_) => NodeContent::Nothing,
        };
        self.set_content(node, settled);
        proof {
            let origin = *old(self);
            let after = *self;
            origin.lemma_children_population_kept(&after, node);
            origin.lemma_content_changed(&after, node);
            assert(origin.replaced(&after, node, false));
            assert(after.count_ok(node));
            origin.lemma_replaced_pending(
                &after,
                node,
                false,
                before,
                now,
                was,
                content_population(settled, size as int),
            );
            assert forall|p: V3c<u32>| #[trigger] after.stored(p) == origin.stored(p) by {
                origin.lemma_interior_changed(&after, node, p);
            }
        }
    }
}

} // verus!
