//! What holds of the operations of the octree taken together.

use crate::object_pool::key_none_value_spec;
use crate::octree::brick::{
    brick_is_all, lemma_brick_count_bounds, lemma_brick_count_same, lemma_bricks_equal,
    plane_is_all, row_is_all, same_emptiness,
};
use crate::octree::detail::{
    brick_voxel, content_population, cubed, is_pow2, lemma_index_in_brick, lemma_pow2_gap,
    lemma_pow2_positive, level_edge, mat_index_spec, region_in, ROOT_NODE_KEY,
};
use crate::octree::types::{NodeContent, Octree, VoxelData};
use crate::spatial::math::vector::{min_of, V3c};
use crate::spatial::{lemma_child_contains, Cube};
use vstd::prelude::*;

verus! {

impl<T: VoxelData, const DIM: usize> Octree<T, DIM> {
    /// The shape of the region of a write that starts from a cube of the
    /// tree.
    pub(crate) proof fn lemma_region_shape(&self, cube: Cube, position: V3c<u32>, size: u32)
        requires
            self.dims_ok(),
            self.cube_ok(cube),
            cube.contains(position),
            is_pow2(size as int),
        ensures
            ({
                let region = region_in(cube, position, size, DIM);
                &&& region.contains(position)
                &&& region.within(cube)
                &&& region.size == min_of(
                    if size >= DIM {
                        level_edge(size, DIM)
                    } else {
                        size as int
                    },
                    cube.size as int,
                )
                &&& size >= DIM ==> {
                    &&& region.min_position.x as int % region.size as int == 0
                    &&& region.min_position.y as int % region.size as int == 0
                    &&& region.min_position.z as int % region.size as int == 0
                }
            }),
        decreases cube.size,
    {
        lemma_pow2_positive(DIM as int);
        lemma_pow2_positive(size as int);
        self.lemma_cube_fits(cube);
        if cube.size > level_edge(size, DIM) {
            let octant = cube.octant_of(position);
            self.lemma_cube_splits(cube, octant);
            lemma_child_contains(cube, position, octant);
            if size > DIM {
                lemma_pow2_gap(cube.size as int, size as int);
            } else {
                lemma_pow2_gap(cube.size as int, DIM as int);
            }
            self.lemma_region_shape(cube.child(octant), position, size);
        }
    }

    /// The region of a write holds the position of the write and lies in
    /// the volume. A write of at least a brick fills a cube of its own
    /// edge, or the whole volume if that is smaller, which is aligned to its
    /// edge; a smaller write fills a cube of its own edge.
    pub proof fn lemma_lod_region(&self, position: V3c<u32>, size: u32)
        requires
            self.wf(),
            self.in_bounds(position),
            is_pow2(size as int),
        ensures
            ({
                let region = self.lod_region(position, size);
                &&& region.contains(position)
                &&& forall|p: V3c<u32>| region.contains(p) ==> self.in_bounds(p)
                &&& region.size == if size >= DIM {
                    min_of(size as int, self.size())
                } else {
                    size as int
                }
                &&& size >= DIM ==> {
                    &&& region.min_position.x as int % region.size as int == 0
                    &&& region.min_position.y as int % region.size as int == 0
                    &&& region.min_position.z as int % region.size as int == 0
                }
            }),
    {
        self.lemma_public_model();
        assert(self.node_ok(ROOT_NODE_KEY));
        self.lemma_region_shape(self.root_cube(), position, size);
    }

    /// The region of a write of one voxel is the position of the write.
    pub proof fn lemma_single_region(&self, position: V3c<u32>, p: V3c<u32>)
        requires
            self.wf(),
            self.in_bounds(position),
        ensures
            self.lod_region(position, 1).contains(p) <==> p == position,
    {
        assert(is_pow2(1));
        self.lemma_lod_region(position, 1);
        self.lemma_size_is_valid();
        lemma_pow2_positive(DIM as int);
        lemma_pow2_positive(self.size());
    }

    /// A voxel that was written and is not empty is found by every lookup
    /// until its position is written again: directly after the write, and
    /// after any later write to a region that does not hold the position.
    pub proof fn lemma_lookup_consistency(
        &self,
        written: &Self,
        later: &Self,
        position: V3c<u32>,
        data: T,
        region: Cube,
        other: T,
    )
        requires
            self.wf(),
            self.in_bounds(position),
            !data.is_empty(),
            self.filled(written, self.lod_region(position, 1), data),
            written.filled(later, region, other),
            !region.contains(position),
        ensures
            written.lookup(position) == Some(data),
            later.lookup(position) == Some(data),
    {
        self.lemma_single_region(position, position);
    }

    /// After a write of any edge every position of its region is looked up
    /// as the written voxel, or as nothing where that voxel is empty.
    pub proof fn lemma_lod_insert(
        &self,
        written: &Self,
        position: V3c<u32>,
        size: u32,
        data: T,
        p: V3c<u32>,
    )
        requires
            self.filled(written, self.lod_region(position, size), data),
            self.lod_region(position, size).contains(p),
        ensures
            written.voxel_at(p) == data,
            written.lookup(p) == if data.is_empty() {
                None
            } else {
                Some(data)
            },
    {
    }

    /// After a clearing of any edge every position of its region is looked
    /// up as nothing.
    pub proof fn lemma_lod_clear(&self, cleared: &Self, position: V3c<u32>, size: u32, p: V3c<u32>)
        requires
            self.filled(cleared, self.lod_region(position, size), T::empty_value()),
            self.lod_region(position, size).contains(p),
        ensures
            cleared.voxel_at(p) == T::empty_value(),
            cleared.lookup(p).is_none(),
    {
        T::lemma_empty_value_is_empty();
    }

    /// A write of one voxel leaves every other voxel as it was, whatever
    /// the octree had to do to its nodes.
    pub proof fn lemma_other_voxels_kept(
        &self,
        written: &Self,
        position: V3c<u32>,
        data: T,
        p: V3c<u32>,
    )
        requires
            self.wf(),
            self.in_bounds(position),
            self.filled(written, self.lod_region(position, 1), data),
            p != position,
        ensures
            written.voxel_at(p) == self.voxel_at(p),
            written.lookup(p) == self.lookup(p),
    {
        self.lemma_single_region(position, p);
    }

    /// The root of a well-formed octree is a node, with the key zero and
    /// the cube of the whole volume.
    pub proof fn lemma_root(&self)
        requires
            self.wf(),
        ensures
            self.is_node(ROOT_NODE_KEY),
            self.node_bounds(ROOT_NODE_KEY) == Cube::root(self.size() as u32),
    {
        self.lemma_public_model();
        assert(self.node_ok(ROOT_NODE_KEY));
    }

    /// The nodes of a well-formed octree form a tree under the root, which
    /// has the key zero and the cube of the whole volume: a key under an
    /// octant of a node names a node whose cube is that octant of the cube of
    /// the node, and a leaf has no children. No cube of a node is smaller
    /// than a brick.
    pub proof fn lemma_tree_shape(&self, key: usize, octant: u32)
        requires
            self.wf(),
            self.is_node(key),
            octant < 8,
        ensures
            self.is_node(ROOT_NODE_KEY),
            self.node_bounds(ROOT_NODE_KEY) == Cube::root(
                self.size() as u32,
            ),
            key != key_none_value_spec(),
            DIM <= self.node_bounds(key).size <= self.size(),
            self.node_content(key) is Leaf ==> self.node_child(key, octant)
                == key_none_value_spec(),
            self.node_child(key, octant) != key_none_value_spec() ==> {
                let child = self.node_child(key, octant);
                &&& self.is_node(child)
                &&& child != key
                &&& child != ROOT_NODE_KEY
                &&& self.node_bounds(child) == self.node_bounds(key).child(octant)
                &&& self.node_bounds(key).size >= 2 * DIM
            },
    {
        self.lemma_public_model();
        assert(self.node_ok(ROOT_NODE_KEY));
        assert(self.node_ok(key));
        self.nodes.lemma_live_key_is_a_slot(key);
        self.lemma_cube_fits(self.node_bounds(key));
        if self.content(key) is Leaf {
            assert(self.childless(key));
            assert(self.child_key(key, octant) == key_none_value_spec());
        }
        if self.child_key(key, octant) != key_none_value_spec() {
            self.lemma_child(key, octant);
            lemma_pow2_positive(DIM as int);
            lemma_pow2_gap(self.cube_of(key).size as int, DIM as int);
        }
    }

    /// The count of an interior node is the sum of what its eight children
    /// record: the count of an interior child, the voxels that are not
    /// empty of a leaf, nothing for a child that holds nothing or is not
    /// there. A node that holds nothing has nothing under it.
    pub proof fn lemma_count_invariant(&self, key: usize)
        requires
            self.wf(),
            self.is_node(key),
        ensures
            ({
                let sum = self.recorded_under(key, 0) + self.recorded_under(key, 1)
                    + self.recorded_under(key, 2) + self.recorded_under(key, 3)
                    + self.recorded_under(key, 4) + self.recorded_under(key, 5)
                    + self.recorded_under(key, 6) + self.recorded_under(key, 7);
                match self.node_content(key) {
                    NodeContent::Internal(count) => count == sum,
                    NodeContent::Nothing => sum == 0,
                    NodeContent::Leaf(_) => sum == 0,
                }
            }),
            0 <= content_population(self.node_content(key), self.node_bounds(key).size as int)
                <= cubed(self.node_bounds(key).size as int),
    {
        self.lemma_public_model();
        assert(self.count_ok(key));
        assert(self.node_ok(key));
        assert forall|octant: u32| octant < 8 implies #[trigger] self.recorded_under(key, octant)
            == self.child_population(key, octant) by {}
        if self.content(key) is Leaf {
            assert(self.childless(key));
            assert forall|octant: u32| octant < 8 implies self.child_population(key, octant)
                == 0 by {
                assert(self.child_key(key, octant) == key_none_value_spec());
            }
        }
    }

    /// Where the octree is in simplified form, a node in whose cube every
    /// voxel is stored and is the same is a leaf: a uniform region is never
    /// left as a subtree.
    pub proof fn lemma_uniform_region_is_leaf(&self, key: usize, data: T)
        requires
            self.wf(),
            self.is_simplified(),
            self.is_node(key),
            forall|p: V3c<u32>|
                self.node_bounds(key).contains(p) ==> #[trigger] self.is_stored(p)
                    && self.voxel_at(p) == data,
        ensures
            self.node_content(key) is Leaf,
    {
        self.lemma_public_model();
        assert forall|p: V3c<u32>| self.cube_of(key).contains(p) implies #[trigger] self.voxel_in(
            key,
            self.cube_of(key),
            p,
        ) == Some(data) by {
            self.lemma_lookup_through(key, p);
            assert(self.is_stored(p) && self.voxel_at(p) == data);
        }
        self.lemma_uniform_subtree(key, data);
    }

    /// Where the octree is in simplified form and the region of a write of
    /// at least a brick holds one voxel in every position, a single leaf
    /// covers the region: the nodes that made it up have been collapsed.
    pub proof fn lemma_uniform_region_collapsed(&self, position: V3c<u32>, size: u32, data: T)
        requires
            self.wf(),
            self.is_simplified(),
            self.in_bounds(position),
            is_pow2(size as int),
            size >= DIM,
            self.holds_already(self.lod_region(position, size), data),
        ensures
            exists|key: usize|
                #![trigger self.is_node(key)]
                {
                    &&& self.is_node(key)
                    &&& self.node_content(key) is Leaf
                    &&& self.lod_region(position, size).within(self.node_bounds(key))
                },
    {
        self.lemma_public_model();
        assert(self.node_ok(ROOT_NODE_KEY));
        assert(self.lod_region(position, size) == region_in(
            self.root_cube(),
            position,
            size,
            DIM,
        ));
        assert forall|p: V3c<u32>|
            region_in(self.root_cube(), position, size, DIM).contains(p) implies #[trigger] self.stored(
            p,
        ) == Some(data) by {
            let region = self.lod_region(position, size);
            assert(region.contains(p));
            assert(self.holds_already(region, data));
            assert(self.is_stored(p));
            assert(self.voxel_at(p) == data);
        }
        let key = self.lemma_leaf_on_way(ROOT_NODE_KEY, self.root_cube(), position, size, data);
        assert(self.is_node(key));
    }

    /// The leaf that covers the region of a settled write, found on the way
    /// from a node down to the level of the write.
    pub(crate) proof fn lemma_leaf_on_way(
        &self,
        key: usize,
        cube: Cube,
        position: V3c<u32>,
        size: u32,
        data: T,
    ) -> (leaf: usize)
        requires
            self.structure_ok(),
            self.is_simplified(),
            self.live(key),
            self.cube_of(key) == cube,
            cube.contains(position),
            is_pow2(size as int),
            size >= DIM,
            forall|p: V3c<u32>|
                region_in(cube, position, size, DIM).contains(p) ==> #[trigger] self.stored(p)
                    == Some(data),
        ensures
            self.live(leaf),
            self.content(leaf) is Leaf,
            region_in(cube, position, size, DIM).within(self.cube_of(leaf)),
        decreases cube.size,
    {
        let region = region_in(cube, position, size, DIM);
        assert(self.node_ok(key));
        self.lemma_cube_fits(cube);
        lemma_pow2_positive(DIM as int);
        lemma_pow2_positive(size as int);
        self.lemma_region_within(cube, position, size);
        self.lemma_region_shape(cube, position, size);
        if self.content(key) is Leaf {
            key
        } else if cube.size > level_edge(size, DIM) {
            let octant = cube.octant_of(position);
            self.lemma_cube_splits(cube, octant);
            lemma_child_contains(cube, position, octant);
            self.lemma_lookup_through(key, position);
            assert(self.stored(position) == Some(data));
            assert(self.child_key(key, octant) != key_none_value_spec());
            self.lemma_child(key, octant);
            self.lemma_leaf_on_way(
                self.child_key(key, octant),
                cube.child(octant),
                position,
                size,
                data,
            )
        } else {
            assert(region == cube);
            assert forall|p: V3c<u32>| cube.contains(p) implies #[trigger] self.voxel_in(
                key,
                cube,
                p,
            ) == Some(data) by {
                self.lemma_lookup_through(key, p);
                assert(self.stored(p) == Some(data));
            }
            self.lemma_uniform_subtree(key, data);
            key
        }
    }

    /// Where the octree is in simplified form and the region of a write
    /// holds one voxel in every position, the write counts as made: writing
    /// that voxel there changes no node.
    pub proof fn lemma_simplified_is_settled(&self, position: V3c<u32>, size: u32, data: T)
        requires
            self.wf(),
            self.is_simplified(),
            self.in_bounds(position),
            is_pow2(size as int),
            self.holds_already(self.lod_region(position, size), data),
        ensures
            self.settled_at(position, size),
    {
        self.lemma_public_model();
        self.lemma_settled_at(position, size);
        assert(self.node_ok(ROOT_NODE_KEY));
        assert(self.lod_region(position, size) == region_in(
            self.root_cube(),
            position,
            size,
            DIM,
        ));
        assert forall|p: V3c<u32>|
            region_in(self.root_cube(), position, size, DIM).contains(p) implies #[trigger] self.stored(
            p,
        ) == Some(data) by {
            let region = self.lod_region(position, size);
            assert(region.contains(p));
            assert(self.is_stored(p));
            assert(self.voxel_at(p) == data);
        }
        self.lemma_settled_way(ROOT_NODE_KEY, self.root_cube(), position, size, data);
    }

    /// The same from a node on the way down.
    pub(crate) proof fn lemma_settled_way(
        &self,
        key: usize,
        cube: Cube,
        position: V3c<u32>,
        size: u32,
        data: T,
    )
        requires
            self.structure_ok(),
            self.is_simplified(),
            self.live(key),
            self.cube_of(key) == cube,
            cube.contains(position),
            is_pow2(size as int),
            forall|p: V3c<u32>|
                region_in(cube, position, size, DIM).contains(p) ==> #[trigger] self.stored(p)
                    == Some(data),
        ensures
            self.way_settled(key, cube, position, level_edge(size, DIM)),
        decreases cube.size,
    {
        assert(self.node_ok(key));
        self.lemma_cube_fits(cube);
        lemma_pow2_positive(DIM as int);
        lemma_pow2_positive(size as int);
        self.lemma_region_shape(cube, position, size);
        self.lemma_is_simplified();
        if !(self.content(key) is Leaf) {
            let octant = cube.octant_of(position);
            assert(octant < 8);
            self.lemma_lookup_through(key, position);
            assert(self.stored(position) == Some(data));
            assert(self.link_ok(key, octant));
            assert(self.child_key(key, octant) != key_none_value_spec());
            self.lemma_child(key, octant);
            self.lemma_cube_splits(cube, octant);
            lemma_child_contains(cube, position, octant);
            if cube.size <= level_edge(size, DIM) {
                assert(size >= DIM);
                assert(region_in(cube, position, size, DIM) == cube);
                assert forall|p: V3c<u32>| cube.contains(p) implies #[trigger] self.voxel_in(
                    key,
                    cube,
                    p,
                ) == Some(data) by {
                    self.lemma_lookup_through(key, p);
                    assert(self.stored(p) == Some(data));
                }
                self.lemma_uniform_subtree(key, data);
            }
            self.lemma_settled_way(
                self.child_key(key, octant),
                cube.child(octant),
                position,
                size,
                data,
            );
        }
    }

    /// The same of the lookups below the node.
    pub(crate) proof fn lemma_uniform_subtree(&self, key: usize, data: T)
        requires
            self.structure_ok(),
            self.is_simplified(),
            self.live(key),
            forall|p: V3c<u32>|
                self.cube_of(key).contains(p) ==> #[trigger] self.voxel_in(
                    key,
                    self.cube_of(key),
                    p,
                ) == Some(data),
        ensures
            self.content(key) matches NodeContent::Leaf(brick) && brick_is_all(brick, data),
        decreases self.cube_of(key).size,
    {
        let cube = self.cube_of(key);
        assert(self.node_ok(key));
        self.lemma_cube_fits(cube);
        lemma_pow2_positive(DIM as int);
        match self.content(key) {
            NodeContent::Leaf(brick) => {
                assert forall|x: int| 0 <= x < DIM implies plane_is_all(
                    #[trigger] brick[x],
                    data,
                ) by {
                    assert forall|y: int| 0 <= y < DIM implies row_is_all(
                        #[trigger] brick[x][y],
                        data,
                    ) by {
                        assert forall|z: int| 0 <= z < DIM implies #[trigger] brick[x][y][z]
                            == data by {
                            let p = V3c {
                                x: (cube.min_position.x + x) as u32,
                                y: (cube.min_position.y + y) as u32,
                                z: (cube.min_position.z + z) as u32,
                            };
                            assert(cube.contains(p));
                            assert(self.voxel_in(key, cube, p) == Some(data));
                            lemma_index_in_brick::<DIM>(cube, p);
                        }
                    }
                }
            },
            _ => {
                assert forall|o: u32| o < 8 implies #[trigger] self.child_key(key, o)
                    != key_none_value_spec() && self.content(self.child_key(key, o)) is Leaf
                    && brick_is_all(self.content(self.child_key(key, o))->Leaf_0, data) by {
                    let child = self.child_key(key, o);
                    let corner = cube.min_position;
                    if cube.size > DIM {
                        self.lemma_cube_splits(cube, o);
                        let below = cube.child(o);
                        lemma_child_contains(cube, below.min_position, o);
                        assert(below.contains(below.min_position));
                        assert(self.voxel_in(key, cube, below.min_position) == Some(data));
                        assert(child != key_none_value_spec());
                        self.lemma_child(key, o);
                        assert forall|p: V3c<u32>| below.contains(p) implies #[trigger] self.voxel_in(
                            child,
                            below,
                            p,
                        ) == Some(data) by {
                            lemma_child_contains(cube, p, o);
                            assert(self.voxel_in(key, cube, p) == Some(data));
                        }
                        self.lemma_uniform_subtree(child, data);
                    } else {
                        assert(self.link_ok(key, cube.octant_of(corner)));
                        assert(self.voxel_in(key, cube, corner) == Some(data));
                    }
                }
                let first = self.first_brick(key);
                assert(self.child_key(key, 0) != key_none_value_spec());
                assert(brick_is_all(first, data));
                assert forall|o: u32| o < 8 implies #[trigger] self.equal_leaf_child(
                    key,
                    o,
                    first,
                ) by {
                    let brick = self.content(self.child_key(key, o))->Leaf_0;
                    assert(self.child_key(key, o) != key_none_value_spec());
                    assert(brick_is_all(brick, data));
                    assert forall|x: int, y: int, z: int|
                        0 <= x < DIM && 0 <= y < DIM && 0 <= z < DIM implies #[trigger] brick[x][y][z]
                            == first[x][y][z] by {
                        assert(plane_is_all(brick[x], data));
                        assert(row_is_all(brick[x][y], data));
                        assert(plane_is_all(first[x], data));
                        assert(row_is_all(first[x][y], data));
                    }
                    lemma_bricks_equal(brick, first);
                }
                assert(self.collapsible(key));
                self.lemma_is_simplified();
            },
        }
    }

    /// The region of a write lies in the node on which the write works.
    pub(crate) proof fn lemma_region_in_node(&self, cube: Cube, position: V3c<u32>, size: u32)
        requires
            self.dims_ok(),
            self.cube_ok(cube),
            cube.contains(position),
            size >= 1,
        ensures
            region_in(cube, position, size, DIM).within(
                region_in(cube, position, Self::level_of(size), DIM),
            ),
        decreases cube.size,
    {
        lemma_pow2_positive(DIM as int);
        self.lemma_cube_fits(cube);
        if cube.size > level_edge(size, DIM) {
            let octant = cube.octant_of(position);
            self.lemma_cube_splits(cube, octant);
            lemma_child_contains(cube, position, octant);
            self.lemma_region_in_node(cube.child(octant), position, size);
        }
    }

    /// After a write its region holds the written voxel in every position,
    /// stored. With the write made, writing the same once more changes no
    /// node.
    pub proof fn lemma_insert_holds(&self, written: &Self, position: V3c<u32>, size: u32, data: T)
        requires
            self.wf(),
            self.in_bounds(position),
            is_pow2(size as int),
            self.filled(written, self.lod_region(position, size), data),
            forall|p: V3c<u32>| #[trigger]
                written.is_stored(p) == (self.is_stored(p) || self.lod_region(
                    position,
                    Self::level_of(size),
                ).contains(p)),
        ensures
            written.lod_region(position, size) == self.lod_region(position, size),
            written.holds_already(written.lod_region(position, size), data),
    {
        self.lemma_public_model();
        lemma_pow2_positive(size as int);
        assert(self.node_ok(ROOT_NODE_KEY));
        self.lemma_region_in_node(self.root_cube(), position, size);
    }

    /// The cube of the one position `p`.
    pub open spec fn unit_cube(p: V3c<u32>) -> Cube {
        Cube { min_position: p, size: 1 }
    }

    /// A voxel that was changed in place leaves the octree well formed and
    /// every other voxel as it was, where it is stored in a leaf with the
    /// edge of a brick and neither was nor has become empty.
    pub proof fn lemma_rewritten_in_brick(&self, after: &Self, position: V3c<u32>, value: T)
        requires
            self.wf(),
            self.rewritten_at(after, position, value),
            self.stored_in_brick(position),
            !self.voxel_at(position).is_empty(),
            !value.is_empty(),
        ensures
            self.filled(after, Self::unit_cube(position), value),
    {
        self.lemma_public_model();
        after.lemma_public_model();
        let key = choose|key: usize| #[trigger]
            self.holds_in(key, position) && self.rewritten_in(after, key, position, value);
        let cube = self.cube_of(key);
        let a = self.content(key)->Leaf_0;
        let b = after.content(key)->Leaf_0;
        let index = mat_index_spec::<DIM>(cube, position);
        assert(self.node_ok(key));
        self.lemma_cube_fits(cube);
        self.lemma_countable(cube);
        lemma_pow2_positive(DIM as int);
        self.lemma_lookup_through(key, position);
        assert(a[index.x as int][index.y as int][index.z as int] == self.voxel_at(position));
        assert(same_emptiness(a, b));
        lemma_brick_count_same(a, b, DIM as int);
        lemma_brick_count_bounds(b, DIM as int);
        assert(cubed(DIM as int) == DIM * DIM * DIM);
        assert(self.content_changed(after, key));
        self.lemma_content_changed(after, key);
        self.lemma_interior_changed_counts(after, key);
        self.lemma_nothing_under_childless(key);
        assert(self.replaced(after, key, true)) by {
            assert forall|k: usize| #[trigger]
                after.live(k) == (self.live(k) && !(true && self.under(k, key))) by {
                assert(after.live(k) == self.live(k));
            }
        }
        assert forall|p: V3c<u32>| #[trigger]
            after.voxel_at(p) == if Self::unit_cube(position).contains(p) {
                value
            } else {
                self.voxel_at(p)
            } by {
            assert forall|q: V3c<u32>| cube.contains(q) implies #[trigger] brick_voxel(
                b,
                cube,
                q,
            ) == if Self::unit_cube(position).contains(q) {
                value
            } else {
                self.voxel_under(key, cube, q)
            } by {
                let at = mat_index_spec::<DIM>(cube, q);
                lemma_index_in_brick::<DIM>(cube, q);
                lemma_index_in_brick::<DIM>(cube, position);
                assert(at.x == q.x - cube.min_position.x);
                assert(index.x == position.x - cube.min_position.x);
            }
            self.lemma_written_model(after, key, Self::unit_cube(position), value, p);
            if cube.contains(p) {
                self.lemma_lookup_through(key, p);
            }
        }
    }

    /// A voxel that was changed in place, and neither was nor has become
    /// empty, leaves the octree well formed, is found at its position, and
    /// leaves every other position with the voxel it had or, where the
    /// position shares the voxel of a leaf above the level of the bricks,
    /// with the new one.
    pub proof fn lemma_rewritten(&self, after: &Self, position: V3c<u32>, value: T)
        requires
            self.wf(),
            self.rewritten_at(after, position, value),
            !self.voxel_at(position).is_empty(),
            !value.is_empty(),
        ensures
            after.wf(),
            after.size() == self.size(),
            after.simplifies() == self.simplifies(),
            self.same_nodes(after),
            after.lookup(position) == Some(value),
            forall|p: V3c<u32>|
                #[trigger] after.voxel_at(p) == value || after.voxel_at(p) == self.voxel_at(p),
            forall|p: V3c<u32>| #[trigger] after.is_stored(p) == self.is_stored(p),
    {
        self.lemma_public_model();
        after.lemma_public_model();
        let key = choose|key: usize| #[trigger]
            self.holds_in(key, position) && self.rewritten_in(after, key, position, value);
        let cube = self.cube_of(key);
        let a = self.content(key)->Leaf_0;
        let b = after.content(key)->Leaf_0;
        let index = mat_index_spec::<DIM>(cube, position);
        assert(self.node_ok(key));
        self.lemma_cube_fits(cube);
        self.lemma_countable(cube);
        lemma_pow2_positive(DIM as int);
        lemma_index_in_brick::<DIM>(cube, position);
        self.lemma_lookup_through(key, position);
        assert(a[index.x as int][index.y as int][index.z as int] == self.voxel_at(position));
        assert(same_emptiness(a, b));
        lemma_brick_count_same(a, b, DIM as int);
        self.lemma_leaf_population_bound(b, cube);
        assert(self.content_changed(after, key));
        self.lemma_content_changed(after, key);
        self.lemma_interior_changed_counts(after, key);
        self.lemma_nothing_under_childless(key);
        assert(self.replaced(after, key, true)) by {
            assert forall|k: usize| #[trigger]
                after.live(k) == (self.live(k) && !(true && self.under(k, key))) by {
                assert(after.live(k) == self.live(k));
            }
        }
        after.lemma_lookup_through(key, position);
        assert forall|p: V3c<u32>|
            (#[trigger] after.voxel_at(p) == value || after.voxel_at(p) == self.voxel_at(p))
                && after.stored(p).is_some() == self.stored(p).is_some() by {
            if cube.contains(p) {
                self.lemma_lookup_through(key, p);
                after.lemma_lookup_through(key, p);
                lemma_index_in_brick::<DIM>(cube, p);
            } else {
                self.lemma_replaced_frame(after, key, true, p);
            }
        }
        assert forall|p: V3c<u32>| #[trigger] after.is_stored(p) == self.is_stored(p) by {
            assert(after.voxel_at(p) == value || after.voxel_at(p) == self.voxel_at(p));
        }
        assert forall|k: usize| #[trigger] after.is_node(k) == self.is_node(k) by {
            assert(after.live(k) == self.live(k));
        }
    }

    /// A voxel that was borrowed to be changed in place and was left as it
    /// was leaves the octree as it was.
    pub proof fn lemma_rewritten_same(&self, after: &Self, position: V3c<u32>)
        requires
            self.wf(),
            self.rewritten_at(after, position, self.voxel_at(position)),
        ensures
            after.wf(),
            after.size() == self.size(),
            forall|p: V3c<u32>| #[trigger] after.voxel_at(p) == self.voxel_at(p),
    {
        self.lemma_public_model();
        after.lemma_public_model();
        let value = self.voxel_at(position);
        let key = choose|key: usize| #[trigger]
            self.holds_in(key, position) && self.rewritten_in(after, key, position, value);
        let cube = self.cube_of(key);
        let a = self.content(key)->Leaf_0;
        let b = after.content(key)->Leaf_0;
        let index = mat_index_spec::<DIM>(cube, position);
        assert(self.node_ok(key));
        self.lemma_cube_fits(cube);
        lemma_pow2_positive(DIM as int);
        self.lemma_lookup_through(key, position);
        assert(a[index.x as int][index.y as int][index.z as int] == value);
        lemma_bricks_equal(a, b);
        assert(after.content(key) == self.content(key));
        assert forall|k: usize| #[trigger] self.live(k) implies self.kept(after, k) by {}
        self.lemma_structure_carried(after);
        assert forall|k: usize| after.live(k) implies #[trigger] after.count_ok(k) by {
            assert(self.count_ok(k));
            assert forall|o: u32| o < 8 implies #[trigger] after.child_population(k, o)
                == self.child_population(k, o) by {
                if self.child_key(k, o) != key_none_value_spec() {
                    self.lemma_child(k, o);
                }
            }
            self.lemma_count_carried(after, k);
        }
        assert forall|p: V3c<u32>| #[trigger] after.voxel_at(p) == self.voxel_at(p) by {
            if self.root_cube().contains(p) {
                assert(self.agrees_below(after, self.root_cube(), p));
                assert(self.node_ok(ROOT_NODE_KEY));
                self.lemma_lookup_same(
                    after,
                    ROOT_NODE_KEY,
                    self.root_cube(),
                    p,
                );
            }
        }
    }
}

} // verus!
