//! The way of a write that has been made before: it ends in a leaf at or
//! above the level of the write, and no node on it can be collapsed where
//! insertions collapse. Writing the same once more finds nothing to do.

use crate::object_pool::key_none_value_spec;
use crate::octree::brick::{brick_is_all, plane_is_all, row_is_all};
use crate::octree::detail::{
    brick_voxel, is_pow2, lemma_mod_shift, lemma_pow2_divides, lemma_pow2_positive, level_edge,
    mat_index_spec, region_in, ROOT_NODE_KEY,
};
use crate::octree::types::{Brick, NodeContent, Octree, VoxelData};
use crate::spatial::math::vector::V3c;
use crate::spatial::{lemma_child_contains, Cube};
use vstd::prelude::*;

verus! {

/// What is aligned to a multiple of `dim` is aligned to `dim`.
pub proof fn lemma_aligned_to_part(a: int, edge: int, dim: int)
    requires
        a >= 0,
        dim >= 1,
        edge >= 1,
        edge % dim == 0,
        a % edge == 0,
    ensures
        a % dim == 0,
{
    let t = edge / dim;
    let q = a / edge;
    vstd::arithmetic::div_mod::lemma_fundamental_div_mod(edge, dim);
    vstd::arithmetic::div_mod::lemma_fundamental_div_mod(a, edge);
    assert(a == dim * (t * q)) by (nonlinear_arith)
        requires
            a == edge * q,
            edge == dim * t,
    ;
    vstd::arithmetic::div_mod::lemma_mod_multiples_basic(t * q, dim);
    assert((t * q) * dim == dim * (t * q)) by (nonlinear_arith);
}

/// The difference of two numbers aligned to `dim` is aligned to `dim`.
pub proof fn lemma_aligned_difference(a: int, b: int, dim: int)
    requires
        0 <= b <= a,
        dim >= 1,
        a % dim == 0,
        b % dim == 0,
    ensures
        (a - b) % dim == 0,
{
    let qa = a / dim;
    let qb = b / dim;
    vstd::arithmetic::div_mod::lemma_fundamental_div_mod(a, dim);
    vstd::arithmetic::div_mod::lemma_fundamental_div_mod(b, dim);
    assert(a - b == dim * (qa - qb)) by (nonlinear_arith)
        requires
            a == dim * qa,
            b == dim * qb,
    ;
    vstd::arithmetic::div_mod::lemma_mod_multiples_basic(qa - qb, dim);
    assert((qa - qb) * dim == dim * (qa - qb)) by (nonlinear_arith);
}

impl<T: VoxelData, const DIM: usize> Octree<T, DIM> {
    /// Whether the way from the node down towards the position ends in a
    /// leaf before it gets below the level of edge `level`, with no node on
    /// it that could be collapsed where insertions collapse.
    pub(crate) open spec fn way_settled(
        &self,
        key: usize,
        cube: Cube,
        position: V3c<u32>,
        level: int,
    ) -> bool
        decreases cube.size,
    {
        match self.content(key) {
            NodeContent::Leaf(_) => true,
            _ => {
                let octant = cube.octant_of(position);
                let child = self.child_key(key, octant);
                &&& cube.size > level
                &&& cube.size >= 2
                &&& child != key_none_value_spec()
                &&& self.auto_simplify ==> !self.collapsible(key)
                &&& self.way_settled(child, cube.child(octant), position, level)
            },
        }
    }

    /// Whether a write of edge `size` for the position has been made: the
    /// way from the root towards the position ends in a leaf at or above
    /// the level of the write, and where insertions collapse nodes with
    /// eight equal leaves, no node on that way can be collapsed. An
    /// insertion leaves its own write in this state.
    pub closed spec fn settled_at(&self, position: V3c<u32>, size: u32) -> bool {
        self.way_settled(ROOT_NODE_KEY, self.root_cube(), position, level_edge(size, DIM))
    }

    /// What `settled_at` stands for.
    pub(crate) proof fn lemma_settled_at(&self, position: V3c<u32>, size: u32)
        ensures
            self.settled_at(position, size) == self.way_settled(
                ROOT_NODE_KEY,
                self.root_cube(),
                position,
                level_edge(size, DIM),
            ),
    {
    }

    /// A settled way is settled from each of its nodes on; a node on it that
    /// is no leaf lies above the level and cannot be collapsed where
    /// insertions collapse.
    pub(crate) proof fn lemma_way_along(
        &self,
        stack: Seq<(usize, Cube)>,
        position: V3c<u32>,
        level: int,
        index: int,
    )
        requires
            self.structure_ok(),
            self.path_ok(stack, position),
            self.way_settled(ROOT_NODE_KEY, self.root_cube(), position, level),
            0 <= index < stack.len(),
        ensures
            self.way_settled(stack[index].0, stack[index].1, position, level),
            !(self.content(stack[index].0) is Leaf) ==> stack[index].1.size > level && (
            self.auto_simplify ==> !self.collapsible(stack[index].0)),
        decreases index,
    {
        assert(self.step_ok(stack, index, position));
        if index == 0 {
            assert(self.node_ok(ROOT_NODE_KEY));
        } else {
            self.lemma_way_along(stack, position, level, index - 1);
            self.lemma_path_step(stack, position, index - 1);
        }
        let (key, cube) = stack[index];
        assert(self.way_settled(key, cube, position, level));
        if !(self.content(key) is Leaf) {
            let octant = cube.octant_of(position);
            assert(cube.size > level && (self.auto_simplify ==> !self.collapsible(key))
                && self.way_settled(self.child_key(key, octant), cube.child(octant), position, level));
        }
    }

    /// A settled way stays settled while the nodes in its cube stay as
    /// they are.
    pub(crate) proof fn lemma_way_kept(
        &self,
        after: &Self,
        key: usize,
        cube: Cube,
        position: V3c<u32>,
        level: int,
    )
        requires
            self.structure_ok(),
            self.live(key),
            self.cube_of(key) == cube,
            cube.contains(position),
            after.auto_simplify == self.auto_simplify,
            forall|k: usize| #[trigger]
                self.live(k) && self.cube_of(k).within(cube) ==> {
                    &&& after.content(k) == self.content(k)
                    &&& forall|o: u32|
                        o < 8 ==> #[trigger] after.child_key(k, o) == self.child_key(k, o)
                },
            self.way_settled(key, cube, position, level),
        ensures
            after.way_settled(key, cube, position, level),
        decreases cube.size,
    {
        assert(self.node_ok(key));
        assert(cube.within(cube));
        self.lemma_cube_fits(cube);
        lemma_pow2_positive(DIM as int);
        if !(self.content(key) is Leaf) {
            let octant = cube.octant_of(position);
            assert(octant < 8);
            let child = self.child_key(key, octant);
            assert(after.child_key(key, octant) == child);
            self.lemma_child(key, octant);
            self.lemma_cube_splits(cube, octant);
            lemma_child_contains(cube, position, octant);
            let below = cube.child(octant);
            if self.auto_simplify {
                assert forall|o: u32| o < 8 implies ({
                    let c = #[trigger] self.child_key(key, o);
                    &&& after.child_key(key, o) == c
                    &&& c != key_none_value_spec() ==> after.content(c) == self.content(c) || !(
                    after.content(c) is Leaf)
                }) by {
                    let c = self.child_key(key, o);
                    if c != key_none_value_spec() {
                        self.lemma_child(key, o);
                        self.lemma_cube_splits(cube, o);
                        lemma_child_contains(cube, cube.min_position, o);
                        assert(self.cube_of(c).within(cube));
                    }
                }
                self.lemma_tidy_kept(after, key);
            }
            assert forall|k: usize| #[trigger]
                self.live(k) && self.cube_of(k).within(below) implies {
                &&& after.content(k) == self.content(k)
                &&& forall|o: u32|
                    o < 8 ==> #[trigger] after.child_key(k, o) == self.child_key(k, o)
            } by {
                assert(self.cube_of(k).within(cube));
            }
            self.lemma_way_kept(after, child, below, position, level);
        }
    }

    /// A leaf above the level of a write of at least a brick whose region
    /// holds one voxel in every position holds nothing but that voxel.
    pub(crate) proof fn lemma_region_covers_brick(
        &self,
        brick: Brick<T, DIM>,
        bounds: Cube,
        position: V3c<u32>,
        size: u32,
        data: T,
    )
        requires
            self.dims_ok(),
            self.cube_ok(bounds),
            bounds.contains(position),
            is_pow2(size as int),
            size >= DIM,
            bounds.size > level_edge(size, DIM),
            forall|p: V3c<u32>|
                region_in(bounds, position, size, DIM).contains(p) ==> #[trigger] brick_voxel(
                    brick,
                    bounds,
                    p,
                ) == data,
        ensures
            brick_is_all(brick, data),
    {
        let region = region_in(bounds, position, size, DIM);
        let d = DIM as int;
        lemma_pow2_positive(d);
        self.lemma_cube_fits(bounds);
        self.lemma_region_shape(bounds, position, size);
        lemma_pow2_divides(size as int, d);
        lemma_pow2_divides(bounds.size as int, d);
        lemma_aligned_to_part(region.min_position.x as int, size as int, d);
        lemma_aligned_to_part(region.min_position.y as int, size as int, d);
        lemma_aligned_to_part(region.min_position.z as int, size as int, d);
        lemma_aligned_to_part(bounds.min_position.x as int, bounds.size as int, d);
        lemma_aligned_to_part(bounds.min_position.y as int, bounds.size as int, d);
        lemma_aligned_to_part(bounds.min_position.z as int, bounds.size as int, d);
        lemma_aligned_difference(region.min_position.x as int, bounds.min_position.x as int, d);
        lemma_aligned_difference(region.min_position.y as int, bounds.min_position.y as int, d);
        lemma_aligned_difference(region.min_position.z as int, bounds.min_position.z as int, d);
        assert forall|x: int| 0 <= x < DIM implies plane_is_all(#[trigger] brick[x], data) by {
            assert forall|y: int| 0 <= y < DIM implies row_is_all(
                #[trigger] brick[x][y],
                data,
            ) by {
                assert forall|z: int| 0 <= z < DIM implies #[trigger] brick[x][y][z] == data by {
                    let q = V3c {
                        x: (region.min_position.x + x) as u32,
                        y: (region.min_position.y + y) as u32,
                        z: (region.min_position.z + z) as u32,
                    };
                    assert(region.contains(q));
                    assert(bounds.contains(q));
                    lemma_mod_shift(x, region.min_position.x - bounds.min_position.x, d);
                    lemma_mod_shift(y, region.min_position.y - bounds.min_position.y, d);
                    lemma_mod_shift(z, region.min_position.z - bounds.min_position.z, d);
                    vstd::arithmetic::div_mod::lemma_small_mod(x as nat, d as nat);
                    vstd::arithmetic::div_mod::lemma_small_mod(y as nat, d as nat);
                    vstd::arithmetic::div_mod::lemma_small_mod(z as nat, d as nat);
                    let index = mat_index_spec::<DIM>(bounds, q);
                    assert(index.x == x && index.y == y && index.z == z);
                    assert(brick_voxel(brick, bounds, q) == data);
                }
            }
        }
    }
}

} // verus!
