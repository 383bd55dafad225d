//! Insertion and clearing.

use crate::object_pool::{key_might_be_valid, key_none_value_spec};
use crate::octree::brick::{brick_all, brick_is_all};
use crate::octree::detail::{
    bound_contains, brick_voxel, child_octant_for, is_pow2, lemma_pow2_positive, level_edge,
    region_in, ROOT_NODE_KEY,
};
use crate::octree::is_power_of_two;
use crate::octree::path::off_path;
use crate::octree::reshape::lemma_uniform_brick_voxel;
use crate::octree::steps::cleared;
use crate::octree::types::{Error, NodeContent, Octree, VoxelData};
use crate::spatial::math::vector::V3c;
use crate::spatial::{lemma_child_contains, Cube};
use vstd::prelude::*;

verus! {

impl<T: VoxelData, const DIM: usize> Octree<T, DIM> {
    /// The region of a write lies in the cube from which the write starts.
    pub(crate) proof fn lemma_region_within(&self, cube: Cube, position: V3c<u32>, size: u32)
        requires
            self.dims_ok(),
            self.cube_ok(cube),
            cube.contains(position),
            size >= 1,
        ensures
            region_in(cube, position, size, DIM).within(cube),
        decreases cube.size,
    {
        lemma_pow2_positive(DIM as int);
        self.lemma_cube_fits(cube);
        if cube.size > level_edge(size, DIM) {
            let octant = cube.octant_of(position);
            self.lemma_cube_splits(cube, octant);
            lemma_child_contains(cube, position, octant);
            self.lemma_region_within(cube.child(octant), position, size);
        }
    }

    /// Goes down from the root towards the position to the level of a
    /// write of edge `insert_size`, making the way where there is none: a
    /// leaf on the way is refined, a missing node is added. Stops early at
    /// a leaf whose voxels all equal `data` already. Returns the nodes it
    /// passed, with their cubes, and whether it reached the level of the
    /// write.
    pub(crate) fn descend_for_insert(
        &mut self,
        position: &V3c<u32>,
        insert_size: u32,
        data: &T,
    ) -> (found: (Vec<(usize, Cube)>, bool))
        requires
            old(self).inv(),
            old(self).root_cube().contains(*position),
            is_pow2(insert_size as int),
        ensures
            old(self).quiet_at(
                region_in(old(self).root_cube(), *position, insert_size, DIM),
                *position,
                insert_size,
                *data,
            ) ==> *final(self) == *old(self),
            forall|index: int|
                0 <= index < found.0@.len() - 1 ==> (#[trigger] found.0@[index]).1.size
                    > level_edge(insert_size, DIM),
            final(self).inv(),
            old(self).same_frame(final(self)),
            forall|p: V3c<u32>| #[trigger] final(self).stored(p) == old(self).stored(p),
            final(self).path_ok(found.0@, *position),
            ({
                let (key, bounds) = found.0@.last();
                &&& region_in(bounds, *position, insert_size, DIM) == region_in(
                    old(self).root_cube(),
                    *position,
                    insert_size,
                    DIM,
                )
                &&& found.1 ==> bounds.size <= level_edge(insert_size, DIM)
                &&& !found.1 ==> (final(self).content(key) matches NodeContent::Leaf(brick)
                    && brick_is_all(brick, *data))
                &&& region_in(bounds, *position, level_edge(insert_size, DIM) as u32, DIM)
                    == region_in(
                    old(self).root_cube(),
                    *position,
                    level_edge(insert_size, DIM) as u32,
                    DIM,
                )
            }),
            old(self).is_simplified() ==> forall|k: usize|
                final(self).live(k) && off_path(found.0@, k) ==> !#[trigger] final(self).collapsible(k),
    {
        proof {
            assert(self.node_ok(ROOT_NODE_KEY));
            self.lemma_cube_fits(self.root_cube());
            lemma_pow2_positive(DIM as int);
            lemma_pow2_positive(insert_size as int);
        }
        let ghost held = old(self).quiet_at(
            region_in(old(self).root_cube(), *position, insert_size, DIM),
            *position,
            insert_size,
            *data,
        );
        let root_bounds = Cube::root_bounds(self.octree_size);
        let mut node_stack: Vec<(usize, Cube)> = Vec::new();
        node_stack.push((ROOT_NODE_KEY, root_bounds));
        assert(self.step_ok(node_stack@, 0, *position));
        let limit: u32 = if insert_size as usize > DIM {
            insert_size
        } else {
            DIM as u32
        };
        proof {
            old(self).lemma_is_simplified();
        }
        loop
            invariant
                self.inv(),
                old(self).same_frame(self),
                forall|p: V3c<u32>| #[trigger] self.stored(p) == old(self).stored(p),
                self.path_ok(node_stack@, *position),
                limit == level_edge(insert_size, DIM),
                level_edge(limit, DIM) == limit,
                insert_size >= 1,
                is_pow2(insert_size as int),
                held == old(self).quiet_at(
                    region_in(old(self).root_cube(), *position, insert_size, DIM),
                    *position,
                    insert_size,
                    *data,
                ),
                held ==> *self == *old(self),
                forall|index: int|
                    0 <= index < node_stack@.len() - 1 ==> (#[trigger] node_stack@[index]).1.size
                        > limit,
                region_in(node_stack@.last().1, *position, insert_size, DIM) == region_in(
                    old(self).root_cube(),
                    *position,
                    insert_size,
                    DIM,
                ),
                region_in(node_stack@.last().1, *position, limit, DIM) == region_in(
                    old(self).root_cube(),
                    *position,
                    limit,
                    DIM,
                ),
                old(self).is_simplified() ==> forall|k: usize|
                    self.live(k) && off_path(node_stack@, k) ==> !#[trigger] self.collapsible(k),
            decreases node_stack@.last().1.size,
        {
            let ghost before = *self;
            let ghost stack = node_stack@;
            let (key, bounds) = node_stack[node_stack.len() - 1];
            proof {
                assert(self.step_ok(stack, stack.len() - 1, *position));
                assert(self.node_ok(key));
                self.lemma_cube_fits(bounds);
                self.nodes.lemma_live_key_is_a_slot(key);
            }
            if bounds.size <= limit {
                return (node_stack, true);
            }
            let octant = child_octant_for(&bounds, position);
            proof {
                self.lemma_cube_splits(bounds, octant);
                lemma_child_contains(bounds, *position, octant);
            }
            let child_bounds = bounds.child_bounds_for(octant);
            let child = *self.node_children[key].index(octant);
            let next = if key_might_be_valid(child) {
                proof {
                    self.lemma_child(key, octant);
                }
                child
            } else {
                let content = *self.nodes.get(key);
                match content {
                    NodeContent::Leaf(brick) => {
                        if brick_all(&brick, data) {
                            return (node_stack, false);
                        }
                        proof {
                            if held {
                                before.lemma_region_shape(bounds, *position, insert_size);
                                before.lemma_lookup_through(key, *position);
                                assert(before.stored(*position) == Some(*data));
                                assert(before.holds_in(key, *position));
                                if insert_size >= DIM {
                                    before.lemma_region_within(bounds, *position, insert_size);
                                    assert forall|p: V3c<u32>|
                                        region_in(bounds, *position, insert_size, DIM).contains(
                                            p,
                                        ) implies #[trigger] brick_voxel(brick, bounds, p)
                                        == *data by {
                                        before.lemma_lookup_through(key, p);
                                        assert(before.stored(p) == Some(*data));
                                    }
                                    before.lemma_region_covers_brick(
                                        brick,
                                        bounds,
                                        *position,
                                        insert_size,
                                        *data,
                                    );
                                }
                            }
                        }
                        self.make_uniform_children(key, bounds.size);
                        proof {
                            assert forall|index: int| 0 <= index < stack.len() implies self.live(
                                #[trigger] stack[index].0,
                            ) && self.places@[stack[index].0] == before.places@[stack[index].0] by {
                                assert(before.step_ok(stack, index, *position));
                                if stack[index].0 != key {
                                    assert(before.kept(self, stack[index].0));
                                }
                            }
                            before.lemma_path_kept(self, stack, *position);
                            self.nodes.lemma_live_key_is_a_slot(key);
                        }
                        let made = *self.node_children[key].index(octant);
                        proof {
                            self.lemma_child(key, octant);
                        }
                        made
                    },
                    _ => {
                        proof {
                            if held {
                                before.lemma_region_shape(bounds, *position, insert_size);
                                before.lemma_lookup_through(key, *position);
                                assert(before.stored(*position) == Some(*data));
                            }
                        }
                        let made = self.add_empty_child(key, octant);
                        proof {
                            assert forall|index: int| 0 <= index < stack.len() implies self.live(
                                #[trigger] stack[index].0,
                            ) && self.places@[stack[index].0] == before.places@[stack[index].0] by {
                                assert(before.step_ok(stack, index, *position));
                            }
                            before.lemma_path_kept(self, stack, *position);
                            assert(self.node_ok(made));
                        }
                        made
                    },
                }
            };
            node_stack.push((next, child_bounds));
            proof {
                let longer = node_stack@;
                if old(self).is_simplified() {
                    assert forall|k: usize|
                        self.live(k) && off_path(longer, k) implies !#[trigger] self.collapsible(
                        k,
                    ) by {
                        assert(off_path(stack, k)) by {
                            assert forall|index: int| 0 <= index < stack.len() implies stack[index].0
                                != k by {
                                assert(longer[index] == stack[index]);
                            }
                        }
                        assert(longer[stack.len() as int].0 == next);
                        assert(stack[stack.len() - 1].0 == key);
                        assert(k != key && k != next);
                        if before.live(k) {
                            assert(!before.collapsible(k));
                        }
                    }
                }
                assert forall|index: int| 0 <= index < longer.len() implies #[trigger] self.step_ok(
                    longer,
                    index,
                    *position,
                ) by {
                    if index < stack.len() {
                        assert(self.step_ok(stack, index, *position));
                        assert(longer[index] == stack[index]);
                        if index > 0 {
                            assert(longer[index - 1] == stack[index - 1]);
                        }
                    } else {
                        assert(longer[index - 1] == stack[stack.len() - 1]);
                        assert(self.node_ok(ROOT_NODE_KEY));
                        assert(self.node_ok(next));
                    }
                }
            }
        }
    }

    /// Sets the voxel at the position.
    pub fn insert(&mut self, position: &V3c<u32>, data: T) -> (done: Result<(), Error>)
        requires
            old(self).wf(),
        ensures
            match done {
                Ok(()) => {
                    &&& old(self).in_bounds(*position)
                    &&& final(self).wf()
                    &&& final(self).size() == old(self).size()
                    &&& forall|p: V3c<u32>| #[trigger]
                        final(self).voxel_at(p) == if p == *position {
                            data
                        } else {
                            old(self).voxel_at(p)
                        }
                    &&& old(self).filled(final(self), old(self).lod_region(*position, 1), data)
                    &&& final(self).simplifies() == old(self).simplifies()
                    &&& forall|p: V3c<u32>| #[trigger]
                        final(self).is_stored(p) == (old(self).is_stored(p) || old(self).lod_region(*position, Self::level_of(1)).contains(p))
                    &&& old(self).is_simplified() && old(self).simplifies() ==> final(self).is_simplified()
                    &&& final(self).settled_at(*position, 1)
                    &&& old(self).settled_at(*position, 1) && old(self).holds_already(
                        old(self).lod_region(*position, 1),
                        data,
                    ) && (1 >= DIM || old(self).stored_in_brick(*position)) ==> old(self).same_nodes(final(self))
                },
                Err(error) => {
                    &&& *final(self) == *old(self)
                    &&& !old(self).in_bounds(*position)
                    &&& error == Error::InvalidPosition {
                        x: position.x,
                        y: position.y,
                        z: position.z,
                    }
                },
            },
    {
        assert(is_pow2(1));
        proof {
            if self.in_bounds(*position) {
                assert forall|p: V3c<u32>|
                    self.lod_region(*position, 1).contains(p) <==> p == *position by {
                    self.lemma_single_region(*position, p);
                }
            }
        }
        self.insert_at_lod(position, 1, data)
    }

    /// Whether every voxel of the region is stored and is `data`, and no
    /// leaf above the level of the bricks, unless a brick is one voxel, holds
    /// the position: a write of `data` for the position to the region then
    /// finds its way made.
    pub(crate) open spec fn quiet_at(
        &self,
        region: Cube,
        position: V3c<u32>,
        size: u32,
        data: T,
    ) -> bool {
        &&& forall|p: V3c<u32>| region.contains(p) ==> #[trigger] self.stored(p) == Some(data)
        &&& size >= DIM || forall|key: usize| #[trigger]
            self.holds_in(key, position) ==> self.cube_of(key).size == DIM
    }

    /// The same, on a way that is settled.
    pub(crate) open spec fn settled_with(
        &self,
        region: Cube,
        position: V3c<u32>,
        size: u32,
        data: T,
    ) -> bool {
        &&& self.way_settled(
            ROOT_NODE_KEY,
            self.root_cube(),
            position,
            level_edge(size, DIM),
        )
        &&& self.quiet_at(region, position, size, data)
    }

    /// The first part of an insertion: goes down to the level of the write
    /// and fills its region there. Returns the nodes it passed, with their
    /// cubes, and what the last of them recorded as its population before
    /// and records now.
    pub(crate) fn insert_region(&mut self, position: &V3c<u32>, insert_size: u32, data: T) -> (found:
        (Vec<(usize, Cube)>, u32, u32))
        requires
            old(self).inv(),
            old(self).root_cube().contains(*position),
            is_pow2(insert_size as int),
        ensures
            final(self).structure_ok(),
            old(self).same_frame(final(self)),
            final(self).path_ok(found.0@, *position),
            final(self).pending(found.0@.last().0, found.1, found.2),
            final(self).content(found.0@.last().0) is Leaf,
            forall|p: V3c<u32>| #[trigger]
                final(self).stored(p) == if region_in(
                    old(self).root_cube(),
                    *position,
                    Self::level_of(insert_size),
                    DIM,
                ).contains(p) {
                    Some(
                        if region_in(old(self).root_cube(), *position, insert_size, DIM).contains(
                            p,
                        ) {
                            data
                        } else {
                            old(self).voxel(p)
                        },
                    )
                } else {
                    old(self).stored(p)
                },
            old(self).is_simplified() ==> forall|k: usize|
                final(self).live(k) && off_path(found.0@.take(found.0@.len() - 1), k)
                    ==> !#[trigger] final(self).collapsible(k),
            old(self).settled_with(
                region_in(old(self).root_cube(), *position, insert_size, DIM),
                *position,
                insert_size,
                data,
            ) ==> old(self).alike(final(self)) && found.1 == found.2 && forall|index: int|
                0 <= index < found.0@.len() - 1 && old(self).auto_simplify ==> !old(self).collapsible((#[trigger] found.0@[index]).0),
            forall|index: int|
                0 <= index < found.0@.len() - 1 ==> (#[trigger] found.0@[index]).1.size
                    > level_edge(insert_size, DIM),
    {
        proof {
            self.lemma_is_simplified();
            assert(self.node_ok(ROOT_NODE_KEY));
            self.lemma_cube_fits(self.root_cube());
            lemma_pow2_positive(DIM as int);
            lemma_pow2_positive(insert_size as int);
        }
        let ghost level = Self::level_of(insert_size);
        let ghost region = region_in(self.root_cube(), *position, insert_size, DIM);
        let ghost node_region = region_in(self.root_cube(), *position, level, DIM);
        let ghost held = old(self).settled_with(region, *position, insert_size, data);
        let (node_stack, reached) = self.descend_for_insert(position, insert_size, &data);
        let ghost lowered = *self;
        let ghost stack = node_stack@;
        let (key, bounds) = node_stack[node_stack.len() - 1];
        proof {
            assert(lowered.step_ok(stack, stack.len() - 1, *position));
            assert(lowered.node_ok(key));
            lowered.lemma_cube_fits(bounds);
            lowered.lemma_region_within(bounds, *position, insert_size);
            lowered.lemma_region_within(bounds, *position, level);
            if held {
                assert(lowered == *old(self));
                assert forall|index: int|
                    0 <= index < stack.len() - 1 && lowered.auto_simplify implies !lowered.collapsible(
                    (#[trigger] stack[index]).0,
                ) by {
                    lowered.lemma_way_along(stack, *position, level as int, index);
                    lowered.lemma_path_step(stack, *position, index);
                }
                if reached {
                    lowered.lemma_way_along(stack, *position, level as int, stack.len() - 1);
                    assert(lowered.content(key) is Leaf);
                }
            }
        }
        let (before, now) = if reached {
            self.write_target(key, &bounds, position, insert_size, data)
        } else {
            (0, 0)
        };
        proof {
            let written = *self;
            if held {
                if reached {
                    assert forall|p: V3c<u32>| bounds.contains(p) implies #[trigger] written.stored(
                        p,
                    ) == lowered.stored(p) by {
                        lowered.lemma_lookup_through(key, p);
                    }
                }
                assert(old(self).alike(&written));
            }
            if reached {
                lowered.lemma_path_replaced(&written, stack, *position, true);
                assert(node_region == bounds);
            } else {
                lowered.lemma_nothing_pending(key);
                let brick = lowered.content(key)->Leaf_0;
                assert forall|p: V3c<u32>| bounds.contains(p) implies #[trigger] lowered.stored(p)
                    == Some(data) by {
                    lowered.lemma_lookup_through(key, p);
                    lemma_uniform_brick_voxel(brick, data, bounds, p);
                }
            }
            assert forall|p: V3c<u32>| #[trigger]
                written.stored(p) == if node_region.contains(p) {
                    Some(
                        if region.contains(p) {
                            data
                        } else {
                            old(self).voxel(p)
                        },
                    )
                } else {
                    old(self).stored(p)
                } by {
                assert(lowered.stored(p) == old(self).stored(p));
            }
            if old(self).is_simplified() {
                assert forall|k: usize|
                    written.live(k) && off_path(stack.take(stack.len() - 1), k)
                        implies !#[trigger] written.collapsible(k) by {
                    lowered.lemma_written_tidy(&written, stack, *position, reached, k);
                }
            }
        }
        (node_stack, before, now)
    }

    /// After the write of an insertion, a node off the way to the written
    /// node that could not be collapsed before, or is the written node,
    /// cannot be collapsed.
    pub(crate) proof fn lemma_written_tidy(
        &self,
        written: &Self,
        stack: Seq<(usize, Cube)>,
        position: V3c<u32>,
        reached: bool,
        k: usize,
    )
        requires
            self.structure_ok(),
            written.structure_ok(),
            self.path_ok(stack, position),
            forall|other: usize|
                self.live(other) && off_path(stack, other) ==> !#[trigger] self.collapsible(other),
            reached ==> self.replaced(written, stack.last().0, true) && forall|other: usize|
                written.live(other) && (stack.last().0 == ROOT_NODE_KEY || other
                    != self.places@[stack.last().0].parent) && (other == stack.last().0
                    || !self.collapsible(other)) ==> !#[trigger] written.collapsible(other),
            !reached ==> *written == *self,
            written.content(stack.last().0) is Leaf,
            written.live(k),
            off_path(stack.take(stack.len() - 1), k),
        ensures
            !written.collapsible(k),
    {
        let key = stack.last().0;
        assert(self.step_ok(stack, stack.len() - 1, position));
        if k == key {
            assert(written.node_ok(key));
            assert(written.childless(key));
            assert(written.child_key(key, 0) == key_none_value_spec());
            written.lemma_tidy_by_child(key, 0);
        } else {
            assert(off_path(stack, k)) by {
                assert forall|index: int| 0 <= index < stack.len() implies stack[index].0
                    != k by {
                    if index < stack.len() - 1 {
                        assert(stack.take(stack.len() - 1)[index] == stack[index]);
                    }
                }
            }
            if reached {
                assert(self.live(k));
                assert(!self.collapsible(k));
                if key != ROOT_NODE_KEY {
                    self.lemma_path_step(stack, position, stack.len() - 2);
                }
            }
        }
    }

    /// The last part of an insertion: brings the nodes above the written
    /// node up to date, from the lowest to the root. Each gets its count
    /// corrected; with `auto_simplify` set, each is collapsed if it can be,
    /// until one cannot.
    pub(crate) fn settle_path_after_insert(
        &mut self,
        node_stack: &Vec<(usize, Cube)>,
        before: u32,
        now: u32,
        Ghost(position): Ghost<V3c<u32>>,
        Ghost(origin): Ghost<Self>,
        Ghost(was_simplified): Ghost<bool>,
        Ghost(held): Ghost<bool>,
        Ghost(level): Ghost<int>,
    )
        requires
            old(self).structure_ok(),
            old(self).path_ok(node_stack@, position),
            old(self).pending(node_stack@.last().0, before, now),
            old(self).content(node_stack@.last().0) is Leaf,
            forall|index: int|
                0 <= index < node_stack@.len() - 1 ==> (#[trigger] node_stack@[index]).1.size
                    > level,
            was_simplified ==> forall|k: usize|
                old(self).live(k) && off_path(node_stack@.take(node_stack@.len() - 1), k)
                    ==> !#[trigger] old(self).collapsible(k),
            held ==> origin.structure_ok() && origin.alike(old(self)) && before == now
                && origin.same_frame(old(self)) && forall|index: int|
                0 <= index < node_stack@.len() - 1 && origin.auto_simplify ==> !origin.collapsible(
                    (#[trigger] node_stack@[index]).0,
                ),
        ensures
            final(self).way_settled(ROOT_NODE_KEY, final(self).root_cube(), position, level),
            final(self).inv(),
            old(self).same_frame(final(self)),
            forall|p: V3c<u32>| #[trigger] final(self).stored(p) == old(self).stored(p),
            was_simplified && old(self).auto_simplify ==> final(self).is_simplified(),
            held ==> origin.alike(final(self)),
    {
        let ghost stack = node_stack@;
        let ghost written = *self;
        let mut simplifiable = self.auto_simplify;
        let mut remaining: usize = node_stack.len() - 1;
        proof {
            written.lemma_path_prefix(stack, position, remaining + 1);
            assert(stack.take(remaining + 1) =~= stack);
        }
        while remaining > 0
            invariant
                remaining < node_stack.len(),
                stack == node_stack@,
                self.structure_ok(),
                written.same_frame(self),
                forall|p: V3c<u32>| #[trigger] self.stored(p) == written.stored(p),
                self.path_ok(stack.take(remaining + 1), position),
                self.pending(stack[remaining as int].0, before, now),
                self.auto_simplify && !simplifiable ==> !(self.content(
                    stack[remaining as int].0,
                ) is Leaf),
                !self.auto_simplify ==> !simplifiable,
                was_simplified && self.auto_simplify ==> forall|k: usize|
                    self.live(k) && off_path(stack.take(remaining as int), k)
                        ==> !#[trigger] self.collapsible(k),
                held ==> origin.structure_ok() && origin.alike(self) && before == now,
                held ==> origin.same_frame(self),
                held ==> forall|index: int|
                    0 <= index < stack.len() - 1 && origin.auto_simplify ==> !origin.collapsible(
                        (#[trigger] stack[index]).0,
                    ),
                forall|index: int|
                    0 <= index < stack.len() - 1 ==> (#[trigger] stack[index]).1.size > level,
                self.way_settled(
                    stack[remaining as int].0,
                    stack[remaining as int].1,
                    position,
                    level,
                ),
            decreases remaining,
        {
            let ghost current = *self;
            let ghost shown = stack.take(remaining + 1);
            let (node, node_bounds) = node_stack[remaining - 1];
            proof {
                current.lemma_path_step(shown, position, remaining - 1);
                let below = stack[remaining as int].0;
                assert(shown[remaining as int] == stack[remaining as int]);
                assert(shown[remaining - 1] == stack[remaining - 1]);
                assert(current.places@[below].parent == node);
                assert forall|k: usize| current.live(k) && k != node implies #[trigger] current.count_ok(
                    k,
                ) by {}
                if current.auto_simplify && !simplifiable {
                    current.lemma_tidy_by_child(node, node_bounds.octant_of(position));
                }
                if held && current.auto_simplify {
                    assert(stack[remaining - 1].0 == node);
                    assert(origin.auto_simplify == current.auto_simplify);
                    origin.lemma_alike_tidy(&current, node);
                }
            }
            let simplified = self.settle_after_insert(
                node,
                node_bounds.size,
                simplifiable,
                before,
                now,
            );
            simplifiable = simplified;
            proof {
                current.lemma_path_prefix(shown, position, remaining as int);
                assert(shown.take(remaining as int) =~= stack.take(remaining as int));
                current.lemma_path_replaced(
                    self,
                    stack.take(remaining as int),
                    position,
                    simplified,
                );
                if held {
                    assert(!simplified);
                    origin.lemma_alike_settled(&current, self, node);
                }
                if !simplified {
                    let below = stack[remaining as int];
                    assert forall|k: usize| #[trigger]
                        current.live(k) && current.cube_of(k).within(below.1) implies {
                        &&& self.content(k) == current.content(k)
                        &&& forall|o: u32|
                            o < 8 ==> #[trigger] self.child_key(k, o) == current.child_key(k, o)
                    } by {
                        assert(k != node);
                        assert(self.live(k) == (current.live(k) && !(false && current.under(
                            k,
                            node,
                        ))));
                        assert(current.kept(self, k));
                    }
                    assert(current.step_ok(shown, remaining as int, position));
                    current.lemma_way_kept(self, below.0, below.1, position, level);
                    current.lemma_path_step(shown, position, remaining - 1);
                    let octant = node_bounds.octant_of(position);
                    assert(self.child_key(node, octant) == current.child_key(node, octant));
                    assert(shown[remaining - 1] == stack[remaining - 1]);
                    assert(below.1 == node_bounds.child(octant));
                    assert(self.auto_simplify ==> !self.collapsible(node));
                    assert(self.way_settled(node, node_bounds, position, level));
                } else {
                    assert(self.way_settled(node, node_bounds, position, level));
                }
                if was_simplified && self.auto_simplify {
                    assert forall|k: usize|
                        self.live(k) && off_path(stack.take(remaining - 1), k)
                            implies !#[trigger] self.collapsible(k) by {
                        if k != node {
                            assert(off_path(stack.take(remaining as int), k)) by {
                                assert forall|index: int|
                                    0 <= index < remaining implies stack.take(
                                    remaining as int,
                                )[index].0 != k by {
                                    if index < remaining - 1 {
                                        assert(stack.take(remaining - 1)[index] == stack[index]);
                                    }
                                }
                            }
                            assert(current.live(k));
                            assert(!current.collapsible(k));
                            if remaining > 1 {
                                current.lemma_path_step(shown, position, remaining - 2);
                                assert(shown[remaining - 2] == stack[remaining - 2]);
                                assert(stack.take(remaining - 1)[remaining - 2] == stack[remaining
                                    - 2]);
                            } else {
                                assert(current.step_ok(shown, 0, position));
                            }
                        }
                    }
                }
            }
            remaining = remaining - 1;
        }
        proof {
            assert(self.step_ok(stack.take(1), 0, position));
            assert(stack.take(1)[0] == stack[0]);
            assert(stack[0].0 == ROOT_NODE_KEY);
            assert(self.node_ok(ROOT_NODE_KEY));
            assert(stack[0].1 == self.root_cube());
            assert forall|k: usize| self.live(k) implies #[trigger] self.count_ok(k) by {}
            self.lemma_is_simplified();
            if was_simplified && self.auto_simplify {
                assert forall|k: usize| self.live(k) implies !#[trigger] self.collapsible(k) by {
                    assert(off_path(stack.take(0), k));
                }
            }
        }
    }

    /// Sets every voxel in the cube that a write of edge `insert_size` for
    /// `position` fills. The edge has to be a power of two, the position
    /// inside the volume; else nothing changes. On the way the octree
    /// refines the leaves that the write takes apart and adds the nodes
    /// that are missing; afterwards it corrects the counts of the nodes
    /// above and, if `auto_simplify` is set, collapses those that are left
    /// with eight leaves whose bricks are equal.
    pub fn insert_at_lod(&mut self, position: &V3c<u32>, insert_size: u32, data: T) -> (done:
        Result<(), Error>)
        requires
            old(self).wf(),
        ensures
            match done {
                Ok(()) => {
                    &&& is_pow2(insert_size as int)
                    &&& old(self).in_bounds(*position)
                    &&& old(self).lod_region(*position, insert_size).contains(*position)
                    &&& old(self).filled(
                        final(self),
                        old(self).lod_region(*position, insert_size),
                        data,
                    )
                    &&& final(self).simplifies() == old(self).simplifies()
                    &&& forall|p: V3c<u32>| #[trigger]
                        final(self).is_stored(p) == (old(self).is_stored(p) || old(self).lod_region(*position, Self::level_of(insert_size)).contains(p))
                    &&& old(self).is_simplified() && old(self).simplifies() ==> final(self).is_simplified()
                    &&& final(self).settled_at(*position, insert_size)
                    &&& old(self).settled_at(*position, insert_size) && old(self).holds_already(
                        old(self).lod_region(*position, insert_size),
                        data,
                    ) && (insert_size >= DIM || old(self).stored_in_brick(*position)) ==> old(self).same_nodes(final(self))
                },
                Err(error) => {
                    &&& *final(self) == *old(self)
                    &&& if !is_pow2(insert_size as int) {
                        error == Error::InvalidNodeSize(insert_size)
                    } else {
                        &&& !old(self).in_bounds(*position)
                        &&& error == Error::InvalidPosition {
                            x: position.x,
                            y: position.y,
                            z: position.z,
                        }
                    }
                },
            },
    {
        proof {
            self.lemma_public_model();
            self.lemma_is_simplified();
            self.lemma_settled_at(*position, insert_size);
            assert(self.node_ok(ROOT_NODE_KEY));
            self.lemma_cube_fits(self.root_cube());
        }
        if !is_power_of_two(insert_size) {
            return Err(Error::InvalidNodeSize(insert_size));
        }
        let root_bounds = Cube::root_bounds(self.octree_size);
        if !bound_contains(&root_bounds, position) {
            return Err(Error::InvalidPosition { x: position.x, y: position.y, z: position.z });
        }
        let ghost region = region_in(self.root_cube(), *position, insert_size, DIM);
        let ghost held = old(self).settled_at(*position, insert_size) && old(self).holds_already(
            region,
            data,
        ) && (insert_size >= DIM || old(self).stored_in_brick(*position));
        proof {
            self.lemma_region_shape(self.root_cube(), *position, insert_size);
            if held {
                assert forall|p: V3c<u32>| region.contains(p) implies #[trigger] old(self).stored(
                    p,
                ) == Some(data) by {
                    assert(old(self).is_stored(p) && old(self).voxel_at(p) == data);
                }
            }
        }
        let (node_stack, before, now) = self.insert_region(position, insert_size, data);
        let ghost written = *self;
        self.settle_path_after_insert(
            &node_stack,
            before,
            now,
            Ghost(*position),
            Ghost(*old(self)),
            Ghost(old(self).is_simplified()),
            Ghost(held),
            Ghost(level_edge(insert_size, DIM)),
        );
        proof {
            self.lemma_public_model();
            old(self).lemma_public_model();
            assert forall|p: V3c<u32>| #[trigger]
                self.voxel_at(p) == if region.contains(p) {
                    data
                } else {
                    old(self).voxel_at(p)
                } by {
                assert(self.stored(p) == written.stored(p));
                old(self).lemma_region_in_node(old(self).root_cube(), *position, insert_size);
            }
            assert forall|p: V3c<u32>| #[trigger]
                self.is_stored(p) == (old(self).is_stored(p) || old(self).lod_region(
                    *position,
                    Self::level_of(insert_size),
                ).contains(p)) by {
                assert(self.stored(p) == written.stored(p));
            }
            if held {
                assert forall|k: usize| #[trigger] self.is_node(k) == old(self).is_node(k) by {
                    assert(self.live(k) == old(self).live(k));
                }
            }
            self.lemma_settled_at(*position, insert_size);
        }
        Ok(())
    }

    /// Goes down from the root towards the position to the level of a
    /// clearing of edge `clear_size`; a leaf on the way is refined. Stops
    /// early where the way ends at a node that is no leaf. Returns the
    /// nodes it passed, with their cubes, and whether it reached the level
    /// of the clearing.
    pub(crate) fn descend_for_clear(&mut self, position: &V3c<u32>, clear_size: u32) -> (found: (
        Vec<(usize, Cube)>,
        bool,
    ))
        requires
            old(self).inv(),
            old(self).root_cube().contains(*position),
            clear_size >= 1,
        ensures
            final(self).inv(),
            old(self).same_frame(final(self)),
            forall|p: V3c<u32>| #[trigger] final(self).stored(p) == old(self).stored(p),
            final(self).path_ok(found.0@, *position),
            final(self).content(ROOT_NODE_KEY) is Nothing ==> old(self).content(
                ROOT_NODE_KEY,
            ) is Nothing,
            old(self).root_cube().size <= level_edge(clear_size, DIM) ==> found.0@.len() == 1
                && found.1 && *final(self) == *old(self),
            old(self).root_cube().size > level_edge(clear_size, DIM) && found.1 ==> found.0@.len()
                > 1,
            ({
                let (key, bounds) = found.0@.last();
                &&& region_in(bounds, *position, clear_size, DIM) == region_in(
                    old(self).root_cube(),
                    *position,
                    clear_size,
                    DIM,
                )
                &&& found.1 ==> bounds.size <= level_edge(clear_size, DIM)
                &&& !found.1 ==> {
                    &&& bounds.size > level_edge(clear_size, DIM)
                    &&& !(final(self).content(key) is Leaf)
                    &&& final(self).child_key(key, bounds.octant_of(*position))
                        == key_none_value_spec()
                }
            }),
    {
        proof {
            assert(self.node_ok(ROOT_NODE_KEY));
            self.lemma_cube_fits(self.root_cube());
            lemma_pow2_positive(DIM as int);
        }
        let root_bounds = Cube::root_bounds(self.octree_size);
        let mut node_stack: Vec<(usize, Cube)> = Vec::new();
        node_stack.push((ROOT_NODE_KEY, root_bounds));
        assert(self.step_ok(node_stack@, 0, *position));
        let limit: u32 = if clear_size as usize > DIM {
            clear_size
        } else {
            DIM as u32
        };
        loop
            invariant
                self.inv(),
                old(self).same_frame(self),
                forall|p: V3c<u32>| #[trigger] self.stored(p) == old(self).stored(p),
                self.path_ok(node_stack@, *position),
                limit == level_edge(clear_size, DIM),
                clear_size >= 1,
                self.content(ROOT_NODE_KEY) is Nothing ==> old(self).content(
                    ROOT_NODE_KEY,
                ) is Nothing,
                node_stack@.len() == 1 ==> *self == *old(self) && node_stack@[0].1
                    == old(self).root_cube(),
                node_stack@.len() > 1 ==> old(self).root_cube().size > limit,
                region_in(node_stack@.last().1, *position, clear_size, DIM) == region_in(
                    old(self).root_cube(),
                    *position,
                    clear_size,
                    DIM,
                ),
            decreases node_stack@.last().1.size,
        {
            let ghost before = *self;
            let ghost stack = node_stack@;
            let (key, bounds) = node_stack[node_stack.len() - 1];
            proof {
                assert(self.step_ok(stack, stack.len() - 1, *position));
                assert(self.node_ok(key));
                self.lemma_cube_fits(bounds);
                self.nodes.lemma_live_key_is_a_slot(key);
            }
            if bounds.size <= limit {
                return (node_stack, true);
            }
            let octant = child_octant_for(&bounds, position);
            proof {
                self.lemma_cube_splits(bounds, octant);
                lemma_child_contains(bounds, *position, octant);
            }
            let child_bounds = bounds.child_bounds_for(octant);
            let child = *self.node_children[key].index(octant);
            let next = if key_might_be_valid(child) {
                proof {
                    self.lemma_child(key, octant);
                }
                child
            } else {
                if !self.nodes.get(key).is_leaf() {
                    return (node_stack, false);
                }
                self.make_uniform_children(key, bounds.size);
                proof {
                    if key != ROOT_NODE_KEY {
                        assert(before.live(ROOT_NODE_KEY));
                        assert(before.kept(self, ROOT_NODE_KEY));
                    }
                    assert forall|index: int| 0 <= index < stack.len() implies self.live(
                        #[trigger] stack[index].0,
                    ) && self.places@[stack[index].0] == before.places@[stack[index].0] by {
                        assert(before.step_ok(stack, index, *position));
                        if stack[index].0 != key {
                            assert(before.kept(self, stack[index].0));
                        }
                    }
                    before.lemma_path_kept(self, stack, *position);
                    self.nodes.lemma_live_key_is_a_slot(key);
                }
                let made = *self.node_children[key].index(octant);
                proof {
                    self.lemma_child(key, octant);
                }
                made
            };
            node_stack.push((next, child_bounds));
            proof {
                let longer = node_stack@;
                assert forall|index: int| 0 <= index < longer.len() implies #[trigger] self.step_ok(
                    longer,
                    index,
                    *position,
                ) by {
                    if index < stack.len() {
                        assert(self.step_ok(stack, index, *position));
                        assert(longer[index] == stack[index]);
                        if index > 0 {
                            assert(longer[index - 1] == stack[index - 1]);
                        }
                    } else {
                        assert(longer[index - 1] == stack[stack.len() - 1]);
                        assert(self.node_ok(ROOT_NODE_KEY));
                        assert(self.node_ok(next));
                    }
                }
            }
        }
    }

    /// Resets the voxel at the position.
    pub fn clear(&mut self, position: &V3c<u32>) -> (done: Result<(), Error>)
        requires
            old(self).wf(),
        ensures
            match done {
                Ok(()) => {
                    &&& old(self).in_bounds(*position)
                    &&& final(self).wf()
                    &&& final(self).size() == old(self).size()
                    &&& forall|p: V3c<u32>| #[trigger]
                        final(self).voxel_at(p) == if p == *position {
                            T::empty_value()
                        } else {
                            old(self).voxel_at(p)
                        }
                    &&& old(self).filled(
                        final(self),
                        old(self).lod_region(*position, 1),
                        T::empty_value(),
                    )
                    &&& final(self).simplifies() == old(self).simplifies()
                    &&& 1 >= DIM && old(self).size() <= 1 ==> final(self).only_root()
                    &&& 1 >= DIM && old(self).size() > 1 ==> exists|node: usize, octant: u32|
                        #![trigger final(self).node_child(node, octant)]
                        {
                            &&& final(self).is_node(node)
                            &&& octant < 8
                            &&& final(self).node_child(node, octant) == key_none_value_spec()
                            &&& old(self).lod_region(*position, 1).within(
                                final(self).node_bounds(node).child(octant),
                            )
                        }
                    &&& old(self).is_stored(*position) && old(self).size() > Self::level_of(1)
                        ==> (final(self).node_content(ROOT_NODE_KEY) matches NodeContent::Internal(
                        count,
                    ) ==> count > 0 || old(self).node_content(ROOT_NODE_KEY) is Nothing)
                    &&& forall|p: V3c<u32>| #[trigger]
                        final(self).is_stored(p) == (old(self).is_stored(p) && !(1 >= DIM && old(self).lod_region(*position, 1).contains(p)))
                },
                Err(error) => {
                    &&& *final(self) == *old(self)
                    &&& !old(self).in_bounds(*position)
                    &&& error == Error::InvalidPosition {
                        x: position.x,
                        y: position.y,
                        z: position.z,
                    }
                },
            },
    {
        assert(is_pow2(1));
        proof {
            if self.in_bounds(*position) {
                assert forall|p: V3c<u32>|
                    self.lod_region(*position, 1).contains(p) <==> p == *position by {
                    self.lemma_single_region(*position, p);
                }
            }
        }
        self.clear_at_lod(position, 1)
    }

    /// Where a clearing stops at a node that is no leaf and has no child
    /// towards the position, nothing is stored in the region of the
    /// clearing.
    pub(crate) proof fn lemma_clearing_stopped(
        &self,
        key: usize,
        bounds: Cube,
        position: V3c<u32>,
        size: u32,
    )
        requires
            self.structure_ok(),
            self.live(key),
            self.cube_of(key) == bounds,
            bounds.contains(position),
            size >= 1,
            bounds.size > level_edge(size, DIM),
            !(self.content(key) is Leaf),
            self.child_key(key, bounds.octant_of(position)) == key_none_value_spec(),
        ensures
            forall|p: V3c<u32>|
                region_in(bounds, position, size, DIM).contains(p) ==> (#[trigger] self.stored(
                    p,
                )).is_none(),
    {
        let octant = bounds.octant_of(position);
        assert(self.node_ok(key));
        self.lemma_cube_fits(bounds);
        lemma_pow2_positive(DIM as int);
        self.lemma_cube_splits(bounds, octant);
        lemma_child_contains(bounds, position, octant);
        self.lemma_region_within(bounds.child(octant), position, size);
        assert forall|p: V3c<u32>| region_in(bounds, position, size, DIM).contains(p) implies (
        #[trigger] self.stored(p)).is_none() by {
            lemma_child_contains(bounds, p, octant);
            self.lemma_lookup_through(key, p);
        }
    }

    /// The first part of a clearing: goes down to the level of the
    /// clearing and clears its region there. Returns the nodes it passed,
    /// with their cubes, and what the last of them recorded as its
    /// population before and what is left of it.
    pub(crate) fn clear_region(&mut self, position: &V3c<u32>, clear_size: u32) -> (found: (
        Vec<(usize, Cube)>,
        u32,
        u32,
        Ghost<(usize, u32)>,
    ))
        requires
            old(self).inv(),
            old(self).root_cube().contains(*position),
            is_pow2(clear_size as int),
        ensures
            final(self).structure_ok(),
            old(self).same_frame(final(self)),
            found.0@.len() >= 1,
            found.0@.len() == 1 ==> final(self).inv(),
            old(self).root_cube().size <= level_edge(clear_size, DIM) ==> found.0@.len() == 1,
            old(self).root_cube().size <= level_edge(clear_size, DIM) && clear_size >= DIM ==> {
                &&& final(self).content(ROOT_NODE_KEY) is Nothing
                &&& final(self).childless(ROOT_NODE_KEY)
                &&& forall|k: usize| #[trigger] final(self).live(k) ==> k == ROOT_NODE_KEY
            },
            old(self).root_cube().size > level_edge(clear_size, DIM) && old(self).stored(
                *position,
            ).is_some() ==> found.0@.len() > 1,
            found.0@.len() > 1 ==> (final(self).content(ROOT_NODE_KEY) is Nothing ==> old(self).content(ROOT_NODE_KEY) is Nothing),
            old(self).root_cube().size > level_edge(clear_size, DIM) && clear_size >= DIM ==> {
                let (node, octant) = found.3@;
                &&& final(self).live(node)
                &&& octant < 8
                &&& final(self).child_key(node, octant) == key_none_value_spec()
                &&& region_in(old(self).root_cube(), *position, clear_size, DIM).within(
                    final(self).cube_of(node).child(octant),
                )
            },
            found.0@.len() > 1 ==> {
                let above = found.0@.take(found.0@.len() - 1);
                &&& final(self).path_ok(above, *position)
                &&& final(self).owing(above.last().0, found.1, found.2)
                &&& forall|index: int|
                    0 <= index < above.len() ==> !(final(self).content(
                        #[trigger] above[index].0,
                    ) is Leaf)
            },
            forall|p: V3c<u32>| #[trigger]
                final(self).voxel(p) == if region_in(
                    old(self).root_cube(),
                    *position,
                    clear_size,
                    DIM,
                ).contains(p) {
                    T::empty_value()
                } else {
                    old(self).voxel(p)
                },
            forall|p: V3c<u32>|
                (#[trigger] final(self).stored(p)).is_some() == (old(self).stored(p).is_some()
                    && !(clear_size >= DIM && region_in(
                    old(self).root_cube(),
                    *position,
                    clear_size,
                    DIM,
                ).contains(p))),
    {
        proof {
            assert(self.node_ok(ROOT_NODE_KEY));
            self.lemma_cube_fits(self.root_cube());
            lemma_pow2_positive(DIM as int);
            lemma_pow2_positive(clear_size as int);
            T::lemma_empty_value_is_empty();
        }
        let ghost region = region_in(self.root_cube(), *position, clear_size, DIM);
        let (node_stack, reached) = self.descend_for_clear(position, clear_size);
        let ghost lowered = *self;
        let ghost stack = node_stack@;
        let (key, bounds) = node_stack[node_stack.len() - 1];
        let remaining: usize = node_stack.len() - 1;
        proof {
            assert(lowered.step_ok(stack, stack.len() - 1, *position));
            assert(lowered.node_ok(key));
            lowered.lemma_cube_fits(bounds);
            lowered.lemma_region_within(bounds, *position, clear_size);
            if remaining > 0 {
                lowered.lemma_path_step(stack, *position, remaining - 1);
                lowered.lemma_path_prefix(stack, *position, remaining as int);
                assert(lowered.step_ok(stack, remaining - 1, *position));
            } else {
                assert(lowered.step_ok(stack, 0, *position));
            }
        }
        let ghost mut emptied: (usize, u32) = (key, bounds.octant_of(*position));
        let (before, now) = if reached {
            let (above, octant) = if remaining > 0 {
                let (above, outer) = node_stack[remaining - 1];
                (above, child_octant_for(&outer, position))
            } else {
                (ROOT_NODE_KEY, 0)
            };
            proof {
                emptied = (above, octant);
            }
            self.clear_target(key, &bounds, position, clear_size, above, octant)
        } else {
            proof {
                lowered.lemma_nothing_pending(key);
                lowered.lemma_clearing_stopped(key, bounds, *position, clear_size);
                lowered.lemma_region_shape(bounds, *position, clear_size);
                assert(lowered.stored(*position).is_none());
                assert(old(self).stored(*position) == lowered.stored(*position));
                if remaining > 0 {
                    assert forall|k: usize|
                        lowered.live(k) && k != stack[remaining - 1].0 implies #[trigger] lowered.count_ok(
                        k,
                    ) by {}
                }
            }
            (0, 0)
        };
        proof {
            let written = *self;
            assert forall|p: V3c<u32>| #[trigger]
                written.stored(p) == if region.contains(p) || (reached && bounds.contains(p)) {
                    cleared(old(self).stored(p), clear_size >= DIM, region.contains(p))
                } else {
                    old(self).stored(p)
                } by {
                assert(lowered.stored(p) == old(self).stored(p));
            }
            if remaining > 0 {
                lowered.lemma_path_above_kept(&written, stack, *position);
                lowered.lemma_path_distinct(stack, *position, 0, remaining as int);
                assert(lowered.step_ok(stack, 0, *position));
                assert(stack[0].0 == ROOT_NODE_KEY);
            }
        }
        proof {
            if old(self).root_cube().size > level_edge(clear_size, DIM) && clear_size >= DIM {
                if reached {
                    assert(region == bounds);
                    assert(remaining > 0);
                } else {
                    let octant = bounds.octant_of(*position);
                    lowered.lemma_cube_splits(bounds, octant);
                    lemma_child_contains(bounds, *position, octant);
                    lowered.lemma_region_within(bounds.child(octant), *position, clear_size);
                }
            }
        }
        (node_stack, before, now, Ghost(emptied))
    }

    /// The last part of a clearing: brings the nodes above the cleared
    /// node up to date, from the lowest to the root.
    pub(crate) fn settle_path_after_clear(
        &mut self,
        node_stack: &Vec<(usize, Cube)>,
        before: u32,
        now: u32,
        Ghost(position): Ghost<V3c<u32>>,
    )
        requires
            old(self).structure_ok(),
            node_stack@.len() >= 1,
            node_stack@.len() == 1 ==> old(self).inv(),
            node_stack@.len() > 1 ==> {
                let above = node_stack@.take(node_stack@.len() - 1);
                &&& old(self).path_ok(above, position)
                &&& old(self).owing(above.last().0, before, now)
                &&& forall|index: int|
                    0 <= index < above.len() ==> !(old(self).content(
                        #[trigger] above[index].0,
                    ) is Leaf)
            },
        ensures
            final(self).inv(),
            old(self).same_frame(final(self)),
            forall|p: V3c<u32>| #[trigger] final(self).stored(p) == old(self).stored(p),
            node_stack@.len() == 1 ==> *final(self) == *old(self),
            final(self).places == old(self).places,
            forall|k: usize| #[trigger] final(self).live(k) == old(self).live(k),
            forall|k: usize, o: u32|
                old(self).live(k) && o < 8 ==> #[trigger] final(self).child_key(k, o) == old(self).child_key(k, o),
            node_stack@.len() > 1 ==> (final(self).content(ROOT_NODE_KEY) matches NodeContent::Internal(
                count,
            ) ==> count > 0 || old(self).content(ROOT_NODE_KEY) is Nothing),
    {
        let ghost stack = node_stack@;
        let ghost written = *self;
        let mut remaining: usize = node_stack.len() - 1;
        proof {
            if remaining > 0 {
                let above = stack.take(remaining as int);
                assert forall|index: int| 0 <= index < remaining implies !(written.content(
                    #[trigger] stack[index].0,
                ) is Leaf) by {
                    assert(above[index] == stack[index]);
                }
                assert(above.last() == stack[remaining - 1]);
            }
        }
        while remaining > 0
            invariant
                remaining < node_stack.len(),
                stack == node_stack@,
                self.structure_ok(),
                written.same_frame(self),
                forall|p: V3c<u32>| #[trigger] self.stored(p) == written.stored(p),
                remaining > 0 ==> self.path_ok(stack.take(remaining as int), position),
                remaining > 0 ==> self.owing(stack[remaining - 1].0, before, now),
                remaining == 0 ==> self.inv(),
                forall|index: int|
                    0 <= index < remaining ==> !(self.content(#[trigger] stack[index].0) is Leaf),
                remaining > 0 ==> self.content(ROOT_NODE_KEY) == written.content(ROOT_NODE_KEY),
                self.places == written.places,
                forall|k: usize| #[trigger] self.live(k) == written.live(k),
                forall|k: usize, o: u32|
                    written.live(k) && o < 8 ==> #[trigger] self.child_key(k, o)
                        == written.child_key(k, o),
                remaining == node_stack.len() - 1 ==> *self == written,
                remaining < node_stack.len() - 1 && remaining == 0 ==> (self.content(
                    ROOT_NODE_KEY,
                ) matches NodeContent::Internal(count) ==> count > 0 || written.content(
                    ROOT_NODE_KEY,
                ) is Nothing),
            decreases remaining,
        {
            let ghost current = *self;
            let ghost shown = stack.take(remaining as int);
            let (node, node_bounds) = node_stack[remaining - 1];
            proof {
                assert(current.step_ok(shown, remaining - 1, position));
                assert(shown[remaining - 1] == stack[remaining - 1]);
                if remaining > 1 {
                    current.lemma_path_step(shown, position, remaining - 2);
                    assert(shown[remaining - 2] == stack[remaining - 2]);
                }
            }
            self.settle_after_clear(node, node_bounds.size, before, now);
            proof {
                assert forall|k: usize| #[trigger] self.live(k) == written.live(k) by {
                    assert(self.live(k) == (current.live(k) && !(false && current.under(k, node))));
                    assert(current.live(k) == written.live(k));
                }
                assert forall|k: usize, o: u32| written.live(k) && o < 8 implies #[trigger] self.child_key(
                    k,
                    o,
                ) == written.child_key(k, o) by {
                    assert(current.live(k) == written.live(k));
                    assert(self.live(k) == current.live(k));
                    if k != node {
                        assert(current.kept(self, k));
                    }
                    assert(self.child_key(k, o) == current.child_key(k, o));
                }
                assert forall|index: int| 0 <= index < remaining - 1 implies !(self.content(
                    #[trigger] stack[index].0,
                ) is Leaf) by {
                    assert(current.step_ok(shown, index, position));
                    current.lemma_path_distinct(shown, position, index, remaining - 1);
                    assert(shown[index] == stack[index]);
                    assert(shown[remaining - 1].0 == node);
                    assert(current.live(stack[index].0));
                    assert(self.live(stack[index].0) == (current.live(stack[index].0) && !(false
                        && current.under(stack[index].0, node))));
                    assert(current.kept(self, stack[index].0));
                }
                if remaining > 1 {
                    current.lemma_path_prefix(shown, position, remaining - 1);
                    assert(shown.take(remaining - 1) =~= stack.take(remaining - 1));
                    current.lemma_path_replaced(self, shown, position, false);
                    self.lemma_path_prefix(shown, position, remaining - 1);
                    assert(self.places@[node].parent == stack[remaining - 2].0);
                    assert(current.step_ok(shown, 0, position));
                    assert(shown[0] == stack[0]);
                    current.lemma_path_distinct(shown, position, 0, remaining - 1);
                    assert(current.live(ROOT_NODE_KEY));
                    assert(self.live(ROOT_NODE_KEY) == (current.live(ROOT_NODE_KEY) && !(false
                        && current.under(ROOT_NODE_KEY, node))));
                    assert(current.kept(self, ROOT_NODE_KEY));
                } else {
                    assert(node == ROOT_NODE_KEY);
                    assert forall|k: usize| self.live(k) implies #[trigger] self.count_ok(k) by {}
                    assert(current.content(ROOT_NODE_KEY) == written.content(ROOT_NODE_KEY));
                    match current.content(ROOT_NODE_KEY) {
                        NodeContent::Internal(count) => {
                            assert(self.content(ROOT_NODE_KEY) == if count + now - before > 0 {
                                NodeContent::<T, DIM>::Internal((count + now - before) as u32)
                            } else {
                                NodeContent::<T, DIM>::Nothing
                            });
                        },
                        _ => {},
                    }
                }
            }
            remaining = remaining - 1;
        }
    }

    /// Resets every voxel in the cube that a write of edge `clear_size`
    /// for `position` fills. The edge has to be a power of two, the
    /// position inside the volume; else nothing changes. A clearing of at
    /// least a brick takes the node of that cube out of the tree, so that
    /// nothing is stored there any more; a smaller one leaves the brick in
    /// place, with empty voxels. On the way the octree refines the leaves
    /// that the clearing takes apart; afterwards it corrects the counts of
    /// the nodes above.
    pub fn clear_at_lod(&mut self, position: &V3c<u32>, clear_size: u32) -> (done: Result<
        (),
        Error,
    >)
        requires
            old(self).wf(),
        ensures
            match done {
                Ok(()) => {
                    &&& is_pow2(clear_size as int)
                    &&& old(self).in_bounds(*position)
                    &&& old(self).lod_region(*position, clear_size).contains(*position)
                    &&& old(self).filled(
                        final(self),
                        old(self).lod_region(*position, clear_size),
                        T::empty_value(),
                    )
                    &&& final(self).simplifies() == old(self).simplifies()
                    &&& clear_size >= DIM && old(self).size() <= clear_size ==> final(self).only_root()
                    &&& clear_size >= DIM && old(self).size() > clear_size ==> exists|node: usize, octant: u32|
                        #![trigger final(self).node_child(node, octant)]
                        {
                            &&& final(self).is_node(node)
                            &&& octant < 8
                            &&& final(self).node_child(node, octant) == key_none_value_spec()
                            &&& old(self).lod_region(*position, clear_size).within(
                                final(self).node_bounds(node).child(octant),
                            )
                        }
                    &&& old(self).is_stored(*position) && old(self).size() > Self::level_of(clear_size)
                        ==> (final(self).node_content(ROOT_NODE_KEY) matches NodeContent::Internal(
                        count,
                    ) ==> count > 0 || old(self).node_content(ROOT_NODE_KEY) is Nothing)
                    &&& forall|p: V3c<u32>| #[trigger]
                        final(self).is_stored(p) == (old(self).is_stored(p) && !(clear_size >= DIM
                            && old(self).lod_region(*position, clear_size).contains(p)))
                },
                Err(error) => {
                    &&& *final(self) == *old(self)
                    &&& if !is_pow2(clear_size as int) {
                        error == Error::InvalidNodeSize(clear_size)
                    } else {
                        &&& !old(self).in_bounds(*position)
                        &&& error == Error::InvalidPosition {
                            x: position.x,
                            y: position.y,
                            z: position.z,
                        }
                    }
                },
            },
    {
        proof {
            self.lemma_public_model();
            assert(self.node_ok(ROOT_NODE_KEY));
            self.lemma_cube_fits(self.root_cube());
        }
        if !is_power_of_two(clear_size) {
            return Err(Error::InvalidNodeSize(clear_size));
        }
        let root_bounds = Cube::root_bounds(self.octree_size);
        if !bound_contains(&root_bounds, position) {
            return Err(Error::InvalidPosition { x: position.x, y: position.y, z: position.z });
        }
        proof {
            self.lemma_region_shape(self.root_cube(), *position, clear_size);
        }
        let (node_stack, before, now, Ghost(emptied)) = self.clear_region(position, clear_size);
        let ghost written = *self;
        self.settle_path_after_clear(&node_stack, before, now, Ghost(*position));
        proof {
            self.lemma_public_model();
            old(self).lemma_public_model();
            written.lemma_public_model();
            if clear_size >= DIM && old(self).size() > clear_size {
                let (node, octant) = emptied;
                assert(self.live(node) == written.live(node));
                assert(self.child_key(node, octant) == written.child_key(node, octant));
                assert(self.is_node(node) && octant < 8 && self.node_child(node, octant)
                    == key_none_value_spec() && old(self).lod_region(
                    *position,
                    clear_size,
                ).within(self.node_bounds(node).child(octant)));
            }
            if clear_size >= DIM && old(self).size() <= clear_size {
                assert(self.only_root()) by {
                    assert forall|octant: u32| octant < 8 implies #[trigger] self.node_child(
                        ROOT_NODE_KEY,
                        octant,
                    ) == key_none_value_spec() by {
                        assert(written.child_key(ROOT_NODE_KEY, octant) == key_none_value_spec());
                    }
                    assert forall|key: usize| #[trigger] self.is_node(key) implies key
                        == ROOT_NODE_KEY by {
                        assert(written.live(key));
                    }
                }
            }
            assert forall|p: V3c<u32>| #[trigger]
                self.voxel_at(p) == if old(self).lod_region(*position, clear_size).contains(p) {
                    T::empty_value()
                } else {
                    old(self).voxel_at(p)
                } by {
                assert(self.stored(p) == written.stored(p));
                assert(self.voxel(p) == written.voxel(p));
                assert(old(self).lod_region(*position, clear_size) == region_in(
                    old(self).root_cube(),
                    *position,
                    clear_size,
                    DIM,
                ));
            }
            assert forall|p: V3c<u32>| #[trigger]
                self.is_stored(p) == (old(self).is_stored(p) && !(clear_size >= DIM && old(self).lod_region(*position, clear_size).contains(p))) by {
                assert(self.stored(p) == written.stored(p));
            }
        }
        Ok(())
    }
}

} // verus!
