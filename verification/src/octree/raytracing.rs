//! The decisions of a ray cast through the octree. The geometry of the ray
//! is the caller's: it tells what the ray meets, and learns here what to do
//! next.

use crate::object_pool::{key_might_be_valid, key_none_value_spec};
use crate::octree::types::{Brick, NodeContent, Octree, VoxelData};
use crate::spatial::math::vector::V3c;
use vstd::prelude::*;

verus! {

/// What a ray cast does next at a node of its stack.
#[derive(Clone, Copy, Debug, PartialEq, Eq)]
pub enum RayStep {
    /// Leave the node: go on with the next sibling, one level up.
    Pop,
    /// March through the brick of the node, which is a leaf.
    March,
    /// Go down into the child under the target octant, which has this key.
    Push(usize),
    /// Go on with the next sibling of the target octant.
    Advance,
}

/// What a ray finds at an index of a brick.
#[derive(Clone, Copy, Debug, PartialEq, Eq)]
pub enum Probe {
    /// The index lies outside the brick: the ray has left the leaf.
    Outside,
    /// The voxel at the index is empty: the ray goes on.
    Empty,
    /// The voxel at the index, given as an index of the brick, is hit.
    Hit(V3c<usize>),
}

/// Whether a node with the content has no voxel for a ray to hit.
pub open spec fn holds_no_voxel<T, const DIM: usize>(content: NodeContent<T, DIM>) -> bool {
    match content {
        NodeContent::Nothing => true,
        NodeContent::Internal(count) => count == 0,
        NodeContent::Leaf(_) => false,
    }
}

/// What a ray finds at the index of the brick.
pub open spec fn probe_spec<T: VoxelData, const DIM: usize>(
    brick: Brick<T, DIM>,
    index: V3c<i32>,
) -> Probe {
    if index.x < 0 || index.x >= DIM || index.y < 0 || index.y >= DIM || index.z < 0 || index.z
        >= DIM {
        Probe::Outside
    } else if brick[index.x as int][index.y as int][index.z as int].is_empty() {
        Probe::Empty
    } else {
        Probe::Hit(V3c { x: index.x as usize, y: index.y as usize, z: index.z as usize })
    }
}

/// Looks at the voxel of the brick at the index that a march has reached.
pub fn probe_brick<T: VoxelData, const DIM: usize>(brick: &Brick<T, DIM>, index: &V3c<i32>) -> (probe:
    Probe)
    ensures
        probe == probe_spec(*brick, *index),
{
    if index.x < 0 || index.y < 0 || index.z < 0 {
        return Probe::Outside;
    }
    let x = index.x as usize;
    let y = index.y as usize;
    let z = index.z as usize;
    if x >= DIM || y >= DIM || z >= DIM {
        return Probe::Outside;
    }
    if brick[x][y][z].albedo()[3] == 0 {
        Probe::Empty
    } else {
        Probe::Hit(V3c::new(x, y, z))
    }
}

impl<T: VoxelData, const DIM: usize> Octree<T, DIM> {
    /// What a ray cast does next at the node `node` of its stack, where
    /// `target_octant` is the octant of the node that the ray is in,
    /// `target_inside` says whether the centre of that octant still lies in
    /// the cube of the node, and `target_hit` whether the ray meets the
    /// cube of that octant.
    pub open spec fn ray_step_spec(
        &self,
        node: usize,
        target_octant: u32,
        target_inside: bool,
        target_hit: bool,
    ) -> RayStep {
        let child = self.node_child(node, target_octant);
        if !target_inside || !self.is_node(node) || target_octant >= 8 || holds_no_voxel(
            self.node_content(node),
        ) {
            RayStep::Pop
        } else if self.node_content(node) is Leaf {
            RayStep::March
        } else if child != key_none_value_spec() && !holds_no_voxel(self.node_content(child))
            && target_hit {
            RayStep::Push(child)
        } else {
            RayStep::Advance
        }
    }

    /// Decides what a ray cast does next at a node of its stack: it leaves
    /// a node that has no voxel, or whose target octant has moved out of the
    /// node; it marches through a leaf; it goes down into the child under
    /// the target octant if that child has voxels and the ray meets it; and
    /// else it goes on with the next sibling of the target octant.
    pub fn ray_step(
        &self,
        node: usize,
        target_octant: u32,
        target_inside: bool,
        target_hit: bool,
    ) -> (step: RayStep)
        requires
            self.wf(),
        ensures
            step == self.ray_step_spec(node, target_octant, target_inside, target_hit),
            step matches RayStep::Push(child) ==> self.is_node(child),
    {
        proof {
            self.lemma_public_model();
        }
        if !target_inside || target_octant >= 8 || !self.nodes.key_is_valid(node) {
            return RayStep::Pop;
        }
        match self.nodes.get(node) {
            NodeContent::Nothing => {
                return RayStep::Pop;
            },
            NodeContent::Internal(count) => {
                if *count == 0 {
                    return RayStep::Pop;
                }
            },
            NodeContent::Leaf(_) => {
                return RayStep::March;
            },
        }
        proof {
            self.nodes.lemma_live_key_is_a_slot(node);
        }
        let child = *self.node_children[node].index(target_octant);
        if !key_might_be_valid(child) {
            return RayStep::Advance;
        }
        proof {
            self.lemma_child(node, target_octant);
        }
        let empty = match self.nodes.get(child) {
            NodeContent::Nothing => true,
            NodeContent::Internal(count) => *count == 0,
            NodeContent::Leaf(_) => false,
        };
        if !empty && target_hit {
            RayStep::Push(child)
        } else {
            RayStep::Advance
        }
    }
}

} // verus!
