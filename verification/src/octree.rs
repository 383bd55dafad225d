//! The sparse voxel octree.

pub mod brick;
pub mod counts;
pub mod detail;
pub mod laws;
pub mod nodes;
pub mod path;
pub mod raytracing;
pub mod reshape;
pub mod settled;
pub mod steps;
pub mod types;
pub mod update;

use crate::object_pool::{key_might_be_valid, key_none_value, key_none_value_spec, ObjectPool};
use crate::octree::detail::{
    bound_contains, child_octant_for, cubed, is_pow2, lemma_cubed_monotonic, lemma_index_in_brick,
    lemma_pow2_positive, mat_index_spec, ROOT_NODE_KEY,
};
use crate::octree::types::{NodeChildren, Place};
pub use crate::octree::types::{Error, NodeContent, Octree, VoxelData};
pub use crate::spatial::math::vector::V3c;
use crate::spatial::lemma_child_contains;
pub use crate::spatial::Cube;
use vstd::prelude::*;

verus! {

/// Whether `n` is a power of two.
pub fn is_power_of_two(n: u32) -> (yes: bool)
    ensures
        yes == is_pow2(n as int),
{
    if n == 0 {
        return false;
    }
    let mut m: u32 = n;
    while m % 2 == 0
        invariant
            m > 0,
            is_pow2(m as int) == is_pow2(n as int),
        decreases m,
    {
        m = m / 2;
    }
    m == 1
}

/// The product of two powers of two is a power of two.
pub proof fn lemma_pow2_product(a: int, b: int)
    requires
        is_pow2(a),
        is_pow2(b),
    ensures
        is_pow2(a * b),
    decreases a,
{
    if a == 1 {
        assert(a * b == b);
    } else {
        lemma_pow2_product(a / 2, b);
        lemma_pow2_positive(b);
        lemma_pow2_positive(a / 2);
        assert(a * b == 2 * ((a / 2) * b)) by (nonlinear_arith)
            requires
                a % 2 == 0,
        ;
        assert((a / 2) * b >= 1) by (nonlinear_arith)
            requires
                a / 2 >= 1,
                b >= 1,
        ;
    }
}

impl<T: VoxelData, const DIM: usize> Octree<T, DIM> {
    /// The index inside a brick of the voxel for `position`, which lies in
    /// `bounds`: the offset from the minimum corner of the bounds, taken
    /// within the repetition of the brick that holds the position.
    pub fn mat_index(bounds: &Cube, position: &V3c<u32>) -> (index: V3c<usize>)
        requires
            DIM >= 1,
            bounds.contains(*position),
        ensures
            index == mat_index_spec::<DIM>(*bounds, *position),
            index.x < DIM && index.y < DIM && index.z < DIM,
    {
        proof {
            lemma_index_in_brick::<DIM>(*bounds, *position);
        }
        let x = (position.x - bounds.min_position.x) as usize;
        let y = (position.y - bounds.min_position.y) as usize;
        let z = (position.z - bounds.min_position.z) as usize;
        V3c::new(x % DIM, y % DIM, z % DIM)
    }

    /// An empty octree over a cube of `root_node_dimension` bricks along
    /// each axis. The number of bricks has to be a power of two, as the edge
    /// of a brick is; the cube has to be small enough to count its voxels.
    pub fn new(root_node_dimension: u32) -> (made: Result<Self, Error>)
        requires
            is_pow2(DIM as int),
            is_pow2(root_node_dimension as int) ==> cubed(root_node_dimension * DIM) <= u32::MAX,
        ensures
            match made {
                Ok(tree) => {
                    &&& is_pow2(root_node_dimension as int)
                    &&& tree.wf()
                    &&& tree.size() == root_node_dimension * DIM
                    &&& tree.simplifies()
                    &&& tree.is_simplified()
                    &&& forall|p: V3c<u32>| #[trigger] tree.voxel_at(p) == T::empty_value()
                    &&& forall|p: V3c<u32>| !#[trigger] tree.is_stored(p)
                    &&& tree.only_root()
                    &&& tree.slot_count() == 1
                },
                Err(e) => {
                    &&& !is_pow2(root_node_dimension as int)
                    &&& e == Error::InvalidNodeSize(root_node_dimension)
                },
            },
    {
        if !is_power_of_two(root_node_dimension) {
            return Err(Error::InvalidNodeSize(root_node_dimension));
        }
        proof {
            lemma_pow2_positive(DIM as int);
            lemma_pow2_positive(root_node_dimension as int);
            lemma_pow2_product(root_node_dimension as int, DIM as int);
            assert(root_node_dimension * DIM >= DIM && root_node_dimension * DIM
                >= root_node_dimension) by (nonlinear_arith)
                requires
                    root_node_dimension >= 1,
                    DIM >= 1,
            ;
            lemma_cubed_monotonic(
                (root_node_dimension * DIM) as int,
                (root_node_dimension * DIM) as int,
            );
        }
        let octree_size: u32 = root_node_dimension * (DIM as u32);
        let mut nodes = ObjectPool::<NodeContent<T, DIM>>::with_capacity(octree_size as usize);
        let root = nodes.push(NodeContent::Nothing);
        let mut node_children: Vec<NodeChildren<usize>> = Vec::new();
        node_children.push(NodeChildren::new(key_none_value()));
        let ghost root_place = Place { cube: Cube::root(octree_size), parent: 0, octant: 0 };
        let tree = Octree {
            auto_simplify: true,
            octree_size,
            nodes,
            node_children,
            places: Ghost(Map::<usize, Place>::empty().insert(ROOT_NODE_KEY, root_place)),
        };
        proof {
            tree.lemma_public_model();
            assert forall|key: usize| tree.live(key) implies #[trigger] tree.node_ok(key) by {
                assert(key == ROOT_NODE_KEY);
                assert forall|octant: u32| octant < 8 implies #[trigger] tree.link_ok(
                    key,
                    octant,
                ) by {}
            }
            assert forall|key: usize| tree.live(key) implies #[trigger] tree.count_ok(key) by {
                assert(key == ROOT_NODE_KEY);
            }
            tree.lemma_is_simplified();
            assert forall|key: usize| tree.live(key) implies !#[trigger] tree.collapsible(key) by {
                tree.lemma_tidy_by_child(key, 0);
            }
        }
        Ok(tree)
    }

    /// Sets whether insertions collapse nodes with eight equal leaves.
    pub fn set_auto_simplify(&mut self, on: bool)
        requires
            old(self).wf(),
        ensures
            final(self).simplifies() == on,
            final(self).wf(),
            final(self).size() == old(self).size(),
            old(self).is_simplified() ==> final(self).is_simplified(),
            old(self).same_nodes(final(self)),
            forall|p: V3c<u32>| #[trigger] final(self).voxel_at(p) == old(self).voxel_at(p),
            forall|p: V3c<u32>| #[trigger] final(self).is_stored(p) == old(self).is_stored(p),
    {
        self.auto_simplify = on;
        proof {
            old(self).lemma_public_model();
            self.lemma_public_model();
            old(self).lemma_setting_changed(self);
        }
    }

    /// The edge of the volume.
    pub fn get_size(&self) -> (size: u32)
        ensures
            size == self.size(),
    {
        proof {
            self.lemma_public_model();
        }
        self.octree_size
    }

    /// What the node under the key holds, if the key names a node.
    pub fn node(&self, key: usize) -> (content: Option<&NodeContent<T, DIM>>)
        ensures
            match content {
                Some(content) => self.is_node(key) && *content == self.node_content(key),
                None => !self.is_node(key),
            },
    {
        proof {
            self.lemma_public_model();
        }
        if self.nodes.key_is_valid(key) {
            Some(self.nodes.get(key))
        } else {
            None
        }
    }

    /// The key under the octant of a node, or the key that names no node
    /// where there is no such octant or node.
    pub fn child_of(&self, key: usize, octant: u32) -> (child: usize)
        requires
            self.wf(),
        ensures
            self.is_node(key) && octant < 8 ==> child == self.node_child(key, octant),
            !(self.is_node(key) && octant < 8) ==> child == key_none_value_spec(),
    {
        proof {
            self.lemma_public_model();
        }
        if octant < 8 && self.nodes.key_is_valid(key) {
            proof {
                self.nodes.lemma_live_key_is_a_slot(key);
            }
            *self.node_children[key].index(octant)
        } else {
            key_none_value()
        }
    }

    /// The number of slots for nodes that the octree holds, in use or not.
    pub fn slots(&self) -> (n: usize)
        ensures
            n == self.slot_count(),
    {
        proof {
            self.lemma_public_model();
        }
        self.nodes.len()
    }

    /// The voxel at the position, unless it is empty or the position lies
    /// outside the volume.
    pub fn get(&self, position: &V3c<u32>) -> (found: Option<&T>)
        requires
            self.wf(),
        ensures
            match found {
                Some(voxel) => self.lookup(*position) == Some(*voxel),
                None => self.lookup(*position).is_none(),
            },
    {
        proof {
            self.lemma_public_model();
            T::lemma_empty_value_is_empty();
            assert(self.node_ok(ROOT_NODE_KEY));
            self.lemma_cube_fits(self.root_cube());
        }
        let root_bounds = Cube::root_bounds(self.octree_size);
        if !bound_contains(&root_bounds, position) {
            return None;
        }
        let mut current_node_key: usize = ROOT_NODE_KEY;
        let mut current_bounds = root_bounds;
        loop
            invariant
                self.inv(),
                self.live(current_node_key),
                self.cube_of(current_node_key) == current_bounds,
                current_bounds.contains(*position),
                self.root_cube().contains(*position),
                self.voxel_in(ROOT_NODE_KEY, self.root_cube(), *position) == self.voxel_in(
                    current_node_key,
                    current_bounds,
                    *position,
                ),
                T::empty_value().is_empty(),
                forall|p: V3c<u32>| #[trigger] self.voxel_at(p) == self.voxel(p),
            decreases current_bounds.size,
        {
            proof {
                assert(self.node_ok(current_node_key));
                self.lemma_cube_fits(current_bounds);
                lemma_pow2_positive(DIM as int);
                self.nodes.lemma_live_key_is_a_slot(current_node_key);
            }
            match self.nodes.get(current_node_key) {
                NodeContent::Leaf(brick) => {
                    let index = Self::mat_index(&current_bounds, position);
                    let voxel = &brick[index.x][index.y][index.z];
                    if voxel.albedo()[3] == 0 {
                        return None;
                    }
                    return Some(voxel);
                },
                _ => {},
            }
            let octant = child_octant_for(&current_bounds, position);
            let child = *self.node_children[current_node_key].index(octant);
            if !key_might_be_valid(child) {
                return None;
            }
            proof {
                assert(self.link_ok(current_node_key, octant));
                self.lemma_cube_splits(current_bounds, octant);
                lemma_child_contains(current_bounds, *position, octant);
            }
            current_bounds = current_bounds.child_bounds_for(octant);
            current_node_key = child;
        }
    }

    /// The voxel at an index of the brick of a leaf, to be changed in place.
    fn leaf_voxel_mut(
        &mut self,
        key: usize,
        index: V3c<usize>,
        Ghost(position): Ghost<V3c<u32>>,
    ) -> (voxel: &mut T)
        requires
            old(self).nodes.wf(),
            old(self).holds_in(key, position),
            index == mat_index_spec::<DIM>(old(self).cube_of(key), position),
            index.x < DIM && index.y < DIM && index.z < DIM,
        ensures
            *voxel == old(self).content(key)->Leaf_0[index.x as int][index.y as int][index.z as int],
            old(self).rewritten_in(final(self), key, position, *final(voxel)),
    {
        match self.nodes.get_mut(key) {
            NodeContent::Leaf(brick) => &mut brick[index.x][index.y][index.z],
            _ => vstd::pervasive::unreached(),
        }
    }

    /// The voxel at the position, to be changed in place, unless it is
    /// empty or the position lies outside the volume. A caller may write
    /// any voxel that is not empty: the octree then stays well formed and
    /// finds the new voxel at the position. In a leaf above the level of the
    /// bricks the positions that share the voxel change with it. Writing an
    /// empty voxel would leave the counts of the nodes above wrong; `clear`
    /// is there for that.
    pub fn get_mut(&mut self, position: &V3c<u32>) -> (found: Option<&mut T>)
        requires
            old(self).wf(),
        ensures
            match found {
                Some(voxel) => {
                    &&& old(self).lookup(*position) == Some(*voxel)
                    &&& old(self).rewritten_at(final(self), *position, *final(voxel))
                },
                None => old(self).lookup(*position).is_none() && *final(self) == *old(self),
            },
    {
        proof {
            self.lemma_public_model();
            T::lemma_empty_value_is_empty();
            assert(self.node_ok(ROOT_NODE_KEY));
            self.lemma_cube_fits(self.root_cube());
        }
        let root_bounds = Cube::root_bounds(self.octree_size);
        if !bound_contains(&root_bounds, position) {
            return None;
        }
        let mut current_node_key: usize = ROOT_NODE_KEY;
        let mut current_bounds = root_bounds;
        loop
            invariant
                self.inv(),
                *self == *old(self),
                self.live(current_node_key),
                self.cube_of(current_node_key) == current_bounds,
                current_bounds.contains(*position),
                self.root_cube().contains(*position),
                self.voxel_in(ROOT_NODE_KEY, self.root_cube(), *position) == self.voxel_in(
                    current_node_key,
                    current_bounds,
                    *position,
                ),
                T::empty_value().is_empty(),
                forall|p: V3c<u32>| #[trigger] self.voxel_at(p) == self.voxel(p),
            ensures
                self.content(current_node_key) is Leaf,
            decreases current_bounds.size,
        {
            proof {
                assert(self.node_ok(current_node_key));
                self.lemma_cube_fits(current_bounds);
                lemma_pow2_positive(DIM as int);
                self.nodes.lemma_live_key_is_a_slot(current_node_key);
            }
            if self.nodes.get(current_node_key).is_leaf() {
                break;
            }
            let octant = child_octant_for(&current_bounds, position);
            let child = *self.node_children[current_node_key].index(octant);
            if !key_might_be_valid(child) {
                return None;
            }
            proof {
                assert(self.link_ok(current_node_key, octant));
                self.lemma_cube_splits(current_bounds, octant);
                lemma_child_contains(current_bounds, *position, octant);
            }
            current_bounds = current_bounds.child_bounds_for(octant);
            current_node_key = child;
        }
        let index = Self::mat_index(&current_bounds, position);
        let empty = match self.nodes.get(current_node_key) {
            NodeContent::Leaf(brick) => brick[index.x][index.y][index.z].albedo()[3] == 0,
            _ => true,
        };
        if empty {
            return None;
        }
        proof {
            old(self).lemma_public_model();
            assert(old(self).holds_in(current_node_key, *position));
        }
        Some(self.leaf_voxel_mut(current_node_key, index, Ghost(*position)))
    }
}

} // verus!
