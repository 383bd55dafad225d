//! What the octree stands for, and what holds of it between operations.

use crate::object_pool::key_none_value_spec;
use crate::octree::brick::{brick_is_all, brick_population, uniform_brick};
use crate::octree::types::{Brick, NodeContent, Octree, Place, VoxelData};
use crate::spatial::math::vector::{min_of, V3c};
use crate::spatial::{hash_region, lemma_child_contains, Cube};
use vstd::prelude::*;

verus! {

/// Whether `n` is a power of two.
pub open spec fn is_pow2(n: int) -> bool
    decreases n,
{
    if n <= 0 {
        false
    } else if n == 1 {
        true
    } else {
        n % 2 == 0 && is_pow2(n / 2)
    }
}

/// The number of lattice points in a cube of edge `n`.
pub open spec fn cubed(n: int) -> int {
    n * n * n
}

/// The key of the root node.
pub const ROOT_NODE_KEY: usize = 0;

/// Whether the bounds contain the position.
pub fn bound_contains(bounds: &Cube, position: &V3c<u32>) -> (inside: bool)
    ensures
        inside == bounds.contains(*position),
{
    bounds.contains_point(position)
}

/// The octant of the bounds that holds the position.
pub fn child_octant_for(bounds: &Cube, position: &V3c<u32>) -> (octant: u32)
    requires
        bounds.contains(*position),
    ensures
        octant == bounds.octant_of(*position),
        octant < 8,
{
    hash_region(
        &V3c::new(
            position.x - bounds.min_position.x,
            position.y - bounds.min_position.y,
            position.z - bounds.min_position.z,
        ),
        bounds.size,
    )
}

/// The index inside a brick of the voxel for `p`, which lies in `cube`: the
/// offset from the cube's minimum corner where the cube has the edge of a
/// brick. In a larger cube the brick repeats along each axis, so that the
/// index is that offset within the repetition that holds `p`.
pub open spec fn mat_index_spec<const DIM: usize>(cube: Cube, p: V3c<u32>) -> V3c<usize> {
    V3c {
        x: ((p.x - cube.min_position.x) % (DIM as int)) as usize,
        y: ((p.y - cube.min_position.y) % (DIM as int)) as usize,
        z: ((p.z - cube.min_position.z) % (DIM as int)) as usize,
    }
}

/// The voxel that a leaf with the given brick and cube holds for `p`.
pub open spec fn brick_voxel<T, const DIM: usize>(brick: Brick<T, DIM>, cube: Cube, p: V3c<u32>) -> T {
    let index = mat_index_spec::<DIM>(cube, p);
    brick[index.x as int][index.y as int][index.z as int]
}

/// The number of voxels that are not empty in a leaf of edge `size`: those
/// of the brick, once for each repetition of the brick in the cube of the
/// leaf.
pub open spec fn leaf_population<T: VoxelData, const DIM: usize>(
    brick: Brick<T, DIM>,
    size: int,
) -> int {
    brick_population(brick) * cubed(size / (DIM as int))
}

/// The number of voxels that are not empty under a node of edge `size`, as
/// its content records it.
pub open spec fn content_population<T: VoxelData, const DIM: usize>(
    content: NodeContent<T, DIM>,
    size: int,
) -> int {
    match content {
        NodeContent::Nothing => 0,
        NodeContent::Internal(count) => count as int,
        NodeContent::Leaf(brick) => leaf_population(brick, size),
    }
}

/// The larger of the edge of a write and the edge of a brick with `dim`
/// voxels along each axis: the edge of the nodes on which the write works.
pub open spec fn level_edge(size: u32, dim: usize) -> int {
    if size > dim {
        size as int
    } else {
        dim as int
    }
}

/// The cube that a write of edge `size` for `position` fills in a node at
/// the level of the write, whose cube is `bounds`: the whole cube, or inside
/// a brick of `dim` voxels along each axis the cube of that edge at the
/// position, moved back where it would leave the brick.
pub open spec fn write_region(bounds: Cube, position: V3c<u32>, size: u32, dim: usize) -> Cube {
    if size >= dim {
        bounds
    } else {
        Cube {
            min_position: V3c {
                x: (bounds.min_position.x + min_of(
                    min_of(position.x - bounds.min_position.x, dim - 1),
                    dim - size,
                )) as u32,
                y: (bounds.min_position.y + min_of(
                    min_of(position.y - bounds.min_position.y, dim - 1),
                    dim - size,
                )) as u32,
                z: (bounds.min_position.z + min_of(
                    min_of(position.z - bounds.min_position.z, dim - 1),
                    dim - size,
                )) as u32,
            },
            size,
        }
    }
}

/// The cube that a write of edge `size` for `position` fills when it starts
/// from a node with the cube `cube`, which holds the position: the write
/// goes down by the octant that holds the position until the edge of the
/// node is at most the edge of the write and of a brick, and fills the
/// region of the write in that node.
pub open spec fn region_in(cube: Cube, position: V3c<u32>, size: u32, dim: usize) -> Cube
    decreases cube.size,
{
    if cube.size > level_edge(size, dim) {
        region_in(cube.child(cube.octant_of(position)), position, size, dim)
    } else {
        write_region(cube, position, size, dim)
    }
}

impl<T: VoxelData, const DIM: usize> NodeContent<T, DIM> {
    /// Whether the node is a leaf.
    pub fn is_leaf(&self) -> (leaf: bool)
        ensures
            leaf == (self is Leaf),
    {
        match self {
            NodeContent::Leaf(_) => true,
            _ => false,
        }
    }

    /// The brick of a leaf; for any other node a brick of empty voxels.
    pub fn data(&self) -> (brick: Brick<T, DIM>)
        ensures
            self is Leaf ==> brick == self->Leaf_0,
            !(self is Leaf) ==> brick_is_all(brick, T::empty_value()),
    {
        match self {
            NodeContent::Leaf(brick) => *brick,
            _ => uniform_brick(T::new_empty()),
        }
    }

    /// The brick of a leaf.
    pub fn leaf_data(&self) -> (brick: &Brick<T, DIM>)
        requires
            self is Leaf,
        ensures
            *brick == self->Leaf_0,
    {
        match self {
            NodeContent::Leaf(brick) => brick,
            _ => vstd::pervasive::unreached(),
        }
    }

    /// The brick, if the node is a leaf.
    pub fn as_leaf_ref(&self) -> (brick: Option<&Brick<T, DIM>>)
        ensures
            match brick {
                Some(b) => self is Leaf && *b == self->Leaf_0,
                None => !(self is Leaf),
            },
    {
        match self {
            NodeContent::Leaf(brick) => Some(brick),
            _ => None,
        }
    }

    /// The brick, to be changed in place, if the node is a leaf.
    pub fn as_mut_leaf_ref(&mut self) -> (brick: Option<&mut Brick<T, DIM>>)
        ensures
            match brick {
                Some(b) => *old(self) == NodeContent::<T, DIM>::Leaf(*b) && *final(self)
                    == NodeContent::<T, DIM>::Leaf(*final(b)),
                None => !(*old(self) is Leaf) && *final(self) == *old(self),
            },
    {
        match self {
            NodeContent::Leaf(brick) => Some(brick),
            _ => None,
        }
    }
}

/// Whether the node `key` lies under the node `top`, at any depth, going by
/// the places alone.
pub open spec fn under_in(places: Map<usize, Place>, size: u32, key: usize, top: usize) -> bool
    decreases size - places[key].cube.size,
{
    let parent = places[key].parent;
    if key != ROOT_NODE_KEY && places[key].cube.size < places[parent].cube.size <= size {
        parent == top || under_in(places, size, parent, top)
    } else {
        false
    }
}

/// The octant of `top` under which the node `key` lies, going by the places
/// alone.
pub open spec fn branch_in(places: Map<usize, Place>, size: u32, key: usize, top: usize) -> u32
    decreases size - places[key].cube.size,
{
    let parent = places[key].parent;
    if key != ROOT_NODE_KEY && places[key].cube.size < places[parent].cube.size <= size {
        if parent == top {
            places[key].octant
        } else {
            branch_in(places, size, parent, top)
        }
    } else {
        0
    }
}

impl<T: VoxelData, const DIM: usize> Octree<T, DIM> {
    // ---------------------------------------------------------------------
    // Reading the representation
    // ---------------------------------------------------------------------
    /// The cube of the whole octree.
    pub(crate) open spec fn root_cube(&self) -> Cube {
        Cube::root(self.octree_size)
    }

    /// Whether the key names a node of the tree.
    pub(crate) open spec fn live(&self, key: usize) -> bool {
        self.nodes.is_live(key)
    }

    /// What the node holds.
    pub(crate) open spec fn content(&self, key: usize) -> NodeContent<T, DIM> {
        self.nodes.value(key)
    }

    /// The key under the octant of the node.
    pub(crate) open spec fn child_key(&self, key: usize, octant: u32) -> usize {
        self.node_children@[key as int]@[octant as int]
    }

    /// The cube of the node.
    pub(crate) open spec fn cube_of(&self, key: usize) -> Cube {
        self.places@[key].cube
    }

    /// Whether the node has no child at all.
    pub(crate) open spec fn childless(&self, key: usize) -> bool {
        forall|octant: u32| octant < 8 ==> #[trigger] self.child_key(key, octant) == key_none_value_spec()
    }

    // ---------------------------------------------------------------------
    // What the octree stands for
    // ---------------------------------------------------------------------
    /// The voxel stored for `p` under the node `key`, whose cube is `cube`
    /// and holds `p`; `None` where no leaf covers `p`.
    pub(crate) open spec fn voxel_in(&self, key: usize, cube: Cube, p: V3c<u32>) -> Option<T>
        decreases cube.size,
    {
        match self.content(key) {
            NodeContent::Leaf(brick) => Some(brick_voxel(brick, cube, p)),
            _ => {
                let octant = cube.octant_of(p);
                let child = self.child_key(key, octant);
                if cube.size >= 2 && child != key_none_value_spec() {
                    self.voxel_in(child, cube.child(octant), p)
                } else {
                    None
                }
            },
        }
    }

    /// The voxel stored for `p`, as a lookup from the root finds it;
    /// `None` where no leaf covers `p` and outside the volume.
    pub(crate) open spec fn stored(&self, p: V3c<u32>) -> Option<T> {
        if self.root_cube().contains(p) {
            self.voxel_in(ROOT_NODE_KEY, self.root_cube(), p)
        } else {
            None
        }
    }

    /// The voxel at `p`: the stored one, or the empty voxel.
    pub(crate) open spec fn voxel(&self, p: V3c<u32>) -> T {
        match self.stored(p) {
            Some(v) => v,
            None => T::empty_value(),
        }
    }

    // ---------------------------------------------------------------------
    // What holds between operations
    // ---------------------------------------------------------------------
    /// The edge of the octree and of its bricks: powers of two, the octree
    /// no smaller than a brick, and small enough to count its voxels.
    pub(crate) open spec fn dims_ok(&self) -> bool {
        &&& is_pow2(DIM as int)
        &&& is_pow2(self.octree_size as int)
        &&& DIM <= self.octree_size
        &&& cubed(self.octree_size as int) <= u32::MAX
    }

    /// A cube of the tree: a power of two no smaller than a brick, inside
    /// the root cube and aligned to its own edge.
    pub(crate) open spec fn cube_ok(&self, cube: Cube) -> bool {
        &&& is_pow2(cube.size as int)
        &&& DIM <= cube.size
        &&& cube.within(self.root_cube())
        &&& cube.min_position.x as int % cube.size as int == 0
        &&& cube.min_position.y as int % cube.size as int == 0
        &&& cube.min_position.z as int % cube.size as int == 0
    }

    /// A key under a node names a node of the tree whose place is the
    /// octant of that node, and only a node larger than a brick has one.
    pub(crate) open spec fn link_ok(&self, key: usize, octant: u32) -> bool {
        let child = self.child_key(key, octant);
        child != key_none_value_spec() ==> {
            &&& self.cube_of(key).size > DIM
            &&& self.live(child)
            &&& self.places@[child] == (Place {
                cube: self.cube_of(key).child(octant),
                parent: key,
                octant,
            })
        }
    }

    /// The node is well formed by itself and in its links.
    pub(crate) open spec fn node_ok(&self, key: usize) -> bool {
        let cube = self.cube_of(key);
        &&& self.cube_ok(cube)
        &&& forall|octant: u32| octant < 8 ==> #[trigger] self.link_ok(key, octant)
        &&& match self.content(key) {
            NodeContent::Leaf(_) => self.childless(key),
            _ => true,
        }
        &&& 0 <= content_population(self.content(key), cube.size as int) <= cubed(cube.size as int)
        &&& if key == ROOT_NODE_KEY {
            cube == self.root_cube()
        } else {
            let place = self.places@[key];
            &&& place.octant < 8
            &&& self.live(place.parent)
            &&& self.child_key(place.parent, place.octant) == key
        }
    }

    /// What the content of the child under the octant records as its
    /// population; nothing where there is no child.
    pub(crate) open spec fn child_population(&self, key: usize, octant: u32) -> int {
        let child = self.child_key(key, octant);
        if child == key_none_value_spec() {
            0
        } else {
            content_population(self.content(child), self.cube_of(key).size as int / 2)
        }
    }

    /// The sum of what the eight children record.
    pub(crate) open spec fn children_population(&self, key: usize) -> int {
        self.child_population(key, 0) + self.child_population(key, 1) + self.child_population(
            key,
            2,
        ) + self.child_population(key, 3) + self.child_population(key, 4)
            + self.child_population(key, 5) + self.child_population(key, 6)
            + self.child_population(key, 7)
    }

    /// The count of an interior node is the sum of what its children record,
    /// and a node that holds nothing has nothing under it.
    pub(crate) open spec fn count_ok(&self, key: usize) -> bool {
        match self.content(key) {
            NodeContent::Nothing => self.children_population(key) == 0,
            NodeContent::Internal(count) => self.children_population(key) == count,
            NodeContent::Leaf(_) => true,
        }
    }

    /// All that holds of the representation but the counts.
    pub(crate) open spec fn structure_ok(&self) -> bool {
        &&& self.dims_ok()
        &&& self.nodes.wf()
        &&& self.node_children@.len() == self.nodes.slots()
        &&& forall|key: int|
            0 <= key < self.node_children@.len() ==> (#[trigger] self.node_children@[key]).default_key
                == key_none_value_spec()
        &&& self.live(ROOT_NODE_KEY)
        &&& forall|key: usize| self.live(key) ==> #[trigger] self.node_ok(key)
    }

    /// All that holds of the representation between operations.
    pub(crate) open spec fn inv(&self) -> bool {
        &&& self.structure_ok()
        &&& forall|key: usize| self.live(key) ==> #[trigger] self.count_ok(key)
    }

    /// Whether `other` holds, for every node of `self` whose cube is not
    /// inside `region`, the same content and the same child keys.
    pub(crate) open spec fn agrees_outside(&self, other: &Self, region: Cube) -> bool {
        forall|key: usize| #[trigger]
            self.live(key) && !self.cube_of(key).within(region) ==> {
                &&& other.content(key) == self.content(key)
                &&& forall|octant: u32|
                    octant < 8 ==> #[trigger] other.child_key(key, octant) == self.child_key(
                        key,
                        octant,
                    )
            }
    }

    /// The node `key` of `self` is a node of `other` with the same content,
    /// place and child keys.
    pub(crate) open spec fn kept(&self, other: &Self, key: usize) -> bool {
        &&& other.live(key)
        &&& other.content(key) == self.content(key)
        &&& other.places@[key] == self.places@[key]
        &&& forall|octant: u32|
            octant < 8 ==> #[trigger] other.child_key(key, octant) == self.child_key(key, octant)
    }

    /// The two octrees have the same edge and the same setting.
    pub(crate) open spec fn same_frame(&self, other: &Self) -> bool {
        &&& other.octree_size == self.octree_size
        &&& other.auto_simplify == self.auto_simplify
    }

    /// Whether the node `key` lies under the node `top`, at any depth.
    pub(crate) open spec fn under(&self, key: usize, top: usize) -> bool {
        under_in(self.places@, self.octree_size, key, top)
    }

    /// The octant of `top` under which the node `key` lies.
    pub(crate) open spec fn branch(&self, key: usize, top: usize) -> u32 {
        branch_in(self.places@, self.octree_size, key, top)
    }

    // ---------------------------------------------------------------------
    // The public model
    // ---------------------------------------------------------------------
    /// The representation is well formed: the nodes form a tree under the
    /// root in which each node covers its octant of the node above it, a leaf
    /// has no children, and each interior node counts the voxels under it
    /// that are not empty. A leaf above the level of the bricks stands for
    /// its brick repeated along each axis.
    pub closed spec fn wf(&self) -> bool {
        self.inv()
    }

    /// The edge of the volume: positions lie in `[0, size())` on each axis.
    pub closed spec fn size(&self) -> int {
        self.octree_size as int
    }

    /// Whether the position lies inside the volume.
    pub open spec fn in_bounds(&self, p: V3c<u32>) -> bool {
        p.x < self.size() && p.y < self.size() && p.z < self.size()
    }

    /// The cube that a write of edge `size` for `position` fills: the node
    /// of the octree that holds the position and has the edge of the write
    /// or, for a smaller write, of a brick; for a write of less than a brick
    /// the cube of that edge at the position inside the brick.
    pub open spec fn lod_region(&self, position: V3c<u32>, size: u32) -> Cube {
        region_in(Cube::root(self.size() as u32), position, size, DIM)
    }

    /// The voxel at `p`; the empty voxel where nothing was stored for `p`
    /// and outside the volume.
    pub closed spec fn voxel_at(&self, p: V3c<u32>) -> T {
        self.voxel(p)
    }

    /// Whether the key names a node of the octree.
    pub closed spec fn is_node(&self, key: usize) -> bool {
        self.live(key)
    }

    /// What the node holds.
    pub closed spec fn node_content(&self, key: usize) -> NodeContent<T, DIM> {
        self.content(key)
    }

    /// The key under the octant of the node; the key that names no node
    /// where the node has no child there.
    pub closed spec fn node_child(&self, key: usize, octant: u32) -> usize {
        self.child_key(key, octant)
    }

    /// The cube of the node.
    pub closed spec fn node_bounds(&self, key: usize) -> Cube {
        self.cube_of(key)
    }

    /// Whether the root is the only node, holds nothing and has no
    /// children: the octree as it is made, and as a clearing of the whole
    /// volume leaves it.
    pub open spec fn only_root(&self) -> bool {
        &&& self.is_node(ROOT_NODE_KEY)
        &&& self.node_content(ROOT_NODE_KEY) is Nothing
        &&& forall|octant: u32|
            octant < 8 ==> #[trigger] self.node_child(ROOT_NODE_KEY, octant)
                == key_none_value_spec()
        &&& forall|key: usize| #[trigger] self.is_node(key) ==> key == ROOT_NODE_KEY
    }

    /// The number of slots for nodes that the octree holds, in use or not.
    pub closed spec fn slot_count(&self) -> nat {
        self.nodes.slots()
    }

    /// What the child under the octant of the node records as the number of
    /// its voxels that are not empty; nothing where there is no child.
    pub open spec fn recorded_under(&self, key: usize, octant: u32) -> int {
        let child = self.node_child(key, octant);
        if child == key_none_value_spec() {
            0
        } else {
            content_population(self.node_content(child), self.node_bounds(key).size as int / 2)
        }
    }

    /// Whether a leaf of the octree covers `p`, so that a voxel is stored
    /// for it, be it empty.
    pub closed spec fn is_stored(&self, p: V3c<u32>) -> bool {
        self.stored(p).is_some()
    }

    /// What a lookup at the position gives: the voxel there, unless it is
    /// empty.
    pub open spec fn lookup(&self, p: V3c<u32>) -> Option<T> {
        if self.voxel_at(p).is_empty() {
            None
        } else {
            Some(self.voxel_at(p))
        }
    }

    /// Whether `after` is what a write of `data` to the region makes of
    /// `self`: a well-formed octree of the same size that holds `data` in
    /// the region and what `self` holds elsewhere.
    pub open spec fn filled(&self, after: &Self, region: Cube, data: T) -> bool {
        &&& after.wf()
        &&& after.size() == self.size()
        &&& forall|p: V3c<u32>| #[trigger]
            after.voxel_at(p) == if region.contains(p) {
                data
            } else {
                self.voxel_at(p)
            }
    }

    /// Whether every voxel of the region is stored and is `data`.
    pub open spec fn holds_already(&self, region: Cube, data: T) -> bool {
        forall|p: V3c<u32>|
            region.contains(p) ==> #[trigger] self.is_stored(p) && self.voxel_at(p) == data
    }

    /// Whether `after` has the nodes of `self`, under the same keys, and
    /// as many slots for nodes.
    pub open spec fn same_nodes(&self, after: &Self) -> bool {
        &&& forall|key: usize| #[trigger] after.is_node(key) == self.is_node(key)
        &&& after.slot_count() == self.slot_count()
    }

    /// The edge of the nodes on which a write of edge `size` works: the
    /// edge of the write, or of a brick if that is larger.
    pub open spec fn level_of(size: u32) -> u32 {
        if size > DIM {
            size
        } else {
            DIM as u32
        }
    }

    /// Whether `after` differs from `self` in nothing but the one voxel of
    /// one brick in which `self` stores `position`, which is `value` in
    /// `after`.
    pub closed spec fn rewritten_at(&self, after: &Self, position: V3c<u32>, value: T) -> bool {
        exists|key: usize| #[trigger] self.holds_in(key, position) && self.rewritten_in(after, key, position, value)
    }

    /// Whether the voxel for `position` is stored in a leaf with the edge of
    /// a brick, so that no other position shares it.
    pub closed spec fn stored_in_brick(&self, position: V3c<u32>) -> bool {
        forall|key: usize| #[trigger] self.holds_in(key, position) ==> self.cube_of(key).size == DIM
    }

    /// Whether the node is a leaf whose cube holds the position.
    pub(crate) open spec fn holds_in(&self, key: usize, position: V3c<u32>) -> bool {
        &&& self.live(key)
        &&& self.cube_of(key).contains(position)
        &&& self.content(key) is Leaf
    }

    /// Whether `after` differs from `self` in nothing but the voxel for
    /// `position` in the brick of the leaf `key`, which is `value` in
    /// `after`.
    pub(crate) open spec fn rewritten_in(
        &self,
        after: &Self,
        key: usize,
        position: V3c<u32>,
        value: T,
    ) -> bool {
        let index = mat_index_spec::<DIM>(self.cube_of(key), position);
        &&& self.same_frame(after)
        &&& after.places == self.places
        &&& after.node_children == self.node_children
        &&& after.nodes.wf()
        &&& after.nodes.slots() == self.nodes.slots()
        &&& forall|k: usize| #[trigger] after.live(k) == self.live(k)
        &&& forall|k: usize|
            k != key && #[trigger] self.live(k) ==> after.content(k) == self.content(k)
        &&& after.content(key) matches NodeContent::Leaf(brick) && forall|x: int, y: int, z: int|
            0 <= x < DIM && 0 <= y < DIM && 0 <= z < DIM ==> #[trigger] brick[x][y][z] == if x
                == index.x && y == index.y && z == index.z {
                value
            } else {
                self.content(key)->Leaf_0[x][y][z]
            }
    }

    /// Whether insertions collapse nodes with eight equal leaves: the value
    /// of the field `auto_simplify`.
    pub closed spec fn simplifies(&self) -> bool {
        self.auto_simplify
    }

    /// What the public names for the model stand for.
    pub(crate) proof fn lemma_public_model(&self)
        ensures
            self.wf() == self.inv(),
            self.simplifies() == self.auto_simplify,
            self.size() == self.octree_size,
            forall|p: V3c<u32>| #[trigger] self.voxel_at(p) == self.voxel(p),
            forall|p: V3c<u32>| #[trigger] self.is_stored(p) == self.stored(p).is_some(),
            forall|key: usize| #[trigger] self.is_node(key) == self.live(key),
            forall|key: usize| #[trigger] self.node_content(key) == self.content(key),
            forall|key: usize| #[trigger] self.node_bounds(key) == self.cube_of(key),
            forall|key: usize, octant: u32| #[trigger]
                self.node_child(key, octant) == self.child_key(key, octant),
            self.slot_count() == self.nodes.slots(),
            forall|position: V3c<u32>| #[trigger]
                self.stored_in_brick(position) == (forall|key: usize| #[trigger]
                    self.holds_in(key, position) ==> self.cube_of(key).size == DIM),
            forall|after: &Self, position: V3c<u32>, value: T| #[trigger]
                self.rewritten_at(after, position, value) == (exists|key: usize| #[trigger]
                    self.holds_in(key, position) && self.rewritten_in(
                        after,
                        key,
                        position,
                        value,
                    )),
            forall|p: V3c<u32>| #[trigger] self.in_bounds(p) == self.root_cube().contains(p),
            forall|after: &Self, position: V3c<u32>, value: T, key: usize|
                self.holds_in(key, position) && #[trigger] self.rewritten_in(
                    after,
                    key,
                    position,
                    value,
                ) ==> self.rewritten_at(after, position, value),
    {
    }

    /// The edge of a well-formed octree and of its bricks are powers of
    /// two, and the octree is small enough to count its voxels.
    pub proof fn lemma_size_is_valid(&self)
        requires
            self.wf(),
        ensures
            is_pow2(self.size()),
            is_pow2(DIM as int),
            DIM <= self.size(),
            cubed(self.size()) <= u32::MAX,
    {
    }

    // ---------------------------------------------------------------------
    // Lemmas on lookups
    // ---------------------------------------------------------------------
    /// The cube of a node can be halved, and its octants are cubes of the
    /// tree.
    pub(crate) proof fn lemma_cube_splits(&self, cube: Cube, octant: u32)
        requires
            self.dims_ok(),
            self.cube_ok(cube),
            cube.size > DIM,
            octant < 8,
        ensures
            cube.fits(),
            cube.size >= 2,
            cube.size % 2 == 0,
            self.cube_ok(cube.child(octant)),
            cube.child(octant).size == cube.size / 2,
            cube.child(octant).fits(),
    {
        lemma_pow2_positive(DIM as int);
        lemma_pow2_gap(cube.size as int, DIM as int);
        lemma_child_contains(cube, cube.min_position, octant);
        let half = cube.size as int / 2;
        let child = cube.child(octant);
        lemma_aligned_halves(cube.min_position.x as int, half);
        lemma_aligned_halves(cube.min_position.y as int, half);
        lemma_aligned_halves(cube.min_position.z as int, half);
    }

    /// A cube of the tree lies in the range of the coordinates and is no
    /// larger than the octree.
    pub(crate) proof fn lemma_cube_fits(&self, cube: Cube)
        requires
            self.dims_ok(),
            self.cube_ok(cube),
        ensures
            cube.fits(),
            cube.size <= self.octree_size,
            cube.size >= 1,
            cubed(cube.size as int) <= cubed(self.octree_size as int),
    {
        lemma_pow2_positive(DIM as int);
        lemma_cubed_monotonic(cube.size as int, self.octree_size as int);
    }

    /// The node under an octant of a node: a node of the tree other than
    /// the root and the node itself, placed in that octant.
    pub(crate) proof fn lemma_child(&self, node: usize, octant: u32)
        requires
            self.structure_ok(),
            self.live(node),
            octant < 8,
            self.child_key(node, octant) != key_none_value_spec(),
        ensures
            ({
                let child = self.child_key(node, octant);
                &&& self.live(child)
                &&& child != ROOT_NODE_KEY
                &&& child != node
                &&& self.places@[child] == (Place {
                    cube: self.cube_of(node).child(octant),
                    parent: node,
                    octant,
                })
                &&& !(self.content(node) is Leaf)
                &&& self.cube_of(node).size > DIM
                &&& self.cube_of(child).size == self.cube_of(node).size / 2
                &&& self.cube_of(child).size < self.cube_of(node).size <= self.octree_size
                &&& self.cube_ok(self.cube_of(child))
                &&& self.cube_ok(self.cube_of(node))
                &&& self.node_ok(child)
                &&& self.node_ok(node)
            }),
    {
        let child = self.child_key(node, octant);
        assert(self.node_ok(node));
        assert(self.link_ok(node, octant));
        assert(self.node_ok(child));
        assert(self.node_ok(ROOT_NODE_KEY));
        self.lemma_cube_splits(self.cube_of(node), octant);
        self.lemma_cube_fits(self.cube_of(node));
        if self.content(node) is Leaf {
            assert(self.childless(node));
            assert(self.child_key(node, octant) == key_none_value_spec());
        }
    }

    /// The place of a node other than the root: under its parent, in the
    /// octant that its place names, with half the parent's edge.
    pub(crate) proof fn lemma_parent(&self, key: usize)
        requires
            self.structure_ok(),
            self.live(key),
            key != ROOT_NODE_KEY,
        ensures
            ({
                let place = self.places@[key];
                &&& place.octant < 8
                &&& self.live(place.parent)
                &&& self.child_key(place.parent, place.octant) == key
                &&& !(self.content(place.parent) is Leaf)
                &&& self.cube_of(place.parent).size > DIM
                &&& self.cube_of(key) == self.cube_of(place.parent).child(place.octant)
                &&& self.cube_of(key).size < self.cube_of(place.parent).size <= self.octree_size
                &&& self.cube_of(key).within(self.cube_of(place.parent))
                &&& key != key_none_value_spec()
            }),
    {
        assert(self.node_ok(key));
        let place = self.places@[key];
        let parent = place.parent;
        assert(self.node_ok(parent));
        assert(self.link_ok(parent, place.octant));
        self.nodes.lemma_live_key_is_a_slot(key);
        self.lemma_cube_splits(self.cube_of(parent), place.octant);
        self.lemma_cube_fits(self.cube_of(parent));
        lemma_child_contains(self.cube_of(parent), self.cube_of(parent).min_position, place.octant);
        if self.content(parent) is Leaf {
            assert(self.childless(parent));
            assert(self.child_key(parent, place.octant) == key_none_value_spec());
        }
    }

    /// What lies under a node lies inside its cube and is smaller.
    pub(crate) proof fn lemma_under_within(&self, key: usize, top: usize)
        requires
            self.structure_ok(),
            self.live(key),
            self.under(key, top),
        ensures
            self.live(top),
            self.cube_of(key).within(self.cube_of(top)),
            self.cube_of(key).size < self.cube_of(top).size,
            key != top,
            key != ROOT_NODE_KEY,
        decreases self.octree_size - self.cube_of(key).size,
    {
        self.lemma_parent(key);
        let parent = self.places@[key].parent;
        if parent != top {
            self.lemma_under_within(parent, top);
        }
    }

    /// A node lies under `top` exactly if its parent is `top` or lies under
    /// it.
    pub(crate) proof fn lemma_under_step(&self, key: usize, top: usize)
        requires
            self.structure_ok(),
            self.live(key),
            key != ROOT_NODE_KEY,
        ensures
            self.under(key, top) == (self.places@[key].parent == top || self.under(
                self.places@[key].parent,
                top,
            )),
    {
        self.lemma_parent(key);
    }

    /// Every node but the root lies under the root.
    pub(crate) proof fn lemma_under_root(&self, key: usize)
        requires
            self.structure_ok(),
            self.live(key),
            key != ROOT_NODE_KEY,
        ensures
            self.under(key, ROOT_NODE_KEY),
        decreases self.octree_size - self.cube_of(key).size,
    {
        self.lemma_parent(key);
        let parent = self.places@[key].parent;
        if parent != ROOT_NODE_KEY {
            self.lemma_under_root(parent);
        }
    }

    /// A node under `top` lies in one of its octants: it is the child there
    /// or lies under that child.
    pub(crate) proof fn lemma_under_branch(&self, key: usize, top: usize)
        requires
            self.structure_ok(),
            self.live(key),
            self.under(key, top),
        ensures
            ({
                let octant = self.branch(key, top);
                let child = self.child_key(top, octant);
                &&& octant < 8
                &&& child != key_none_value_spec()
                &&& (key == child || self.under(key, child))
            }),
        decreases self.octree_size - self.cube_of(key).size,
    {
        self.lemma_parent(key);
        let parent = self.places@[key].parent;
        if parent != top {
            self.lemma_under_branch(parent, top);
        }
    }

    /// A child of `top` and all that lies under the child lie under `top`,
    /// in the child's octant.
    pub(crate) proof fn lemma_branch_under(&self, key: usize, top: usize, octant: u32)
        requires
            self.structure_ok(),
            self.live(key),
            self.live(top),
            octant < 8,
            self.child_key(top, octant) != key_none_value_spec(),
            key == self.child_key(top, octant) || self.under(key, self.child_key(top, octant)),
        ensures
            self.under(key, top),
            self.branch(key, top) == octant,
        decreases self.octree_size - self.cube_of(key).size,
    {
        let child = self.child_key(top, octant);
        self.lemma_child(top, octant);
        if key == child {
            self.lemma_parent(key);
        } else {
            self.lemma_parent(key);
            self.lemma_under_within(key, child);
            let parent = self.places@[key].parent;
            if parent == child {
                self.lemma_branch_under(child, top, octant);
            } else {
                self.lemma_branch_under(parent, top, octant);
            }
            self.lemma_under_within(parent, top);
            assert(parent != top) by {
                if parent == top {
                    // then key is a child of top, and as large as `child`
                    self.lemma_under_within(key, child);
                }
            }
        }
    }

    /// A lookup from the root for a position in the cube of a node passes
    /// through that node.
    pub(crate) proof fn lemma_lookup_through(&self, key: usize, p: V3c<u32>)
        requires
            self.structure_ok(),
            self.live(key),
            self.cube_of(key).contains(p),
        ensures
            self.root_cube().contains(p),
            self.voxel_in(ROOT_NODE_KEY, self.root_cube(), p) == self.voxel_in(
                key,
                self.cube_of(key),
                p,
            ),
        decreases self.octree_size - self.cube_of(key).size,
    {
        assert(self.node_ok(key));
        if key != ROOT_NODE_KEY {
            let place = self.places@[key];
            let parent = place.parent;
            assert(self.node_ok(parent));
            assert(self.link_ok(parent, place.octant));
            self.nodes.lemma_live_key_is_a_slot(key);
            self.lemma_cube_splits(self.cube_of(parent), place.octant);
            self.lemma_cube_fits(self.cube_of(parent));
            lemma_child_contains(self.cube_of(parent), p, place.octant);
            self.lemma_lookup_through(parent, p);
            assert(!(self.content(parent) is Leaf)) by {
                if self.content(parent) is Leaf {
                    assert(self.childless(parent));
                    assert(self.child_key(parent, place.octant) == key_none_value_spec());
                }
            }
        }
    }

    /// A lookup that never enters `region` gives the same voxel in two
    /// octrees that agree outside the region.
    pub(crate) proof fn lemma_lookup_frame(
        &self,
        other: &Self,
        region: Cube,
        key: usize,
        cube: Cube,
        p: V3c<u32>,
    )
        requires
            self.structure_ok(),
            self.agrees_outside(other, region),
            self.live(key),
            self.cube_of(key) == cube,
            cube.contains(p),
            !region.contains(p),
        ensures
            other.voxel_in(key, cube, p) == self.voxel_in(key, cube, p),
        decreases cube.size,
    {
        assert(self.node_ok(key));
        assert(!cube.within(region));
        let octant = cube.octant_of(p);
        lemma_pow2_positive(DIM as int);
        assert(other.child_key(key, octant) == self.child_key(key, octant)) by {
            self.lemma_cube_fits(cube);
            assert(octant < 8);
        }
        let child = self.child_key(key, octant);
        if !(self.content(key) is Leaf) && cube.size >= 2 && child != key_none_value_spec() {
            assert(self.link_ok(key, octant));
            self.lemma_cube_splits(cube, octant);
            lemma_child_contains(cube, p, octant);
            self.lemma_lookup_frame(other, region, child, cube.child(octant), p);
        }
    }

    /// Whether `other` holds, for every node of `self` in `cube` whose cube
    /// holds `p`, the same content and the same child keys.
    pub(crate) open spec fn agrees_below(&self, other: &Self, cube: Cube, p: V3c<u32>) -> bool {
        forall|key: usize| #[trigger]
            self.live(key) && self.cube_of(key).within(cube) && self.cube_of(key).contains(p) ==> {
                &&& other.content(key) == self.content(key)
                &&& forall|octant: u32|
                    octant < 8 ==> #[trigger] other.child_key(key, octant) == self.child_key(
                        key,
                        octant,
                    )
            }
    }

    /// A lookup gives the same voxel in two octrees that agree on the nodes
    /// it passes.
    pub(crate) proof fn lemma_lookup_same(&self, other: &Self, key: usize, cube: Cube, p: V3c<u32>)
        requires
            self.structure_ok(),
            self.live(key),
            self.cube_of(key) == cube,
            cube.contains(p),
            self.agrees_below(other, cube, p),
        ensures
            other.voxel_in(key, cube, p) == self.voxel_in(key, cube, p),
        decreases cube.size,
    {
        assert(self.node_ok(key));
        assert(cube.within(cube));
        let octant = cube.octant_of(p);
        lemma_pow2_positive(DIM as int);
        self.lemma_cube_fits(cube);
        assert(octant < 8);
        assert(other.child_key(key, octant) == self.child_key(key, octant));
        let child = self.child_key(key, octant);
        if !(self.content(key) is Leaf) && cube.size >= 2 && child != key_none_value_spec() {
            self.lemma_child(key, octant);
            self.lemma_cube_splits(cube, octant);
            lemma_child_contains(cube, p, octant);
            let below = cube.child(octant);
            assert(self.agrees_below(other, below, p)) by {
                assert forall|k: usize| #[trigger]
                    self.live(k) && self.cube_of(k).within(below) && self.cube_of(k).contains(
                        p,
                    ) implies {
                    &&& other.content(k) == self.content(k)
                    &&& forall|o: u32|
                        o < 8 ==> #[trigger] other.child_key(k, o) == self.child_key(k, o)
                } by {
                    assert(self.cube_of(k).within(cube));
                }
            }
            self.lemma_lookup_same(other, child, below, p);
        }
    }

    /// The voxels stay the same when a node that is no leaf gets a content
    /// that is none either.
    pub(crate) proof fn lemma_interior_changed(&self, after: &Self, node: usize, p: V3c<u32>)
        requires
            self.structure_ok(),
            after.structure_ok(),
            self.live(node),
            after.live(node),
            self.same_frame(after),
            after.places@[node] == self.places@[node],
            !(self.content(node) is Leaf),
            !(after.content(node) is Leaf),
            forall|k: usize| k != node && #[trigger] self.live(k) ==> self.kept(after, k),
            forall|o: u32|
                o < 8 ==> #[trigger] after.child_key(node, o) == self.child_key(node, o),
        ensures
            after.stored(p) == self.stored(p),
    {
        let cube = self.cube_of(node);
        assert(self.node_ok(node));
        if cube.contains(p) {
            self.lemma_lookup_through(node, p);
            after.lemma_lookup_through(node, p);
            let octant = cube.octant_of(p);
            lemma_pow2_positive(DIM as int);
            self.lemma_cube_fits(cube);
            assert(octant < 8);
            let child = self.child_key(node, octant);
            assert(after.child_key(node, octant) == child);
            if cube.size >= 2 && child != key_none_value_spec() {
                self.lemma_child(node, octant);
                self.lemma_cube_splits(cube, octant);
                lemma_child_contains(cube, p, octant);
                let below = cube.child(octant);
                assert(self.agrees_below(after, below, p)) by {
                    assert forall|k: usize| #[trigger]
                        self.live(k) && self.cube_of(k).within(below) && self.cube_of(
                            k,
                        ).contains(p) implies {
                        &&& after.content(k) == self.content(k)
                        &&& forall|o: u32|
                            o < 8 ==> #[trigger] after.child_key(k, o) == self.child_key(k, o)
                    } by {
                        assert(k != node);
                        assert(self.kept(after, k));
                    }
                }
                self.lemma_lookup_same(after, child, below, p);
            }
        } else {
            assert(self.agrees_outside(after, cube)) by {
                assert forall|k: usize| #[trigger]
                    self.live(k) && !self.cube_of(k).within(cube) implies {
                    &&& after.content(k) == self.content(k)
                    &&& forall|o: u32|
                        o < 8 ==> #[trigger] after.child_key(k, o) == self.child_key(k, o)
                } by {
                    assert(k != node);
                    assert(self.kept(after, k));
                }
            }
            self.lemma_voxel_frame(after, cube, p);
        }
    }

    /// Outside `region` two octrees of one size that agree outside the
    /// region hold the same voxels.
    pub(crate) proof fn lemma_voxel_frame(&self, other: &Self, region: Cube, p: V3c<u32>)
        requires
            self.structure_ok(),
            self.agrees_outside(other, region),
            other.octree_size == self.octree_size,
            !region.contains(p),
        ensures
            other.stored(p) == self.stored(p),
    {
        if self.root_cube().contains(p) {
            assert(self.node_ok(ROOT_NODE_KEY));
            self.lemma_lookup_frame(other, region, ROOT_NODE_KEY, self.root_cube(), p);
        }
    }
}

/// What is aligned to an even edge is aligned to half of it, also when
/// moved by that half.
pub proof fn lemma_aligned_halves(m: int, half: int)
    requires
        half >= 1,
        m >= 0,
        m % (2 * half) == 0,
    ensures
        m % half == 0,
        (m + half) % half == 0,
{
    let q = m / (2 * half);
    assert(m == (2 * half) * q) by {
        vstd::arithmetic::div_mod::lemma_fundamental_div_mod(m, 2 * half);
    }
    assert(m == half * (2 * q)) by (nonlinear_arith)
        requires
            m == (2 * half) * q,
    ;
    assert(m + half == half * (2 * q + 1)) by (nonlinear_arith)
        requires
            m == (2 * half) * q,
    ;
    vstd::arithmetic::div_mod::lemma_mod_multiples_basic(2 * q, half);
    vstd::arithmetic::div_mod::lemma_mod_multiples_basic(2 * q + 1, half);
    assert((2 * q) * half == half * (2 * q)) by (nonlinear_arith);
    assert((2 * q + 1) * half == half * (2 * q + 1)) by (nonlinear_arith);
}

/// A power of two is at least one.
pub proof fn lemma_pow2_positive(n: int)
    requires
        is_pow2(n),
    ensures
        n >= 1,
{
}

/// Of two powers of two the larger is at least twice the smaller.
pub proof fn lemma_pow2_gap(a: int, b: int)
    requires
        is_pow2(a),
        is_pow2(b),
        a > b,
    ensures
        a >= 2 * b,
        a % 2 == 0,
        is_pow2(a / 2),
    decreases b,
{
    if b > 1 {
        lemma_pow2_gap(a / 2, b / 2);
    }
}

/// Of two powers of two the smaller divides the larger, into a power of two.
pub proof fn lemma_pow2_divides(a: int, b: int)
    requires
        is_pow2(a),
        is_pow2(b),
        b <= a,
    ensures
        a % b == 0,
        is_pow2(a / b),
        (a / b) * b == a,
        a > b ==> a / b == 2 * ((a / 2) / b),
    decreases a,
{
    lemma_pow2_positive(b);
    if a == b {
        vstd::arithmetic::div_mod::lemma_div_basics(a);
        vstd::arithmetic::div_mod::lemma_mod_self_0(a);
    } else {
        lemma_pow2_gap(a, b);
        lemma_pow2_divides(a / 2, b);
        let m = (a / 2) / b;
        assert(a == (2 * m) * b) by (nonlinear_arith)
            requires
                a == 2 * (a / 2),
                m * b == a / 2,
        ;
        vstd::arithmetic::div_mod::lemma_fundamental_div_mod_converse(a, b, 2 * m, 0);
        lemma_pow2_positive(m);
        assert((2 * m) / 2 == m);
    }
}

/// The index of a position in a brick that repeats with the period `dim`
/// does not change when the position is measured from a corner that lies
/// a multiple of `dim` further back.
pub proof fn lemma_mod_shift(x: int, t: int, dim: int)
    requires
        x >= 0,
        t >= 0,
        dim >= 1,
        t % dim == 0,
    ensures
        (x + t) % dim == x % dim,
{
    let q = t / dim;
    vstd::arithmetic::div_mod::lemma_fundamental_div_mod(t, dim);
    assert(t == dim * q);
    vstd::arithmetic::div_mod::lemma_mod_multiples_vanish(q, x, dim);
    assert(dim * q + x == x + t);
}

/// A cube of edge `n` that a brick of edge `dim` divides holds as many
/// lattice points as the brick, once for each repetition.
pub proof fn lemma_cubed_product(dim: int, times: int)
    requires
        dim >= 0,
        times >= 0,
    ensures
        cubed(dim) * cubed(times) == cubed(dim * times),
        0 <= cubed(times),
{
    assert((dim * dim * dim) * (times * times * times) == (dim * times) * (dim * times) * (dim
        * times)) by (nonlinear_arith);
    assert(0 <= times * times * times) by (nonlinear_arith)
        requires
            times >= 0,
    ;
}

/// The index of a position of a cube lies in the brick, and is the offset
/// from the minimum corner where that offset lies in the brick.
pub proof fn lemma_index_in_brick<const DIM: usize>(cube: Cube, p: V3c<u32>)
    requires
        DIM >= 1,
        cube.contains(p),
    ensures
        ({
            let index = mat_index_spec::<DIM>(cube, p);
            &&& index.x < DIM && index.y < DIM && index.z < DIM
            &&& p.x - cube.min_position.x < DIM ==> index.x == p.x - cube.min_position.x
            &&& p.y - cube.min_position.y < DIM ==> index.y == p.y - cube.min_position.y
            &&& p.z - cube.min_position.z < DIM ==> index.z == p.z - cube.min_position.z
        }),
{
    let d = DIM as int;
    vstd::arithmetic::div_mod::lemma_mod_bound(p.x - cube.min_position.x, d);
    vstd::arithmetic::div_mod::lemma_mod_bound(p.y - cube.min_position.y, d);
    vstd::arithmetic::div_mod::lemma_mod_bound(p.z - cube.min_position.z, d);
    if p.x - cube.min_position.x < d {
        vstd::arithmetic::div_mod::lemma_small_mod((p.x - cube.min_position.x) as nat, d as nat);
    }
    if p.y - cube.min_position.y < d {
        vstd::arithmetic::div_mod::lemma_small_mod((p.y - cube.min_position.y) as nat, d as nat);
    }
    if p.z - cube.min_position.z < d {
        vstd::arithmetic::div_mod::lemma_small_mod((p.z - cube.min_position.z) as nat, d as nat);
    }
}

/// A position of an octant of a cube has the same index in the octant as in
/// the cube, where the brick divides half the edge of the cube.
pub proof fn lemma_index_in_child<const DIM: usize>(cube: Cube, octant: u32, p: V3c<u32>)
    requires
        DIM >= 1,
        cube.fits(),
        cube.size >= 2,
        cube.size % 2 == 0,
        (cube.size as int / 2) % (DIM as int) == 0,
        octant < 8,
        cube.child(octant).contains(p),
    ensures
        mat_index_spec::<DIM>(cube.child(octant), p) == mat_index_spec::<DIM>(cube, p),
{
    let below = cube.child(octant);
    let half = cube.size as int / 2;
    let d = DIM as int;
    assert(0int % d == 0) by {
        vstd::arithmetic::div_mod::lemma_small_mod(0, d as nat);
    }
    lemma_mod_shift(p.x - below.min_position.x, below.min_position.x - cube.min_position.x, d);
    lemma_mod_shift(p.y - below.min_position.y, below.min_position.y - cube.min_position.y, d);
    lemma_mod_shift(p.z - below.min_position.z, below.min_position.z - cube.min_position.z, d);
}

/// A cube of an even edge has eight times the lattice points of a cube of
/// half the edge.
pub proof fn lemma_cubed_halves(n: int)
    requires
        n >= 0,
        n % 2 == 0,
    ensures
        cubed(n) == 8 * cubed(n / 2),
{
    let h = n / 2;
    assert(n == 2 * h);
    assert((2 * h) * (2 * h) * (2 * h) == 8 * (h * h * h)) by (nonlinear_arith);
}

/// A cube has no fewer lattice points than a cube of a smaller edge, and
/// no fewer than that edge or its square.
pub proof fn lemma_cubed_monotonic(a: int, b: int)
    requires
        0 <= a <= b,
    ensures
        0 <= cubed(a) <= cubed(b),
        a * a <= cubed(b) || b == 0,
        a <= cubed(b),
{
    assert(0 <= a * a <= b * b) by (nonlinear_arith)
        requires
            0 <= a <= b,
    ;
    assert(0 <= a * a * a <= b * b * b) by (nonlinear_arith)
        requires
            0 <= a <= b,
            0 <= a * a <= b * b,
    ;
    assert(b >= 1 ==> a * a <= b * b * b && a <= b * b * b) by (nonlinear_arith)
        requires
            0 <= a <= b,
            0 <= a * a <= b * b,
    ;
}

} // verus!
