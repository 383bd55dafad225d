//! The data that the octree is made of.

use crate::object_pool::ObjectPool;
use crate::spatial::Cube;
use vstd::prelude::*;

verus! {

/// Why an operation on the octree was refused.
#[derive(Debug)]
pub enum Error {
    /// The size is zero or no power of two.
    InvalidNodeSize(u32),
    /// The position lies outside the volume of the octree.
    InvalidPosition { x: u32, y: u32, z: u32 },
}

/// The dense block of voxels that a leaf holds: `DIM` voxels along each axis.
pub type Brick<T, const DIM: usize> = [[[T; DIM]; DIM]; DIM];

/// What a node holds.
#[derive(Clone, Copy)]
pub enum NodeContent<T, const DIM: usize> {
    /// Nothing is stored under the node.
    Nothing,
    /// An interior node, with the number of voxels under it that are not empty.
    Internal(u32),
    /// A leaf, with its brick. Above the level of the bricks the brick
    /// repeats along each axis to fill the cube of the leaf.
    Leaf(Brick<T, DIM>),
}

/// The eight child keys of a node, or the fact that it has none.
#[derive(Clone, Copy)]
pub enum NodeChildrenArray<T> {
    /// The node has no children: the compact form.
    NoChildren,
    /// The key under each octant.
    Children([T; 8]),
}

/// The child keys of a node. Without children it stands for eight copies of
/// `default_key`.
#[derive(Clone, Copy)]
pub struct NodeChildren<T> {
    pub default_key: T,
    pub content: NodeChildrenArray<T>,
}

impl<T: Copy> NodeChildren<T> {
    /// The eight keys.
    pub open spec fn view(&self) -> Seq<T> {
        match self.content {
            NodeChildrenArray::NoChildren => Seq::new(8, |i: int| self.default_key),
            NodeChildrenArray::Children(c) => c@,
        }
    }

    /// Whether the node is in the compact form of a node without children.
    pub fn is_empty(&self) -> (empty: bool)
        ensures
            empty == (self.content is NoChildren),
    {
        match &self.content {
            NodeChildrenArray::NoChildren => true,
            _ => false,
        }
    }

    /// A node without children, which stands for eight copies of
    /// `default_key`.
    pub fn new(default_key: T) -> (children: Self)
        ensures
            children.default_key == default_key,
            children.content is NoChildren,
            children@ == Seq::new(8, |i: int| default_key),
    {
        Self { default_key, content: NodeChildrenArray::NoChildren }
    }

    /// A node with the given child keys.
    pub fn from(default_key: T, children: [T; 8]) -> (made: Self)
        ensures
            made.default_key == default_key,
            made.content == NodeChildrenArray::Children(children),
            made@ == children@,
    {
        Self { default_key, content: NodeChildrenArray::Children(children) }
    }

    /// Replaces the eight child keys.
    pub fn set(&mut self, children: [T; 8])
        ensures
            final(self).default_key == old(self).default_key,
            final(self).content == NodeChildrenArray::Children(children),
            final(self)@ == children@,
    {
        self.content = NodeChildrenArray::Children(children)
    }

    /// The eight child keys.
    pub fn get_full(&self) -> (keys: [T; 8])
        ensures
            keys@ == self@,
    {
        let keys = match &self.content {
            NodeChildrenArray::Children(c) => *c,
            _ => [self.default_key; 8],
        };
        assert(keys@ =~= self@);
        keys
    }

    /// The key at `index`.
    pub fn index(&self, index: u32) -> (key: &T)
        requires
            index < 8,
        ensures
            *key == self@[index as int],
    {
        match &self.content {
            NodeChildrenArray::Children(c) => &c[index as usize],
            _ => &self.default_key,
        }
    }

    /// The key at `index`, to be changed in place; a node without children
    /// gets its eight keys first.
    pub fn index_mut(&mut self, index: u32) -> (key: &mut T)
        requires
            index < 8,
        ensures
            *key == old(self)@[index as int],
            final(self).default_key == old(self).default_key,
            final(self).content is Children,
            final(self)@ == old(self)@.update(index as int, *final(key)),
    {
        if let NodeChildrenArray::NoChildren = &self.content {
            self.content = NodeChildrenArray::Children([self.default_key; 8]);
            assert(self@ =~= old(self)@);
        }
        match &mut self.content {
            NodeChildrenArray::Children(c) => &mut c[index as usize],
            _ => &mut self.default_key,
        }
    }
}

/// What a voxel type has to offer to be stored in the octree. The first
/// three items are ghost: they say what the others are held to. An
/// implementation outside verified code gives them ordinary bodies, which
/// nothing runs.
pub trait VoxelData: Copy {
    /// Whether the voxel counts as empty; a lookup never reports such a voxel.
    spec fn is_empty(&self) -> bool;

    /// The voxel that stands for empty space.
    spec fn empty_value() -> Self;

    /// The voxel that stands for empty space is empty.
    proof fn lemma_empty_value_is_empty()
        ensures
            Self::empty_value().is_empty(),
    ;

    /// Gives the voxel that stands for empty space.
    fn new_empty() -> (v: Self)
        ensures
            v == Self::empty_value(),
    ;

    /// The colour of the voxel; its fourth channel is zero exactly for an
    /// empty voxel.
    fn albedo(&self) -> (channels: [u8; 4])
        ensures
            (channels[3] == 0) == self.is_empty(),
    ;

    /// Resets the voxel to empty space.
    fn clear(&mut self)
        ensures
            *final(self) == Self::empty_value(),
    ;

    /// Whether two voxels are the same.
    fn is_same(&self, other: &Self) -> (same: bool)
        ensures
            same == (*self == *other),
    ;
}

/// Where a node lies in the tree: its cube, the node above it, and the
/// octant under which that node lists it.
pub struct Place {
    pub cube: Cube,
    pub parent: usize,
    pub octant: u32,
}

/// A sparse voxel octree over a cube of edge `size()`, with one voxel of type
/// `T` at each lattice point and bricks of `DIM³` voxels in its leaves.
pub struct Octree<T: VoxelData, const DIM: usize> {
    /// Whether an insertion collapses the nodes that it leaves with eight
    /// leaves whose bricks are equal.
    pub auto_simplify: bool,
    pub(crate) octree_size: u32,
    pub(crate) nodes: ObjectPool<NodeContent<T, DIM>>,
    pub(crate) node_children: Vec<NodeChildren<usize>>,
    pub(crate) places: Ghost<Map<usize, Place>>,
}

/// A voxel of four channels in one word: red in the lowest byte, then
/// green and blue, and alpha in the highest. A voxel without alpha is empty.
impl VoxelData for u32 {
    open spec fn is_empty(&self) -> bool {
        *self < 0x100_0000
    }

    open spec fn empty_value() -> Self {
        0
    }

    proof fn lemma_empty_value_is_empty() {
    }

    fn new_empty() -> (v: Self) {
        0
    }

    fn albedo(&self) -> (channels: [u8; 4])
        ensures
            channels[0] == (*self & 0xff) as u8,
            channels[1] == ((*self >> 8) & 0xff) as u8,
            channels[2] == ((*self >> 16) & 0xff) as u8,
            channels[3] == ((*self >> 24) & 0xff) as u8,
    {
        let v = *self;
        let r: u8 = (v & 0xff) as u8;
        let g: u8 = ((v >> 8) & 0xff) as u8;
        let b: u8 = ((v >> 16) & 0xff) as u8;
        let a: u8 = ((v >> 24) & 0xff) as u8;
        assert((((v >> 24) & 0xff) as u8 == 0) == (v < 0x100_0000)) by (bit_vector);
        [r, g, b, a]
    }

    fn clear(&mut self) {
        *self = 0;
    }

    fn is_same(&self, other: &Self) -> (same: bool) {
        *self == *other
    }
}

} // verus!
