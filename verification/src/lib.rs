//! A sparse voxel octree: values assigned to integer lattice points of a
//! cubical volume, stored in a pool of nodes whose leaves hold dense bricks.

pub mod object_pool;
pub mod octree;
pub mod spatial;
