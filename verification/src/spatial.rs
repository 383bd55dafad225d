//! Integer geometry of the octree: axis-aligned cubes and their octants.

pub mod math;

use crate::spatial::math::vector::V3c;
use vstd::prelude::*;

verus! {

/// An axis-aligned cube that spans the half-open lattice region
/// `[min_position, min_position + size)` on each axis.
#[derive(Clone, Copy, Debug)]
pub struct Cube {
    pub min_position: V3c<u32>,
    pub size: u32,
}

impl Cube {
    /// Whether the lattice point `p` lies inside the cube.
    pub open spec fn contains(&self, p: V3c<u32>) -> bool {
        &&& self.min_position.x <= p.x < self.min_position.x + self.size
        &&& self.min_position.y <= p.y < self.min_position.y + self.size
        &&& self.min_position.z <= p.z < self.min_position.z + self.size
    }

    /// Whether every lattice point of `self` lies inside `outer`.
    pub open spec fn within(&self, outer: Cube) -> bool {
        &&& outer.min_position.x <= self.min_position.x
        &&& self.min_position.x + self.size <= outer.min_position.x + outer.size
        &&& outer.min_position.y <= self.min_position.y
        &&& self.min_position.y + self.size <= outer.min_position.y + outer.size
        &&& outer.min_position.z <= self.min_position.z
        &&& self.min_position.z + self.size <= outer.min_position.z + outer.size
    }

    /// The cube's far corner stays inside the range of the coordinates.
    pub open spec fn fits(&self) -> bool {
        &&& self.min_position.x + self.size <= u32::MAX
        &&& self.min_position.y + self.size <= u32::MAX
        &&& self.min_position.z + self.size <= u32::MAX
    }

    /// The cube of edge `size` anchored at the origin.
    pub open spec fn root(size: u32) -> Cube {
        Cube { min_position: V3c { x: 0, y: 0, z: 0 }, size }
    }

    /// The octant `octant` of the cube: half the edge, displaced by half the
    /// edge along each axis that the octant's corner selects.
    pub open spec fn child(&self, octant: u32) -> Cube {
        let half = self.size / 2;
        let corner = offset_region_spec(octant);
        Cube {
            min_position: V3c {
                x: (self.min_position.x + if corner.x == 1 { half } else { 0 }) as u32,
                y: (self.min_position.y + if corner.y == 1 { half } else { 0 }) as u32,
                z: (self.min_position.z + if corner.z == 1 { half } else { 0 }) as u32,
            },
            size: half,
        }
    }

    /// The octant of the cube that holds `p`.
    pub open spec fn octant_of(&self, p: V3c<u32>) -> u32 {
        hash_region_spec(
            V3c {
                x: (p.x - self.min_position.x) as u32,
                y: (p.y - self.min_position.y) as u32,
                z: (p.z - self.min_position.z) as u32,
            },
            self.size,
        )
    }

    /// The cube of edge `size` anchored at the origin.
    pub fn root_bounds(size: u32) -> (cube: Cube)
        ensures
            cube == Cube::root(size),
    {
        Cube { min_position: V3c::new(0, 0, 0), size }
    }

    /// Whether the lattice point lies inside the cube.
    pub fn contains_point(&self, point: &V3c<u32>) -> (inside: bool)
        ensures
            inside == self.contains(*point),
    {
        point.x >= self.min_position.x && point.x - self.min_position.x < self.size && point.y
            >= self.min_position.y && point.y - self.min_position.y < self.size && point.z
            >= self.min_position.z && point.z - self.min_position.z < self.size
    }

    /// The octant `octant` of the cube.
    pub fn child_bounds_for(&self, octant: u32) -> (cube: Cube)
        requires
            self.fits(),
            octant < 8,
        ensures
            cube == self.child(octant),
            cube.fits(),
    {
        let half = self.size / 2;
        let corner = offset_region(octant);
        Cube {
            min_position: V3c::new(
                self.min_position.x + if corner.x == 1 { half } else { 0 },
                self.min_position.y + if corner.y == 1 { half } else { 0 },
                self.min_position.z + if corner.z == 1 { half } else { 0 },
            ),
            size: half,
        }
    }
}

/// The octant index of a point given relative to the minimum corner of a
/// cube of edge `size`: one bit for each axis on which the point has reached
/// the middle of the cube.
pub open spec fn hash_region_spec(offset: V3c<u32>, size: u32) -> u32 {
    let half = size / 2;
    let x: u32 = if offset.x >= half { 1 } else { 0 };
    let y: u32 = if offset.y >= half { 2 } else { 0 };
    let z: u32 = if offset.z >= half { 4 } else { 0 };
    (x + y + z) as u32
}

/// The corner in `{0,1}³` of the octant `octant`.
pub open spec fn offset_region_spec(octant: u32) -> V3c<u32> {
    V3c { x: octant % 2, y: (octant / 2) % 2, z: (octant / 4) % 2 }
}

/// The octant index of a point given relative to the minimum corner of a
/// cube of edge `size`.
pub fn hash_region(offset: &V3c<u32>, size: u32) -> (octant: u32)
    ensures
        octant == hash_region_spec(*offset, size),
        octant < 8,
{
    let half = size / 2;
    let x: u32 = if offset.x >= half { 1 } else { 0 };
    let y: u32 = if offset.y >= half { 2 } else { 0 };
    let z: u32 = if offset.z >= half { 4 } else { 0 };
    x + y + z
}

/// The corner in `{0,1}³` of the octant.
pub fn offset_region(octant: u32) -> (corner: V3c<u32>)
    ensures
        corner == offset_region_spec(octant),
        corner.x <= 1 && corner.y <= 1 && corner.z <= 1,
{
    V3c::new(octant % 2, (octant / 2) % 2, (octant / 4) % 2)
}

/// The two functions are each other's inverse on the eight octants.
pub proof fn lemma_octant_round_trip(octant: u32, size: u32)
    requires
        octant < 8,
        size >= 2,
    ensures
        ({
            let corner = offset_region_spec(octant);
            let half = size / 2;
            hash_region_spec(
                V3c {
                    x: (corner.x * half) as u32,
                    y: (corner.y * half) as u32,
                    z: (corner.z * half) as u32,
                },
                size,
            ) == octant
        }),
{
    let half = size / 2;
    assert(0 * half == 0);
    assert(1 * half == half);
}

/// A point of a cube lies in the octant that `octant_of` names, and in no
/// other.
pub proof fn lemma_child_contains(cube: Cube, p: V3c<u32>, octant: u32)
    requires
        cube.fits(),
        cube.size >= 2,
        cube.size % 2 == 0,
        octant < 8,
    ensures
        cube.child(octant).within(cube),
        cube.child(octant).fits(),
        cube.octant_of(p) < 8,
        cube.contains(p) ==> cube.child(cube.octant_of(p)).contains(p),
        cube.child(octant).contains(p) ==> cube.contains(p) && cube.octant_of(p) == octant,
{
}

} // verus!
