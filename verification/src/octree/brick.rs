//! Work on bricks, the dense blocks of voxels that leaves hold.

use crate::octree::types::{Brick, VoxelData};
use crate::spatial::math::vector::V3c;
use vstd::prelude::*;

verus! {

/// Whether every voxel of the row is `v`.
pub open spec fn row_is_all<T, const DIM: usize>(row: [T; DIM], v: T) -> bool {
    forall|z: int| 0 <= z < DIM ==> #[trigger] row[z] == v
}

/// Whether every voxel of the plane is `v`.
pub open spec fn plane_is_all<T, const DIM: usize>(plane: [[T; DIM]; DIM], v: T) -> bool {
    forall|y: int| 0 <= y < DIM ==> row_is_all(#[trigger] plane[y], v)
}

/// Whether every voxel of the brick is `v`.
pub open spec fn brick_is_all<T, const DIM: usize>(brick: Brick<T, DIM>, v: T) -> bool {
    forall|x: int| 0 <= x < DIM ==> plane_is_all(#[trigger] brick[x], v)
}

/// The number of voxels among the first `upto` of the row that are not empty.
pub open spec fn row_count<T: VoxelData, const DIM: usize>(row: [T; DIM], upto: int) -> int
    decreases upto,
{
    if upto <= 0 {
        0
    } else {
        row_count(row, upto - 1) + if row[upto - 1].is_empty() {
            0int
        } else {
            1int
        }
    }
}

/// The number of voxels in the first `upto` rows of the plane that are not
/// empty.
pub open spec fn plane_count<T: VoxelData, const DIM: usize>(
    plane: [[T; DIM]; DIM],
    upto: int,
) -> int
    decreases upto,
{
    if upto <= 0 {
        0
    } else {
        plane_count(plane, upto - 1) + row_count(plane[upto - 1], DIM as int)
    }
}

/// The number of voxels in the first `upto` planes of the brick that are not
/// empty.
pub open spec fn brick_count<T: VoxelData, const DIM: usize>(
    brick: Brick<T, DIM>,
    upto: int,
) -> int
    decreases upto,
{
    if upto <= 0 {
        0
    } else {
        brick_count(brick, upto - 1) + plane_count(brick[upto - 1], DIM as int)
    }
}

/// The number of voxels of the brick that are not empty.
pub open spec fn brick_population<T: VoxelData, const DIM: usize>(brick: Brick<T, DIM>) -> int {
    brick_count(brick, DIM as int)
}

/// A row holds at most as many voxels that are not empty as it has voxels.
pub proof fn lemma_row_count_bounds<T: VoxelData, const DIM: usize>(row: [T; DIM], upto: int)
    requires
        0 <= upto <= DIM,
    ensures
        0 <= row_count(row, upto) <= upto,
    decreases upto,
{
    if upto > 0 {
        lemma_row_count_bounds(row, upto - 1);
    }
}

/// The same of a plane.
pub proof fn lemma_plane_count_bounds<T: VoxelData, const DIM: usize>(
    plane: [[T; DIM]; DIM],
    upto: int,
)
    requires
        0 <= upto <= DIM,
    ensures
        0 <= plane_count(plane, upto) <= upto * DIM,
    decreases upto,
{
    if upto > 0 {
        lemma_plane_count_bounds(plane, upto - 1);
        lemma_row_count_bounds(plane[upto - 1], DIM as int);
        assert((upto - 1) * DIM + DIM == upto * DIM) by (nonlinear_arith);
    } else {
        assert(0 * DIM == 0);
    }
}

/// A brick holds at most `DIM³` voxels that are not empty.
pub proof fn lemma_brick_count_bounds<T: VoxelData, const DIM: usize>(
    brick: Brick<T, DIM>,
    upto: int,
)
    requires
        0 <= upto <= DIM,
    ensures
        0 <= brick_count(brick, upto) <= upto * DIM * DIM,
    decreases upto,
{
    if upto > 0 {
        lemma_brick_count_bounds(brick, upto - 1);
        lemma_plane_count_bounds(brick[upto - 1], DIM as int);
        assert((upto - 1) * DIM * DIM + DIM * DIM == upto * DIM * DIM) by (nonlinear_arith);
    } else {
        assert(0 * DIM * DIM == 0);
    }
}

/// Whether the voxels of the two bricks are empty in the same places.
pub open spec fn same_emptiness<T: VoxelData, const DIM: usize>(
    a: Brick<T, DIM>,
    b: Brick<T, DIM>,
) -> bool {
    forall|x: int, y: int, z: int|
        0 <= x < DIM && 0 <= y < DIM && 0 <= z < DIM ==> (#[trigger] a[x][y][z]).is_empty()
            == b[x][y][z].is_empty()
}

/// Two rows whose voxels are empty in the same places hold as many voxels
/// that are not empty.
pub proof fn lemma_row_count_same<T: VoxelData, const DIM: usize>(
    a: [T; DIM],
    b: [T; DIM],
    upto: int,
)
    requires
        0 <= upto <= DIM,
        forall|z: int| 0 <= z < DIM ==> (#[trigger] a[z]).is_empty() == b[z].is_empty(),
    ensures
        row_count(a, upto) == row_count(b, upto),
    decreases upto,
{
    if upto > 0 {
        lemma_row_count_same(a, b, upto - 1);
        assert(a[upto - 1].is_empty() == b[upto - 1].is_empty());
    }
}

/// The same of two planes.
pub proof fn lemma_plane_count_same<T: VoxelData, const DIM: usize>(
    a: [[T; DIM]; DIM],
    b: [[T; DIM]; DIM],
    upto: int,
)
    requires
        0 <= upto <= DIM,
        forall|y: int, z: int|
            0 <= y < DIM && 0 <= z < DIM ==> (#[trigger] a[y][z]).is_empty() == b[y][z].is_empty(),
    ensures
        plane_count(a, upto) == plane_count(b, upto),
    decreases upto,
{
    if upto > 0 {
        lemma_plane_count_same(a, b, upto - 1);
        assert forall|z: int| 0 <= z < DIM implies (#[trigger] a[upto - 1][z]).is_empty() == b[upto
            - 1][z].is_empty() by {}
        lemma_row_count_same(a[upto - 1], b[upto - 1], DIM as int);
    }
}

/// Two bricks whose voxels are empty in the same places hold as many voxels
/// that are not empty.
pub proof fn lemma_brick_count_same<T: VoxelData, const DIM: usize>(
    a: Brick<T, DIM>,
    b: Brick<T, DIM>,
    upto: int,
)
    requires
        0 <= upto <= DIM,
        same_emptiness(a, b),
    ensures
        brick_count(a, upto) == brick_count(b, upto),
    decreases upto,
{
    if upto > 0 {
        lemma_brick_count_same(a, b, upto - 1);
        assert forall|y: int, z: int| 0 <= y < DIM && 0 <= z < DIM implies (#[trigger] a[upto
            - 1][y][z]).is_empty() == b[upto - 1][y][z].is_empty() by {}
        lemma_plane_count_same(a[upto - 1], b[upto - 1], DIM as int);
    }
}

/// Two bricks with the same voxels are the same brick.
pub proof fn lemma_bricks_equal<T, const DIM: usize>(a: Brick<T, DIM>, b: Brick<T, DIM>)
    requires
        forall|x: int, y: int, z: int|
            0 <= x < DIM && 0 <= y < DIM && 0 <= z < DIM ==> #[trigger] a[x][y][z] == b[x][y][z],
    ensures
        a == b,
{
    assert forall|x: int| 0 <= x < DIM implies a[x] == b[x] by {
        assert forall|y: int| 0 <= y < DIM implies a[x][y] == b[x][y] by {
            assert forall|z: int| 0 <= z < DIM implies a[x][y][z] == b[x][y][z] by {}
            assert(a[x][y] =~= b[x][y]);
        }
        assert(a[x] =~= b[x]);
    }
    assert(a =~= b);
}

/// The brick whose voxels are all `v`.
pub fn uniform_brick<T: VoxelData, const DIM: usize>(v: T) -> (brick: Brick<T, DIM>)
    ensures
        brick_is_all(brick, v),
{
    let row: [T; DIM] = [v; DIM];
    let plane: [[T; DIM]; DIM] = [row; DIM];
    let brick: Brick<T, DIM> = [plane; DIM];
    brick
}

/// Whether every voxel of the row is `v`.
fn row_all<T: VoxelData, const DIM: usize>(row: &[T; DIM], v: &T) -> (all: bool)
    ensures
        all == row_is_all(*row, *v),
{
    let mut z: usize = 0;
    while z < DIM
        invariant
            z <= DIM,
            forall|k: int| 0 <= k < z ==> #[trigger] row[k] == *v,
        decreases DIM - z,
    {
        if !row[z].is_same(v) {
            return false;
        }
        z += 1;
    }
    true
}

/// Whether every voxel of the plane is `v`.
fn plane_all<T: VoxelData, const DIM: usize>(plane: &[[T; DIM]; DIM], v: &T) -> (all: bool)
    ensures
        all == plane_is_all(*plane, *v),
{
    let mut y: usize = 0;
    while y < DIM
        invariant
            y <= DIM,
            forall|k: int| 0 <= k < y ==> row_is_all(#[trigger] plane[k], *v),
        decreases DIM - y,
    {
        if !row_all(&plane[y], v) {
            return false;
        }
        y += 1;
    }
    true
}

/// Whether the two rows hold the same voxels.
fn row_same<T: VoxelData, const DIM: usize>(a: &[T; DIM], b: &[T; DIM]) -> (same: bool)
    ensures
        same == (forall|z: int| 0 <= z < DIM ==> #[trigger] a[z] == b[z]),
{
    let mut z: usize = 0;
    while z < DIM
        invariant
            z <= DIM,
            forall|k: int| 0 <= k < z ==> #[trigger] a[k] == b[k],
        decreases DIM - z,
    {
        if !a[z].is_same(&b[z]) {
            return false;
        }
        z += 1;
    }
    true
}

/// Whether the two planes hold the same voxels.
fn plane_same<T: VoxelData, const DIM: usize>(a: &[[T; DIM]; DIM], b: &[[T; DIM]; DIM]) -> (same:
    bool)
    ensures
        same == (forall|y: int, z: int|
            0 <= y < DIM && 0 <= z < DIM ==> #[trigger] a[y][z] == b[y][z]),
{
    let mut y: usize = 0;
    while y < DIM
        invariant
            y <= DIM,
            forall|j: int, k: int| 0 <= j < y && 0 <= k < DIM ==> #[trigger] a[j][k] == b[j][k],
        decreases DIM - y,
    {
        if !row_same(&a[y], &b[y]) {
            return false;
        }
        y += 1;
    }
    true
}

/// Whether the two bricks are equal, voxel by voxel.
pub fn brick_same<T: VoxelData, const DIM: usize>(a: &Brick<T, DIM>, b: &Brick<T, DIM>) -> (same:
    bool)
    ensures
        same == (*a == *b),
{
    let mut x: usize = 0;
    while x < DIM
        invariant
            x <= DIM,
            forall|i: int, j: int, k: int|
                0 <= i < x && 0 <= j < DIM && 0 <= k < DIM ==> #[trigger] a[i][j][k] == b[i][j][k],
        decreases DIM - x,
    {
        if !plane_same(&a[x], &b[x]) {
            return false;
        }
        x += 1;
    }
    proof {
        lemma_bricks_equal(*a, *b);
    }
    true
}

/// Whether every voxel of the brick is `v`.
pub fn brick_all<T: VoxelData, const DIM: usize>(brick: &Brick<T, DIM>, v: &T) -> (all: bool)
    ensures
        all == brick_is_all(*brick, *v),
{
    let mut x: usize = 0;
    while x < DIM
        invariant
            x <= DIM,
            forall|k: int| 0 <= k < x ==> plane_is_all(#[trigger] brick[k], *v),
        decreases DIM - x,
    {
        if !plane_all(&brick[x], v) {
            return false;
        }
        x += 1;
    }
    true
}

/// The number of voxels of the row that are not empty.
fn count_row<T: VoxelData, const DIM: usize>(row: &[T; DIM]) -> (n: u32)
    requires
        DIM <= u32::MAX,
    ensures
        n == row_count(*row, DIM as int),
{
    let mut n: u32 = 0;
    let mut z: usize = 0;
    while z < DIM
        invariant
            z <= DIM <= u32::MAX,
            n == row_count(*row, z as int),
        decreases DIM - z,
    {
        proof {
            lemma_row_count_bounds(*row, z as int);
        }
        if row[z].albedo()[3] != 0 {
            n += 1;
        }
        z += 1;
    }
    n
}

/// The number of voxels of the plane that are not empty.
fn count_plane<T: VoxelData, const DIM: usize>(plane: &[[T; DIM]; DIM]) -> (n: u32)
    requires
        DIM * DIM <= u32::MAX,
    ensures
        n == plane_count(*plane, DIM as int),
{
    assert(DIM <= DIM * DIM) by (nonlinear_arith);
    let mut n: u32 = 0;
    let mut y: usize = 0;
    while y < DIM
        invariant
            y <= DIM <= u32::MAX,
            DIM * DIM <= u32::MAX,
            n == plane_count(*plane, y as int),
        decreases DIM - y,
    {
        proof {
            lemma_plane_count_bounds(*plane, y as int);
            lemma_row_count_bounds(plane[y as int], DIM as int);
            assert(y * DIM + DIM <= DIM * DIM) by (nonlinear_arith)
                requires
                    y < DIM,
            ;
        }
        n += count_row(&plane[y]);
        y += 1;
    }
    n
}

/// The number of voxels of the brick that are not empty.
pub fn count_brick<T: VoxelData, const DIM: usize>(brick: &Brick<T, DIM>) -> (n: u32)
    requires
        DIM * DIM * DIM <= u32::MAX,
    ensures
        n == brick_population(*brick),
        n <= DIM * DIM * DIM,
{
    assert(DIM * DIM <= DIM * DIM * DIM) by (nonlinear_arith);
    let mut n: u32 = 0;
    let mut x: usize = 0;
    while x < DIM
        invariant
            x <= DIM,
            DIM * DIM <= u32::MAX,
            DIM * DIM * DIM <= u32::MAX,
            n == brick_count(*brick, x as int),
        decreases DIM - x,
    {
        proof {
            lemma_brick_count_bounds(*brick, x as int);
            lemma_plane_count_bounds(brick[x as int], DIM as int);
            assert(x * DIM * DIM + DIM * DIM <= DIM * DIM * DIM) by (nonlinear_arith)
                requires
                    x < DIM,
            ;
        }
        n += count_plane(&brick[x]);
        x += 1;
    }
    proof {
        lemma_brick_count_bounds(*brick, DIM as int);
    }
    n
}

/// Whether the lattice point `(x, y, z)` of a brick lies in the cubical
/// region of edge `size` whose smallest corner is `min`.
pub open spec fn in_region(min: V3c<usize>, size: usize, x: int, y: int, z: int) -> bool {
    &&& min.x <= x < min.x + size
    &&& min.y <= y < min.y + size
    &&& min.z <= z < min.z + size
}

/// Sets `size` voxels of the row, from the index `from` on, to `v`.
fn fill_row<T: VoxelData, const DIM: usize>(row: &mut [T; DIM], from: usize, size: usize, v: T)
    requires
        from + size <= DIM,
    ensures
        forall|z: int|
            0 <= z < DIM ==> #[trigger] final(row)[z] == if from <= z < from + size {
                v
            } else {
                old(row)[z]
            },
{
    let mut z: usize = from;
    while z < from + size
        invariant
            from <= z <= from + size <= DIM,
            forall|k: int|
                0 <= k < DIM ==> #[trigger] row[k] == if from <= k < z {
                    v
                } else {
                    old(row)[k]
                },
        decreases from + size - z,
    {
        row[z] = v;
        z += 1;
    }
}

/// Sets every voxel in a square region of the plane to `v`.
fn fill_plane<T: VoxelData, const DIM: usize>(
    plane: &mut [[T; DIM]; DIM],
    from_y: usize,
    from_z: usize,
    size: usize,
    v: T,
)
    requires
        from_y + size <= DIM,
        from_z + size <= DIM,
    ensures
        forall|y: int, z: int|
            0 <= y < DIM && 0 <= z < DIM ==> #[trigger] final(plane)[y][z] == if from_y <= y
                < from_y + size && from_z <= z < from_z + size {
                v
            } else {
                old(plane)[y][z]
            },
{
    let mut y: usize = from_y;
    while y < from_y + size
        invariant
            from_y <= y <= from_y + size <= DIM,
            from_z + size <= DIM,
            forall|j: int, k: int|
                0 <= j < DIM && 0 <= k < DIM ==> #[trigger] plane[j][k] == if from_y <= j < y
                    && from_z <= k < from_z + size {
                    v
                } else {
                    old(plane)[j][k]
                },
        decreases from_y + size - y,
    {
        fill_row(&mut plane[y], from_z, size, v);
        y += 1;
    }
}

/// Sets every voxel in a cubical region of the brick to `v`.
pub fn fill_region<T: VoxelData, const DIM: usize>(
    brick: &mut Brick<T, DIM>,
    min: V3c<usize>,
    size: usize,
    v: T,
)
    requires
        min.x + size <= DIM,
        min.y + size <= DIM,
        min.z + size <= DIM,
    ensures
        forall|x: int, y: int, z: int|
            0 <= x < DIM && 0 <= y < DIM && 0 <= z < DIM ==> #[trigger] final(brick)[x][y][z]
                == if in_region(min, size, x, y, z) {
                v
            } else {
                old(brick)[x][y][z]
            },
{
    let mut x: usize = min.x;
    while x < min.x + size
        invariant
            min.x <= x <= min.x + size <= DIM,
            min.y + size <= DIM,
            min.z + size <= DIM,
            forall|i: int, j: int, k: int|
                0 <= i < DIM && 0 <= j < DIM && 0 <= k < DIM ==> #[trigger] brick[i][j][k] == if min.x
                    <= i < x && min.y <= j < min.y + size && min.z <= k < min.z + size {
                    v
                } else {
                    old(brick)[i][j][k]
                },
        decreases min.x + size - x,
    {
        fill_plane(&mut brick[x], min.y, min.z, size, v);
        x += 1;
    }
}

} // verus!
