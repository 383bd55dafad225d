use shocovox::object_pool::{key_might_be_valid, key_none_value};
use shocovox::octree::detail::{bound_contains, child_octant_for};
use shocovox::octree::is_power_of_two;
use shocovox::octree::raytracing::{probe_brick, Probe, RayStep};
use shocovox::octree::types::NodeChildren;
use shocovox::octree::{NodeContent, Octree, V3c, VoxelData};
use shocovox::spatial::{hash_region, offset_region, Cube};

const RED: u32 = 0xff00_00ff;

#[test]
fn vector_constructors() {
    let v = V3c::new(1, 2, 3);
    assert_eq!((v.x, v.y, v.z), (1, 2, 3));
    let u = V3c::unit(7u32);
    assert_eq!(u, V3c::new(7, 7, 7));
}

#[test]
fn cut_each_component_caps_in_place() {
    let mut v = V3c::new(1u32, 5, 9);
    let cut = v.cut_each_component(&5);
    assert_eq!(cut, V3c::new(1, 5, 5));
    assert_eq!(v, V3c::new(1, 5, 5));
    let mut w = V3c::new(0usize, 2, 3);
    assert_eq!(w.cut_each_component(&2), V3c::new(0, 2, 2));
    assert_eq!(w, V3c::new(0, 2, 2));
}

#[test]
fn dot_and_cross_products() {
    let a = V3c::new(1u32, 2, 3);
    let b = V3c::new(4u32, 5, 6);
    assert_eq!(a.dot(&b), 32);
    let x = V3c::new(1u32, 0, 0);
    let y = V3c::new(0u32, 1, 0);
    assert_eq!(x.cross(y), V3c::new(0, 0, 1));
    assert_eq!(V3c::new(0u32, 2, 0).cross(V3c::new(0, 0, 3)), V3c::new(6, 0, 0));
}

#[test]
fn octants_and_corners_are_inverse() {
    for octant in 0..8 {
        let corner = offset_region(octant);
        assert!(corner.x <= 1 && corner.y <= 1 && corner.z <= 1);
        let point = V3c::new(corner.x * 4, corner.y * 4, corner.z * 4);
        assert_eq!(hash_region(&point, 8), octant);
    }
    assert_eq!(hash_region(&V3c::new(3, 3, 3), 8), 0);
    assert_eq!(hash_region(&V3c::new(4, 3, 3), 8), 1);
    assert_eq!(hash_region(&V3c::new(3, 4, 3), 8), 2);
    assert_eq!(hash_region(&V3c::new(3, 3, 4), 8), 4);
    assert_eq!(hash_region(&V3c::new(7, 7, 7), 8), 7);
}

#[test]
fn cubes_are_half_open() {
    let cube = Cube { min_position: V3c::new(4, 0, 8), size: 4 };
    assert!(cube.contains_point(&V3c::new(4, 0, 8)));
    assert!(cube.contains_point(&V3c::new(7, 3, 11)));
    assert!(!cube.contains_point(&V3c::new(8, 0, 8)));
    assert!(!cube.contains_point(&V3c::new(4, 4, 8)));
    assert!(!cube.contains_point(&V3c::new(3, 0, 8)));
    assert!(bound_contains(&cube, &V3c::new(5, 1, 9)));
    assert_eq!(child_octant_for(&cube, &V3c::new(6, 1, 11)), 5);
    let child = cube.child_bounds_for(5);
    assert_eq!(child.min_position, V3c::new(6, 0, 10));
    assert_eq!(child.size, 2);
    let root = Cube::root_bounds(16);
    assert_eq!(root.min_position, V3c::new(0, 0, 0));
    assert_eq!(root.size, 16);
}

#[test]
fn powers_of_two() {
    for n in [1u32, 2, 4, 8, 1024, 1 << 31] {
        assert!(is_power_of_two(n));
    }
    for n in [0u32, 3, 5, 6, 12, 1000, u32::MAX] {
        assert!(!is_power_of_two(n));
    }
}

#[test]
fn node_children_materialise_on_first_change() {
    let none = key_none_value();
    let mut children = NodeChildren::new(none);
    assert!(children.is_empty());
    assert_eq!(*children.index(3), none);
    assert_eq!(children.get_full(), [none; 8]);
    *children.index_mut(3) = 17;
    assert!(!children.is_empty());
    assert_eq!(*children.index(3), 17);
    assert_eq!(*children.index(2), none);
    children.set([1, 2, 3, 4, 5, 6, 7, 8]);
    assert_eq!(children.get_full(), [1, 2, 3, 4, 5, 6, 7, 8]);
    let made = NodeChildren::from(none, [9; 8]);
    assert_eq!(*made.index(7), 9);
    assert!(!key_might_be_valid(none));
    assert!(key_might_be_valid(0));
}

#[test]
fn node_content_accessors() {
    let mut leaf = NodeContent::<u32, 1>::Leaf([[[RED]]]);
    assert!(leaf.is_leaf());
    assert_eq!(leaf.data(), [[[RED]]]);
    assert_eq!(*leaf.leaf_data(), [[[RED]]]);
    assert_eq!(leaf.as_leaf_ref(), Some(&[[[RED]]]));
    leaf.as_mut_leaf_ref().unwrap()[0][0][0] = 7;
    assert_eq!(leaf.data(), [[[7]]]);
    let mut interior = NodeContent::<u32, 2>::Internal(3);
    assert!(!interior.is_leaf());
    assert_eq!(interior.data(), [[[0; 2]; 2]; 2]);
    assert!(interior.as_leaf_ref().is_none());
    assert!(interior.as_mut_leaf_ref().is_none());
    assert!(!NodeContent::<u32, 1>::Nothing.is_leaf());
}

#[test]
fn voxels_of_four_channels() {
    let mut voxel: u32 = 0x8040_2010;
    assert_eq!(voxel.albedo(), [0x10, 0x20, 0x40, 0x80]);
    assert!(voxel.is_same(&0x8040_2010));
    assert!(!voxel.is_same(&0x8040_2011));
    voxel.clear();
    assert_eq!(voxel, 0);
    assert_eq!(voxel.albedo()[3], 0);
    assert_eq!(<u32 as VoxelData>::new_empty(), 0);
    assert_eq!(0x00ff_ffffu32.albedo()[3], 0);
}

#[test]
fn probes_of_a_brick() {
    let mut brick = [[[0u32; 2]; 2]; 2];
    brick[1][0][1] = RED;
    assert_eq!(probe_brick(&brick, &V3c::new(1, 0, 1)), Probe::Hit(V3c::new(1, 0, 1)));
    assert_eq!(probe_brick(&brick, &V3c::new(0, 0, 1)), Probe::Empty);
    assert_eq!(probe_brick(&brick, &V3c::new(-1, 0, 1)), Probe::Outside);
    assert_eq!(probe_brick(&brick, &V3c::new(1, 2, 1)), Probe::Outside);
    assert_eq!(probe_brick(&brick, &V3c::new(1, 0, i32::MAX)), Probe::Outside);
}

#[test]
fn steps_of_a_ray_cast() {
    let mut tree = Octree::<u32, 1>::new(4).ok().unwrap();
    assert_eq!(tree.ray_step(0, 0, true, true), RayStep::Pop);
    tree.insert(&V3c::new(0, 3, 0), RED).ok().unwrap();
    let child = tree.child_of(0, 2);
    assert!(key_might_be_valid(child));
    assert_eq!(tree.ray_step(0, 2, true, true), RayStep::Push(child));
    assert_eq!(tree.ray_step(0, 2, true, false), RayStep::Advance);
    assert_eq!(tree.ray_step(0, 2, false, true), RayStep::Pop);
    assert_eq!(tree.ray_step(0, 5, true, true), RayStep::Advance);
    assert_eq!(tree.ray_step(0, 8, true, true), RayStep::Pop);
    assert_eq!(tree.ray_step(key_none_value(), 0, true, true), RayStep::Pop);
    let leaf = tree.child_of(child, 2);
    assert_eq!(tree.ray_step(child, 2, true, true), RayStep::Push(leaf));
    assert_eq!(tree.ray_step(leaf, 0, true, false), RayStep::March);
    tree.insert(&V3c::new(3, 0, 0), RED).ok().unwrap();
    tree.insert(&V3c::new(0, 3, 0), 0).ok().unwrap();
    assert_eq!(tree.ray_step(0, 2, true, true), RayStep::Advance);
    tree.insert(&V3c::new(3, 0, 0), 0).ok().unwrap();
    assert_eq!(tree.ray_step(0, 2, true, true), RayStep::Pop);
}

#[test]
fn signed_dot_and_cross_products() {
    let a = V3c::new(1i32, 2, 3);
    let b = V3c::new(4i32, 5, 6);
    assert_eq!(a.cross(b), V3c::new(-3, 6, -3));
    assert_eq!(b.cross(a), V3c::new(3, -6, 3));
    assert_eq!(a.cross(b).dot(&a), 0);
    assert_eq!(a.cross(b).dot(&b), 0);
    assert_eq!(a.dot(&b), 32);
}

#[test]
fn component_wise_arithmetic() {
    let a = V3c::new(4u32, 6, 8);
    let b = V3c::new(1u32, 2, 3);
    assert_eq!(a.add(b), V3c::new(5, 8, 11));
    assert_eq!(a.sub(b), V3c::new(3, 4, 5));
    assert_eq!(a.mul(3), V3c::new(12, 18, 24));
    assert_eq!(a.div(2), V3c::new(2, 3, 4));
    let c = V3c::new(-4i32, 6, 0);
    let d = V3c::new(1i32, -2, 3);
    assert_eq!(c.add(d), V3c::new(-3, 4, 3));
    assert_eq!(c.sub(d), V3c::new(-5, 8, -3));
    assert_eq!(c.mul(-2), V3c::new(8, -12, 0));
}
