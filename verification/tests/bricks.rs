use shocovox::octree::brick::{brick_all, count_brick, fill_region, uniform_brick};
use shocovox::octree::detail::ROOT_NODE_KEY;
use shocovox::octree::{NodeContent, Octree, V3c};

const RED: u32 = 0xff00_00ff;
const GREEN: u32 = 0xff00_ff00;

#[test]
fn single_voxel_in_a_brick() {
    let mut tree = Octree::<u32, 2>::new(2).ok().unwrap();
    tree.insert(&V3c::new(3, 0, 2), RED).ok().unwrap();
    for x in 0..4 {
        for y in 0..4 {
            for z in 0..4 {
                let expected = if (x, y, z) == (3, 0, 2) { Some(&RED) } else { None };
                assert_eq!(tree.get(&V3c::new(x, y, z)), expected);
            }
        }
    }
    assert!(matches!(tree.node(ROOT_NODE_KEY), Some(NodeContent::Internal(1))));
    tree.clear(&V3c::new(3, 0, 2)).ok().unwrap();
    assert_eq!(tree.get(&V3c::new(3, 0, 2)), None);
    assert!(matches!(tree.node(ROOT_NODE_KEY), Some(NodeContent::Nothing)));
}

#[test]
fn write_of_a_brick_fills_the_brick() {
    let mut tree = Octree::<u32, 2>::new(4).ok().unwrap();
    tree.insert_at_lod(&V3c::new(5, 2, 7), 2, GREEN).ok().unwrap();
    for x in 0..8 {
        for y in 0..8 {
            for z in 0..8 {
                let inside = (4..6).contains(&x) && (2..4).contains(&y) && (6..8).contains(&z);
                let expected = if inside { Some(&GREEN) } else { None };
                assert_eq!(tree.get(&V3c::new(x, y, z)), expected);
            }
        }
    }
    assert!(matches!(tree.node(ROOT_NODE_KEY), Some(NodeContent::Internal(8))));
}

#[test]
fn write_inside_a_brick_is_moved_back_into_the_brick() {
    let mut tree = Octree::<u32, 4>::new(1).ok().unwrap();
    tree.insert_at_lod(&V3c::new(3, 1, 0), 2, RED).ok().unwrap();
    for x in 0..4 {
        for y in 0..4 {
            for z in 0..4 {
                let inside = (2..4).contains(&x) && (1..3).contains(&y) && (0..2).contains(&z);
                let expected = if inside { Some(&RED) } else { None };
                assert_eq!(tree.get(&V3c::new(x, y, z)), expected);
            }
        }
    }
    tree.clear_at_lod(&V3c::new(3, 3, 3), 2).ok().unwrap();
    tree.clear_at_lod(&V3c::new(2, 0, 0), 2).ok().unwrap();
    for x in 0..4 {
        for y in 0..4 {
            for z in 0..4 {
                let inside = (2..4).contains(&x) && y == 2 && (0..2).contains(&z);
                let expected = if inside { Some(&RED) } else { None };
                assert_eq!(tree.get(&V3c::new(x, y, z)), expected);
            }
        }
    }
    match tree.node(ROOT_NODE_KEY) {
        Some(NodeContent::Leaf(brick)) => assert_eq!(count_brick(brick), 4),
        _ => panic!("the root holds the brick"),
    }
}

#[test]
fn equal_bricks_collapse_and_keep_every_voxel() {
    let mut tree = Octree::<u32, 2>::new(2).ok().unwrap();
    for x in 0..2 {
        for y in 0..2 {
            for z in 0..2 {
                assert!(matches!(tree.node(ROOT_NODE_KEY), Some(NodeContent::Internal(_)) | Some(NodeContent::Nothing)));
                tree.insert(&V3c::new(2 * x, 2 * y, 2 * z), RED).ok().unwrap();
            }
        }
    }
    match tree.node(ROOT_NODE_KEY) {
        Some(NodeContent::Leaf(brick)) => assert_eq!(count_brick(brick), 1),
        _ => panic!("eight equal bricks collapse into one leaf"),
    }
    for x in 0..4 {
        for y in 0..4 {
            for z in 0..4 {
                let expected = if x % 2 == 0 && y % 2 == 0 && z % 2 == 0 { Some(&RED) } else { None };
                assert_eq!(tree.get(&V3c::new(x, y, z)), expected);
            }
        }
    }
    tree.insert(&V3c::new(2, 0, 2), GREEN).ok().unwrap();
    assert!(matches!(tree.node(ROOT_NODE_KEY), Some(NodeContent::Internal(8))));
    for x in 0..4 {
        for y in 0..4 {
            for z in 0..4 {
                let expected = if (x, y, z) == (2, 0, 2) {
                    Some(&GREEN)
                } else if x % 2 == 0 && y % 2 == 0 && z % 2 == 0 {
                    Some(&RED)
                } else {
                    None
                };
                assert_eq!(tree.get(&V3c::new(x, y, z)), expected);
            }
        }
    }
    for x in 0..4 {
        for y in 0..4 {
            for z in 0..4 {
                tree.insert(&V3c::new(x, y, z), RED).ok().unwrap();
            }
        }
    }
    assert!(matches!(tree.node(ROOT_NODE_KEY), Some(NodeContent::Leaf(_))));
    assert_eq!(tree.get(&V3c::new(3, 3, 3)), Some(&RED));
    tree.clear(&V3c::new(3, 3, 3)).ok().unwrap();
    assert!(matches!(tree.node(ROOT_NODE_KEY), Some(NodeContent::Internal(63))));
    assert_eq!(tree.get(&V3c::new(3, 3, 3)), None);
    assert_eq!(tree.get(&V3c::new(2, 3, 3)), Some(&RED));
    assert_eq!(tree.get(&V3c::new(0, 0, 0)), Some(&RED));
}

#[test]
fn brick_helpers() {
    let mut brick = uniform_brick::<u32, 3>(0);
    assert!(brick_all(&brick, &0));
    assert_eq!(count_brick(&brick), 0);
    fill_region(&mut brick, V3c::new(1, 0, 1), 2, RED);
    assert!(!brick_all(&brick, &0));
    assert_eq!(count_brick(&brick), 8);
    assert_eq!(brick[1][0][1], RED);
    assert_eq!(brick[2][1][2], RED);
    assert_eq!(brick[0][0][1], 0);
    assert_eq!(brick[1][2][1], 0);
    fill_region(&mut brick, V3c::new(0, 0, 0), 3, GREEN);
    assert!(brick_all(&brick, &GREEN));
    assert_eq!(count_brick(&brick), 27);
}

#[test]
fn differing_voxel_in_a_uniform_leaf_of_bricks_keeps_the_others() {
    let mut tree = Octree::<u32, 2>::new(4).ok().unwrap();
    tree.insert_at_lod(&V3c::new(0, 0, 0), 8, RED).ok().unwrap();
    assert!(matches!(tree.node(ROOT_NODE_KEY), Some(NodeContent::Leaf(_))));
    tree.insert(&V3c::new(5, 2, 7), GREEN).ok().unwrap();
    tree.insert_at_lod(&V3c::new(0, 6, 0), 2, GREEN).ok().unwrap();
    for x in 0..8 {
        for y in 0..8 {
            for z in 0..8 {
                let green = (x, y, z) == (5, 2, 7) || (x < 2 && y >= 6 && z < 2);
                let expected = if green { &GREEN } else { &RED };
                assert_eq!(tree.get(&V3c::new(x, y, z)), Some(expected));
            }
        }
    }
    assert!(matches!(tree.node(ROOT_NODE_KEY), Some(NodeContent::Internal(512))));
    tree.insert(&V3c::new(5, 2, 7), RED).ok().unwrap();
    tree.insert_at_lod(&V3c::new(1, 7, 1), 2, RED).ok().unwrap();
    assert!(matches!(tree.node(ROOT_NODE_KEY), Some(NodeContent::Leaf(_))));
    assert_eq!(tree.get(&V3c::new(5, 2, 7)), Some(&RED));
}
