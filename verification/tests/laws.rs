use shocovox::object_pool::key_might_be_valid;
use shocovox::octree::detail::ROOT_NODE_KEY;
use shocovox::octree::{NodeContent, Octree, V3c};

const RED: u32 = 0xff00_00ff;
const GREEN: u32 = 0xff00_ff00;
const BLUE: u32 = 0xffff_0000;

fn recorded(tree: &Octree<u32, 1>, key: usize, edge: u32) -> u32 {
    match tree.node(key) {
        Some(NodeContent::Internal(count)) => *count,
        Some(NodeContent::Leaf(brick)) => {
            if brick[0][0][0] >= 0x100_0000 {
                edge * edge * edge
            } else {
                0
            }
        }
        _ => 0,
    }
}

fn check_counts(tree: &Octree<u32, 1>, key: usize, edge: u32) -> u32 {
    let mut nodes = 1;
    if let Some(NodeContent::Internal(count)) = tree.node(key) {
        let mut sum = 0;
        for octant in 0..8 {
            let child = tree.child_of(key, octant);
            if key_might_be_valid(child) {
                sum += recorded(tree, child, edge / 2);
                nodes += check_counts(tree, child, edge / 2);
            }
        }
        assert_eq!(*count, sum);
    }
    nodes
}

#[test]
fn inserted_voxel_is_found_until_overwritten() {
    let mut tree = Octree::<u32, 1>::new(8).ok().unwrap();
    let p = V3c::new(5, 2, 7);
    tree.insert(&p, RED).ok().unwrap();
    assert_eq!(tree.get(&p), Some(&RED));
    for x in 0..8 {
        for z in 0..8 {
            if !(x == 5 && z == 7) {
                tree.insert(&V3c::new(x, 2, z), GREEN).ok().unwrap();
            }
        }
    }
    tree.clear(&V3c::new(5, 3, 7)).ok().unwrap();
    tree.clear_at_lod(&V3c::new(0, 0, 0), 4).ok().unwrap();
    assert_eq!(tree.get(&p), Some(&RED));
    tree.insert(&p, BLUE).ok().unwrap();
    assert_eq!(tree.get(&p), Some(&BLUE));
    tree.clear(&p).ok().unwrap();
    assert_eq!(tree.get(&p), None);
}

#[test]
fn insert_at_lod_fills_the_aligned_cube() {
    let mut tree = Octree::<u32, 1>::new(8).ok().unwrap();
    tree.insert_at_lod(&V3c::new(5, 6, 3), 2, RED).ok().unwrap();
    for x in 0..8 {
        for y in 0..8 {
            for z in 0..8 {
                let inside = (4..6).contains(&x) && (6..8).contains(&y) && (2..4).contains(&z);
                let expected = if inside { Some(&RED) } else { None };
                assert_eq!(tree.get(&V3c::new(x, y, z)), expected);
            }
        }
    }
}

#[test]
fn insert_at_lod_larger_than_the_volume_fills_the_volume() {
    let mut tree = Octree::<u32, 1>::new(2).ok().unwrap();
    tree.insert_at_lod(&V3c::new(1, 0, 1), 16, GREEN).ok().unwrap();
    for x in 0..2 {
        for y in 0..2 {
            for z in 0..2 {
                assert_eq!(tree.get(&V3c::new(x, y, z)), Some(&GREEN));
            }
        }
    }
    assert_eq!(tree.get(&V3c::new(2, 0, 0)), None);
}

#[test]
fn clear_at_lod_empties_the_aligned_cube() {
    let mut tree = Octree::<u32, 1>::new(8).ok().unwrap();
    tree.insert_at_lod(&V3c::new(0, 0, 0), 8, BLUE).ok().unwrap();
    tree.clear_at_lod(&V3c::new(7, 1, 4), 4).ok().unwrap();
    let mut found = 0;
    for x in 0..8 {
        for y in 0..8 {
            for z in 0..8 {
                let inside = x >= 4 && y < 4 && z >= 4;
                let expected = if inside { None } else { Some(&BLUE) };
                assert_eq!(tree.get(&V3c::new(x, y, z)), expected);
                if !inside {
                    found += 1;
                }
            }
        }
    }
    assert_eq!(found, 512 - 64);
}

#[test]
fn uniform_region_collapses_and_repeating_changes_no_node() {
    let mut tree = Octree::<u32, 1>::new(4).ok().unwrap();
    tree.insert(&V3c::new(3, 3, 3), BLUE).ok().unwrap();
    for x in 0..2 {
        for y in 0..2 {
            for z in 0..2 {
                tree.insert(&V3c::new(x, y, z), RED).ok().unwrap();
            }
        }
    }
    let corner = tree.child_of(ROOT_NODE_KEY, 0);
    assert!(key_might_be_valid(corner));
    assert!(matches!(tree.node(corner), Some(NodeContent::Leaf(_))));
    for octant in 0..8 {
        assert!(!key_might_be_valid(tree.child_of(corner, octant)));
    }
    let slots = tree.slots();
    let nodes = check_counts(&tree, ROOT_NODE_KEY, 4);
    tree.insert(&V3c::new(1, 1, 1), RED).ok().unwrap();
    assert_eq!(tree.slots(), slots);
    assert_eq!(check_counts(&tree, ROOT_NODE_KEY, 4), nodes);
    assert!(matches!(tree.node(corner), Some(NodeContent::Leaf(_))));
}

#[test]
fn without_auto_simplify_uniform_region_stays_a_subtree() {
    let mut tree = Octree::<u32, 1>::new(2).ok().unwrap();
    tree.auto_simplify = false;
    for x in 0..2 {
        for y in 0..2 {
            for z in 0..2 {
                tree.insert(&V3c::new(x, y, z), RED).ok().unwrap();
            }
        }
    }
    assert!(matches!(tree.node(ROOT_NODE_KEY), Some(NodeContent::Internal(8))));
}

#[test]
fn differing_voxel_in_uniform_region_keeps_the_others() {
    let mut tree = Octree::<u32, 1>::new(8).ok().unwrap();
    tree.insert_at_lod(&V3c::new(0, 0, 0), 8, RED).ok().unwrap();
    assert!(matches!(tree.node(ROOT_NODE_KEY), Some(NodeContent::Leaf(_))));
    tree.insert(&V3c::new(6, 1, 2), GREEN).ok().unwrap();
    for x in 0..8 {
        for y in 0..8 {
            for z in 0..8 {
                let expected = if (x, y, z) == (6, 1, 2) { &GREEN } else { &RED };
                assert_eq!(tree.get(&V3c::new(x, y, z)), Some(expected));
            }
        }
    }
    assert!(matches!(tree.node(ROOT_NODE_KEY), Some(NodeContent::Internal(512))));
}

#[test]
fn counts_are_the_sums_of_what_the_children_record() {
    let mut tree = Octree::<u32, 1>::new(8).ok().unwrap();
    tree.insert(&V3c::new(0, 0, 0), RED).ok().unwrap();
    tree.insert(&V3c::new(1, 0, 0), GREEN).ok().unwrap();
    tree.insert(&V3c::new(7, 7, 7), BLUE).ok().unwrap();
    tree.insert_at_lod(&V3c::new(4, 0, 0), 4, RED).ok().unwrap();
    tree.insert(&V3c::new(5, 1, 1), GREEN).ok().unwrap();
    assert!(matches!(tree.node(ROOT_NODE_KEY), Some(NodeContent::Internal(67))));
    check_counts(&tree, ROOT_NODE_KEY, 8);
    tree.clear(&V3c::new(1, 0, 0)).ok().unwrap();
    tree.clear(&V3c::new(1, 0, 0)).ok().unwrap();
    tree.clear_at_lod(&V3c::new(6, 2, 2), 2).ok().unwrap();
    assert!(matches!(tree.node(ROOT_NODE_KEY), Some(NodeContent::Internal(58))));
    check_counts(&tree, ROOT_NODE_KEY, 8);
    tree.insert(&V3c::new(0, 0, 0), RED).ok().unwrap();
    tree.insert(&V3c::new(0, 0, 0), 5).ok().unwrap();
    assert!(matches!(tree.node(ROOT_NODE_KEY), Some(NodeContent::Internal(57))));
    check_counts(&tree, ROOT_NODE_KEY, 8);
    tree.clear_at_lod(&V3c::new(0, 0, 0), 8).ok().unwrap();
    assert!(matches!(tree.node(ROOT_NODE_KEY), Some(NodeContent::Nothing)));
    assert_eq!(check_counts(&tree, ROOT_NODE_KEY, 8), 1);
}

#[test]
fn eight_equal_inserts_collapse_the_root() {
    let mut tree = Octree::<u32, 1>::new(2).ok().unwrap();
    for x in 0..2 {
        for y in 0..2 {
            for z in 0..2 {
                tree.insert(&V3c::new(x, y, z), RED).ok().unwrap();
            }
        }
    }
    assert!(matches!(tree.node(ROOT_NODE_KEY), Some(NodeContent::Leaf(_))));
    for octant in 0..8 {
        assert!(!key_might_be_valid(tree.child_of(ROOT_NODE_KEY, octant)));
    }
    tree.insert(&V3c::new(0, 0, 0), GREEN).ok().unwrap();
    for x in 0..2 {
        for y in 0..2 {
            for z in 0..2 {
                let expected = if (x, y, z) == (0, 0, 0) { &GREEN } else { &RED };
                assert_eq!(tree.get(&V3c::new(x, y, z)), Some(expected));
            }
        }
    }
}

#[test]
fn new_octree_has_the_root_only() {
    let tree = Octree::<u32, 1>::new(4).ok().unwrap();
    assert_eq!(tree.slots(), 1);
    assert!(matches!(tree.node(ROOT_NODE_KEY), Some(NodeContent::Nothing)));
    for octant in 0..8 {
        assert!(!key_might_be_valid(tree.child_of(ROOT_NODE_KEY, octant)));
    }
    assert!(tree.node(1).is_none());
}

#[test]
fn clearing_the_whole_volume_leaves_the_root_only() {
    let mut tree = Octree::<u32, 1>::new(2).ok().unwrap();
    tree.insert(&V3c::new(1, 1, 1), RED).ok().unwrap();
    tree.insert(&V3c::new(0, 1, 0), GREEN).ok().unwrap();
    let slots = tree.slots();
    tree.clear_at_lod(&V3c::new(0, 0, 0), 2).ok().unwrap();
    assert!(matches!(tree.node(ROOT_NODE_KEY), Some(NodeContent::Nothing)));
    for key in 1..slots {
        assert!(tree.node(key).is_none());
    }
    for octant in 0..8 {
        assert!(!key_might_be_valid(tree.child_of(ROOT_NODE_KEY, octant)));
    }
    tree.insert(&V3c::new(0, 0, 0), BLUE).ok().unwrap();
    assert_eq!(tree.get(&V3c::new(0, 0, 0)), Some(&BLUE));
    assert_eq!(tree.slots(), slots);

    let mut unit = Octree::<u32, 1>::new(1).ok().unwrap();
    unit.clear(&V3c::new(0, 0, 0)).ok().unwrap();
    assert_eq!(unit.get(&V3c::new(0, 0, 0)), None);
    assert!(matches!(unit.node(ROOT_NODE_KEY), Some(NodeContent::Nothing)));
}

#[test]
fn emptied_nodes_above_a_clearing_hold_nothing() {
    let mut tree = Octree::<u32, 1>::new(4).ok().unwrap();
    tree.insert(&V3c::new(3, 3, 3), RED).ok().unwrap();
    tree.insert(&V3c::new(0, 0, 0), GREEN).ok().unwrap();
    tree.clear(&V3c::new(3, 3, 3)).ok().unwrap();
    assert!(matches!(tree.node(ROOT_NODE_KEY), Some(NodeContent::Internal(1))));
    let emptied = tree.child_of(ROOT_NODE_KEY, 7);
    assert!(matches!(tree.node(emptied), Some(NodeContent::Nothing)));
    tree.clear(&V3c::new(0, 0, 0)).ok().unwrap();
    assert!(matches!(tree.node(ROOT_NODE_KEY), Some(NodeContent::Nothing)));
}

#[test]
fn voxel_changed_in_place_in_a_large_leaf_changes_what_shares_it() {
    let mut tree = Octree::<u32, 1>::new(2).ok().unwrap();
    tree.insert_at_lod(&V3c::new(0, 0, 0), 2, RED).ok().unwrap();
    *tree.get_mut(&V3c::new(1, 0, 1)).unwrap() = GREEN;
    for x in 0..2 {
        for y in 0..2 {
            for z in 0..2 {
                assert_eq!(tree.get(&V3c::new(x, y, z)), Some(&GREEN));
            }
        }
    }
    assert!(matches!(tree.node(ROOT_NODE_KEY), Some(NodeContent::Leaf(_))));
    tree.insert(&V3c::new(0, 0, 0), RED).ok().unwrap();
    assert!(matches!(tree.node(ROOT_NODE_KEY), Some(NodeContent::Internal(8))));
}

#[test]
fn clearing_a_node_leaves_its_octant_without_a_child() {
    let mut tree = Octree::<u32, 1>::new(4).ok().unwrap();
    tree.insert(&V3c::new(3, 0, 0), RED).ok().unwrap();
    tree.insert(&V3c::new(0, 3, 3), GREEN).ok().unwrap();
    let cleared = tree.child_of(ROOT_NODE_KEY, 1);
    assert!(key_might_be_valid(cleared));
    tree.clear_at_lod(&V3c::new(2, 1, 1), 2).ok().unwrap();
    assert!(!key_might_be_valid(tree.child_of(ROOT_NODE_KEY, 1)));
    assert!(tree.node(cleared).is_none());
    assert!(matches!(tree.node(ROOT_NODE_KEY), Some(NodeContent::Internal(1))));
    assert_eq!(tree.get(&V3c::new(0, 3, 3)), Some(&GREEN));
}

#[test]
fn repeated_insert_changes_no_node_in_any_octree() {
    let mut tree = Octree::<u32, 1>::new(4).ok().unwrap();
    tree.auto_simplify = false;
    for x in 0..2 {
        for y in 0..2 {
            for z in 0..2 {
                tree.insert(&V3c::new(x, y, z), RED).ok().unwrap();
            }
        }
    }
    tree.insert(&V3c::new(3, 3, 3), GREEN).ok().unwrap();
    tree.auto_simplify = true;
    tree.insert(&V3c::new(3, 0, 3), BLUE).ok().unwrap();
    let slots = tree.slots();
    let nodes = check_counts(&tree, ROOT_NODE_KEY, 4);
    let live: Vec<bool> = (0..slots).map(|key| tree.node(key).is_some()).collect();
    tree.insert(&V3c::new(3, 0, 3), BLUE).ok().unwrap();
    assert_eq!(tree.slots(), slots);
    assert_eq!(check_counts(&tree, ROOT_NODE_KEY, 4), nodes);
    for key in 0..slots {
        assert_eq!(tree.node(key).is_some(), live[key]);
    }
    tree.insert_at_lod(&V3c::new(2, 2, 0), 2, GREEN).ok().unwrap();
    let slots = tree.slots();
    let live: Vec<bool> = (0..slots).map(|key| tree.node(key).is_some()).collect();
    tree.insert_at_lod(&V3c::new(3, 3, 1), 2, GREEN).ok().unwrap();
    assert_eq!(tree.slots(), slots);
    for key in 0..slots {
        assert_eq!(tree.node(key).is_some(), live[key]);
    }
}
