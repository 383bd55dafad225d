use shocovox::octree::{Error, Octree, V3c};

const RED: u32 = 0xff00_00ff;

#[test]
fn new_rejects_sizes_that_are_no_power_of_two() {
    assert!(matches!(Octree::<u32, 1>::new(0), Err(Error::InvalidNodeSize(0))));
    assert!(matches!(Octree::<u32, 1>::new(3), Err(Error::InvalidNodeSize(3))));
    assert!(matches!(Octree::<u32, 2>::new(12), Err(Error::InvalidNodeSize(12))));
    assert!(Octree::<u32, 1>::new(1).is_ok());
    assert!(Octree::<u32, 4>::new(16).is_ok());
}

#[test]
fn new_octree_is_empty_and_simplifies() {
    let tree = Octree::<u32, 2>::new(4).ok().unwrap();
    assert!(tree.auto_simplify);
    assert_eq!(tree.get_size(), 8);
    for x in 0..8 {
        for y in 0..8 {
            for z in 0..8 {
                assert_eq!(tree.get(&V3c::new(x, y, z)), None);
            }
        }
    }
}

#[test]
fn insert_rejects_bad_sizes_before_bad_positions() {
    let mut tree = Octree::<u32, 1>::new(4).ok().unwrap();
    assert!(matches!(
        tree.insert_at_lod(&V3c::new(9, 9, 9), 0, RED),
        Err(Error::InvalidNodeSize(0))
    ));
    assert!(matches!(
        tree.insert_at_lod(&V3c::new(0, 0, 0), 6, RED),
        Err(Error::InvalidNodeSize(6))
    ));
    assert!(matches!(
        tree.insert_at_lod(&V3c::new(4, 1, 2), 2, RED),
        Err(Error::InvalidPosition { x: 4, y: 1, z: 2 })
    ));
    assert!(matches!(
        tree.insert(&V3c::new(0, 0, 4), RED),
        Err(Error::InvalidPosition { x: 0, y: 0, z: 4 })
    ));
    assert_eq!(tree.slots(), 1);
    assert_eq!(tree.get(&V3c::new(0, 0, 0)), None);
}

#[test]
fn clear_rejects_bad_sizes_and_positions_and_changes_nothing() {
    let mut tree = Octree::<u32, 1>::new(4).ok().unwrap();
    tree.insert(&V3c::new(3, 3, 3), RED).ok().unwrap();
    let slots = tree.slots();
    assert!(matches!(
        tree.clear_at_lod(&V3c::new(3, 3, 3), 3),
        Err(Error::InvalidNodeSize(3))
    ));
    assert!(matches!(
        tree.clear_at_lod(&V3c::new(3, 4, 3), 1),
        Err(Error::InvalidPosition { x: 3, y: 4, z: 3 })
    ));
    assert!(matches!(
        tree.clear(&V3c::new(u32::MAX, 0, 0)),
        Err(Error::InvalidPosition { x: u32::MAX, y: 0, z: 0 })
    ));
    assert_eq!(tree.slots(), slots);
    assert_eq!(tree.get(&V3c::new(3, 3, 3)), Some(&RED));
}

#[test]
fn lookups_outside_the_volume_find_nothing() {
    let mut tree = Octree::<u32, 1>::new(2).ok().unwrap();
    tree.insert_at_lod(&V3c::new(0, 0, 0), 2, RED).ok().unwrap();
    assert_eq!(tree.get(&V3c::new(2, 0, 0)), None);
    assert_eq!(tree.get(&V3c::new(0, u32::MAX, 0)), None);
    assert!(tree.get_mut(&V3c::new(0, 0, 2)).is_none());
}

#[test]
fn empty_voxels_are_stored_but_not_found() {
    let mut tree = Octree::<u32, 1>::new(2).ok().unwrap();
    tree.insert(&V3c::new(1, 1, 1), 0x00ff_ffff).ok().unwrap();
    assert_eq!(tree.get(&V3c::new(1, 1, 1)), None);
    tree.insert(&V3c::new(1, 1, 1), 0x0100_0000).ok().unwrap();
    assert_eq!(tree.get(&V3c::new(1, 1, 1)), Some(&0x0100_0000));
}

#[test]
fn clearing_what_is_not_there_changes_nothing() {
    let mut tree = Octree::<u32, 1>::new(4).ok().unwrap();
    tree.insert(&V3c::new(0, 0, 0), RED).ok().unwrap();
    let slots = tree.slots();
    tree.clear(&V3c::new(3, 3, 3)).ok().unwrap();
    tree.clear_at_lod(&V3c::new(2, 0, 0), 2).ok().unwrap();
    assert_eq!(tree.slots(), slots);
    assert_eq!(tree.get(&V3c::new(0, 0, 0)), Some(&RED));
    assert_eq!(tree.get(&V3c::new(3, 3, 3)), None);
}

#[test]
fn get_mut_changes_the_voxel_in_place() {
    let mut tree = Octree::<u32, 1>::new(2).ok().unwrap();
    tree.auto_simplify = false;
    tree.insert(&V3c::new(1, 0, 1), RED).ok().unwrap();
    tree.insert(&V3c::new(0, 0, 1), RED).ok().unwrap();
    *tree.get_mut(&V3c::new(1, 0, 1)).unwrap() = 0xff12_3456;
    assert_eq!(tree.get(&V3c::new(1, 0, 1)), Some(&0xff12_3456));
    assert_eq!(tree.get(&V3c::new(0, 0, 1)), Some(&RED));
    assert!(tree.get_mut(&V3c::new(0, 0, 0)).is_none());
}

#[test]
fn setting_auto_simplify_changes_nothing_else() {
    let mut tree = Octree::<u32, 1>::new(2).ok().unwrap();
    tree.insert(&V3c::new(1, 1, 0), RED).ok().unwrap();
    let slots = tree.slots();
    tree.set_auto_simplify(false);
    assert!(!tree.auto_simplify);
    assert_eq!(tree.slots(), slots);
    assert_eq!(tree.get(&V3c::new(1, 1, 0)), Some(&RED));
    tree.set_auto_simplify(true);
    assert!(tree.auto_simplify);
}
