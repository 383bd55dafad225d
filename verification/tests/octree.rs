use shocovox::octree::{Octree, V3c, VoxelData};

#[derive(Clone, Copy, Debug, PartialEq)]
struct Density(f32);

impl VoxelData for Density {
    fn is_empty(&self) -> bool {
        self.0 == 0.0
    }

    fn empty_value() -> Self {
        Density(0.0)
    }

    fn lemma_empty_value_is_empty() {}

    fn new_empty() -> Self {
        Density(0.0)
    }

    fn albedo(&self) -> [u8; 4] {
        if self.0 == 0.0 {
            [0, 0, 0, 0]
        } else {
            [255, 255, 255, 255]
        }
    }

    fn clear(&mut self) {
        self.0 = 0.0;
    }

    fn is_same(&self, other: &Self) -> bool {
        self.0.to_bits() == other.0.to_bits()
    }
}

#[test]
fn test_simple_insert_and_get() {
    let mut tree = Octree::<Density, 1>::new(2).ok().unwrap();
    tree.auto_simplify = false;
    tree.insert(&V3c::new(1, 0, 0), Density(5.0)).ok();
    tree.insert(&V3c::new(0, 1, 0), Density(6.0)).ok();
    tree.insert(&V3c::new(0, 0, 1), Density(7.0)).ok();

    assert!(*tree.get(&V3c::new(1, 0, 0)).unwrap() == Density(5.0));
    assert!(*tree.get(&V3c::new(0, 1, 0)).unwrap() == Density(6.0));
    assert!(*tree.get(&V3c::new(0, 0, 1)).unwrap() == Density(7.0));
    assert!(tree.get(&V3c::new(1, 1, 1)).is_none());
}

#[test]
fn test_get_mut() {
    let mut tree = Octree::<Density, 1>::new(2).ok().unwrap();
    tree.auto_simplify = false;
    tree.insert(&V3c::new(1, 0, 0), Density(5.0)).ok();
    tree.insert(&V3c::new(0, 1, 0), Density(6.0)).ok();
    tree.insert(&V3c::new(0, 0, 1), Density(7.0)).ok();

    assert!(*tree.get_mut(&V3c::new(1, 0, 0)).unwrap() == Density(5.0));
    assert!(*tree.get_mut(&V3c::new(0, 1, 0)).unwrap() == Density(6.0));
    assert!(*tree.get_mut(&V3c::new(0, 0, 1)).unwrap() == Density(7.0));
    assert!(tree.get_mut(&V3c::new(1, 1, 1)).is_none());
}

#[test]
fn test_insert_at_lod() {
    let mut tree = Octree::<Density, 1>::new(4).ok().unwrap();
    tree.auto_simplify = false;

    tree.insert_at_lod(&V3c::new(0, 0, 0), 2, Density(5.0)).ok();

    assert!(*tree.get(&V3c::new(0, 0, 0)).unwrap() == Density(5.0));
    assert!(*tree.get(&V3c::new(0, 0, 1)).unwrap() == Density(5.0));
    assert!(*tree.get(&V3c::new(0, 1, 0)).unwrap() == Density(5.0));
    assert!(*tree.get(&V3c::new(0, 1, 1)).unwrap() == Density(5.0));
    assert!(*tree.get(&V3c::new(1, 0, 0)).unwrap() == Density(5.0));
    assert!(*tree.get(&V3c::new(1, 0, 1)).unwrap() == Density(5.0));
    assert!(*tree.get(&V3c::new(1, 1, 0)).unwrap() == Density(5.0));
    assert!(*tree.get(&V3c::new(1, 1, 1)).unwrap() == Density(5.0));

    tree.insert_at_lod(&V3c::new(0, 0, 0), 4, Density(1.0)).ok();
    let mut hits = 0;
    for x in 0..4 {
        for y in 0..4 {
            for z in 0..4 {
                if tree.get(&V3c::new(x, y, z)).is_some()
                    && *tree.get(&V3c::new(x, y, z)).unwrap() == Density(1.0)
                {
                    hits += 1;
                }
            }
        }
    }
    assert!(hits == 64);
}

#[test]
fn test_insert_at_lod_with_simplify() {
    let mut tree = Octree::<Density, 1>::new(4).ok().unwrap();

    tree.insert_at_lod(&V3c::new(0, 0, 0), 2, Density(5.0)).ok();

    assert!(*tree.get(&V3c::new(0, 0, 0)).unwrap() == Density(5.0));
    assert!(*tree.get(&V3c::new(0, 0, 1)).unwrap() == Density(5.0));
    assert!(*tree.get(&V3c::new(0, 1, 0)).unwrap() == Density(5.0));
    assert!(*tree.get(&V3c::new(0, 1, 1)).unwrap() == Density(5.0));
    assert!(*tree.get(&V3c::new(1, 0, 0)).unwrap() == Density(5.0));
    assert!(*tree.get(&V3c::new(1, 0, 1)).unwrap() == Density(5.0));
    assert!(*tree.get(&V3c::new(1, 1, 0)).unwrap() == Density(5.0));
    assert!(*tree.get(&V3c::new(1, 1, 1)).unwrap() == Density(5.0));

    tree.insert_at_lod(&V3c::new(0, 0, 0), 4, Density(1.0)).ok();
    let mut hits = 0;
    for x in 0..4 {
        for y in 0..4 {
            for z in 0..4 {
                if tree.get(&V3c::new(x, y, z)).is_some()
                    && *tree.get(&V3c::new(x, y, z)).unwrap() == Density(1.0)
                {
                    hits += 1;
                }
            }
        }
    }
    assert!(hits == 64);
}

#[test]
fn test_simplifyable_insert_and_get() {
    let mut tree = Octree::<Density, 1>::new(2).ok().unwrap();

    tree.insert(&V3c::new(0, 0, 0), Density(5.0)).ok();
    tree.insert(&V3c::new(0, 0, 1), Density(5.0)).ok();
    tree.insert(&V3c::new(0, 1, 0), Density(5.0)).ok();
    tree.insert(&V3c::new(0, 1, 1), Density(5.0)).ok();
    tree.insert(&V3c::new(1, 0, 0), Density(5.0)).ok();
    tree.insert(&V3c::new(1, 0, 1), Density(5.0)).ok();
    tree.insert(&V3c::new(1, 1, 0), Density(5.0)).ok();
    tree.insert(&V3c::new(1, 1, 1), Density(5.0)).ok();

    tree.insert(&V3c::new(0, 0, 0), Density(4.0)).ok();

    assert!(*tree.get(&V3c::new(0, 0, 0)).unwrap() == Density(4.0));
    assert!(*tree.get(&V3c::new(0, 0, 1)).unwrap() == Density(5.0));
    assert!(*tree.get(&V3c::new(0, 1, 0)).unwrap() == Density(5.0));
    assert!(*tree.get(&V3c::new(0, 1, 1)).unwrap() == Density(5.0));
    assert!(*tree.get(&V3c::new(1, 0, 0)).unwrap() == Density(5.0));
    assert!(*tree.get(&V3c::new(1, 0, 1)).unwrap() == Density(5.0));
    assert!(*tree.get(&V3c::new(1, 1, 0)).unwrap() == Density(5.0));
    assert!(*tree.get(&V3c::new(1, 1, 1)).unwrap() == Density(5.0));
}

#[test]
fn test_simple_clear() {
    let mut tree = Octree::<Density, 1>::new(2).ok().unwrap();
    tree.auto_simplify = false;
    tree.insert(&V3c::new(1, 0, 0), Density(5.0)).ok();
    tree.insert(&V3c::new(0, 1, 0), Density(6.0)).ok();
    tree.insert(&V3c::new(0, 0, 1), Density(7.0)).ok();
    tree.clear(&V3c::new(0, 0, 1)).ok();

    assert!(*tree.get(&V3c::new(1, 0, 0)).unwrap() == Density(5.0));
    assert!(*tree.get(&V3c::new(0, 1, 0)).unwrap() == Density(6.0));
    assert!(tree.get(&V3c::new(0, 0, 1)).is_none());
    assert!(tree.get(&V3c::new(1, 1, 1)).is_none());
}

#[test]
fn test_simplifyable_clear() {
    let mut tree = Octree::<Density, 1>::new(2).ok().unwrap();

    tree.insert(&V3c::new(0, 0, 0), Density(5.0)).ok();
    tree.insert(&V3c::new(0, 0, 1), Density(5.0)).ok();
    tree.insert(&V3c::new(0, 1, 0), Density(5.0)).ok();
    tree.insert(&V3c::new(0, 1, 1), Density(5.0)).ok();
    tree.insert(&V3c::new(1, 0, 0), Density(5.0)).ok();
    tree.insert(&V3c::new(1, 0, 1), Density(5.0)).ok();
    tree.insert(&V3c::new(1, 1, 0), Density(5.0)).ok();
    tree.insert(&V3c::new(1, 1, 1), Density(5.0)).ok();

    tree.clear(&V3c::new(0, 0, 0)).ok();

    assert!(tree.get(&V3c::new(0, 0, 0)).is_none());
    assert!(*tree.get(&V3c::new(0, 0, 1)).unwrap() == Density(5.0));
    assert!(*tree.get(&V3c::new(0, 1, 0)).unwrap() == Density(5.0));
    assert!(*tree.get(&V3c::new(0, 1, 1)).unwrap() == Density(5.0));
    assert!(*tree.get(&V3c::new(1, 0, 0)).unwrap() == Density(5.0));
    assert!(*tree.get(&V3c::new(1, 0, 1)).unwrap() == Density(5.0));
    assert!(*tree.get(&V3c::new(1, 1, 0)).unwrap() == Density(5.0));
    assert!(*tree.get(&V3c::new(1, 1, 1)).unwrap() == Density(5.0));
}

#[test]
fn test_clear_at_lod() {
    let mut tree = Octree::<Density, 1>::new(4).ok().unwrap();

    tree.insert_at_lod(&V3c::new(0, 0, 0), 4, Density(5.0)).ok();
    tree.clear_at_lod(&V3c::new(0, 0, 0), 2).ok();

    let mut hits = 0;
    for x in 0..4 {
        for y in 0..4 {
            for z in 0..4 {
                if tree.get(&V3c::new(x, y, z)).is_some()
                    && *tree.get(&V3c::new(x, y, z)).unwrap() == Density(5.0)
                {
                    hits += 1;
                }
            }
        }
    }

    assert!(hits == (64 - 8));
}
