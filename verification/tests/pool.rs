use shocovox::object_pool::{key_might_be_valid, key_none_value, ObjectPool};
use shocovox::octree::VoxelData;

#[derive(Clone, Copy, Debug, PartialEq)]
struct Density(f32);

impl VoxelData for Density {
    fn is_empty(&self) -> bool {
        self.0 == 0.0
    }

    fn empty_value() -> Self {
        Density(0.0)
    }

    fn lemma_empty_value_is_empty() {}

    fn new_empty() -> Self {
        Density(0.0)
    }

    fn albedo(&self) -> [u8; 4] {
        if self.0 == 0.0 {
            [0, 0, 0, 0]
        } else {
            [255, 255, 255, 255]
        }
    }

    fn clear(&mut self) {
        self.0 = 0.0;
    }

    fn is_same(&self, other: &Self) -> bool {
        self.0.to_bits() == other.0.to_bits()
    }
}

#[test]
fn pool_reuses_released_keys() {
    let mut pool = ObjectPool::<Density>::with_capacity(4);
    let a = pool.push(Density(1.0));
    let b = pool.push(Density(2.0));
    assert_ne!(a, b);
    assert!(key_might_be_valid(a));
    assert!(!key_might_be_valid(key_none_value()));
    assert!(pool.free(a));
    assert!(!pool.free(a));
    let c = pool.push(Density(3.0));
    assert_eq!(c, a);
    assert_eq!(*pool.get(c), Density(3.0));
    assert_eq!(pool.get(b).albedo()[3], 255);
}

#[test]
fn pool_tells_used_slots_from_released_ones() {
    let mut pool = ObjectPool::<u32>::with_capacity(0);
    assert_eq!(pool.len(), 0);
    assert!(!pool.key_is_valid(0));
    let a = pool.push(10);
    let b = pool.push(20);
    let c = pool.push(30);
    assert_eq!((a, b, c), (0, 1, 2));
    assert_eq!(pool.len(), 3);
    *pool.get_mut(b) = 21;
    assert_eq!(*pool.get(b), 21);
    assert!(pool.free(b));
    assert!(pool.free(a));
    assert!(!pool.key_is_valid(a));
    assert!(!pool.key_is_valid(b));
    assert!(pool.key_is_valid(c));
    assert!(!pool.free(7));
    assert!(!pool.free(key_none_value()));
    assert_eq!(pool.push(40), a);
    assert_eq!(pool.push(50), b);
    assert_eq!(pool.push(60), 3);
    assert_eq!(pool.len(), 4);
    assert_eq!(*pool.get(a), 40);
    assert_eq!(*pool.get(c), 30);
}
