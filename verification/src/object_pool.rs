//! A pool of slots with stable integer keys.

use vstd::prelude::*;

verus! {

/// The key that names no slot.
pub open spec fn key_none_value_spec() -> usize {
    usize::MAX
}

/// The key that names no slot; it differs from every key a pool hands out.
pub fn key_none_value() -> (key: usize)
    ensures
        key == key_none_value_spec(),
{
    usize::MAX
}

/// Whether the key is anything but the key that names no slot. This does not
/// say that the slot is in use.
pub fn key_might_be_valid(key: usize) -> (valid: bool)
    ensures
        valid == (key != key_none_value_spec()),
{
    key < usize::MAX
}

/// One slot of the pool.
pub struct ReusableItem<T> {
    pub reserved: bool,
    pub item: T,
}

/// A growable array of slots and a list of the keys that were released.
pub struct ObjectPool<T> {
    buffer: Vec<ReusableItem<T>>,
    free_keys: Vec<usize>,
}

impl<T> ObjectPool<T> {
    /// The released keys name slots of the pool that are not in use, each once.
    pub closed spec fn wf(&self) -> bool {
        &&& self.buffer@.len() <= usize::MAX
        &&& forall|i: int|
            0 <= i < self.free_keys@.len() ==> {
                &&& (#[trigger] self.free_keys@[i]) < self.buffer@.len()
                &&& !self.buffer@[self.free_keys@[i] as int].reserved
            }
        &&& forall|i: int, j: int|
            0 <= i < j < self.free_keys@.len() ==> self.free_keys@[i] != self.free_keys@[j]
    }

    /// The number of slots, in use or not.
    pub closed spec fn slots(&self) -> nat {
        self.buffer@.len()
    }

    /// The keys that were released and not handed out again, the one
    /// released last at the end.
    pub closed spec fn released(&self) -> Seq<usize> {
        self.free_keys@
    }

    /// Whether the key names a slot that is in use.
    pub closed spec fn is_live(&self, key: usize) -> bool {
        key < self.buffer@.len() && self.buffer@[key as int].reserved
    }

    /// What the slot under the key holds.
    pub closed spec fn value(&self, key: usize) -> T {
        self.buffer@[key as int].item
    }

    /// A key in use names a slot, and is not the key that names none.
    pub proof fn lemma_live_key_is_a_slot(&self, key: usize)
        requires
            self.wf(),
            self.is_live(key),
        ensures
            key < self.slots(),
            key != key_none_value_spec(),
    {
    }

    /// An empty pool with room for `capacity` items.
    pub fn with_capacity(capacity: usize) -> (pool: Self)
        ensures
            pool.wf(),
            pool.slots() == 0,
            pool.released().len() == 0,
            forall|key: usize| !pool.is_live(key),
    {
        ObjectPool { buffer: Vec::with_capacity(capacity), free_keys: Vec::new() }
    }

    /// The number of slots, in use or not.
    pub fn len(&self) -> (n: usize)
        ensures
            n == self.slots(),
    {
        self.buffer.len()
    }

    /// Whether the key names a slot that is in use.
    pub fn key_is_valid(&self, key: usize) -> (valid: bool)
        ensures
            valid == self.is_live(key),
    {
        key < self.buffer.len() && self.buffer[key].reserved
    }

    /// Stores the item in a released slot if there is one, else in a new
    /// slot, and returns the slot's key.
    pub fn push(&mut self, item: T) -> (key: usize)
        requires
            old(self).wf(),
        ensures
            final(self).wf(),
            !old(self).is_live(key),
            final(self).is_live(key),
            final(self).value(key) == item,
            key <= old(self).slots(),
            key == if old(self).released().len() > 0 {
                old(self).released().last()
            } else {
                old(self).slots() as usize
            },
            final(self).released() == if old(self).released().len() > 0 {
                old(self).released().drop_last()
            } else {
                old(self).released()
            },
            final(self).slots() == if key == old(self).slots() {
                old(self).slots() + 1
            } else {
                old(self).slots()
            },
            forall|other: usize|
                other != key ==> {
                    &&& final(self).is_live(other) == old(self).is_live(other)
                    &&& old(self).is_live(other) ==> final(self).value(other) == old(self).value(
                        other,
                    )
                },
    {
        if self.free_keys.len() > 0 {
            let key = self.free_keys.pop().unwrap();
            self.buffer[key] = ReusableItem { reserved: true, item };
            key
        } else {
            let key = self.buffer.len();
            self.buffer.push(ReusableItem { reserved: true, item });
            assert(self.buffer@.len() == self.buffer.len());
            key
        }
    }

    /// Releases the slot under the key for reuse. Returns whether the slot
    /// was in use.
    pub fn free(&mut self, key: usize) -> (released: bool)
        requires
            old(self).wf(),
        ensures
            final(self).wf(),
            released == old(self).is_live(key),
            !final(self).is_live(key),
            final(self).slots() == old(self).slots(),
            final(self).released() == if released {
                old(self).released().push(key)
            } else {
                old(self).released()
            },
            forall|other: usize|
                other != key ==> {
                    &&& final(self).is_live(other) == old(self).is_live(other)
                    &&& old(self).is_live(other) ==> final(self).value(other) == old(self).value(
                        other,
                    )
                },
    {
        if key < self.buffer.len() && self.buffer[key].reserved {
            self.buffer[key].reserved = false;
            self.free_keys.push(key);
            true
        } else {
            false
        }
    }

    /// The item under a key that is in use.
    pub fn get(&self, key: usize) -> (item: &T)
        requires
            self.is_live(key),
        ensures
            *item == self.value(key),
    {
        &self.buffer[key].item
    }

    /// The item under a key that is in use, to be changed in place.
    pub fn get_mut(&mut self, key: usize) -> (item: &mut T)
        requires
            old(self).wf(),
            old(self).is_live(key),
        ensures
            *item == old(self).value(key),
            final(self).wf(),
            final(self).slots() == old(self).slots(),
            final(self).released() == old(self).released(),
            final(self).value(key) == *final(item),
            forall|other: usize| final(self).is_live(other) == old(self).is_live(other),
            forall|other: usize|
                other != key && old(self).is_live(other) ==> final(self).value(other) == old(self).value(other),
    {
        &mut self.buffer[key].item
    }
}

} // verus!
