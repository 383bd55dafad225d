//! The way of an operation from the root down to the node on which it
//! works.

use crate::object_pool::key_none_value_spec;
use crate::octree::detail::ROOT_NODE_KEY;
use crate::octree::types::{Octree, VoxelData};
use crate::spatial::math::vector::V3c;
use crate::spatial::Cube;
use vstd::prelude::*;

verus! {

/// Whether the key names none of the nodes of the descent.
pub open spec fn off_path(stack: Seq<(usize, Cube)>, key: usize) -> bool {
    forall|index: int| 0 <= index < stack.len() ==> (#[trigger] stack[index]).0 != key
}

impl<T: VoxelData, const DIM: usize> Octree<T, DIM> {
    /// The `index`-th entry of a descent towards `position` names a node of
    /// the tree with its cube, which holds the position and is the octant
    /// for the position of the entry before.
    pub(crate) open spec fn step_ok(
        &self,
        stack: Seq<(usize, Cube)>,
        index: int,
        position: V3c<u32>,
    ) -> bool {
        let (key, cube) = stack[index];
        &&& self.live(key)
        &&& self.cube_of(key) == cube
        &&& cube.contains(position)
        &&& if index == 0 {
            key == ROOT_NODE_KEY
        } else {
            let (above, outer) = stack[index - 1];
            &&& key != ROOT_NODE_KEY
            &&& self.places@[key].parent == above
            &&& self.places@[key].octant == outer.octant_of(position)
            &&& cube == outer.child(outer.octant_of(position))
        }
    }

    /// The entries are a descent from the root towards `position`.
    pub(crate) open spec fn path_ok(&self, stack: Seq<(usize, Cube)>, position: V3c<u32>) -> bool {
        &&& stack.len() >= 1
        &&& forall|index: int| 0 <= index < stack.len() ==> #[trigger] self.step_ok(stack, index, position)
    }

    /// A descent stays one while its nodes stay and keep their places.
    pub(crate) proof fn lemma_path_kept(
        &self,
        after: &Self,
        stack: Seq<(usize, Cube)>,
        position: V3c<u32>,
    )
        requires
            self.path_ok(stack, position),
            forall|index: int|
                0 <= index < stack.len() ==> after.live(#[trigger] stack[index].0)
                    && after.places@[stack[index].0] == self.places@[stack[index].0],
        ensures
            after.path_ok(stack, position),
    {
        assert forall|index: int| 0 <= index < stack.len() implies #[trigger] after.step_ok(
            stack,
            index,
            position,
        ) by {
            assert(self.step_ok(stack, index, position));
            assert(after.live(stack[index].0));
        }
    }

    /// The nodes of a descent shrink from entry to entry, and each but the
    /// last is no leaf and has the next under the octant for the position.
    pub(crate) proof fn lemma_path_step(
        &self,
        stack: Seq<(usize, Cube)>,
        position: V3c<u32>,
        index: int,
    )
        requires
            self.structure_ok(),
            self.path_ok(stack, position),
            0 <= index < stack.len() - 1,
        ensures
            ({
                let (above, outer) = stack[index];
                let (key, cube) = stack[index + 1];
                &&& self.live(above)
                &&& self.live(key)
                &&& self.cube_of(above) == outer
                &&& self.cube_of(key) == cube
                &&& self.child_key(above, outer.octant_of(position)) == key
                &&& key != key_none_value_spec()
                &&& key != above
                &&& !(self.content(above) is Leaf)
                &&& cube.size < outer.size
                &&& outer.size > DIM
                &&& self.places@[key].parent == above
                &&& key != ROOT_NODE_KEY
            }),
    {
        assert(self.step_ok(stack, index, position));
        assert(self.step_ok(stack, index + 1, position));
        self.lemma_parent(stack[index + 1].0);
    }

    /// Two entries of a descent name different nodes, the later one with
    /// the smaller cube, and the earlier does not lie under the later.
    pub(crate) proof fn lemma_path_distinct(
        &self,
        stack: Seq<(usize, Cube)>,
        position: V3c<u32>,
        i: int,
        j: int,
    )
        requires
            self.structure_ok(),
            self.path_ok(stack, position),
            0 <= i < j < stack.len(),
        ensures
            stack[j].1.size < stack[i].1.size,
            stack[i].0 != stack[j].0,
            !self.under(stack[i].0, stack[j].0),
        decreases j - i,
    {
        self.lemma_path_step(stack, position, j - 1);
        if i < j - 1 {
            self.lemma_path_distinct(stack, position, i, j - 1);
        }
        assert(self.step_ok(stack, i, position));
        assert(self.step_ok(stack, j, position));
        if self.under(stack[i].0, stack[j].0) {
            self.lemma_under_within(stack[i].0, stack[j].0);
        }
    }

    /// A descent stays one, up to the rewritten node, after a node on it
    /// was rewritten.
    pub(crate) proof fn lemma_path_replaced(
        &self,
        after: &Self,
        stack: Seq<(usize, Cube)>,
        position: V3c<u32>,
        pruned: bool,
    )
        requires
            self.structure_ok(),
            self.path_ok(stack, position),
            self.replaced(after, stack.last().0, pruned),
        ensures
            after.path_ok(stack, position),
    {
        let last = stack.len() - 1;
        assert forall|index: int| 0 <= index < stack.len() implies after.live(
            #[trigger] stack[index].0,
        ) && after.places@[stack[index].0] == self.places@[stack[index].0] by {
            assert(self.step_ok(stack, index, position));
            if index < last {
                self.lemma_path_distinct(stack, position, index, last);
            }
        }
        self.lemma_path_kept(after, stack, position);
    }

    /// The first entries of a descent are a descent.
    pub(crate) proof fn lemma_path_prefix(
        &self,
        stack: Seq<(usize, Cube)>,
        position: V3c<u32>,
        len: int,
    )
        requires
            self.path_ok(stack, position),
            1 <= len <= stack.len(),
        ensures
            self.path_ok(stack.take(len), position),
            stack.take(len).last() == stack[len - 1],
    {
        let prefix = stack.take(len);
        assert forall|index: int| 0 <= index < prefix.len() implies #[trigger] self.step_ok(
            prefix,
            index,
            position,
        ) by {
            assert(self.step_ok(stack, index, position));
        }
    }

    /// The nodes of a descent above its last stay on their way, and none
    /// of them becomes a leaf, while they stay with their places and
    /// contents.
    pub(crate) proof fn lemma_path_above_kept(
        &self,
        after: &Self,
        stack: Seq<(usize, Cube)>,
        position: V3c<u32>,
    )
        requires
            self.structure_ok(),
            self.path_ok(stack, position),
            stack.len() > 1,
            after.places == self.places,
            forall|k: usize|
                #[trigger] self.live(k) && k != stack.last().0 && !self.under(k, stack.last().0)
                    ==> after.live(k) && after.content(k) == self.content(k),
        ensures
            after.path_ok(stack.take(stack.len() - 1), position),
            forall|index: int|
                0 <= index < stack.len() - 1 ==> !(after.content(
                    #[trigger] stack.take(stack.len() - 1)[index].0,
                ) is Leaf),
    {
        let last = stack.len() - 1;
        let above = stack.take(last);
        self.lemma_path_prefix(stack, position, last);
        assert forall|index: int| 0 <= index < above.len() implies after.live(
            #[trigger] above[index].0,
        ) && after.places@[above[index].0] == self.places@[above[index].0] && !(after.content(
            above[index].0,
        ) is Leaf) by {
            assert(self.step_ok(stack, index, position));
            self.lemma_path_distinct(stack, position, index, last);
            self.lemma_path_step(stack, position, index);
        }
        self.lemma_path_kept(after, above, position);
    }
}

} // verus!
