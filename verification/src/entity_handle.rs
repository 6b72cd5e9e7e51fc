//! Entity handles and the allocator that issues and recycles them.

use crate::bits::bit_len;
use crate::bits::bounded_by;
use crate::bits::set_bits;
use fixedbitset::FixedBitSet;
use vstd::prelude::*;

verus! {

/// The identity of an entity: a slot, and the generation in which the slot
/// was handed out.
#[derive(Clone, Copy, PartialEq, Eq, Hash, Debug, Structural)]
pub struct EntityHandle {
    index: usize,
    generation: u32,
}

impl EntityHandle {
    #[verifier::type_invariant]
    spec fn below_limit(self) -> bool {
        self.index < usize::MAX
    }

    pub closed spec fn spec_generation(&self) -> u32 {
        self.generation
    }

    pub closed spec fn spec_index(&self) -> usize {
        self.index
    }

    /// The generation in which the slot was handed out.
    #[verifier::when_used_as_spec(spec_generation)]
    pub fn generation(&self) -> (g: u32)
        ensures
            g == self.spec_generation(),
    {
        self.generation
    }

    /// The slot. It is always below `usize::MAX`, so that one more bit than
    /// it names fits a presence set.
    #[verifier::when_used_as_spec(spec_index)]
    pub fn index(&self) -> (i: usize)
        ensures
            i == self.spec_index(),
            i < usize::MAX,
    {
        proof {
            use_type_invariant(self);
        }
        self.index
    }

    /// Two handles are equal exactly when slot and generation are.
    pub proof fn lemma_equal(a: EntityHandle, b: EntityHandle)
        ensures
            a == b <==> a.index() == b.index() && a.generation() == b.generation(),
    {
    }
}

/// Issues entity handles and takes them back.
///
/// Slots are numbered from 0. A freed slot is handed out again, lowest
/// first, before a new one is opened. One generation counter serves all
/// slots; it goes up by one at the first allocation after a free, so a slot
/// that comes back carries a generation that none of its earlier handles had.
#[derive(Debug)]
pub struct EntityHandleCounter {
    next: usize,
    generation: u32,
    removed: bool,
    free: FixedBitSet,
    generation_to_free: Vec<Option<u32>>,
}

impl EntityHandleCounter {
    /// The number of slots opened so far.
    pub closed spec fn slot_count(&self) -> nat {
        self.next as nat
    }

    /// The generation of the handle issued last.
    pub closed spec fn current_generation(&self) -> u32 {
        self.generation
    }

    /// Whether a handle was freed since the last allocation, so that the
    /// next allocation starts a new generation.
    pub closed spec fn bump_pending(&self) -> bool {
        self.removed
    }

    /// The slots that were freed and not handed out again.
    pub closed spec fn free_slots(&self) -> Set<int> {
        set_bits(self.free)
    }

    /// `handle` is live: the table records its generation for its slot.
    pub closed spec fn is_live(&self, handle: EntityHandle) -> bool {
        &&& handle.index < self.generation_to_free.len()
        &&& self.generation_to_free[handle.index as int] == Some(handle.generation)
    }

    /// `handle` is spent: it is live, or its slot and generation are such
    /// that it may have been issued before. No allocation returns a spent
    /// handle, and a spent handle stays spent.
    pub closed spec fn is_spent(&self, handle: EntityHandle) -> bool {
        &&& handle.index < self.next
        &&& {
            ||| self.is_live(handle)
            ||| handle.generation < self.generation
            ||| self.removed && handle.generation == self.generation
        }
    }

    /// The generation that the next handle will carry.
    pub open spec fn next_generation(&self) -> int {
        if self.bump_pending() {
            self.current_generation() + 1
        } else {
            self.current_generation() as int
        }
    }

    /// `slot` is the slot that the next handle will name: the lowest free
    /// slot, or a new one where none is free.
    pub open spec fn is_next_slot(&self, slot: int) -> bool {
        if self.free_slots() =~= Set::<int>::empty() {
            slot == self.slot_count()
        } else {
            self.free_slots().contains(slot) && forall|j: int|
                self.free_slots().contains(j) ==> slot <= j
        }
    }

    /// Neither the slot counter nor the generation counter is at its limit
    /// where the next allocation would move it.
    pub open spec fn can_issue(&self) -> bool {
        &&& self.free_slots() =~= Set::<int>::empty() ==> self.slot_count() < usize::MAX
        &&& self.bump_pending() ==> self.current_generation() < u32::MAX
    }

    /// The allocator's invariant: the table has an entry for each slot
    /// opened, the free slots are those without a generation, and no slot
    /// records a generation that is yet to come.
    pub closed spec fn wf(&self) -> bool {
        &&& self.generation_to_free.len() == self.next
        &&& bounded_by(set_bits(self.free), bit_len(self.free) as int)
        &&& forall|i: int|
            set_bits(self.free).contains(i) <==> 0 <= i < self.next
                && self.generation_to_free[i] is None
        &&& forall|i: int|
            0 <= i < self.next && self.generation_to_free[i] is Some
                ==> self.generation_to_free[i]->0 <= self.generation
    }

    /// What one allocation does: `post` is `pre` after `handle` was issued.
    pub open spec fn issue_step(
        pre: EntityHandleCounter,
        post: EntityHandleCounter,
        handle: EntityHandle,
    ) -> bool {
        &&& pre.is_next_slot(handle.index() as int)
        &&& handle.generation() == pre.next_generation()
        &&& post.current_generation() == handle.generation()
        &&& !post.bump_pending()
        &&& post.slot_count() == if pre.free_slots() =~= Set::<int>::empty() {
            pre.slot_count() + 1
        } else {
            pre.slot_count()
        }
        &&& post.free_slots() == pre.free_slots().remove(handle.index() as int)
        &&& !pre.is_spent(handle)
        &&& forall|g: EntityHandle| #[trigger] post.is_live(g) <==> g == handle || pre.is_live(g)
        &&& forall|g: EntityHandle| #[trigger] pre.is_spent(g) ==> post.is_spent(g)
    }

    /// What one free does: `post` is `pre` after the live `handle` was
    /// given back.
    pub open spec fn delete_step(
        pre: EntityHandleCounter,
        post: EntityHandleCounter,
        handle: EntityHandle,
    ) -> bool {
        &&& post.current_generation() == pre.current_generation()
        &&& post.bump_pending()
        &&& post.slot_count() == pre.slot_count()
        &&& post.free_slots() == pre.free_slots().insert(handle.index() as int)
        &&& forall|g: EntityHandle| #[trigger] post.is_live(g) <==> g != handle && pre.is_live(g)
        &&& forall|g: EntityHandle| #[trigger] pre.is_spent(g) ==> post.is_spent(g)
    }

    /// Whether one more handle can be issued: whether neither counter is at
    /// its limit where the next allocation would move it.
    pub fn has_room(&self) -> (room: bool)
        requires
            self.wf(),
        ensures
            room == self.can_issue(),
    {
        let slot_free = self.free.minimum().is_some();
        proof {
            if slot_free {
                assert(!(self.free_slots() =~= Set::<int>::empty()));
            } else {
                assert(self.free_slots() =~= Set::<int>::empty());
            }
        }
        (slot_free || self.next < usize::MAX) && (!self.removed || self.generation < u32::MAX)
    }

    /// Issues a handle: for the lowest free slot where there is one, for a
    /// new slot otherwise. The handle is live from now on, and is none
    /// that was issued before.
    pub fn next_handle(&mut self) -> (handle: EntityHandle)
        requires
            old(self).wf(),
            old(self).can_issue(),
        ensures
            final(self).wf(),
            Self::issue_step(*old(self), *final(self), handle),
    {
        let ghost pre = *self;
        if self.removed {
            self.removed = false;
            self.generation += 1;
        }
        let index = if let Some(ind) = self.free.minimum() {
            self.free.remove(ind);
            assert(pre.free_slots().contains(ind as int));
            ind
        } else {
            assert(pre.free_slots() =~= Set::<int>::empty());
            let ind = self.next;
            self.next += 1;
            ind
        };
        if index >= self.generation_to_free.len() {
            self.generation_to_free.resize(index + 1, None);
            assert(self.generation_to_free@[index as int] is None);
            assert forall|i: int| 0 <= i < index implies self.generation_to_free@[i]
                == pre.generation_to_free@[i] by {
                assert(self.generation_to_free@.subrange(0, index as int)[i]
                    == pre.generation_to_free@[i]);
            }
        }
        self.generation_to_free[index] = Some(self.generation);
        let handle = EntityHandle { index, generation: self.generation };
        proof {
            assert(!pre.is_live(handle));
            assert forall|g: EntityHandle| #[trigger] self.is_live(g) <==> g == handle
                || pre.is_live(g) by {
                if g.index == index {
                    assert(!pre.is_live(g));
                }
            }
            assert(self.free_slots() =~= pre.free_slots().remove(index as int));
            assert forall|i: int|
                0 <= i < self.next && self.generation_to_free[i] is Some
                    implies self.generation_to_free[i]->0 <= self.generation by {
                if i != index {
                    assert(self.generation_to_free[i] == pre.generation_to_free[i]);
                }
            }
            assert forall|i: int|
                set_bits(self.free).contains(i) <==> 0 <= i < self.next
                    && self.generation_to_free[i] is None by {
                if i != index && 0 <= i < self.next {
                    assert(self.generation_to_free[i] == pre.generation_to_free[i]);
                }
            }
        }
        handle
    }

    /// Gives a live handle back. Its slot becomes free, and the next
    /// allocation starts a new generation.
    pub fn entity_deleted(&mut self, handle: EntityHandle)
        requires
            old(self).wf(),
            old(self).is_live(handle),
        ensures
            final(self).wf(),
            Self::delete_step(*old(self), *final(self), handle),
    {
        let ghost pre = *self;
        self.free.grow_and_insert(handle.index());
        self.removed = true;
        self.generation_to_free[handle.index()] = None;
        proof {
            assert forall|g: EntityHandle| #[trigger] self.is_live(g) <==> g != handle
                && pre.is_live(g) by {}
        }
    }

    /// Whether `handle` is no longer, or was never, live here.
    pub fn is_already_freed(&self, handle: EntityHandle) -> (freed: bool)
        ensures
            freed == !self.is_live(handle),
    {
        if handle.index() >= self.generation_to_free.len() {
            return true;
        }
        match self.generation_to_free[handle.index()] {
            None => true,
            Some(generation) => generation != handle.generation(),
        }
    }

    /// A live handle is spent.
    pub proof fn lemma_live_is_spent(&self, handle: EntityHandle)
        requires
            self.wf(),
            self.is_live(handle),
        ensures
            self.is_spent(handle),
    {
    }

    /// At any moment a slot has at most one live handle: two live handles
    /// that name one slot are one and the same.
    pub proof fn lemma_one_live_handle_per_slot(&self, a: EntityHandle, b: EntityHandle)
        requires
            self.is_live(a),
            self.is_live(b),
            a.index() == b.index(),
        ensures
            a == b,
    {
    }

    /// The handle that an allocation returns differs from every handle
    /// that is live at that moment, in its slot too, and both are live
    /// afterwards.
    pub proof fn lemma_issued_handle_is_new(
        pre: EntityHandleCounter,
        post: EntityHandleCounter,
        handle: EntityHandle,
        other: EntityHandle,
    )
        requires
            pre.wf(),
            Self::issue_step(pre, post, handle),
            pre.is_live(other),
        ensures
            handle != other,
            handle.index() != other.index(),
            post.is_live(handle),
            post.is_live(other),
    {
        assert(post.is_live(handle));
        assert(post.is_live(other));
        assert(!pre.free_slots().contains(other.index() as int));
    }

    /// A handle that was freed never comes back: when its slot is issued
    /// again, whether at once or after any number of allocations and frees
    /// that left it spent, the new handle has another generation, the old
    /// handle stays dead, and the new one is live.
    pub proof fn lemma_reuse_changes_generation(
        pre: EntityHandleCounter,
        post: EntityHandleCounter,
        freed: EntityHandle,
        handle: EntityHandle,
    )
        requires
            pre.is_spent(freed),
            !pre.is_live(freed),
            Self::issue_step(pre, post, handle),
            handle.index() == freed.index(),
        ensures
            handle.generation() != freed.generation(),
            !post.is_live(freed),
            post.is_live(handle),
    {
        assert(post.is_live(handle));
    }

    /// Freeing `freed` and then allocating, where the allocation takes the
    /// slot of `freed`: the new handle has another generation, `freed` is
    /// dead, and the new handle is live.
    pub proof fn lemma_free_then_allocate(
        start: EntityHandleCounter,
        mid: EntityHandleCounter,
        end: EntityHandleCounter,
        freed: EntityHandle,
        handle: EntityHandle,
    )
        requires
            start.wf(),
            start.is_live(freed),
            Self::delete_step(start, mid, freed),
            Self::issue_step(mid, end, handle),
            handle.index() == freed.index(),
        ensures
            handle.generation() != freed.generation(),
            !end.is_live(freed),
            end.is_live(handle),
    {
        start.lemma_live_is_spent(freed);
        assert(mid.is_spent(freed));
        assert(!mid.is_live(freed));
        Self::lemma_reuse_changes_generation(mid, end, freed, handle);
    }
}

impl Default for EntityHandleCounter {
    /// An allocator that has issued nothing.
    fn default() -> (counter: Self)
        ensures
            counter.wf(),
            counter.can_issue(),
            counter.slot_count() == 0,
            counter.current_generation() == 0,
            !counter.bump_pending(),
            counter.free_slots() == Set::<int>::empty(),
            forall|h: EntityHandle| !counter.is_live(h) && !counter.is_spent(h),
    {
        EntityHandleCounter {
            next: 0,
            generation: 0,
            removed: false,
            free: FixedBitSet::new(),
            generation_to_free: Vec::new(),
        }
    }
}

} // verus!
