//! The store of one component type.

use crate::bits::bit_len;
use crate::bits::bounded_by;
use crate::bits::count_ones_in;
use crate::bits::lemma_count_insert;
use crate::bits::lemma_count_member;
use crate::bits::rank;
use crate::bits::set_bits;
use crate::comp_iter::Iter;
use crate::comp_iter::IterMut;
use crate::dense::by_slot;
use crate::dense::dense_from;
use crate::dense::lemma_dense_ascending;
use crate::dense::lemma_by_slot_insert;
use crate::dense::lemma_by_slot_remove;
use crate::dense::lemma_by_slot_update;
use crate::dense::lemma_dense_insert;
use crate::dense::lemma_dense_remove;
use crate::dense::lemma_dense_same_slots;
use crate::dense::same_slots;
use crate::entity_handle::EntityHandle;
use fixedbitset::FixedBitSet;
use vstd::prelude::*;

verus! {

/// The components of one type, at most one per slot.
///
/// The entries stand densely in a vector, in ascending order of slot, and a
/// presence set marks the slots that have one. The position of a slot's
/// entry is the slot's rank in the presence set, so every access counts
/// bits instead of indexing a sparse table.
#[derive(Debug)]
pub struct CompVec<T> {
    pub(crate) comps: Vec<(EntityHandle, T)>,
    pub(crate) owners: FixedBitSet,
}

impl<T> View for CompVec<T> {
    type V = Map<int, (EntityHandle, T)>;

    /// The entries by slot.
    open spec fn view(&self) -> Map<int, (EntityHandle, T)> {
        by_slot(self.dense(), self.slots())
    }
}

impl<T> CompVec<T> {
    /// The entries in the order in which they are stored.
    pub open(crate) spec fn dense(&self) -> Seq<(EntityHandle, T)> {
        self.comps@
    }

    /// The slots that have an entry.
    pub open(crate) spec fn slots(&self) -> Set<int> {
        set_bits(self.owners)
    }

    /// The length of the presence set, which every slot in it is below.
    pub open(crate) spec fn capacity(&self) -> nat {
        bit_len(self.owners)
    }

    /// The store's invariant: the entries are those of the slots in the
    /// presence set, each at its rank.
    pub open(crate) spec fn wf(&self) -> bool {
        &&& dense_from(self.comps@, set_bits(self.owners), 0)
        &&& bounded_by(set_bits(self.owners), bit_len(self.owners) as int)
    }

    /// The store has an entry for `id`: one for its slot, under this very
    /// handle.
    pub open spec fn has(&self, id: EntityHandle) -> bool {
        self.slots().contains(id.index() as int) && self@[id.index() as int].0 == id
    }

    /// What the store holds for `id`, if anything.
    pub open spec fn lookup(&self, id: EntityHandle) -> Option<T> {
        if self.has(id) {
            Some(self@[id.index() as int].1)
        } else {
            None
        }
    }

    /// What the store holds for `id1` and for `id2`.
    pub open spec fn lookup2(&self, id1: EntityHandle, id2: EntityHandle) -> (
        Option<T>,
        Option<T>,
    ) {
        (self.lookup(id1), self.lookup(id2))
    }

    /// What one insertion does: `post` is `pre` after `comp` went in under
    /// `id`, and `prev` is what came back.
    pub open spec fn inserted(
        pre: Self,
        post: Self,
        id: EntityHandle,
        comp: T,
        prev: Option<T>,
    ) -> bool {
        &&& post.slots() == pre.slots().insert(id.index() as int)
        &&& post.capacity() == if id.index() < pre.capacity() {
            pre.capacity()
        } else {
            (id.index() + 1) as nat
        }
        &&& post@ == pre@.insert(id.index() as int, (id, comp))
        &&& pre.slots().contains(id.index() as int) ==> {
            &&& prev == Some(pre@[id.index() as int].1)
            &&& post.dense() == pre.dense().update(
                rank(pre.slots(), id.index() as int) as int,
                (id, comp),
            )
        }
        &&& !pre.slots().contains(id.index() as int) ==> {
            &&& prev is None
            &&& post.dense() == pre.dense().insert(
                rank(pre.slots(), id.index() as int) as int,
                (id, comp),
            )
        }
    }

    /// What one removal does: `post` is `pre` after the entry of `id` was
    /// taken out, where the store had one for this very handle, and `prev`
    /// is what came back. A store that has no entry for `id` stays as it is.
    pub open spec fn removed(pre: Self, post: Self, id: EntityHandle, prev: Option<T>) -> bool {
        &&& post.capacity() == pre.capacity()
        &&& pre.has(id) ==> {
            &&& prev == Some(pre@[id.index() as int].1)
            &&& post.slots() == pre.slots().remove(id.index() as int)
            &&& post@ == pre@.remove(id.index() as int)
            &&& post.dense() == pre.dense().remove(rank(pre.slots(), id.index() as int) as int)
        }
        &&& !pre.has(id) ==> {
            &&& prev is None
            &&& post.slots() == pre.slots()
            &&& post@ == pre@
            &&& post.dense() == pre.dense()
        }
    }

    /// What the invariant says in terms of the public model.
    pub proof fn lemma_wf(&self)
        requires
            self.wf(),
        ensures
            dense_from(self.dense(), self.slots(), 0),
            bounded_by(self.slots(), self.capacity() as int),
            self@.dom() == self.slots(),
            forall|i: int| #[trigger] self.slots().contains(i) ==> self@[i].0.index() == i,
    {
        assert(self@.dom() =~= self.slots());
    }

    /// The entries stand in ascending order of slot, no slot twice.
    pub proof fn lemma_sorted(&self, p: int, q: int)
        requires
            self.wf(),
            0 <= p < q < self.dense().len(),
        ensures
            self.dense()[p].0.index() < self.dense()[q].0.index(),
    {
        lemma_dense_ascending(self.comps@, set_bits(self.owners), 0, p, q);
    }

    /// The component of `id`, where the store has one for this handle.
    pub fn get(&self, id: EntityHandle) -> (found: Option<&T>)
        requires
            self.wf(),
        ensures
            match found {
                Some(comp) => self.lookup(id) == Some(*comp),
                None => self.lookup(id) is None,
            },
    {
        if self.owners.contains(id.index()) {
            let comp_ind = count_ones_in(&self.owners, 0, id.index());
            let (id_out, comp) = &self.comps[comp_ind];
            if *id_out == id {
                return Some(comp);
            }
        }
        None
    }

    /// The component of `id`, to change in place. The handles and the
    /// presence set stay as they are.
    pub fn get_mut(&mut self, id: EntityHandle) -> (found: Option<&mut T>)
        requires
            old(self).wf(),
        ensures
            final(self).wf(),
            final(self).slots() == old(self).slots(),
            final(self).capacity() == old(self).capacity(),
            match found {
                Some(comp) => {
                    &&& old(self).lookup(id) == Some(*comp)
                    &&& final(self).dense() == old(self).dense().update(
                        rank(old(self).slots(), id.index() as int) as int,
                        (id, *final(comp)),
                    )
                    &&& final(self)@ == old(self)@.insert(id.index() as int, (id, *final(comp)))
                },
                None => old(self).lookup(id) is None && final(self).dense() == old(self).dense(),
            },
    {
        if self.owners.contains(id.index()) {
            let comp_ind = count_ones_in(&self.owners, 0, id.index());
            let ghost before = self.comps@;
            let (id_out, comp) = &mut self.comps[comp_ind];
            if *id_out == id {
                proof {
                    let after = before.update(comp_ind as int, (id, *final(comp)));
                    assert(same_slots(before, after));
                    lemma_dense_same_slots(before, after, set_bits(self.owners), 0);
                    lemma_by_slot_update(
                        before,
                        set_bits(self.owners),
                        comp_ind as int,
                        (id, *final(comp)),
                    );
                }
                return Some(comp);
            }
        }
        None
    }

    /// The components of two handles at once, each to change in place.
    ///
    /// The two must not be one and the same handle with an entry: there is
    /// only one entry to hand out for it. Two different handles that name
    /// one slot are in order: the entry goes to the one that it stands
    /// under, if it stands under either.
    pub fn get2_mut(&mut self, id1: EntityHandle, id2: EntityHandle) -> (found: (
        Option<&mut T>,
        Option<&mut T>,
    ))
        requires
            old(self).wf(),
            id1 != id2 || !old(self).has(id1),
        ensures
            final(self).wf(),
            final(self).slots() == old(self).slots(),
            final(self).capacity() == old(self).capacity(),
            (pointee(found.0), pointee(found.1)) == old(self).lookup2(id1, id2),
            final(self).dense() == Self::written_back(
                Self::written_back(
                    old(self).dense(),
                    rank(old(self).slots(), id1.index() as int) as int,
                    id1,
                    match found.0 {
                        Some(comp) => Some(*final(comp)),
                        None => None,
                    },
                ),
                rank(old(self).slots(), id2.index() as int) as int,
                id2,
                match found.1 {
                    Some(comp) => Some(*final(comp)),
                    None => None,
                },
            ),
    {
        let has1 = self.owners.contains(id1.index());
        let has2 = self.owners.contains(id2.index());
        if has1 && has2 {
            if id1.index() != id2.index() {
                self.get2_mut_apart(id1, id2)
            } else {
                let comp_ind = count_ones_in(&self.owners, 0, id1.index());
                if self.comps[comp_ind].0 == id1 {
                    (self.get_mut(id1), None)
                } else {
                    (None, self.get_mut(id2))
                }
            }
        } else if has1 {
            (self.get_mut(id1), None)
        } else if has2 {
            (None, self.get_mut(id2))
        } else {
            (None, None)
        }
    }

    /// [`CompVec::get2_mut`] for two handles that name two slots, both of
    /// which have an entry: the store is split between the two entries.
    fn get2_mut_apart(&mut self, id1: EntityHandle, id2: EntityHandle) -> (found: (
        Option<&mut T>,
        Option<&mut T>,
    ))
        requires
            old(self).wf(),
            old(self).slots().contains(id1.index() as int),
            old(self).slots().contains(id2.index() as int),
            id1.index() != id2.index(),
        ensures
            final(self).wf(),
            final(self).slots() == old(self).slots(),
            final(self).capacity() == old(self).capacity(),
            (pointee(found.0), pointee(found.1)) == old(self).lookup2(id1, id2),
            final(self).dense() == Self::written_back(
                Self::written_back(
                    old(self).dense(),
                    rank(old(self).slots(), id1.index() as int) as int,
                    id1,
                    match found.0 {
                        Some(comp) => Some(*final(comp)),
                        None => None,
                    },
                ),
                rank(old(self).slots(), id2.index() as int) as int,
                id2,
                match found.1 {
                    Some(comp) => Some(*final(comp)),
                    None => None,
                },
            ),
    {
        let comp_ind1 = count_ones_in(&self.owners, 0, id1.index());
        let comp_ind2 = count_ones_in(&self.owners, 0, id2.index());
        let ghost before = self.comps@;
        let ghost bits = set_bits(self.owners);
        proof {
            if id1.index() < id2.index() {
                lemma_count_member(bits, 0, id1.index() as int, id2.index() as int);
            } else {
                lemma_count_member(bits, 0, id2.index() as int, id1.index() as int);
            }
        }
        let max = if comp_ind1 < comp_ind2 {
            comp_ind2
        } else {
            comp_ind1
        };
        let (slice_min, slice_max) = self.comps.as_mut_slice().split_at_mut(max);
        let (comp1, comp2) = if comp_ind1 < comp_ind2 {
            (&mut slice_min[comp_ind1], &mut slice_max[0])
        } else {
            (&mut slice_max[0], &mut slice_min[comp_ind2])
        };
        let first = if comp1.0 == id1 {
            Some(&mut comp1.1)
        } else {
            None
        };
        let second = if comp2.0 == id2 {
            Some(&mut comp2.1)
        } else {
            None
        };
        proof {
            let after = Self::written_back(
                Self::written_back(
                    before,
                    comp_ind1 as int,
                    id1,
                    if first is Some {
                        Some(*final(first->0))
                    } else {
                        None
                    },
                ),
                comp_ind2 as int,
                id2,
                if second is Some {
                    Some(*final(second->0))
                } else {
                    None
                },
            );
            assert(same_slots(before, after));
            lemma_dense_same_slots(before, after, bits, 0);
        }
        (first, second)
    }

    /// `entries` after `value`, where there is one, was written at position
    /// `p` under the handle `id`.
    pub open spec fn written_back(
        entries: Seq<(EntityHandle, T)>,
        p: int,
        id: EntityHandle,
        value: Option<T>,
    ) -> Seq<(EntityHandle, T)> {
        match value {
            Some(v) => entries.update(p, (id, v)),
            None => entries,
        }
    }

    /// Puts `comp` in as the component of `id`'s slot. Where the slot had
    /// an entry, the new one takes its place and the old component comes
    /// back; where it had none, the new entry goes in at the slot's rank.
    pub fn insert(&mut self, id: EntityHandle, comp: T) -> (prev: Option<T>)
        requires
            old(self).wf(),
        ensures
            final(self).wf(),
            Self::inserted(*old(self), *final(self), id, comp, prev),
    {
        let already_had = self.owners.contains(id.index());
        let ghost before = self.comps@;
        let ghost bits = set_bits(self.owners);
        let ghost i = id.index() as int;

        self.owners.grow_and_insert(id.index());

        let comp_ind = count_ones_in(&self.owners, 0, id.index());
        proof {
            if already_had {
                assert(bits.insert(i) =~= bits);
            } else {
                lemma_count_insert(bits, i, 0, i);
                lemma_dense_insert(before, bits, 0, (id, comp));
            }
        }

        if already_had {
            let (_old_id, old_comp) = std::mem::replace(&mut self.comps[comp_ind], (id, comp));
            proof {
                assert(same_slots(before, self.comps@));
                lemma_dense_same_slots(before, self.comps@, bits, 0);
                lemma_by_slot_update(before, bits, comp_ind as int, (id, comp));
            }
            Some(old_comp)
        } else {
            self.comps.insert(comp_ind, (id, comp));
            proof {
                lemma_by_slot_insert(before, bits, (id, comp));
            }
            None
        }
    }

    /// Takes out the entry of `id`, where the store has one for this very
    /// handle, and returns its component. A store that has none, be it
    /// that the slot is empty or that it is held under another handle, is
    /// left alone.
    pub fn remove(&mut self, id: EntityHandle) -> (prev: Option<T>)
        requires
            old(self).wf(),
        ensures
            final(self).wf(),
            Self::removed(*old(self), *final(self), id, prev),
    {
        if self.owners.contains(id.index()) {
            let comp_ind = count_ones_in(&self.owners, 0, id.index());
            if self.comps[comp_ind].0 == id {
                let ghost before = self.comps@;
                let ghost bits = set_bits(self.owners);
                let ghost i = id.index() as int;
                self.owners.remove(id.index());
                proof {
                    lemma_dense_remove(before, bits, 0, i);
                    lemma_by_slot_remove(before, bits, i);
                }
                let (_id_out, comp) = self.comps.remove(comp_ind);
                return Some(comp);
            }
        }
        None
    }

    /// The stored entries, in ascending order of slot.
    pub fn components(&self) -> (entries: &[(EntityHandle, T)])
        ensures
            entries@ == self.dense(),
    {
        self.comps.as_slice()
    }

    /// The entry at position `id` of the stored sequence.
    pub fn get_comp_ind(&self, id: usize) -> (entry: (EntityHandle, &T))
        requires
            id < self.dense().len(),
        ensures
            entry.0 == self.dense()[id as int].0,
            *entry.1 == self.dense()[id as int].1,
    {
        let (handle, comp) = &self.comps[id];
        (*handle, comp)
    }

    /// The entry at position `id` of the stored sequence, its component to
    /// change in place.
    pub fn get_mut_comp_ind(&mut self, id: usize) -> (entry: (EntityHandle, &mut T))
        requires
            id < old(self).dense().len(),
        ensures
            entry.0 == old(self).dense()[id as int].0,
            *entry.1 == old(self).dense()[id as int].1,
            final(self).dense() == old(self).dense().update(id as int, (entry.0, *final(entry.1))),
            final(self).slots() == old(self).slots(),
            final(self).capacity() == old(self).capacity(),
            old(self).wf() ==> final(self).wf(),
    {
        let ghost before = self.comps@;
        let (handle, comp) = &mut self.comps[id];
        proof {
            let after = before.update(id as int, (*handle, *final(comp)));
            assert(same_slots(before, after));
            if old(self).wf() {
                lemma_dense_same_slots(before, after, set_bits(self.owners), 0);
            }
        }
        (*handle, comp)
    }

    /// A cursor over the entries, for use alone or in a join.
    pub fn iter(&self) -> (it: Iter<'_, T>)
        requires
            self.wf(),
        ensures
            it.covers(*self),
    {
        let it = Iter::new(self.comps.as_slice(), &self.owners);
        assert(it@ =~= self@);
        it
    }

    /// A cursor over the entries that hands out each component to change
    /// in place, for use alone or in a join. The store gets back what the
    /// cursor's borrow holds in the end; it is in order again as long as
    /// every position still names its slot.
    pub fn iter_mut(&mut self) -> (it: IterMut<'_, T>)
        requires
            old(self).wf(),
        ensures
            it.covers(*old(self)),
            final(self).dense() == final(it.lent())@,
            final(self).slots() == old(self).slots(),
            final(self).capacity() == old(self).capacity(),
            same_slots(old(self).dense(), final(self).dense()) ==> final(self).wf(),
    {
        let ghost before = self.comps@;
        let ghost bits = set_bits(self.owners);
        let it = IterMut::new(self.comps.as_mut_slice(), &self.owners);
        proof {
            assert(it@ =~= by_slot(before, bits));
            lemma_dense_same_slots(before, final(it.lent())@, bits, 0);
        }
        it
    }

    /// Whether this store and `other` agree: whether every slot that both
    /// have an entry for, both hold under the same handle. A join of the
    /// two can be walked exactly when they do.
    pub fn agrees_with<U>(&self, other: &CompVec<U>) -> (agreed: bool)
        requires
            self.wf(),
            other.wf(),
        ensures
            agreed == agree(*self, *other),
    {
        let mut p: usize = 0;
        while p < self.comps.len()
            invariant
                self.wf(),
                other.wf(),
                p <= self.comps.len(),
                forall|q: int|
                    0 <= q < p && other.slots().contains(self.comps@[q].0.index() as int) ==> (
                    #[trigger] self.comps@[q]).0 == other@[self.comps@[q].0.index() as int].0,
            decreases self.comps.len() - p,
        {
            let id = self.comps[p].0;
            if other.owners.contains(id.index()) {
                let comp_ind = count_ones_in(&other.owners, 0, id.index());
                if other.comps[comp_ind].0 != id {
                    assert(self@[id.index() as int] == self.comps@[p as int]);
                    return false;
                }
            }
            p += 1;
        }
        proof {
            assert forall|slot: int|
                self.slots().contains(slot) && other.slots().contains(slot) implies (
            #[trigger] self@[slot]).0 == other@[slot].0 by {
                let q = rank(self.slots(), slot) as int;
                assert(self.comps@[q].0.index() == slot);
            }
        }
        true
    }

    /// The presence set.
    pub fn owners(&self) -> (owners: &FixedBitSet)
        ensures
            set_bits(*owners) == self.slots(),
            bit_len(*owners) == self.capacity(),
    {
        &self.owners
    }

    /// Whether the store holds no entry.
    pub fn is_empty(&self) -> (empty: bool)
        ensures
            empty == (self.dense().len() == 0),
            self.wf() ==> empty == (self.slots() =~= Set::<int>::empty()),
    {
        proof {
            if self.wf() {
                if self.comps@.len() > 0 {
                    assert(set_bits(self.owners).contains(self.comps@[0].0.index() as int));
                }
            }
        }
        self.comps.is_empty()
    }
}

impl<T> CompVec<T> {
    /// After `insert(id, comp)` the store holds `comp` for `id`, and what it
    /// holds for the handles of other slots is what it held before.
    pub proof fn lemma_insert_then_get(
        pre: Self,
        post: Self,
        id: EntityHandle,
        comp: T,
        prev: Option<T>,
        other: EntityHandle,
    )
        requires
            pre.wf(),
            Self::inserted(pre, post, id, comp, prev),
        ensures
            post.lookup(id) == Some(comp),
            other.index() != id.index() ==> post.lookup(other) == pre.lookup(other),
    {
    }

    /// `remove(id)` returns what the store held for `id`; afterwards the
    /// store holds nothing for `id`, and what it holds for any other handle
    /// is what it held before. So a handle that the store has no entry
    /// for, a stale handle of an occupied slot among them, removes nothing.
    pub proof fn lemma_remove_then_get(
        pre: Self,
        post: Self,
        id: EntityHandle,
        prev: Option<T>,
        other: EntityHandle,
    )
        requires
            pre.wf(),
            Self::removed(pre, post, id, prev),
        ensures
            prev == pre.lookup(id),
            post.lookup(id) is None,
            other != id ==> post.lookup(other) == pre.lookup(other),
            !pre.has(id) ==> post.dense() == pre.dense(),
    {
    }

    /// `insert` on a handle that the store has an entry for returns the
    /// component that was there, and leaves the number of entries as it is.
    pub proof fn lemma_insert_on_present(
        pre: Self,
        post: Self,
        id: EntityHandle,
        comp: T,
        prev: Option<T>,
    )
        requires
            pre.wf(),
            pre.has(id),
            Self::inserted(pre, post, id, comp, prev),
        ensures
            prev == pre.lookup(id),
            post.dense().len() == pre.dense().len(),
            post.slots() == pre.slots(),
    {
        assert(pre.slots().insert(id.index() as int) =~= pre.slots());
    }

    /// What `get2_mut` finds does not depend on the order of its
    /// arguments: on every pair of handles that it takes, swapping them
    /// swaps the results. Where both are found, they stand at different
    /// positions, so that writing through one reference leaves what the
    /// other refers to alone.
    pub proof fn lemma_get2_symmetric(&self, id1: EntityHandle, id2: EntityHandle)
        requires
            self.wf(),
            id1 != id2 || !self.has(id1),
        ensures
            self.lookup2(id1, id2) == (self.lookup2(id2, id1).1, self.lookup2(id2, id1).0),
            self.has(id1) && self.has(id2) ==> rank(self.slots(), id1.index() as int) != rank(
                self.slots(),
                id2.index() as int,
            ),
    {
        if self.has(id1) && self.has(id2) {
            if id1.index() < id2.index() {
                lemma_count_member(self.slots(), 0, id1.index() as int, id2.index() as int);
            } else if id2.index() < id1.index() {
                lemma_count_member(self.slots(), 0, id2.index() as int, id1.index() as int);
            }
        }
    }
}

/// Two stores agree: a slot that both have an entry for, both hold under
/// the same handle. Stores that are fed by one allocator, and from which a
/// deleted entity is removed everywhere, agree.
pub open spec fn agree<A, B>(a: CompVec<A>, b: CompVec<B>) -> bool {
    forall|slot: int|
        a.slots().contains(slot) && b.slots().contains(slot) ==> (#[trigger] a@[slot]).0
            == b@[slot].0
}

/// What an optional mutable reference refers to now.
pub open spec fn pointee<T>(found: Option<&mut T>) -> Option<T> {
    match found {
        Some(comp) => Some(*comp),
        None => None,
    }
}

impl<T> Default for CompVec<T> {
    /// A store without entries.
    fn default() -> (store: Self)
        ensures
            store.wf(),
            store.dense() == Seq::<(EntityHandle, T)>::empty(),
            store.slots() == Set::<int>::empty(),
            store@ == Map::<int, (EntityHandle, T)>::empty(),
    {
        let store = Self { comps: Vec::new(), owners: FixedBitSet::new() };
        assert(store@ =~= Map::<int, (EntityHandle, T)>::empty());
        store
    }
}

} // verus!
