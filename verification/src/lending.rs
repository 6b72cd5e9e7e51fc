//! Lending: a component is taken out of its store and handed over whole,
//! so that whoever has it may use the rest of the world freely, and is put
//! back afterwards.

use crate::bits::count_ones_in;
use crate::bits::enable_bit;
use crate::bits::lemma_count_remove;
use crate::bits::rank;
use crate::bits::set_bits;
use crate::comp_vec::CompVec;
use crate::dense::lemma_by_slot_insert;
use crate::dense::lemma_by_slot_remove;
use crate::dense::lemma_dense_insert;
use crate::dense::lemma_dense_remove;
use crate::entity_handle::EntityHandle;
use vstd::prelude::*;

verus! {

/// A store that can lend out one entry at a time.
///
/// While an entry is out, the store is locked: nothing else may be taken
/// from it until the entry is back.
pub struct ComponentStorage<T> {
    store: CompVec<T>,
    lending_removed_a_comp: bool,
}

impl<T> View for ComponentStorage<T> {
    type V = Map<int, (EntityHandle, T)>;

    /// The entries by slot, without the one that is out.
    open spec fn view(&self) -> Map<int, (EntityHandle, T)> {
        self.store()@
    }
}

impl<T> ComponentStorage<T> {
    /// The store inside.
    pub closed spec fn store(&self) -> CompVec<T> {
        self.store
    }

    /// Whether an entry is out.
    pub closed spec fn is_lent(&self) -> bool {
        self.lending_removed_a_comp
    }

    /// Whether an entry is out.
    pub fn has_lent(&self) -> (lent: bool)
        ensures
            lent == self.is_lent(),
    {
        self.lending_removed_a_comp
    }

    /// The handle under which the store holds `slot`, where it has an
    /// entry for it.
    pub fn handle_of_slot(&self, slot: usize) -> (found: Option<EntityHandle>)
        requires
            self.store().wf(),
        ensures
            found == if self@.dom().contains(slot as int) {
                Some(self@[slot as int].0)
            } else {
                None
            },
    {
        if self.store.owners.contains(slot) {
            let comp_ind = count_ones_in(&self.store.owners, 0, slot);
            Some(self.store.comps[comp_ind].0)
        } else {
            None
        }
    }

    /// Wraps a store, nothing lent.
    pub fn new(store: CompVec<T>) -> (storage: Self)
        ensures
            storage.store() == store,
            !storage.is_lent(),
    {
        Self { store, lending_removed_a_comp: false }
    }

    /// The store inside, to read.
    pub fn as_store(&self) -> (store: &CompVec<T>)
        ensures
            *store == self.store(),
    {
        &self.store
    }

    /// Gives the store back. No entry may be out.
    pub fn into_store(self) -> (store: CompVec<T>)
        requires
            !self.is_lent(),
        ensures
            store == self.store(),
    {
        self.store
    }

    /// Takes out the entry at position `comp_ind` of the stored sequence
    /// and locks the store. The store must not be locked already.
    pub fn tmp_remove_ind(&mut self, comp_ind: usize) -> (entry: (EntityHandle, T))
        requires
            old(self).store().wf(),
            !old(self).is_lent(),
            comp_ind < old(self).store().dense().len(),
        ensures
            final(self).store().wf(),
            final(self).is_lent(),
            entry == old(self).store().dense()[comp_ind as int],
            final(self).store().dense() == old(self).store().dense().remove(comp_ind as int),
            final(self).store().slots() == old(self).store().slots().remove(
                entry.0.index() as int,
            ),
            final(self).store().capacity() == old(self).store().capacity(),
            final(self)@ == old(self)@.remove(entry.0.index() as int),
            entry.0.index() < old(self).store().capacity(),
            comp_ind == rank(final(self).store().slots(), entry.0.index() as int),
    {
        let ghost before = self.store.comps@;
        let ghost bits = set_bits(self.store.owners);
        self.lending_removed_a_comp = true;
        let (id, comp) = self.store.comps.remove(comp_ind);
        proof {
            let i = id.index() as int;
            assert(before[comp_ind as int].0 == id);
            lemma_count_remove(bits, i, 0, i);
            lemma_dense_remove(before, bits, 0, i);
            lemma_by_slot_remove(before, bits, i);
        }
        self.store.owners.remove(id.index());
        (id, comp)
    }

    /// Puts an entry that was taken out back in at position `comp_ind` and
    /// unlocks the store. The position must be the slot's rank, as it is
    /// where the entry came from and no slot was added or removed since.
    pub fn tmp_insert_ind(&mut self, id: EntityHandle, comp_ind: usize, comp: T)
        requires
            old(self).store().wf(),
            old(self).is_lent(),
            id.index() < old(self).store().capacity(),
            !old(self).store().slots().contains(id.index() as int),
            comp_ind == rank(old(self).store().slots(), id.index() as int),
        ensures
            final(self).store().wf(),
            !final(self).is_lent(),
            final(self).store().dense() == old(self).store().dense().insert(
                comp_ind as int,
                (id, comp),
            ),
            final(self).store().slots() == old(self).store().slots().insert(id.index() as int),
            final(self).store().capacity() == old(self).store().capacity(),
            final(self)@ == old(self)@.insert(id.index() as int, (id, comp)),
    {
        let ghost before = self.store.comps@;
        let ghost bits = set_bits(self.store.owners);
        proof {
            lemma_dense_insert(before, bits, 0, (id, comp));
            lemma_by_slot_insert(before, bits, (id, comp));
        }
        self.lending_removed_a_comp = false;
        enable_bit(&mut self.store.owners, id.index());
        self.store.comps.insert(comp_ind, (id, comp));
    }
}

/// The steps of a walk that lends out, entity by entity, the components
/// that two stores have in common.
pub struct CompsIter;

impl CompsIter {
    /// The slots that both stores have an entry for, lowest first: the
    /// entities that the walk will visit.
    pub fn lending_slots<T1, T2>(c1: &ComponentStorage<T1>, c2: &ComponentStorage<T2>) -> (slots:
        Vec<usize>)
        ensures
            forall|i: int, j: int| 0 <= i < j < slots.len() ==> slots[i] < slots[j],
            forall|slot: int|
                (c1.store().slots().contains(slot) && c2.store().slots().contains(slot)) <==> (
                exists|k: int| 0 <= k < slots.len() && slots[k] == slot),
    {
        let mut inter = c1.store.owners.clone();
        inter.intersect_with(&c2.store.owners);
        let ghost both = set_bits(inter);
        let mut ones = inter.into_ones();
        let ghost all = crate::bits::ones_left(ones);
        let mut slots: Vec<usize> = Vec::new();
        loop
            invariant
                crate::bits::ascending(all),
                slots.len() <= all.len(),
                crate::bits::ones_left(ones) == all.skip(slots.len() as int),
                forall|k: int| 0 <= k < slots.len() ==> slots[k] == all[k],
            ensures
                slots.len() == all.len(),
                forall|k: int| 0 <= k < slots.len() ==> slots[k] == all[k],
            decreases all.len() - slots.len(),
        {
            match crate::bits::next_one(&mut ones) {
                None => {
                    break ;
                },
                Some(slot) => {
                    slots.push(slot);
                },
            }
        }
        proof {
            assert forall|i: int, j: int| 0 <= i < j < slots.len() implies slots[i] < slots[j] by {
                assert(all[i] < all[j]);
            }
            assert forall|slot: int|
                (c1.store().slots().contains(slot) && c2.store().slots().contains(slot)) <==> (
                exists|k: int| 0 <= k < slots.len() && slots[k] == slot) by {
                if both.contains(slot) {
                    assert(all.contains(slot));
                    let k = choose|k: int| 0 <= k < all.len() && all[k] == slot;
                    assert(slots[k] == slot);
                }
                if exists|k: int| 0 <= k < slots.len() && slots[k] == slot {
                    let k = choose|k: int| 0 <= k < slots.len() && slots[k] == slot;
                    assert(all[k] == slot);
                    assert(all.contains(slot));
                }
            }
        }
        slots
    }

    /// Takes the entries of `slot` out of both stores, which must hold
    /// them under one and the same handle, and locks both.
    pub fn lend<T1, T2>(
        c1: &mut ComponentStorage<T1>,
        c2: &mut ComponentStorage<T2>,
        slot: usize,
    ) -> (lent: (EntityHandle, T1, T2))
        requires
            old(c1).store().wf(),
            old(c2).store().wf(),
            !old(c1).is_lent(),
            !old(c2).is_lent(),
            old(c1)@.dom().contains(slot as int),
            old(c2)@.dom().contains(slot as int),
            old(c1)@[slot as int].0 == old(c2)@[slot as int].0,
        ensures
            final(c1).store().wf(),
            final(c2).store().wf(),
            final(c1).is_lent(),
            final(c2).is_lent(),
            lent.0.index() == slot,
            (lent.0, lent.1) == old(c1)@[slot as int],
            (lent.0, lent.2) == old(c2)@[slot as int],
            final(c1)@ == old(c1)@.remove(slot as int),
            final(c2)@ == old(c2)@.remove(slot as int),
            final(c1).store().capacity() == old(c1).store().capacity(),
            final(c2).store().capacity() == old(c2).store().capacity(),
            slot < old(c1).store().capacity(),
            slot < old(c2).store().capacity(),
    {
        let comp_ind1 = count_ones_in(&c1.store.owners, 0, slot);
        let comp_ind2 = count_ones_in(&c2.store.owners, 0, slot);
        let (id1, comp1) = c1.tmp_remove_ind(comp_ind1);
        let (_id2, comp2) = c2.tmp_remove_ind(comp_ind2);
        (id1, comp1, comp2)
    }

    /// Puts the two components of `id` back into the stores that they were
    /// lent from, and unlocks both.
    pub fn give_back<T1, T2>(
        c1: &mut ComponentStorage<T1>,
        c2: &mut ComponentStorage<T2>,
        id: EntityHandle,
        comp1: T1,
        comp2: T2,
    )
        requires
            old(c1).store().wf(),
            old(c2).store().wf(),
            old(c1).is_lent(),
            old(c2).is_lent(),
            id.index() < old(c1).store().capacity(),
            id.index() < old(c2).store().capacity(),
            !old(c1)@.dom().contains(id.index() as int),
            !old(c2)@.dom().contains(id.index() as int),
        ensures
            final(c1).store().wf(),
            final(c2).store().wf(),
            !final(c1).is_lent(),
            !final(c2).is_lent(),
            final(c1)@ == old(c1)@.insert(id.index() as int, (id, comp1)),
            final(c2)@ == old(c2)@.insert(id.index() as int, (id, comp2)),
            final(c1).store().capacity() == old(c1).store().capacity(),
            final(c2).store().capacity() == old(c2).store().capacity(),
    {
        let comp_ind1 = count_ones_in(&c1.store.owners, 0, id.index());
        let comp_ind2 = count_ones_in(&c2.store.owners, 0, id.index());
        c1.tmp_insert_ind(id, comp_ind1, comp1);
        c2.tmp_insert_ind(id, comp_ind2, comp2);
    }
}

} // verus!
