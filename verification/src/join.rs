//! Joins: walks over the entities that several stores have in common.

use crate::bits::ascending;
use crate::bits::next_one;
use crate::bits::ones_left;
use crate::bits::set_bits;
use crate::comp_iter::follows;
use crate::comp_iter::gave_back;
use crate::comp_iter::gave_back_all;
use crate::comp_iter::gave_back_first;
use crate::comp_iter::lemma_gave_back_more;
use crate::comp_iter::lemma_gave_back_rest;
use crate::comp_iter::led_past;
use crate::comp_iter::lemma_led_past_twice;
use crate::comp_iter::lemma_moved_past_twice;
use crate::comp_iter::moved_past;
use crate::comp_iter::serves_all;
use crate::comp_iter::CompIterer;
use crate::comp_iter::NonOptionalCompIterer;
use crate::comp_vec::CompVec;
use crate::entity_handle::EntityHandle;
use fixedbitset::FixedBitSet;
use fixedbitset::IntoOnes;
use vstd::prelude::*;
use vstd::std_specs::convert::FromSpecImpl;

verus! {

/// A join in the making: the participants, and the working set of slots
/// that the walk will visit.
///
/// `CompIter::from` takes a tuple of one to seven participants, the first
/// of which leads. `with` and `without` narrow the working set by further
/// stores, and `into_iter` starts the walk.
pub struct CompIter<T> {
    comps: T,
    owners: FixedBitSet,
}

impl<T> CompIter<T> {
    /// The participants.
    pub closed spec fn parts(&self) -> T {
        self.comps
    }

    /// The slots that the walk will visit.
    pub closed spec fn working(&self) -> Set<int> {
        set_bits(self.owners)
    }

    /// Leaves out the entities that `without` has an entry for.
    #[must_use]
    pub fn without<Y>(self, without: &CompVec<Y>) -> (narrowed: Self)
        ensures
            narrowed.parts() == self.parts(),
            narrowed.working() == self.working().difference(without.slots()),
    {
        let mut narrowed = self;
        narrowed.owners.difference_with(without.owners());
        narrowed
    }

    /// Keeps only the entities that `with` has an entry for.
    #[must_use]
    pub fn with<Y>(self, with: &CompVec<Y>) -> (narrowed: Self)
        ensures
            narrowed.parts() == self.parts(),
            narrowed.working() == self.working().intersect(with.slots()),
    {
        let mut narrowed = self;
        narrowed.owners.intersect_with(with.owners());
        narrowed
    }
}

/// The last of the first `done` slots of `all`, or -1 where `done` is 0:
/// the slot that a walk over `all` has passed after `done` rows.
pub open spec fn passed(all: Seq<int>, done: int) -> int {
    if 0 < done <= all.len() {
        all[done - 1]
    } else {
        -1
    }
}

/// A join under way: the participants, each a cursor that has moved up to
/// the last slot visited, and the slots that are left.
pub struct IntoCompIter<T> {
    comps: T,
    ones: IntoOnes,
}

impl<T> IntoCompIter<T> {
    /// The participants, as far as they have come.
    pub closed spec fn parts(&self) -> T {
        self.comps
    }

    /// The slots that are left to visit, lowest first.
    pub closed spec fn slots_left(&self) -> Seq<int> {
        ones_left(self.ones)
    }

    /// Once the walk is done with, so are its participants.
    pub proof fn lemma_done(&self)
        requires
            has_resolved(*self),
        ensures
            has_resolved(self.parts()),
    {
        let whole = *self;
        assert(has_resolved(whole.comps));
    }

    /// The walk is at its start, over the participants `parts` and the
    /// working set `working`: all of the working set is left to visit.
    pub open spec fn walks(&self, parts: T, working: Set<int>) -> bool {
        &&& self.parts() == parts
        &&& ascending(self.slots_left())
        &&& forall|slot: int|
            #![trigger working.contains(slot)]
            #![trigger self.slots_left().contains(slot)]
            working.contains(slot) <==> self.slots_left().contains(slot)
    }
}

impl<T1: NonOptionalCompIterer> From<(T1,)> for CompIter<(T1,)> {
    /// A join of one participant: the working set is its presence set.
    fn from(comps: (T1,)) -> (join: Self)
        ensures
            join.parts() == comps,
            join.working() == comps.0.owner_bits(),
    {
        let (comp1,) = comps;
        let owners = comp1.owners().clone();
        Self { comps: (comp1,), owners }
    }
}

impl<T1: NonOptionalCompIterer> FromSpecImpl<(T1,)> for CompIter<(T1,)> {
    /// The working set is an opaque bit set, so `from` is described by its
    /// own contract and not by a value written out here.
    open spec fn obeys_from_spec() -> bool {
        false
    }

    open spec fn from_spec(comps: (T1,)) -> Self {
        arbitrary()
    }
}

impl<T1: NonOptionalCompIterer> CompIter<(T1,)> {
    /// Starts the walk: the slots of the working set, lowest first.
    pub fn into_iter(self) -> (rows: IntoCompIter<(T1,)>)
        ensures
            rows.walks(self.parts(), self.working()),
    {
        IntoCompIter { comps: self.comps, ones: self.owners.into_ones() }
    }
}

impl<T1: NonOptionalCompIterer> IntoCompIter<(T1,)> {
    /// The walk can go on: every participant is in order and can be asked
    /// for each slot that is left, the first for the slot and the others
    /// for the handle that the first has there.
    pub open spec fn wf(&self) -> bool {
        &&& self.parts().0.ready()
        &&& ascending(self.slots_left())
        &&& forall|k: int|
            0 <= k < self.slots_left().len() ==> {
                let slot = #[trigger] self.slots_left()[k];
                &&& self.parts().0.serves_index(slot)
            }
    }

    /// A walk at its start can go on where the first participant can lead
    /// over the working set and each of the others can follow it there.
    pub proof fn lemma_walk_wf(&self, working: Set<int>)
        requires
            self.walks(self.parts(), working),
            serves_all(self.parts().0, working),
        ensures
            self.wf(),
    {
        assert forall|k: int| 0 <= k < self.slots_left().len() implies working.contains(
            #[trigger] self.slots_left()[k],
        ) by {
            assert(self.slots_left().contains(self.slots_left()[k]));
        }
    }

    /// The row of the lowest slot that is left: the handle that the first
    /// participant has there, and what each participant has for it. A
    /// participant that hands out its components to change gives back the
    /// entries that it passed as they were, and the one of this row with
    /// what is written through the reference.
    pub fn next(&mut self) -> (row: Option<(EntityHandle, T1::Item)>)
        requires
            old(self).wf(),
        ensures
            final(self).wf(),
            match row {
                Some(row) => {
                    &&& old(self).slots_left().len() > 0
                    &&& row.0.index() == old(self).slots_left()[0]
                    &&& row.0 == old(self).parts().0.handle_at(old(self).slots_left()[0])
                    &&& old(self).parts().0.holds(row.0, row.1)
                    &&& final(self).slots_left() == old(self).slots_left().skip(1)
                    &&& led_past(old(self).parts().0, final(self).parts().0, row.0.index() as int)
                    &&& match old(self).parts().0.lent_out() {
                        Some(before) => final(self).parts().0.lent_out() is Some && gave_back(
                            before@,
                            final(before)@,
                            final(self).parts().0.lent_out()->0@,
                            final(final(self).parts().0.lent_out()->0)@,
                            row.0,
                            match T1::item_mut(&row.1) {
                                Some(comp) => Some(*final(comp)),
                                None => None,
                            },
                        ),
                        None => final(self).parts().0.lent_out() is None,
                    }
                },
                None => {
                    &&& old(self).slots_left().len() == 0
                    &&& final(self).slots_left() == old(self).slots_left()
                    &&& final(self).parts() == old(self).parts()
                },
            },
    {
        match next_one(&mut self.ones) {
            None => None,
            Some(index) => {
                let ghost before = old(self).comps;
                let ghost left = ones_left(old(self).ones);
                assert(left[0] == index);
                let (id1, item1) = self.comps.0.comp_at_index(index);
                proof {
                    before.0.lemma_handle_at(index as int);
                }
                proof {
                    assert forall|k: int| 0 <= k < left.skip(1).len() implies ({
                        let slot = #[trigger] left.skip(1)[k];
                        &&& self.comps.0.serves_index(slot)
                    }) by {
                        let slot = left[k + 1];
                        assert(left.skip(1)[k] == slot);
                        assert(before.0.serves_index(slot));
                        before.0.lemma_handle_at(slot);
                    }
                }
                Some((id1, item1))
            },
        }
    }

    /// All the rows that are left, in the order in which `next` would
    /// yield them: one for each slot that is left, lowest first, each with
    /// the handle that the first participant has there and what each
    /// participant has for it. The store of a participant that hands out
    /// its components to change gets back every entry under its handle,
    /// with what is written through the reference of its row, or as it was
    /// where no row has a reference for it.
    pub fn collect(self) -> (rows: Vec<(EntityHandle, T1::Item)>)
        requires
            self.wf(),
        ensures
            rows.len() == self.slots_left().len(),
            forall|k: int|
                0 <= k < rows.len() ==> {
                    let row = #[trigger] rows[k];
                    &&& row.0.index() == self.slots_left()[k]
                    &&& row.0 == self.parts().0.handle_at(self.slots_left()[k])
                    &&& self.parts().0.holds(row.0, row.1)
                },
            match self.parts().0.lent_out() {
                Some(before) => gave_back_all(
                    before@,
                    final(before)@,
                    Seq::new(rows.len() as nat, |k: int| rows@[k].0),
                    Seq::new(
                        rows.len() as nat,
                        |k: int|
                            match T1::item_mut(&rows@[k].1) {
                                Some(comp) => Some(*final(comp)),
                                None => None,
                            },
                    ),
                ),
                None => true,
            },
    {
        let ghost start = self.comps;
        let ghost all = ones_left(self.ones);
        let mut walk = self;
        let mut rows: Vec<(EntityHandle, T1::Item)> = Vec::new();
        loop
            invariant
                walk.wf(),
                ascending(all),
                rows.len() <= all.len(),
                walk.slots_left() == all.skip(rows.len() as int),
                led_past(start.0, walk.parts().0, passed(all, rows.len() as int)),
                match start.0.lent_out() {
                    Some(before) => walk.parts().0.lent_out() is Some && {
                        let now = walk.parts().0.lent_out()->0;
                        &&& now@ == before@.skip(before@.len() - now@.len())
                        &&& final(now)@ == final(before)@.skip(before@.len() - now@.len())
                        &&& gave_back_first(
                            before@,
                            final(before)@,
                            before@.len() - now@.len(),
                            Seq::new(rows.len() as nat, |k: int| rows@[k].0),
                            Seq::new(
                                rows.len() as nat,
                                |k: int|
                                    match T1::item_mut(&rows@[k].1) {
                                        Some(comp) => Some(*final(comp)),
                                        None => None,
                                    },
                            ),
                        )
                    },
                    None => walk.parts().0.lent_out() is None,
                },
                forall|k: int|
                    0 <= k < all.len() ==> start.0.serves_index(#[trigger] all[k]),
                forall|k: int|
                    0 <= k < rows.len() ==> {
                        let row = #[trigger] rows[k];
                        &&& row.0.index() == all[k]
                        &&& row.0 == start.0.handle_at(all[k])
                        &&& start.0.holds(row.0, row.1)
                    },
            ensures
                rows.len() == all.len(),
            decreases all.len() - rows.len(),
        {
            let ghost before = walk.comps;
            let ghost done = rows.len() as int;
            match walk.next() {
                None => {
                    break ;
                },
                Some(row) => {
                    proof {
                        assert(all.skip(done)[0] == all[done]);
                        assert(all.skip(done).skip(1) =~= all.skip(done + 1));
                        if done > 0 {
                            assert(all[done - 1] < all[done]);
                        }
                        let p = passed(all, done);
                        let q = all[done];
                        lemma_led_past_twice(start.0, before.0, walk.comps.0, p, q);
                    }
                    let ghost handles = Seq::new(rows.len() as nat, |k: int| rows@[k].0);
                    let ghost so_far = rows@;
                    let ghost handle = row.0;
                    rows.push(row);
                    proof {
                        assert(Seq::new(rows.len() as nat, |k: int| rows@[k].0) =~= handles.push(handle));
                        if start.0.lent_out() is Some {
                            let first = start.0.lent_out()->0;
                            let now = before.0.lent_out()->0;
                            let after = walk.comps.0.lent_out()->0;
                            assert(Seq::new(
                                rows.len() as nat,
                                |k: int|
                                    match T1::item_mut(&rows@[k].1) {
                                        Some(comp) => Some(*final(comp)),
                                        None => None,
                                    },
                            ) =~= Seq::new(
                                so_far.len(),
                                |k: int|
                                    match T1::item_mut(&so_far[k].1) {
                                        Some(comp) => Some(*final(comp)),
                                        None => None,
                                    },
                            ).push(
                                match T1::item_mut(&rows@[done].1) {
                                    Some(comp) => Some(*final(comp)),
                                    None => None,
                                },
                            ));
                            lemma_gave_back_more(
                                first@,
                                final(first)@,
                                first@.len() - now@.len(),
                                handles,
                                Seq::new(
                                    so_far.len(),
                                    |k: int|
                                        match T1::item_mut(&so_far[k].1) {
                                            Some(comp) => Some(*final(comp)),
                                            None => None,
                                        },
                                ),
                                now@,
                                final(now)@,
                                after@,
                                final(after)@,
                                handle,
                                match T1::item_mut(&rows@[done].1) {
                                    Some(comp) => Some(*final(comp)),
                                    None => None,
                                },
                            );
                        }
                    }
                },
            }
        }
        proof {
            walk.lemma_done();
            walk.comps.0.lemma_given_back();
            if start.0.lent_out() is Some {
                let first = start.0.lent_out()->0;
                let now = walk.comps.0.lent_out()->0;
                lemma_gave_back_rest(
                    first@,
                    final(first)@,
                    first@.len() - now@.len(),
                    Seq::new(rows.len() as nat, |k: int| rows@[k].0),
                    Seq::new(
                        rows.len() as nat,
                        |k: int|
                            match T1::item_mut(&rows@[k].1) {
                                Some(comp) => Some(*final(comp)),
                                None => None,
                            },
                    ),
                );
            }
        }
        rows
    }
}

impl<T1: NonOptionalCompIterer, T2: CompIterer> From<(T1, T2)> for CompIter<(T1, T2)> {
    /// A join of two participants. The working set starts as the presence
    /// set of the first, and each of the others narrows it in turn.
    fn from(comps: (T1, T2)) -> (join: Self)
        ensures
            join.parts() == comps,
            join.working() == comps.1.combined(comps.0.owner_bits()),
    {
        let (comp1, comp2) = comps;
        let mut owners = comp1.owners().clone();
        comp2.combine_owners(&mut owners);
        Self { comps: (comp1, comp2), owners }
    }
}

impl<T1: NonOptionalCompIterer, T2: CompIterer> FromSpecImpl<(T1, T2)> for CompIter<(T1, T2)> {
    /// The working set is an opaque bit set, so `from` is described by its
    /// own contract and not by a value written out here.
    open spec fn obeys_from_spec() -> bool {
        false
    }

    open spec fn from_spec(comps: (T1, T2)) -> Self {
        arbitrary()
    }
}

impl<T1: NonOptionalCompIterer, T2: CompIterer> CompIter<(T1, T2)> {
    /// Starts the walk: the slots of the working set, lowest first.
    pub fn into_iter(self) -> (rows: IntoCompIter<(T1, T2)>)
        ensures
            rows.walks(self.parts(), self.working()),
    {
        IntoCompIter { comps: self.comps, ones: self.owners.into_ones() }
    }
}

impl<T1: NonOptionalCompIterer, T2: CompIterer> IntoCompIter<(T1, T2)> {
    /// The walk can go on: every participant is in order and can be asked
    /// for each slot that is left, the first for the slot and the others
    /// for the handle that the first has there.
    pub open spec fn wf(&self) -> bool {
        &&& self.parts().0.ready()
        &&& self.parts().1.ready()
        &&& ascending(self.slots_left())
        &&& forall|k: int|
            0 <= k < self.slots_left().len() ==> {
                let slot = #[trigger] self.slots_left()[k];
                &&& self.parts().0.serves_index(slot)
                &&& self.parts().1.serves(self.parts().0.handle_at(slot))
            }
    }

    /// A walk at its start can go on where the first participant can lead
    /// over the working set and each of the others can follow it there.
    pub proof fn lemma_walk_wf(&self, working: Set<int>)
        requires
            self.walks(self.parts(), working),
            serves_all(self.parts().0, working),
            follows(self.parts().0, self.parts().1, working),
        ensures
            self.wf(),
    {
        assert forall|k: int| 0 <= k < self.slots_left().len() implies working.contains(
            #[trigger] self.slots_left()[k],
        ) by {
            assert(self.slots_left().contains(self.slots_left()[k]));
        }
    }

    /// The row of the lowest slot that is left: the handle that the first
    /// participant has there, and what each participant has for it. A
    /// participant that hands out its components to change gives back the
    /// entries that it passed as they were, and the one of this row with
    /// what is written through the reference.
    pub fn next(&mut self) -> (row: Option<(EntityHandle, T1::Item, T2::Item)>)
        requires
            old(self).wf(),
        ensures
            final(self).wf(),
            match row {
                Some(row) => {
                    &&& old(self).slots_left().len() > 0
                    &&& row.0.index() == old(self).slots_left()[0]
                    &&& row.0 == old(self).parts().0.handle_at(old(self).slots_left()[0])
                    &&& old(self).parts().0.holds(row.0, row.1)
                    &&& old(self).parts().1.holds(row.0, row.2)
                    &&& final(self).slots_left() == old(self).slots_left().skip(1)
                    &&& led_past(old(self).parts().0, final(self).parts().0, row.0.index() as int)
                    &&& moved_past(old(self).parts().1, final(self).parts().1, row.0.index() as int)
                    &&& match old(self).parts().0.lent_out() {
                        Some(before) => final(self).parts().0.lent_out() is Some && gave_back(
                            before@,
                            final(before)@,
                            final(self).parts().0.lent_out()->0@,
                            final(final(self).parts().0.lent_out()->0)@,
                            row.0,
                            match T1::item_mut(&row.1) {
                                Some(comp) => Some(*final(comp)),
                                None => None,
                            },
                        ),
                        None => final(self).parts().0.lent_out() is None,
                    }
                    &&& match old(self).parts().1.lent_out() {
                        Some(before) => final(self).parts().1.lent_out() is Some && gave_back(
                            before@,
                            final(before)@,
                            final(self).parts().1.lent_out()->0@,
                            final(final(self).parts().1.lent_out()->0)@,
                            row.0,
                            match T2::item_mut(&row.2) {
                                Some(comp) => Some(*final(comp)),
                                None => None,
                            },
                        ),
                        None => final(self).parts().1.lent_out() is None,
                    }
                },
                None => {
                    &&& old(self).slots_left().len() == 0
                    &&& final(self).slots_left() == old(self).slots_left()
                    &&& final(self).parts() == old(self).parts()
                },
            },
    {
        match next_one(&mut self.ones) {
            None => None,
            Some(index) => {
                let ghost before = old(self).comps;
                let ghost left = ones_left(old(self).ones);
                assert(left[0] == index);
                let (id1, item1) = self.comps.0.comp_at_index(index);
                proof {
                    before.0.lemma_handle_at(index as int);
                }
                let item2 = self.comps.1.comp_at(id1);
                proof {
                    assert forall|k: int| 0 <= k < left.skip(1).len() implies ({
                        let slot = #[trigger] left.skip(1)[k];
                        &&& self.comps.0.serves_index(slot)
                        &&& self.comps.1.serves(self.comps.0.handle_at(slot))
                    }) by {
                        let slot = left[k + 1];
                        assert(left.skip(1)[k] == slot);
                        assert(before.0.serves_index(slot));
                        before.0.lemma_handle_at(slot);
                        assert(before.1.serves(before.0.handle_at(slot)));
                    }
                }
                Some((id1, item1, item2))
            },
        }
    }

    /// All the rows that are left, in the order in which `next` would
    /// yield them: one for each slot that is left, lowest first, each with
    /// the handle that the first participant has there and what each
    /// participant has for it. The store of a participant that hands out
    /// its components to change gets back every entry under its handle,
    /// with what is written through the reference of its row, or as it was
    /// where no row has a reference for it.
    pub fn collect(self) -> (rows: Vec<(EntityHandle, T1::Item, T2::Item)>)
        requires
            self.wf(),
        ensures
            rows.len() == self.slots_left().len(),
            forall|k: int|
                0 <= k < rows.len() ==> {
                    let row = #[trigger] rows[k];
                    &&& row.0.index() == self.slots_left()[k]
                    &&& row.0 == self.parts().0.handle_at(self.slots_left()[k])
                    &&& self.parts().0.holds(row.0, row.1)
                    &&& self.parts().1.holds(row.0, row.2)
                },
            match self.parts().0.lent_out() {
                Some(before) => gave_back_all(
                    before@,
                    final(before)@,
                    Seq::new(rows.len() as nat, |k: int| rows@[k].0),
                    Seq::new(
                        rows.len() as nat,
                        |k: int|
                            match T1::item_mut(&rows@[k].1) {
                                Some(comp) => Some(*final(comp)),
                                None => None,
                            },
                    ),
                ),
                None => true,
            },
            match self.parts().1.lent_out() {
                Some(before) => gave_back_all(
                    before@,
                    final(before)@,
                    Seq::new(rows.len() as nat, |k: int| rows@[k].0),
                    Seq::new(
                        rows.len() as nat,
                        |k: int|
                            match T2::item_mut(&rows@[k].2) {
                                Some(comp) => Some(*final(comp)),
                                None => None,
                            },
                    ),
                ),
                None => true,
            },
    {
        let ghost start = self.comps;
        let ghost all = ones_left(self.ones);
        let mut walk = self;
        let mut rows: Vec<(EntityHandle, T1::Item, T2::Item)> = Vec::new();
        loop
            invariant
                walk.wf(),
                ascending(all),
                rows.len() <= all.len(),
                walk.slots_left() == all.skip(rows.len() as int),
                led_past(start.0, walk.parts().0, passed(all, rows.len() as int)),
                moved_past(start.1, walk.parts().1, passed(all, rows.len() as int)),
                match start.0.lent_out() {
                    Some(before) => walk.parts().0.lent_out() is Some && {
                        let now = walk.parts().0.lent_out()->0;
                        &&& now@ == before@.skip(before@.len() - now@.len())
                        &&& final(now)@ == final(before)@.skip(before@.len() - now@.len())
                        &&& gave_back_first(
                            before@,
                            final(before)@,
                            before@.len() - now@.len(),
                            Seq::new(rows.len() as nat, |k: int| rows@[k].0),
                            Seq::new(
                                rows.len() as nat,
                                |k: int|
                                    match T1::item_mut(&rows@[k].1) {
                                        Some(comp) => Some(*final(comp)),
                                        None => None,
                                    },
                            ),
                        )
                    },
                    None => walk.parts().0.lent_out() is None,
                },
                match start.1.lent_out() {
                    Some(before) => walk.parts().1.lent_out() is Some && {
                        let now = walk.parts().1.lent_out()->0;
                        &&& now@ == before@.skip(before@.len() - now@.len())
                        &&& final(now)@ == final(before)@.skip(before@.len() - now@.len())
                        &&& gave_back_first(
                            before@,
                            final(before)@,
                            before@.len() - now@.len(),
                            Seq::new(rows.len() as nat, |k: int| rows@[k].0),
                            Seq::new(
                                rows.len() as nat,
                                |k: int|
                                    match T2::item_mut(&rows@[k].2) {
                                        Some(comp) => Some(*final(comp)),
                                        None => None,
                                    },
                            ),
                        )
                    },
                    None => walk.parts().1.lent_out() is None,
                },
                forall|k: int|
                    0 <= k < all.len() ==> start.0.serves_index(#[trigger] all[k]),
                forall|k: int|
                    0 <= k < rows.len() ==> {
                        let row = #[trigger] rows[k];
                        &&& row.0.index() == all[k]
                        &&& row.0 == start.0.handle_at(all[k])
                        &&& start.0.holds(row.0, row.1)
                        &&& start.1.holds(row.0, row.2)
                    },
            ensures
                rows.len() == all.len(),
            decreases all.len() - rows.len(),
        {
            let ghost before = walk.comps;
            let ghost done = rows.len() as int;
            match walk.next() {
                None => {
                    break ;
                },
                Some(row) => {
                    proof {
                        assert(all.skip(done)[0] == all[done]);
                        assert(all.skip(done).skip(1) =~= all.skip(done + 1));
                        if done > 0 {
                            assert(all[done - 1] < all[done]);
                        }
                        let p = passed(all, done);
                        let q = all[done];
                        lemma_led_past_twice(start.0, before.0, walk.comps.0, p, q);
                        lemma_moved_past_twice(start.1, before.1, walk.comps.1, p, q);
                    }
                    let ghost handles = Seq::new(rows.len() as nat, |k: int| rows@[k].0);
                    let ghost so_far = rows@;
                    let ghost handle = row.0;
                    rows.push(row);
                    proof {
                        assert(Seq::new(rows.len() as nat, |k: int| rows@[k].0) =~= handles.push(handle));
                        if start.0.lent_out() is Some {
                            let first = start.0.lent_out()->0;
                            let now = before.0.lent_out()->0;
                            let after = walk.comps.0.lent_out()->0;
                            assert(Seq::new(
                                rows.len() as nat,
                                |k: int|
                                    match T1::item_mut(&rows@[k].1) {
                                        Some(comp) => Some(*final(comp)),
                                        None => None,
                                    },
                            ) =~= Seq::new(
                                so_far.len(),
                                |k: int|
                                    match T1::item_mut(&so_far[k].1) {
                                        Some(comp) => Some(*final(comp)),
                                        None => None,
                                    },
                            ).push(
                                match T1::item_mut(&rows@[done].1) {
                                    Some(comp) => Some(*final(comp)),
                                    None => None,
                                },
                            ));
                            lemma_gave_back_more(
                                first@,
                                final(first)@,
                                first@.len() - now@.len(),
                                handles,
                                Seq::new(
                                    so_far.len(),
                                    |k: int|
                                        match T1::item_mut(&so_far[k].1) {
                                            Some(comp) => Some(*final(comp)),
                                            None => None,
                                        },
                                ),
                                now@,
                                final(now)@,
                                after@,
                                final(after)@,
                                handle,
                                match T1::item_mut(&rows@[done].1) {
                                    Some(comp) => Some(*final(comp)),
                                    None => None,
                                },
                            );
                        }
                        if start.1.lent_out() is Some {
                            let first = start.1.lent_out()->0;
                            let now = before.1.lent_out()->0;
                            let after = walk.comps.1.lent_out()->0;
                            assert(Seq::new(
                                rows.len() as nat,
                                |k: int|
                                    match T2::item_mut(&rows@[k].2) {
                                        Some(comp) => Some(*final(comp)),
                                        None => None,
                                    },
                            ) =~= Seq::new(
                                so_far.len(),
                                |k: int|
                                    match T2::item_mut(&so_far[k].2) {
                                        Some(comp) => Some(*final(comp)),
                                        None => None,
                                    },
                            ).push(
                                match T2::item_mut(&rows@[done].2) {
                                    Some(comp) => Some(*final(comp)),
                                    None => None,
                                },
                            ));
                            lemma_gave_back_more(
                                first@,
                                final(first)@,
                                first@.len() - now@.len(),
                                handles,
                                Seq::new(
                                    so_far.len(),
                                    |k: int|
                                        match T2::item_mut(&so_far[k].2) {
                                            Some(comp) => Some(*final(comp)),
                                            None => None,
                                        },
                                ),
                                now@,
                                final(now)@,
                                after@,
                                final(after)@,
                                handle,
                                match T2::item_mut(&rows@[done].2) {
                                    Some(comp) => Some(*final(comp)),
                                    None => None,
                                },
                            );
                        }
                    }
                },
            }
        }
        proof {
            walk.lemma_done();
            walk.comps.0.lemma_given_back();
            if start.0.lent_out() is Some {
                let first = start.0.lent_out()->0;
                let now = walk.comps.0.lent_out()->0;
                lemma_gave_back_rest(
                    first@,
                    final(first)@,
                    first@.len() - now@.len(),
                    Seq::new(rows.len() as nat, |k: int| rows@[k].0),
                    Seq::new(
                        rows.len() as nat,
                        |k: int|
                            match T1::item_mut(&rows@[k].1) {
                                Some(comp) => Some(*final(comp)),
                                None => None,
                            },
                    ),
                );
            }
            walk.comps.1.lemma_given_back();
            if start.1.lent_out() is Some {
                let first = start.1.lent_out()->0;
                let now = walk.comps.1.lent_out()->0;
                lemma_gave_back_rest(
                    first@,
                    final(first)@,
                    first@.len() - now@.len(),
                    Seq::new(rows.len() as nat, |k: int| rows@[k].0),
                    Seq::new(
                        rows.len() as nat,
                        |k: int|
                            match T2::item_mut(&rows@[k].2) {
                                Some(comp) => Some(*final(comp)),
                                None => None,
                            },
                    ),
                );
            }
        }
        rows
    }
}

impl<T1: NonOptionalCompIterer, T2: CompIterer, T3: CompIterer> From<(T1, T2, T3)> for CompIter<(T1, T2, T3)> {
    /// A join of three participants. The working set starts as the presence
    /// set of the first, and each of the others narrows it in turn.
    fn from(comps: (T1, T2, T3)) -> (join: Self)
        ensures
            join.parts() == comps,
            join.working() == comps.2.combined(comps.1.combined(comps.0.owner_bits())),
    {
        let (comp1, comp2, comp3) = comps;
        let mut owners = comp1.owners().clone();
        comp2.combine_owners(&mut owners);
        comp3.combine_owners(&mut owners);
        Self { comps: (comp1, comp2, comp3), owners }
    }
}

impl<T1: NonOptionalCompIterer, T2: CompIterer, T3: CompIterer> FromSpecImpl<(T1, T2, T3)> for CompIter<(T1, T2, T3)> {
    /// The working set is an opaque bit set, so `from` is described by its
    /// own contract and not by a value written out here.
    open spec fn obeys_from_spec() -> bool {
        false
    }

    open spec fn from_spec(comps: (T1, T2, T3)) -> Self {
        arbitrary()
    }
}

impl<T1: NonOptionalCompIterer, T2: CompIterer, T3: CompIterer> CompIter<(T1, T2, T3)> {
    /// Starts the walk: the slots of the working set, lowest first.
    pub fn into_iter(self) -> (rows: IntoCompIter<(T1, T2, T3)>)
        ensures
            rows.walks(self.parts(), self.working()),
    {
        IntoCompIter { comps: self.comps, ones: self.owners.into_ones() }
    }
}

impl<T1: NonOptionalCompIterer, T2: CompIterer, T3: CompIterer> IntoCompIter<(T1, T2, T3)> {
    /// The walk can go on: every participant is in order and can be asked
    /// for each slot that is left, the first for the slot and the others
    /// for the handle that the first has there.
    pub open spec fn wf(&self) -> bool {
        &&& self.parts().0.ready()
        &&& self.parts().1.ready()
        &&& self.parts().2.ready()
        &&& ascending(self.slots_left())
        &&& forall|k: int|
            0 <= k < self.slots_left().len() ==> {
                let slot = #[trigger] self.slots_left()[k];
                &&& self.parts().0.serves_index(slot)
                &&& self.parts().1.serves(self.parts().0.handle_at(slot))
                &&& self.parts().2.serves(self.parts().0.handle_at(slot))
            }
    }

    /// A walk at its start can go on where the first participant can lead
    /// over the working set and each of the others can follow it there.
    pub proof fn lemma_walk_wf(&self, working: Set<int>)
        requires
            self.walks(self.parts(), working),
            serves_all(self.parts().0, working),
            follows(self.parts().0, self.parts().1, working),
            follows(self.parts().0, self.parts().2, working),
        ensures
            self.wf(),
    {
        assert forall|k: int| 0 <= k < self.slots_left().len() implies working.contains(
            #[trigger] self.slots_left()[k],
        ) by {
            assert(self.slots_left().contains(self.slots_left()[k]));
        }
    }

    /// The row of the lowest slot that is left: the handle that the first
    /// participant has there, and what each participant has for it. A
    /// participant that hands out its components to change gives back the
    /// entries that it passed as they were, and the one of this row with
    /// what is written through the reference.
    pub fn next(&mut self) -> (row: Option<(EntityHandle, T1::Item, T2::Item, T3::Item)>)
        requires
            old(self).wf(),
        ensures
            final(self).wf(),
            match row {
                Some(row) => {
                    &&& old(self).slots_left().len() > 0
                    &&& row.0.index() == old(self).slots_left()[0]
                    &&& row.0 == old(self).parts().0.handle_at(old(self).slots_left()[0])
                    &&& old(self).parts().0.holds(row.0, row.1)
                    &&& old(self).parts().1.holds(row.0, row.2)
                    &&& old(self).parts().2.holds(row.0, row.3)
                    &&& final(self).slots_left() == old(self).slots_left().skip(1)
                    &&& led_past(old(self).parts().0, final(self).parts().0, row.0.index() as int)
                    &&& moved_past(old(self).parts().1, final(self).parts().1, row.0.index() as int)
                    &&& moved_past(old(self).parts().2, final(self).parts().2, row.0.index() as int)
                    &&& match old(self).parts().0.lent_out() {
                        Some(before) => final(self).parts().0.lent_out() is Some && gave_back(
                            before@,
                            final(before)@,
                            final(self).parts().0.lent_out()->0@,
                            final(final(self).parts().0.lent_out()->0)@,
                            row.0,
                            match T1::item_mut(&row.1) {
                                Some(comp) => Some(*final(comp)),
                                None => None,
                            },
                        ),
                        None => final(self).parts().0.lent_out() is None,
                    }
                    &&& match old(self).parts().1.lent_out() {
                        Some(before) => final(self).parts().1.lent_out() is Some && gave_back(
                            before@,
                            final(before)@,
                            final(self).parts().1.lent_out()->0@,
                            final(final(self).parts().1.lent_out()->0)@,
                            row.0,
                            match T2::item_mut(&row.2) {
                                Some(comp) => Some(*final(comp)),
                                None => None,
                            },
                        ),
                        None => final(self).parts().1.lent_out() is None,
                    }
                    &&& match old(self).parts().2.lent_out() {
                        Some(before) => final(self).parts().2.lent_out() is Some && gave_back(
                            before@,
                            final(before)@,
                            final(self).parts().2.lent_out()->0@,
                            final(final(self).parts().2.lent_out()->0)@,
                            row.0,
                            match T3::item_mut(&row.3) {
                                Some(comp) => Some(*final(comp)),
                                None => None,
                            },
                        ),
                        None => final(self).parts().2.lent_out() is None,
                    }
                },
                None => {
                    &&& old(self).slots_left().len() == 0
                    &&& final(self).slots_left() == old(self).slots_left()
                    &&& final(self).parts() == old(self).parts()
                },
            },
    {
        match next_one(&mut self.ones) {
            None => None,
            Some(index) => {
                let ghost before = old(self).comps;
                let ghost left = ones_left(old(self).ones);
                assert(left[0] == index);
                let (id1, item1) = self.comps.0.comp_at_index(index);
                proof {
                    before.0.lemma_handle_at(index as int);
                }
                let item2 = self.comps.1.comp_at(id1);
                let item3 = self.comps.2.comp_at(id1);
                proof {
                    assert forall|k: int| 0 <= k < left.skip(1).len() implies ({
                        let slot = #[trigger] left.skip(1)[k];
                        &&& self.comps.0.serves_index(slot)
                        &&& self.comps.1.serves(self.comps.0.handle_at(slot))
                        &&& self.comps.2.serves(self.comps.0.handle_at(slot))
                    }) by {
                        let slot = left[k + 1];
                        assert(left.skip(1)[k] == slot);
                        assert(before.0.serves_index(slot));
                        before.0.lemma_handle_at(slot);
                        assert(before.1.serves(before.0.handle_at(slot)));
                        assert(before.2.serves(before.0.handle_at(slot)));
                    }
                }
                Some((id1, item1, item2, item3))
            },
        }
    }

    /// All the rows that are left, in the order in which `next` would
    /// yield them: one for each slot that is left, lowest first, each with
    /// the handle that the first participant has there and what each
    /// participant has for it. The store of a participant that hands out
    /// its components to change gets back every entry under its handle,
    /// with what is written through the reference of its row, or as it was
    /// where no row has a reference for it.
    pub fn collect(self) -> (rows: Vec<(EntityHandle, T1::Item, T2::Item, T3::Item)>)
        requires
            self.wf(),
        ensures
            rows.len() == self.slots_left().len(),
            forall|k: int|
                0 <= k < rows.len() ==> {
                    let row = #[trigger] rows[k];
                    &&& row.0.index() == self.slots_left()[k]
                    &&& row.0 == self.parts().0.handle_at(self.slots_left()[k])
                    &&& self.parts().0.holds(row.0, row.1)
                    &&& self.parts().1.holds(row.0, row.2)
                    &&& self.parts().2.holds(row.0, row.3)
                },
            match self.parts().0.lent_out() {
                Some(before) => gave_back_all(
                    before@,
                    final(before)@,
                    Seq::new(rows.len() as nat, |k: int| rows@[k].0),
                    Seq::new(
                        rows.len() as nat,
                        |k: int|
                            match T1::item_mut(&rows@[k].1) {
                                Some(comp) => Some(*final(comp)),
                                None => None,
                            },
                    ),
                ),
                None => true,
            },
            match self.parts().1.lent_out() {
                Some(before) => gave_back_all(
                    before@,
                    final(before)@,
                    Seq::new(rows.len() as nat, |k: int| rows@[k].0),
                    Seq::new(
                        rows.len() as nat,
                        |k: int|
                            match T2::item_mut(&rows@[k].2) {
                                Some(comp) => Some(*final(comp)),
                                None => None,
                            },
                    ),
                ),
                None => true,
            },
            match self.parts().2.lent_out() {
                Some(before) => gave_back_all(
                    before@,
                    final(before)@,
                    Seq::new(rows.len() as nat, |k: int| rows@[k].0),
                    Seq::new(
                        rows.len() as nat,
                        |k: int|
                            match T3::item_mut(&rows@[k].3) {
                                Some(comp) => Some(*final(comp)),
                                None => None,
                            },
                    ),
                ),
                None => true,
            },
    {
        let ghost start = self.comps;
        let ghost all = ones_left(self.ones);
        let mut walk = self;
        let mut rows: Vec<(EntityHandle, T1::Item, T2::Item, T3::Item)> = Vec::new();
        loop
            invariant
                walk.wf(),
                ascending(all),
                rows.len() <= all.len(),
                walk.slots_left() == all.skip(rows.len() as int),
                led_past(start.0, walk.parts().0, passed(all, rows.len() as int)),
                moved_past(start.1, walk.parts().1, passed(all, rows.len() as int)),
                moved_past(start.2, walk.parts().2, passed(all, rows.len() as int)),
                match start.0.lent_out() {
                    Some(before) => walk.parts().0.lent_out() is Some && {
                        let now = walk.parts().0.lent_out()->0;
                        &&& now@ == before@.skip(before@.len() - now@.len())
                        &&& final(now)@ == final(before)@.skip(before@.len() - now@.len())
                        &&& gave_back_first(
                            before@,
                            final(before)@,
                            before@.len() - now@.len(),
                            Seq::new(rows.len() as nat, |k: int| rows@[k].0),
                            Seq::new(
                                rows.len() as nat,
                                |k: int|
                                    match T1::item_mut(&rows@[k].1) {
                                        Some(comp) => Some(*final(comp)),
                                        None => None,
                                    },
                            ),
                        )
                    },
                    None => walk.parts().0.lent_out() is None,
                },
                match start.1.lent_out() {
                    Some(before) => walk.parts().1.lent_out() is Some && {
                        let now = walk.parts().1.lent_out()->0;
                        &&& now@ == before@.skip(before@.len() - now@.len())
                        &&& final(now)@ == final(before)@.skip(before@.len() - now@.len())
                        &&& gave_back_first(
                            before@,
                            final(before)@,
                            before@.len() - now@.len(),
                            Seq::new(rows.len() as nat, |k: int| rows@[k].0),
                            Seq::new(
                                rows.len() as nat,
                                |k: int|
                                    match T2::item_mut(&rows@[k].2) {
                                        Some(comp) => Some(*final(comp)),
                                        None => None,
                                    },
                            ),
                        )
                    },
                    None => walk.parts().1.lent_out() is None,
                },
                match start.2.lent_out() {
                    Some(before) => walk.parts().2.lent_out() is Some && {
                        let now = walk.parts().2.lent_out()->0;
                        &&& now@ == before@.skip(before@.len() - now@.len())
                        &&& final(now)@ == final(before)@.skip(before@.len() - now@.len())
                        &&& gave_back_first(
                            before@,
                            final(before)@,
                            before@.len() - now@.len(),
                            Seq::new(rows.len() as nat, |k: int| rows@[k].0),
                            Seq::new(
                                rows.len() as nat,
                                |k: int|
                                    match T3::item_mut(&rows@[k].3) {
                                        Some(comp) => Some(*final(comp)),
                                        None => None,
                                    },
                            ),
                        )
                    },
                    None => walk.parts().2.lent_out() is None,
                },
                forall|k: int|
                    0 <= k < all.len() ==> start.0.serves_index(#[trigger] all[k]),
                forall|k: int|
                    0 <= k < rows.len() ==> {
                        let row = #[trigger] rows[k];
                        &&& row.0.index() == all[k]
                        &&& row.0 == start.0.handle_at(all[k])
                        &&& start.0.holds(row.0, row.1)
                        &&& start.1.holds(row.0, row.2)
                        &&& start.2.holds(row.0, row.3)
                    },
            ensures
                rows.len() == all.len(),
            decreases all.len() - rows.len(),
        {
            let ghost before = walk.comps;
            let ghost done = rows.len() as int;
            match walk.next() {
                None => {
                    break ;
                },
                Some(row) => {
                    proof {
                        assert(all.skip(done)[0] == all[done]);
                        assert(all.skip(done).skip(1) =~= all.skip(done + 1));
                        if done > 0 {
                            assert(all[done - 1] < all[done]);
                        }
                        let p = passed(all, done);
                        let q = all[done];
                        lemma_led_past_twice(start.0, before.0, walk.comps.0, p, q);
                        lemma_moved_past_twice(start.1, before.1, walk.comps.1, p, q);
                        lemma_moved_past_twice(start.2, before.2, walk.comps.2, p, q);
                    }
                    let ghost handles = Seq::new(rows.len() as nat, |k: int| rows@[k].0);
                    let ghost so_far = rows@;
                    let ghost handle = row.0;
                    rows.push(row);
                    proof {
                        assert(Seq::new(rows.len() as nat, |k: int| rows@[k].0) =~= handles.push(handle));
                        if start.0.lent_out() is Some {
                            let first = start.0.lent_out()->0;
                            let now = before.0.lent_out()->0;
                            let after = walk.comps.0.lent_out()->0;
                            assert(Seq::new(
                                rows.len() as nat,
                                |k: int|
                                    match T1::item_mut(&rows@[k].1) {
                                        Some(comp) => Some(*final(comp)),
                                        None => None,
                                    },
                            ) =~= Seq::new(
                                so_far.len(),
                                |k: int|
                                    match T1::item_mut(&so_far[k].1) {
                                        Some(comp) => Some(*final(comp)),
                                        None => None,
                                    },
                            ).push(
                                match T1::item_mut(&rows@[done].1) {
                                    Some(comp) => Some(*final(comp)),
                                    None => None,
                                },
                            ));
                            lemma_gave_back_more(
                                first@,
                                final(first)@,
                                first@.len() - now@.len(),
                                handles,
                                Seq::new(
                                    so_far.len(),
                                    |k: int|
                                        match T1::item_mut(&so_far[k].1) {
                                            Some(comp) => Some(*final(comp)),
                                            None => None,
                                        },
                                ),
                                now@,
                                final(now)@,
                                after@,
                                final(after)@,
                                handle,
                                match T1::item_mut(&rows@[done].1) {
                                    Some(comp) => Some(*final(comp)),
                                    None => None,
                                },
                            );
                        }
                        if start.1.lent_out() is Some {
                            let first = start.1.lent_out()->0;
                            let now = before.1.lent_out()->0;
                            let after = walk.comps.1.lent_out()->0;
                            assert(Seq::new(
                                rows.len() as nat,
                                |k: int|
                                    match T2::item_mut(&rows@[k].2) {
                                        Some(comp) => Some(*final(comp)),
                                        None => None,
                                    },
                            ) =~= Seq::new(
                                so_far.len(),
                                |k: int|
                                    match T2::item_mut(&so_far[k].2) {
                                        Some(comp) => Some(*final(comp)),
                                        None => None,
                                    },
                            ).push(
                                match T2::item_mut(&rows@[done].2) {
                                    Some(comp) => Some(*final(comp)),
                                    None => None,
                                },
                            ));
                            lemma_gave_back_more(
                                first@,
                                final(first)@,
                                first@.len() - now@.len(),
                                handles,
                                Seq::new(
                                    so_far.len(),
                                    |k: int|
                                        match T2::item_mut(&so_far[k].2) {
                                            Some(comp) => Some(*final(comp)),
                                            None => None,
                                        },
                                ),
                                now@,
                                final(now)@,
                                after@,
                                final(after)@,
                                handle,
                                match T2::item_mut(&rows@[done].2) {
                                    Some(comp) => Some(*final(comp)),
                                    None => None,
                                },
                            );
                        }
                        if start.2.lent_out() is Some {
                            let first = start.2.lent_out()->0;
                            let now = before.2.lent_out()->0;
                            let after = walk.comps.2.lent_out()->0;
                            assert(Seq::new(
                                rows.len() as nat,
                                |k: int|
                                    match T3::item_mut(&rows@[k].3) {
                                        Some(comp) => Some(*final(comp)),
                                        None => None,
                                    },
                            ) =~= Seq::new(
                                so_far.len(),
                                |k: int|
                                    match T3::item_mut(&so_far[k].3) {
                                        Some(comp) => Some(*final(comp)),
                                        None => None,
                                    },
                            ).push(
                                match T3::item_mut(&rows@[done].3) {
                                    Some(comp) => Some(*final(comp)),
                                    None => None,
                                },
                            ));
                            lemma_gave_back_more(
                                first@,
                                final(first)@,
                                first@.len() - now@.len(),
                                handles,
                                Seq::new(
                                    so_far.len(),
                                    |k: int|
                                        match T3::item_mut(&so_far[k].3) {
                                            Some(comp) => Some(*final(comp)),
                                            None => None,
                                        },
                                ),
                                now@,
                                final(now)@,
                                after@,
                                final(after)@,
                                handle,
                                match T3::item_mut(&rows@[done].3) {
                                    Some(comp) => Some(*final(comp)),
                                    None => None,
                                },
                            );
                        }
                    }
                },
            }
        }
        proof {
            walk.lemma_done();
            walk.comps.0.lemma_given_back();
            if start.0.lent_out() is Some {
                let first = start.0.lent_out()->0;
                let now = walk.comps.0.lent_out()->0;
                lemma_gave_back_rest(
                    first@,
                    final(first)@,
                    first@.len() - now@.len(),
                    Seq::new(rows.len() as nat, |k: int| rows@[k].0),
                    Seq::new(
                        rows.len() as nat,
                        |k: int|
                            match T1::item_mut(&rows@[k].1) {
                                Some(comp) => Some(*final(comp)),
                                None => None,
                            },
                    ),
                );
            }
            walk.comps.1.lemma_given_back();
            if start.1.lent_out() is Some {
                let first = start.1.lent_out()->0;
                let now = walk.comps.1.lent_out()->0;
                lemma_gave_back_rest(
                    first@,
                    final(first)@,
                    first@.len() - now@.len(),
                    Seq::new(rows.len() as nat, |k: int| rows@[k].0),
                    Seq::new(
                        rows.len() as nat,
                        |k: int|
                            match T2::item_mut(&rows@[k].2) {
                                Some(comp) => Some(*final(comp)),
                                None => None,
                            },
                    ),
                );
            }
            walk.comps.2.lemma_given_back();
            if start.2.lent_out() is Some {
                let first = start.2.lent_out()->0;
                let now = walk.comps.2.lent_out()->0;
                lemma_gave_back_rest(
                    first@,
                    final(first)@,
                    first@.len() - now@.len(),
                    Seq::new(rows.len() as nat, |k: int| rows@[k].0),
                    Seq::new(
                        rows.len() as nat,
                        |k: int|
                            match T3::item_mut(&rows@[k].3) {
                                Some(comp) => Some(*final(comp)),
                                None => None,
                            },
                    ),
                );
            }
        }
        rows
    }
}

impl<T1: NonOptionalCompIterer, T2: CompIterer, T3: CompIterer, T4: CompIterer> From<(T1, T2, T3, T4)> for CompIter<(T1, T2, T3, T4)> {
    /// A join of four participants. The working set starts as the presence
    /// set of the first, and each of the others narrows it in turn.
    fn from(comps: (T1, T2, T3, T4)) -> (join: Self)
        ensures
            join.parts() == comps,
            join.working() == comps.3.combined(comps.2.combined(comps.1.combined(comps.0.owner_bits()))),
    {
        let (comp1, comp2, comp3, comp4) = comps;
        let mut owners = comp1.owners().clone();
        comp2.combine_owners(&mut owners);
        comp3.combine_owners(&mut owners);
        comp4.combine_owners(&mut owners);
        Self { comps: (comp1, comp2, comp3, comp4), owners }
    }
}

impl<T1: NonOptionalCompIterer, T2: CompIterer, T3: CompIterer, T4: CompIterer> FromSpecImpl<(T1, T2, T3, T4)> for CompIter<(T1, T2, T3, T4)> {
    /// The working set is an opaque bit set, so `from` is described by its
    /// own contract and not by a value written out here.
    open spec fn obeys_from_spec() -> bool {
        false
    }

    open spec fn from_spec(comps: (T1, T2, T3, T4)) -> Self {
        arbitrary()
    }
}

impl<T1: NonOptionalCompIterer, T2: CompIterer, T3: CompIterer, T4: CompIterer> CompIter<(T1, T2, T3, T4)> {
    /// Starts the walk: the slots of the working set, lowest first.
    pub fn into_iter(self) -> (rows: IntoCompIter<(T1, T2, T3, T4)>)
        ensures
            rows.walks(self.parts(), self.working()),
    {
        IntoCompIter { comps: self.comps, ones: self.owners.into_ones() }
    }
}

impl<T1: NonOptionalCompIterer, T2: CompIterer, T3: CompIterer, T4: CompIterer> IntoCompIter<(T1, T2, T3, T4)> {
    /// The walk can go on: every participant is in order and can be asked
    /// for each slot that is left, the first for the slot and the others
    /// for the handle that the first has there.
    pub open spec fn wf(&self) -> bool {
        &&& self.parts().0.ready()
        &&& self.parts().1.ready()
        &&& self.parts().2.ready()
        &&& self.parts().3.ready()
        &&& ascending(self.slots_left())
        &&& forall|k: int|
            0 <= k < self.slots_left().len() ==> {
                let slot = #[trigger] self.slots_left()[k];
                &&& self.parts().0.serves_index(slot)
                &&& self.parts().1.serves(self.parts().0.handle_at(slot))
                &&& self.parts().2.serves(self.parts().0.handle_at(slot))
                &&& self.parts().3.serves(self.parts().0.handle_at(slot))
            }
    }

    /// A walk at its start can go on where the first participant can lead
    /// over the working set and each of the others can follow it there.
    pub proof fn lemma_walk_wf(&self, working: Set<int>)
        requires
            self.walks(self.parts(), working),
            serves_all(self.parts().0, working),
            follows(self.parts().0, self.parts().1, working),
            follows(self.parts().0, self.parts().2, working),
            follows(self.parts().0, self.parts().3, working),
        ensures
            self.wf(),
    {
        assert forall|k: int| 0 <= k < self.slots_left().len() implies working.contains(
            #[trigger] self.slots_left()[k],
        ) by {
            assert(self.slots_left().contains(self.slots_left()[k]));
        }
    }

    /// The row of the lowest slot that is left: the handle that the first
    /// participant has there, and what each participant has for it. A
    /// participant that hands out its components to change gives back the
    /// entries that it passed as they were, and the one of this row with
    /// what is written through the reference.
    pub fn next(&mut self) -> (row: Option<(EntityHandle, T1::Item, T2::Item, T3::Item, T4::Item)>)
        requires
            old(self).wf(),
        ensures
            final(self).wf(),
            match row {
                Some(row) => {
                    &&& old(self).slots_left().len() > 0
                    &&& row.0.index() == old(self).slots_left()[0]
                    &&& row.0 == old(self).parts().0.handle_at(old(self).slots_left()[0])
                    &&& old(self).parts().0.holds(row.0, row.1)
                    &&& old(self).parts().1.holds(row.0, row.2)
                    &&& old(self).parts().2.holds(row.0, row.3)
                    &&& old(self).parts().3.holds(row.0, row.4)
                    &&& final(self).slots_left() == old(self).slots_left().skip(1)
                    &&& led_past(old(self).parts().0, final(self).parts().0, row.0.index() as int)
                    &&& moved_past(old(self).parts().1, final(self).parts().1, row.0.index() as int)
                    &&& moved_past(old(self).parts().2, final(self).parts().2, row.0.index() as int)
                    &&& moved_past(old(self).parts().3, final(self).parts().3, row.0.index() as int)
                    &&& match old(self).parts().0.lent_out() {
                        Some(before) => final(self).parts().0.lent_out() is Some && gave_back(
                            before@,
                            final(before)@,
                            final(self).parts().0.lent_out()->0@,
                            final(final(self).parts().0.lent_out()->0)@,
                            row.0,
                            match T1::item_mut(&row.1) {
                                Some(comp) => Some(*final(comp)),
                                None => None,
                            },
                        ),
                        None => final(self).parts().0.lent_out() is None,
                    }
                    &&& match old(self).parts().1.lent_out() {
                        Some(before) => final(self).parts().1.lent_out() is Some && gave_back(
                            before@,
                            final(before)@,
                            final(self).parts().1.lent_out()->0@,
                            final(final(self).parts().1.lent_out()->0)@,
                            row.0,
                            match T2::item_mut(&row.2) {
                                Some(comp) => Some(*final(comp)),
                                None => None,
                            },
                        ),
                        None => final(self).parts().1.lent_out() is None,
                    }
                    &&& match old(self).parts().2.lent_out() {
                        Some(before) => final(self).parts().2.lent_out() is Some && gave_back(
                            before@,
                            final(before)@,
                            final(self).parts().2.lent_out()->0@,
                            final(final(self).parts().2.lent_out()->0)@,
                            row.0,
                            match T3::item_mut(&row.3) {
                                Some(comp) => Some(*final(comp)),
                                None => None,
                            },
                        ),
                        None => final(self).parts().2.lent_out() is None,
                    }
                    &&& match old(self).parts().3.lent_out() {
                        Some(before) => final(self).parts().3.lent_out() is Some && gave_back(
                            before@,
                            final(before)@,
                            final(self).parts().3.lent_out()->0@,
                            final(final(self).parts().3.lent_out()->0)@,
                            row.0,
                            match T4::item_mut(&row.4) {
                                Some(comp) => Some(*final(comp)),
                                None => None,
                            },
                        ),
                        None => final(self).parts().3.lent_out() is None,
                    }
                },
                None => {
                    &&& old(self).slots_left().len() == 0
                    &&& final(self).slots_left() == old(self).slots_left()
                    &&& final(self).parts() == old(self).parts()
                },
            },
    {
        match next_one(&mut self.ones) {
            None => None,
            Some(index) => {
                let ghost before = old(self).comps;
                let ghost left = ones_left(old(self).ones);
                assert(left[0] == index);
                let (id1, item1) = self.comps.0.comp_at_index(index);
                proof {
                    before.0.lemma_handle_at(index as int);
                }
                let item2 = self.comps.1.comp_at(id1);
                let item3 = self.comps.2.comp_at(id1);
                let item4 = self.comps.3.comp_at(id1);
                proof {
                    assert forall|k: int| 0 <= k < left.skip(1).len() implies ({
                        let slot = #[trigger] left.skip(1)[k];
                        &&& self.comps.0.serves_index(slot)
                        &&& self.comps.1.serves(self.comps.0.handle_at(slot))
                        &&& self.comps.2.serves(self.comps.0.handle_at(slot))
                        &&& self.comps.3.serves(self.comps.0.handle_at(slot))
                    }) by {
                        let slot = left[k + 1];
                        assert(left.skip(1)[k] == slot);
                        assert(before.0.serves_index(slot));
                        before.0.lemma_handle_at(slot);
                        assert(before.1.serves(before.0.handle_at(slot)));
                        assert(before.2.serves(before.0.handle_at(slot)));
                        assert(before.3.serves(before.0.handle_at(slot)));
                    }
                }
                Some((id1, item1, item2, item3, item4))
            },
        }
    }

    /// All the rows that are left, in the order in which `next` would
    /// yield them: one for each slot that is left, lowest first, each with
    /// the handle that the first participant has there and what each
    /// participant has for it. The store of a participant that hands out
    /// its components to change gets back every entry under its handle,
    /// with what is written through the reference of its row, or as it was
    /// where no row has a reference for it.
    pub fn collect(self) -> (rows: Vec<(EntityHandle, T1::Item, T2::Item, T3::Item, T4::Item)>)
        requires
            self.wf(),
        ensures
            rows.len() == self.slots_left().len(),
            forall|k: int|
                0 <= k < rows.len() ==> {
                    let row = #[trigger] rows[k];
                    &&& row.0.index() == self.slots_left()[k]
                    &&& row.0 == self.parts().0.handle_at(self.slots_left()[k])
                    &&& self.parts().0.holds(row.0, row.1)
                    &&& self.parts().1.holds(row.0, row.2)
                    &&& self.parts().2.holds(row.0, row.3)
                    &&& self.parts().3.holds(row.0, row.4)
                },
            match self.parts().0.lent_out() {
                Some(before) => gave_back_all(
                    before@,
                    final(before)@,
                    Seq::new(rows.len() as nat, |k: int| rows@[k].0),
                    Seq::new(
                        rows.len() as nat,
                        |k: int|
                            match T1::item_mut(&rows@[k].1) {
                                Some(comp) => Some(*final(comp)),
                                None => None,
                            },
                    ),
                ),
                None => true,
            },
            match self.parts().1.lent_out() {
                Some(before) => gave_back_all(
                    before@,
                    final(before)@,
                    Seq::new(rows.len() as nat, |k: int| rows@[k].0),
                    Seq::new(
                        rows.len() as nat,
                        |k: int|
                            match T2::item_mut(&rows@[k].2) {
                                Some(comp) => Some(*final(comp)),
                                None => None,
                            },
                    ),
                ),
                None => true,
            },
            match self.parts().2.lent_out() {
                Some(before) => gave_back_all(
                    before@,
                    final(before)@,
                    Seq::new(rows.len() as nat, |k: int| rows@[k].0),
                    Seq::new(
                        rows.len() as nat,
                        |k: int|
                            match T3::item_mut(&rows@[k].3) {
                                Some(comp) => Some(*final(comp)),
                                None => None,
                            },
                    ),
                ),
                None => true,
            },
            match self.parts().3.lent_out() {
                Some(before) => gave_back_all(
                    before@,
                    final(before)@,
                    Seq::new(rows.len() as nat, |k: int| rows@[k].0),
                    Seq::new(
                        rows.len() as nat,
                        |k: int|
                            match T4::item_mut(&rows@[k].4) {
                                Some(comp) => Some(*final(comp)),
                                None => None,
                            },
                    ),
                ),
                None => true,
            },
    {
        let ghost start = self.comps;
        let ghost all = ones_left(self.ones);
        let mut walk = self;
        let mut rows: Vec<(EntityHandle, T1::Item, T2::Item, T3::Item, T4::Item)> = Vec::new();
        loop
            invariant
                walk.wf(),
                ascending(all),
                rows.len() <= all.len(),
                walk.slots_left() == all.skip(rows.len() as int),
                led_past(start.0, walk.parts().0, passed(all, rows.len() as int)),
                moved_past(start.1, walk.parts().1, passed(all, rows.len() as int)),
                moved_past(start.2, walk.parts().2, passed(all, rows.len() as int)),
                moved_past(start.3, walk.parts().3, passed(all, rows.len() as int)),
                match start.0.lent_out() {
                    Some(before) => walk.parts().0.lent_out() is Some && {
                        let now = walk.parts().0.lent_out()->0;
                        &&& now@ == before@.skip(before@.len() - now@.len())
                        &&& final(now)@ == final(before)@.skip(before@.len() - now@.len())
                        &&& gave_back_first(
                            before@,
                            final(before)@,
                            before@.len() - now@.len(),
                            Seq::new(rows.len() as nat, |k: int| rows@[k].0),
                            Seq::new(
                                rows.len() as nat,
                                |k: int|
                                    match T1::item_mut(&rows@[k].1) {
                                        Some(comp) => Some(*final(comp)),
                                        None => None,
                                    },
                            ),
                        )
                    },
                    None => walk.parts().0.lent_out() is None,
                },
                match start.1.lent_out() {
                    Some(before) => walk.parts().1.lent_out() is Some && {
                        let now = walk.parts().1.lent_out()->0;
                        &&& now@ == before@.skip(before@.len() - now@.len())
                        &&& final(now)@ == final(before)@.skip(before@.len() - now@.len())
                        &&& gave_back_first(
                            before@,
                            final(before)@,
                            before@.len() - now@.len(),
                            Seq::new(rows.len() as nat, |k: int| rows@[k].0),
                            Seq::new(
                                rows.len() as nat,
                                |k: int|
                                    match T2::item_mut(&rows@[k].2) {
                                        Some(comp) => Some(*final(comp)),
                                        None => None,
                                    },
                            ),
                        )
                    },
                    None => walk.parts().1.lent_out() is None,
                },
                match start.2.lent_out() {
                    Some(before) => walk.parts().2.lent_out() is Some && {
                        let now = walk.parts().2.lent_out()->0;
                        &&& now@ == before@.skip(before@.len() - now@.len())
                        &&& final(now)@ == final(before)@.skip(before@.len() - now@.len())
                        &&& gave_back_first(
                            before@,
                            final(before)@,
                            before@.len() - now@.len(),
                            Seq::new(rows.len() as nat, |k: int| rows@[k].0),
                            Seq::new(
                                rows.len() as nat,
                                |k: int|
                                    match T3::item_mut(&rows@[k].3) {
                                        Some(comp) => Some(*final(comp)),
                                        None => None,
                                    },
                            ),
                        )
                    },
                    None => walk.parts().2.lent_out() is None,
                },
                match start.3.lent_out() {
                    Some(before) => walk.parts().3.lent_out() is Some && {
                        let now = walk.parts().3.lent_out()->0;
                        &&& now@ == before@.skip(before@.len() - now@.len())
                        &&& final(now)@ == final(before)@.skip(before@.len() - now@.len())
                        &&& gave_back_first(
                            before@,
                            final(before)@,
                            before@.len() - now@.len(),
                            Seq::new(rows.len() as nat, |k: int| rows@[k].0),
                            Seq::new(
                                rows.len() as nat,
                                |k: int|
                                    match T4::item_mut(&rows@[k].4) {
                                        Some(comp) => Some(*final(comp)),
                                        None => None,
                                    },
                            ),
                        )
                    },
                    None => walk.parts().3.lent_out() is None,
                },
                forall|k: int|
                    0 <= k < all.len() ==> start.0.serves_index(#[trigger] all[k]),
                forall|k: int|
                    0 <= k < rows.len() ==> {
                        let row = #[trigger] rows[k];
                        &&& row.0.index() == all[k]
                        &&& row.0 == start.0.handle_at(all[k])
                        &&& start.0.holds(row.0, row.1)
                        &&& start.1.holds(row.0, row.2)
                        &&& start.2.holds(row.0, row.3)
                        &&& start.3.holds(row.0, row.4)
                    },
            ensures
                rows.len() == all.len(),
            decreases all.len() - rows.len(),
        {
            let ghost before = walk.comps;
            let ghost done = rows.len() as int;
            match walk.next() {
                None => {
                    break ;
                },
                Some(row) => {
                    proof {
                        assert(all.skip(done)[0] == all[done]);
                        assert(all.skip(done).skip(1) =~= all.skip(done + 1));
                        if done > 0 {
                            assert(all[done - 1] < all[done]);
                        }
                        let p = passed(all, done);
                        let q = all[done];
                        lemma_led_past_twice(start.0, before.0, walk.comps.0, p, q);
                        lemma_moved_past_twice(start.1, before.1, walk.comps.1, p, q);
                        lemma_moved_past_twice(start.2, before.2, walk.comps.2, p, q);
                        lemma_moved_past_twice(start.3, before.3, walk.comps.3, p, q);
                    }
                    let ghost handles = Seq::new(rows.len() as nat, |k: int| rows@[k].0);
                    let ghost so_far = rows@;
                    let ghost handle = row.0;
                    rows.push(row);
                    proof {
                        assert(Seq::new(rows.len() as nat, |k: int| rows@[k].0) =~= handles.push(handle));
                        if start.0.lent_out() is Some {
                            let first = start.0.lent_out()->0;
                            let now = before.0.lent_out()->0;
                            let after = walk.comps.0.lent_out()->0;
                            assert(Seq::new(
                                rows.len() as nat,
                                |k: int|
                                    match T1::item_mut(&rows@[k].1) {
                                        Some(comp) => Some(*final(comp)),
                                        None => None,
                                    },
                            ) =~= Seq::new(
                                so_far.len(),
                                |k: int|
                                    match T1::item_mut(&so_far[k].1) {
                                        Some(comp) => Some(*final(comp)),
                                        None => None,
                                    },
                            ).push(
                                match T1::item_mut(&rows@[done].1) {
                                    Some(comp) => Some(*final(comp)),
                                    None => None,
                                },
                            ));
                            lemma_gave_back_more(
                                first@,
                                final(first)@,
                                first@.len() - now@.len(),
                                handles,
                                Seq::new(
                                    so_far.len(),
                                    |k: int|
                                        match T1::item_mut(&so_far[k].1) {
                                            Some(comp) => Some(*final(comp)),
                                            None => None,
                                        },
                                ),
                                now@,
                                final(now)@,
                                after@,
                                final(after)@,
                                handle,
                                match T1::item_mut(&rows@[done].1) {
                                    Some(comp) => Some(*final(comp)),
                                    None => None,
                                },
                            );
                        }
                        if start.1.lent_out() is Some {
                            let first = start.1.lent_out()->0;
                            let now = before.1.lent_out()->0;
                            let after = walk.comps.1.lent_out()->0;
                            assert(Seq::new(
                                rows.len() as nat,
                                |k: int|
                                    match T2::item_mut(&rows@[k].2) {
                                        Some(comp) => Some(*final(comp)),
                                        None => None,
                                    },
                            ) =~= Seq::new(
                                so_far.len(),
                                |k: int|
                                    match T2::item_mut(&so_far[k].2) {
                                        Some(comp) => Some(*final(comp)),
                                        None => None,
                                    },
                            ).push(
                                match T2::item_mut(&rows@[done].2) {
                                    Some(comp) => Some(*final(comp)),
                                    None => None,
                                },
                            ));
                            lemma_gave_back_more(
                                first@,
                                final(first)@,
                                first@.len() - now@.len(),
                                handles,
                                Seq::new(
                                    so_far.len(),
                                    |k: int|
                                        match T2::item_mut(&so_far[k].2) {
                                            Some(comp) => Some(*final(comp)),
                                            None => None,
                                        },
                                ),
                                now@,
                                final(now)@,
                                after@,
                                final(after)@,
                                handle,
                                match T2::item_mut(&rows@[done].2) {
                                    Some(comp) => Some(*final(comp)),
                                    None => None,
                                },
                            );
                        }
                        if start.2.lent_out() is Some {
                            let first = start.2.lent_out()->0;
                            let now = before.2.lent_out()->0;
                            let after = walk.comps.2.lent_out()->0;
                            assert(Seq::new(
                                rows.len() as nat,
                                |k: int|
                                    match T3::item_mut(&rows@[k].3) {
                                        Some(comp) => Some(*final(comp)),
                                        None => None,
                                    },
                            ) =~= Seq::new(
                                so_far.len(),
                                |k: int|
                                    match T3::item_mut(&so_far[k].3) {
                                        Some(comp) => Some(*final(comp)),
                                        None => None,
                                    },
                            ).push(
                                match T3::item_mut(&rows@[done].3) {
                                    Some(comp) => Some(*final(comp)),
                                    None => None,
                                },
                            ));
                            lemma_gave_back_more(
                                first@,
                                final(first)@,
                                first@.len() - now@.len(),
                                handles,
                                Seq::new(
                                    so_far.len(),
                                    |k: int|
                                        match T3::item_mut(&so_far[k].3) {
                                            Some(comp) => Some(*final(comp)),
                                            None => None,
                                        },
                                ),
                                now@,
                                final(now)@,
                                after@,
                                final(after)@,
                                handle,
                                match T3::item_mut(&rows@[done].3) {
                                    Some(comp) => Some(*final(comp)),
                                    None => None,
                                },
                            );
                        }
                        if start.3.lent_out() is Some {
                            let first = start.3.lent_out()->0;
                            let now = before.3.lent_out()->0;
                            let after = walk.comps.3.lent_out()->0;
                            assert(Seq::new(
                                rows.len() as nat,
                                |k: int|
                                    match T4::item_mut(&rows@[k].4) {
                                        Some(comp) => Some(*final(comp)),
                                        None => None,
                                    },
                            ) =~= Seq::new(
                                so_far.len(),
                                |k: int|
                                    match T4::item_mut(&so_far[k].4) {
                                        Some(comp) => Some(*final(comp)),
                                        None => None,
                                    },
                            ).push(
                                match T4::item_mut(&rows@[done].4) {
                                    Some(comp) => Some(*final(comp)),
                                    None => None,
                                },
                            ));
                            lemma_gave_back_more(
                                first@,
                                final(first)@,
                                first@.len() - now@.len(),
                                handles,
                                Seq::new(
                                    so_far.len(),
                                    |k: int|
                                        match T4::item_mut(&so_far[k].4) {
                                            Some(comp) => Some(*final(comp)),
                                            None => None,
                                        },
                                ),
                                now@,
                                final(now)@,
                                after@,
                                final(after)@,
                                handle,
                                match T4::item_mut(&rows@[done].4) {
                                    Some(comp) => Some(*final(comp)),
                                    None => None,
                                },
                            );
                        }
                    }
                },
            }
        }
        proof {
            walk.lemma_done();
            walk.comps.0.lemma_given_back();
            if start.0.lent_out() is Some {
                let first = start.0.lent_out()->0;
                let now = walk.comps.0.lent_out()->0;
                lemma_gave_back_rest(
                    first@,
                    final(first)@,
                    first@.len() - now@.len(),
                    Seq::new(rows.len() as nat, |k: int| rows@[k].0),
                    Seq::new(
                        rows.len() as nat,
                        |k: int|
                            match T1::item_mut(&rows@[k].1) {
                                Some(comp) => Some(*final(comp)),
                                None => None,
                            },
                    ),
                );
            }
            walk.comps.1.lemma_given_back();
            if start.1.lent_out() is Some {
                let first = start.1.lent_out()->0;
                let now = walk.comps.1.lent_out()->0;
                lemma_gave_back_rest(
                    first@,
                    final(first)@,
                    first@.len() - now@.len(),
                    Seq::new(rows.len() as nat, |k: int| rows@[k].0),
                    Seq::new(
                        rows.len() as nat,
                        |k: int|
                            match T2::item_mut(&rows@[k].2) {
                                Some(comp) => Some(*final(comp)),
                                None => None,
                            },
                    ),
                );
            }
            walk.comps.2.lemma_given_back();
            if start.2.lent_out() is Some {
                let first = start.2.lent_out()->0;
                let now = walk.comps.2.lent_out()->0;
                lemma_gave_back_rest(
                    first@,
                    final(first)@,
                    first@.len() - now@.len(),
                    Seq::new(rows.len() as nat, |k: int| rows@[k].0),
                    Seq::new(
                        rows.len() as nat,
                        |k: int|
                            match T3::item_mut(&rows@[k].3) {
                                Some(comp) => Some(*final(comp)),
                                None => None,
                            },
                    ),
                );
            }
            walk.comps.3.lemma_given_back();
            if start.3.lent_out() is Some {
                let first = start.3.lent_out()->0;
                let now = walk.comps.3.lent_out()->0;
                lemma_gave_back_rest(
                    first@,
                    final(first)@,
                    first@.len() - now@.len(),
                    Seq::new(rows.len() as nat, |k: int| rows@[k].0),
                    Seq::new(
                        rows.len() as nat,
                        |k: int|
                            match T4::item_mut(&rows@[k].4) {
                                Some(comp) => Some(*final(comp)),
                                None => None,
                            },
                    ),
                );
            }
        }
        rows
    }
}

impl<T1: NonOptionalCompIterer, T2: CompIterer, T3: CompIterer, T4: CompIterer, T5: CompIterer> From<(T1, T2, T3, T4, T5)> for CompIter<(T1, T2, T3, T4, T5)> {
    /// A join of five participants. The working set starts as the presence
    /// set of the first, and each of the others narrows it in turn.
    fn from(comps: (T1, T2, T3, T4, T5)) -> (join: Self)
        ensures
            join.parts() == comps,
            join.working() == comps.4.combined(comps.3.combined(comps.2.combined(comps.1.combined(comps.0.owner_bits())))),
    {
        let (comp1, comp2, comp3, comp4, comp5) = comps;
        let mut owners = comp1.owners().clone();
        comp2.combine_owners(&mut owners);
        comp3.combine_owners(&mut owners);
        comp4.combine_owners(&mut owners);
        comp5.combine_owners(&mut owners);
        Self { comps: (comp1, comp2, comp3, comp4, comp5), owners }
    }
}

impl<T1: NonOptionalCompIterer, T2: CompIterer, T3: CompIterer, T4: CompIterer, T5: CompIterer> FromSpecImpl<(T1, T2, T3, T4, T5)> for CompIter<(T1, T2, T3, T4, T5)> {
    /// The working set is an opaque bit set, so `from` is described by its
    /// own contract and not by a value written out here.
    open spec fn obeys_from_spec() -> bool {
        false
    }

    open spec fn from_spec(comps: (T1, T2, T3, T4, T5)) -> Self {
        arbitrary()
    }
}

impl<T1: NonOptionalCompIterer, T2: CompIterer, T3: CompIterer, T4: CompIterer, T5: CompIterer> CompIter<(T1, T2, T3, T4, T5)> {
    /// Starts the walk: the slots of the working set, lowest first.
    pub fn into_iter(self) -> (rows: IntoCompIter<(T1, T2, T3, T4, T5)>)
        ensures
            rows.walks(self.parts(), self.working()),
    {
        IntoCompIter { comps: self.comps, ones: self.owners.into_ones() }
    }
}

impl<T1: NonOptionalCompIterer, T2: CompIterer, T3: CompIterer, T4: CompIterer, T5: CompIterer> IntoCompIter<(T1, T2, T3, T4, T5)> {
    /// The walk can go on: every participant is in order and can be asked
    /// for each slot that is left, the first for the slot and the others
    /// for the handle that the first has there.
    pub open spec fn wf(&self) -> bool {
        &&& self.parts().0.ready()
        &&& self.parts().1.ready()
        &&& self.parts().2.ready()
        &&& self.parts().3.ready()
        &&& self.parts().4.ready()
        &&& ascending(self.slots_left())
        &&& forall|k: int|
            0 <= k < self.slots_left().len() ==> {
                let slot = #[trigger] self.slots_left()[k];
                &&& self.parts().0.serves_index(slot)
                &&& self.parts().1.serves(self.parts().0.handle_at(slot))
                &&& self.parts().2.serves(self.parts().0.handle_at(slot))
                &&& self.parts().3.serves(self.parts().0.handle_at(slot))
                &&& self.parts().4.serves(self.parts().0.handle_at(slot))
            }
    }

    /// A walk at its start can go on where the first participant can lead
    /// over the working set and each of the others can follow it there.
    pub proof fn lemma_walk_wf(&self, working: Set<int>)
        requires
            self.walks(self.parts(), working),
            serves_all(self.parts().0, working),
            follows(self.parts().0, self.parts().1, working),
            follows(self.parts().0, self.parts().2, working),
            follows(self.parts().0, self.parts().3, working),
            follows(self.parts().0, self.parts().4, working),
        ensures
            self.wf(),
    {
        assert forall|k: int| 0 <= k < self.slots_left().len() implies working.contains(
            #[trigger] self.slots_left()[k],
        ) by {
            assert(self.slots_left().contains(self.slots_left()[k]));
        }
    }

    /// The row of the lowest slot that is left: the handle that the first
    /// participant has there, and what each participant has for it. A
    /// participant that hands out its components to change gives back the
    /// entries that it passed as they were, and the one of this row with
    /// what is written through the reference.
    pub fn next(&mut self) -> (row: Option<(EntityHandle, T1::Item, T2::Item, T3::Item, T4::Item, T5::Item)>)
        requires
            old(self).wf(),
        ensures
            final(self).wf(),
            match row {
                Some(row) => {
                    &&& old(self).slots_left().len() > 0
                    &&& row.0.index() == old(self).slots_left()[0]
                    &&& row.0 == old(self).parts().0.handle_at(old(self).slots_left()[0])
                    &&& old(self).parts().0.holds(row.0, row.1)
                    &&& old(self).parts().1.holds(row.0, row.2)
                    &&& old(self).parts().2.holds(row.0, row.3)
                    &&& old(self).parts().3.holds(row.0, row.4)
                    &&& old(self).parts().4.holds(row.0, row.5)
                    &&& final(self).slots_left() == old(self).slots_left().skip(1)
                    &&& led_past(old(self).parts().0, final(self).parts().0, row.0.index() as int)
                    &&& moved_past(old(self).parts().1, final(self).parts().1, row.0.index() as int)
                    &&& moved_past(old(self).parts().2, final(self).parts().2, row.0.index() as int)
                    &&& moved_past(old(self).parts().3, final(self).parts().3, row.0.index() as int)
                    &&& moved_past(old(self).parts().4, final(self).parts().4, row.0.index() as int)
                    &&& match old(self).parts().0.lent_out() {
                        Some(before) => final(self).parts().0.lent_out() is Some && gave_back(
                            before@,
                            final(before)@,
                            final(self).parts().0.lent_out()->0@,
                            final(final(self).parts().0.lent_out()->0)@,
                            row.0,
                            match T1::item_mut(&row.1) {
                                Some(comp) => Some(*final(comp)),
                                None => None,
                            },
                        ),
                        None => final(self).parts().0.lent_out() is None,
                    }
                    &&& match old(self).parts().1.lent_out() {
                        Some(before) => final(self).parts().1.lent_out() is Some && gave_back(
                            before@,
                            final(before)@,
                            final(self).parts().1.lent_out()->0@,
                            final(final(self).parts().1.lent_out()->0)@,
                            row.0,
                            match T2::item_mut(&row.2) {
                                Some(comp) => Some(*final(comp)),
                                None => None,
                            },
                        ),
                        None => final(self).parts().1.lent_out() is None,
                    }
                    &&& match old(self).parts().2.lent_out() {
                        Some(before) => final(self).parts().2.lent_out() is Some && gave_back(
                            before@,
                            final(before)@,
                            final(self).parts().2.lent_out()->0@,
                            final(final(self).parts().2.lent_out()->0)@,
                            row.0,
                            match T3::item_mut(&row.3) {
                                Some(comp) => Some(*final(comp)),
                                None => None,
                            },
                        ),
                        None => final(self).parts().2.lent_out() is None,
                    }
                    &&& match old(self).parts().3.lent_out() {
                        Some(before) => final(self).parts().3.lent_out() is Some && gave_back(
                            before@,
                            final(before)@,
                            final(self).parts().3.lent_out()->0@,
                            final(final(self).parts().3.lent_out()->0)@,
                            row.0,
                            match T4::item_mut(&row.4) {
                                Some(comp) => Some(*final(comp)),
                                None => None,
                            },
                        ),
                        None => final(self).parts().3.lent_out() is None,
                    }
                    &&& match old(self).parts().4.lent_out() {
                        Some(before) => final(self).parts().4.lent_out() is Some && gave_back(
                            before@,
                            final(before)@,
                            final(self).parts().4.lent_out()->0@,
                            final(final(self).parts().4.lent_out()->0)@,
                            row.0,
                            match T5::item_mut(&row.5) {
                                Some(comp) => Some(*final(comp)),
                                None => None,
                            },
                        ),
                        None => final(self).parts().4.lent_out() is None,
                    }
                },
                None => {
                    &&& old(self).slots_left().len() == 0
                    &&& final(self).slots_left() == old(self).slots_left()
                    &&& final(self).parts() == old(self).parts()
                },
            },
    {
        match next_one(&mut self.ones) {
            None => None,
            Some(index) => {
                let ghost before = old(self).comps;
                let ghost left = ones_left(old(self).ones);
                assert(left[0] == index);
                let (id1, item1) = self.comps.0.comp_at_index(index);
                proof {
                    before.0.lemma_handle_at(index as int);
                }
                let item2 = self.comps.1.comp_at(id1);
                let item3 = self.comps.2.comp_at(id1);
                let item4 = self.comps.3.comp_at(id1);
                let item5 = self.comps.4.comp_at(id1);
                proof {
                    assert forall|k: int| 0 <= k < left.skip(1).len() implies ({
                        let slot = #[trigger] left.skip(1)[k];
                        &&& self.comps.0.serves_index(slot)
                        &&& self.comps.1.serves(self.comps.0.handle_at(slot))
                        &&& self.comps.2.serves(self.comps.0.handle_at(slot))
                        &&& self.comps.3.serves(self.comps.0.handle_at(slot))
                        &&& self.comps.4.serves(self.comps.0.handle_at(slot))
                    }) by {
                        let slot = left[k + 1];
                        assert(left.skip(1)[k] == slot);
                        assert(before.0.serves_index(slot));
                        before.0.lemma_handle_at(slot);
                        assert(before.1.serves(before.0.handle_at(slot)));
                        assert(before.2.serves(before.0.handle_at(slot)));
                        assert(before.3.serves(before.0.handle_at(slot)));
                        assert(before.4.serves(before.0.handle_at(slot)));
                    }
                }
                Some((id1, item1, item2, item3, item4, item5))
            },
        }
    }

    /// All the rows that are left, in the order in which `next` would
    /// yield them: one for each slot that is left, lowest first, each with
    /// the handle that the first participant has there and what each
    /// participant has for it. The store of a participant that hands out
    /// its components to change gets back every entry under its handle,
    /// with what is written through the reference of its row, or as it was
    /// where no row has a reference for it.
    pub fn collect(self) -> (rows: Vec<(EntityHandle, T1::Item, T2::Item, T3::Item, T4::Item, T5::Item)>)
        requires
            self.wf(),
        ensures
            rows.len() == self.slots_left().len(),
            forall|k: int|
                0 <= k < rows.len() ==> {
                    let row = #[trigger] rows[k];
                    &&& row.0.index() == self.slots_left()[k]
                    &&& row.0 == self.parts().0.handle_at(self.slots_left()[k])
                    &&& self.parts().0.holds(row.0, row.1)
                    &&& self.parts().1.holds(row.0, row.2)
                    &&& self.parts().2.holds(row.0, row.3)
                    &&& self.parts().3.holds(row.0, row.4)
                    &&& self.parts().4.holds(row.0, row.5)
                },
            match self.parts().0.lent_out() {
                Some(before) => gave_back_all(
                    before@,
                    final(before)@,
                    Seq::new(rows.len() as nat, |k: int| rows@[k].0),
                    Seq::new(
                        rows.len() as nat,
                        |k: int|
                            match T1::item_mut(&rows@[k].1) {
                                Some(comp) => Some(*final(comp)),
                                None => None,
                            },
                    ),
                ),
                None => true,
            },
            match self.parts().1.lent_out() {
                Some(before) => gave_back_all(
                    before@,
                    final(before)@,
                    Seq::new(rows.len() as nat, |k: int| rows@[k].0),
                    Seq::new(
                        rows.len() as nat,
                        |k: int|
                            match T2::item_mut(&rows@[k].2) {
                                Some(comp) => Some(*final(comp)),
                                None => None,
                            },
                    ),
                ),
                None => true,
            },
            match self.parts().2.lent_out() {
                Some(before) => gave_back_all(
                    before@,
                    final(before)@,
                    Seq::new(rows.len() as nat, |k: int| rows@[k].0),
                    Seq::new(
                        rows.len() as nat,
                        |k: int|
                            match T3::item_mut(&rows@[k].3) {
                                Some(comp) => Some(*final(comp)),
                                None => None,
                            },
                    ),
                ),
                None => true,
            },
            match self.parts().3.lent_out() {
                Some(before) => gave_back_all(
                    before@,
                    final(before)@,
                    Seq::new(rows.len() as nat, |k: int| rows@[k].0),
                    Seq::new(
                        rows.len() as nat,
                        |k: int|
                            match T4::item_mut(&rows@[k].4) {
                                Some(comp) => Some(*final(comp)),
                                None => None,
                            },
                    ),
                ),
                None => true,
            },
            match self.parts().4.lent_out() {
                Some(before) => gave_back_all(
                    before@,
                    final(before)@,
                    Seq::new(rows.len() as nat, |k: int| rows@[k].0),
                    Seq::new(
                        rows.len() as nat,
                        |k: int|
                            match T5::item_mut(&rows@[k].5) {
                                Some(comp) => Some(*final(comp)),
                                None => None,
                            },
                    ),
                ),
                None => true,
            },
    {
        let ghost start = self.comps;
        let ghost all = ones_left(self.ones);
        let mut walk = self;
        let mut rows: Vec<(EntityHandle, T1::Item, T2::Item, T3::Item, T4::Item, T5::Item)> = Vec::new();
        loop
            invariant
                walk.wf(),
                ascending(all),
                rows.len() <= all.len(),
                walk.slots_left() == all.skip(rows.len() as int),
                led_past(start.0, walk.parts().0, passed(all, rows.len() as int)),
                moved_past(start.1, walk.parts().1, passed(all, rows.len() as int)),
                moved_past(start.2, walk.parts().2, passed(all, rows.len() as int)),
                moved_past(start.3, walk.parts().3, passed(all, rows.len() as int)),
                moved_past(start.4, walk.parts().4, passed(all, rows.len() as int)),
                match start.0.lent_out() {
                    Some(before) => walk.parts().0.lent_out() is Some && {
                        let now = walk.parts().0.lent_out()->0;
                        &&& now@ == before@.skip(before@.len() - now@.len())
                        &&& final(now)@ == final(before)@.skip(before@.len() - now@.len())
                        &&& gave_back_first(
                            before@,
                            final(before)@,
                            before@.len() - now@.len(),
                            Seq::new(rows.len() as nat, |k: int| rows@[k].0),
                            Seq::new(
                                rows.len() as nat,
                                |k: int|
                                    match T1::item_mut(&rows@[k].1) {
                                        Some(comp) => Some(*final(comp)),
                                        None => None,
                                    },
                            ),
                        )
                    },
                    None => walk.parts().0.lent_out() is None,
                },
                match start.1.lent_out() {
                    Some(before) => walk.parts().1.lent_out() is Some && {
                        let now = walk.parts().1.lent_out()->0;
                        &&& now@ == before@.skip(before@.len() - now@.len())
                        &&& final(now)@ == final(before)@.skip(before@.len() - now@.len())
                        &&& gave_back_first(
                            before@,
                            final(before)@,
                            before@.len() - now@.len(),
                            Seq::new(rows.len() as nat, |k: int| rows@[k].0),
                            Seq::new(
                                rows.len() as nat,
                                |k: int|
                                    match T2::item_mut(&rows@[k].2) {
                                        Some(comp) => Some(*final(comp)),
                                        None => None,
                                    },
                            ),
                        )
                    },
                    None => walk.parts().1.lent_out() is None,
                },
                match start.2.lent_out() {
                    Some(before) => walk.parts().2.lent_out() is Some && {
                        let now = walk.parts().2.lent_out()->0;
                        &&& now@ == before@.skip(before@.len() - now@.len())
                        &&& final(now)@ == final(before)@.skip(before@.len() - now@.len())
                        &&& gave_back_first(
                            before@,
                            final(before)@,
                            before@.len() - now@.len(),
                            Seq::new(rows.len() as nat, |k: int| rows@[k].0),
                            Seq::new(
                                rows.len() as nat,
                                |k: int|
                                    match T3::item_mut(&rows@[k].3) {
                                        Some(comp) => Some(*final(comp)),
                                        None => None,
                                    },
                            ),
                        )
                    },
                    None => walk.parts().2.lent_out() is None,
                },
                match start.3.lent_out() {
                    Some(before) => walk.parts().3.lent_out() is Some && {
                        let now = walk.parts().3.lent_out()->0;
                        &&& now@ == before@.skip(before@.len() - now@.len())
                        &&& final(now)@ == final(before)@.skip(before@.len() - now@.len())
                        &&& gave_back_first(
                            before@,
                            final(before)@,
                            before@.len() - now@.len(),
                            Seq::new(rows.len() as nat, |k: int| rows@[k].0),
                            Seq::new(
                                rows.len() as nat,
                                |k: int|
                                    match T4::item_mut(&rows@[k].4) {
                                        Some(comp) => Some(*final(comp)),
                                        None => None,
                                    },
                            ),
                        )
                    },
                    None => walk.parts().3.lent_out() is None,
                },
                match start.4.lent_out() {
                    Some(before) => walk.parts().4.lent_out() is Some && {
                        let now = walk.parts().4.lent_out()->0;
                        &&& now@ == before@.skip(before@.len() - now@.len())
                        &&& final(now)@ == final(before)@.skip(before@.len() - now@.len())
                        &&& gave_back_first(
                            before@,
                            final(before)@,
                            before@.len() - now@.len(),
                            Seq::new(rows.len() as nat, |k: int| rows@[k].0),
                            Seq::new(
                                rows.len() as nat,
                                |k: int|
                                    match T5::item_mut(&rows@[k].5) {
                                        Some(comp) => Some(*final(comp)),
                                        None => None,
                                    },
                            ),
                        )
                    },
                    None => walk.parts().4.lent_out() is None,
                },
                forall|k: int|
                    0 <= k < all.len() ==> start.0.serves_index(#[trigger] all[k]),
                forall|k: int|
                    0 <= k < rows.len() ==> {
                        let row = #[trigger] rows[k];
                        &&& row.0.index() == all[k]
                        &&& row.0 == start.0.handle_at(all[k])
                        &&& start.0.holds(row.0, row.1)
                        &&& start.1.holds(row.0, row.2)
                        &&& start.2.holds(row.0, row.3)
                        &&& start.3.holds(row.0, row.4)
                        &&& start.4.holds(row.0, row.5)
                    },
            ensures
                rows.len() == all.len(),
            decreases all.len() - rows.len(),
        {
            let ghost before = walk.comps;
            let ghost done = rows.len() as int;
            match walk.next() {
                None => {
                    break ;
                },
                Some(row) => {
                    proof {
                        assert(all.skip(done)[0] == all[done]);
                        assert(all.skip(done).skip(1) =~= all.skip(done + 1));
                        if done > 0 {
                            assert(all[done - 1] < all[done]);
                        }
                        let p = passed(all, done);
                        let q = all[done];
                        lemma_led_past_twice(start.0, before.0, walk.comps.0, p, q);
                        lemma_moved_past_twice(start.1, before.1, walk.comps.1, p, q);
                        lemma_moved_past_twice(start.2, before.2, walk.comps.2, p, q);
                        lemma_moved_past_twice(start.3, before.3, walk.comps.3, p, q);
                        lemma_moved_past_twice(start.4, before.4, walk.comps.4, p, q);
                    }
                    let ghost handles = Seq::new(rows.len() as nat, |k: int| rows@[k].0);
                    let ghost so_far = rows@;
                    let ghost handle = row.0;
                    rows.push(row);
                    proof {
                        assert(Seq::new(rows.len() as nat, |k: int| rows@[k].0) =~= handles.push(handle));
                        if start.0.lent_out() is Some {
                            let first = start.0.lent_out()->0;
                            let now = before.0.lent_out()->0;
                            let after = walk.comps.0.lent_out()->0;
                            assert(Seq::new(
                                rows.len() as nat,
                                |k: int|
                                    match T1::item_mut(&rows@[k].1) {
                                        Some(comp) => Some(*final(comp)),
                                        None => None,
                                    },
                            ) =~= Seq::new(
                                so_far.len(),
                                |k: int|
                                    match T1::item_mut(&so_far[k].1) {
                                        Some(comp) => Some(*final(comp)),
                                        None => None,
                                    },
                            ).push(
                                match T1::item_mut(&rows@[done].1) {
                                    Some(comp) => Some(*final(comp)),
                                    None => None,
                                },
                            ));
                            lemma_gave_back_more(
                                first@,
                                final(first)@,
                                first@.len() - now@.len(),
                                handles,
                                Seq::new(
                                    so_far.len(),
                                    |k: int|
                                        match T1::item_mut(&so_far[k].1) {
                                            Some(comp) => Some(*final(comp)),
                                            None => None,
                                        },
                                ),
                                now@,
                                final(now)@,
                                after@,
                                final(after)@,
                                handle,
                                match T1::item_mut(&rows@[done].1) {
                                    Some(comp) => Some(*final(comp)),
                                    None => None,
                                },
                            );
                        }
                        if start.1.lent_out() is Some {
                            let first = start.1.lent_out()->0;
                            let now = before.1.lent_out()->0;
                            let after = walk.comps.1.lent_out()->0;
                            assert(Seq::new(
                                rows.len() as nat,
                                |k: int|
                                    match T2::item_mut(&rows@[k].2) {
                                        Some(comp) => Some(*final(comp)),
                                        None => None,
                                    },
                            ) =~= Seq::new(
                                so_far.len(),
                                |k: int|
                                    match T2::item_mut(&so_far[k].2) {
                                        Some(comp) => Some(*final(comp)),
                                        None => None,
                                    },
                            ).push(
                                match T2::item_mut(&rows@[done].2) {
                                    Some(comp) => Some(*final(comp)),
                                    None => None,
                                },
                            ));
                            lemma_gave_back_more(
                                first@,
                                final(first)@,
                                first@.len() - now@.len(),
                                handles,
                                Seq::new(
                                    so_far.len(),
                                    |k: int|
                                        match T2::item_mut(&so_far[k].2) {
                                            Some(comp) => Some(*final(comp)),
                                            None => None,
                                        },
                                ),
                                now@,
                                final(now)@,
                                after@,
                                final(after)@,
                                handle,
                                match T2::item_mut(&rows@[done].2) {
                                    Some(comp) => Some(*final(comp)),
                                    None => None,
                                },
                            );
                        }
                        if start.2.lent_out() is Some {
                            let first = start.2.lent_out()->0;
                            let now = before.2.lent_out()->0;
                            let after = walk.comps.2.lent_out()->0;
                            assert(Seq::new(
                                rows.len() as nat,
                                |k: int|
                                    match T3::item_mut(&rows@[k].3) {
                                        Some(comp) => Some(*final(comp)),
                                        None => None,
                                    },
                            ) =~= Seq::new(
                                so_far.len(),
                                |k: int|
                                    match T3::item_mut(&so_far[k].3) {
                                        Some(comp) => Some(*final(comp)),
                                        None => None,
                                    },
                            ).push(
                                match T3::item_mut(&rows@[done].3) {
                                    Some(comp) => Some(*final(comp)),
                                    None => None,
                                },
                            ));
                            lemma_gave_back_more(
                                first@,
                                final(first)@,
                                first@.len() - now@.len(),
                                handles,
                                Seq::new(
                                    so_far.len(),
                                    |k: int|
                                        match T3::item_mut(&so_far[k].3) {
                                            Some(comp) => Some(*final(comp)),
                                            None => None,
                                        },
                                ),
                                now@,
                                final(now)@,
                                after@,
                                final(after)@,
                                handle,
                                match T3::item_mut(&rows@[done].3) {
                                    Some(comp) => Some(*final(comp)),
                                    None => None,
                                },
                            );
                        }
                        if start.3.lent_out() is Some {
                            let first = start.3.lent_out()->0;
                            let now = before.3.lent_out()->0;
                            let after = walk.comps.3.lent_out()->0;
                            assert(Seq::new(
                                rows.len() as nat,
                                |k: int|
                                    match T4::item_mut(&rows@[k].4) {
                                        Some(comp) => Some(*final(comp)),
                                        None => None,
                                    },
                            ) =~= Seq::new(
                                so_far.len(),
                                |k: int|
                                    match T4::item_mut(&so_far[k].4) {
                                        Some(comp) => Some(*final(comp)),
                                        None => None,
                                    },
                            ).push(
                                match T4::item_mut(&rows@[done].4) {
                                    Some(comp) => Some(*final(comp)),
                                    None => None,
                                },
                            ));
                            lemma_gave_back_more(
                                first@,
                                final(first)@,
                                first@.len() - now@.len(),
                                handles,
                                Seq::new(
                                    so_far.len(),
                                    |k: int|
                                        match T4::item_mut(&so_far[k].4) {
                                            Some(comp) => Some(*final(comp)),
                                            None => None,
                                        },
                                ),
                                now@,
                                final(now)@,
                                after@,
                                final(after)@,
                                handle,
                                match T4::item_mut(&rows@[done].4) {
                                    Some(comp) => Some(*final(comp)),
                                    None => None,
                                },
                            );
                        }
                        if start.4.lent_out() is Some {
                            let first = start.4.lent_out()->0;
                            let now = before.4.lent_out()->0;
                            let after = walk.comps.4.lent_out()->0;
                            assert(Seq::new(
                                rows.len() as nat,
                                |k: int|
                                    match T5::item_mut(&rows@[k].5) {
                                        Some(comp) => Some(*final(comp)),
                                        None => None,
                                    },
                            ) =~= Seq::new(
                                so_far.len(),
                                |k: int|
                                    match T5::item_mut(&so_far[k].5) {
                                        Some(comp) => Some(*final(comp)),
                                        None => None,
                                    },
                            ).push(
                                match T5::item_mut(&rows@[done].5) {
                                    Some(comp) => Some(*final(comp)),
                                    None => None,
                                },
                            ));
                            lemma_gave_back_more(
                                first@,
                                final(first)@,
                                first@.len() - now@.len(),
                                handles,
                                Seq::new(
                                    so_far.len(),
                                    |k: int|
                                        match T5::item_mut(&so_far[k].5) {
                                            Some(comp) => Some(*final(comp)),
                                            None => None,
                                        },
                                ),
                                now@,
                                final(now)@,
                                after@,
                                final(after)@,
                                handle,
                                match T5::item_mut(&rows@[done].5) {
                                    Some(comp) => Some(*final(comp)),
                                    None => None,
                                },
                            );
                        }
                    }
                },
            }
        }
        proof {
            walk.lemma_done();
            walk.comps.0.lemma_given_back();
            if start.0.lent_out() is Some {
                let first = start.0.lent_out()->0;
                let now = walk.comps.0.lent_out()->0;
                lemma_gave_back_rest(
                    first@,
                    final(first)@,
                    first@.len() - now@.len(),
                    Seq::new(rows.len() as nat, |k: int| rows@[k].0),
                    Seq::new(
                        rows.len() as nat,
                        |k: int|
                            match T1::item_mut(&rows@[k].1) {
                                Some(comp) => Some(*final(comp)),
                                None => None,
                            },
                    ),
                );
            }
            walk.comps.1.lemma_given_back();
            if start.1.lent_out() is Some {
                let first = start.1.lent_out()->0;
                let now = walk.comps.1.lent_out()->0;
                lemma_gave_back_rest(
                    first@,
                    final(first)@,
                    first@.len() - now@.len(),
                    Seq::new(rows.len() as nat, |k: int| rows@[k].0),
                    Seq::new(
                        rows.len() as nat,
                        |k: int|
                            match T2::item_mut(&rows@[k].2) {
                                Some(comp) => Some(*final(comp)),
                                None => None,
                            },
                    ),
                );
            }
            walk.comps.2.lemma_given_back();
            if start.2.lent_out() is Some {
                let first = start.2.lent_out()->0;
                let now = walk.comps.2.lent_out()->0;
                lemma_gave_back_rest(
                    first@,
                    final(first)@,
                    first@.len() - now@.len(),
                    Seq::new(rows.len() as nat, |k: int| rows@[k].0),
                    Seq::new(
                        rows.len() as nat,
                        |k: int|
                            match T3::item_mut(&rows@[k].3) {
                                Some(comp) => Some(*final(comp)),
                                None => None,
                            },
                    ),
                );
            }
            walk.comps.3.lemma_given_back();
            if start.3.lent_out() is Some {
                let first = start.3.lent_out()->0;
                let now = walk.comps.3.lent_out()->0;
                lemma_gave_back_rest(
                    first@,
                    final(first)@,
                    first@.len() - now@.len(),
                    Seq::new(rows.len() as nat, |k: int| rows@[k].0),
                    Seq::new(
                        rows.len() as nat,
                        |k: int|
                            match T4::item_mut(&rows@[k].4) {
                                Some(comp) => Some(*final(comp)),
                                None => None,
                            },
                    ),
                );
            }
            walk.comps.4.lemma_given_back();
            if start.4.lent_out() is Some {
                let first = start.4.lent_out()->0;
                let now = walk.comps.4.lent_out()->0;
                lemma_gave_back_rest(
                    first@,
                    final(first)@,
                    first@.len() - now@.len(),
                    Seq::new(rows.len() as nat, |k: int| rows@[k].0),
                    Seq::new(
                        rows.len() as nat,
                        |k: int|
                            match T5::item_mut(&rows@[k].5) {
                                Some(comp) => Some(*final(comp)),
                                None => None,
                            },
                    ),
                );
            }
        }
        rows
    }
}

impl<T1: NonOptionalCompIterer, T2: CompIterer, T3: CompIterer, T4: CompIterer, T5: CompIterer, T6: CompIterer> From<(T1, T2, T3, T4, T5, T6)> for CompIter<(T1, T2, T3, T4, T5, T6)> {
    /// A join of six participants. The working set starts as the presence
    /// set of the first, and each of the others narrows it in turn.
    fn from(comps: (T1, T2, T3, T4, T5, T6)) -> (join: Self)
        ensures
            join.parts() == comps,
            join.working() == comps.5.combined(comps.4.combined(comps.3.combined(comps.2.combined(comps.1.combined(comps.0.owner_bits()))))),
    {
        let (comp1, comp2, comp3, comp4, comp5, comp6) = comps;
        let mut owners = comp1.owners().clone();
        comp2.combine_owners(&mut owners);
        comp3.combine_owners(&mut owners);
        comp4.combine_owners(&mut owners);
        comp5.combine_owners(&mut owners);
        comp6.combine_owners(&mut owners);
        Self { comps: (comp1, comp2, comp3, comp4, comp5, comp6), owners }
    }
}

impl<T1: NonOptionalCompIterer, T2: CompIterer, T3: CompIterer, T4: CompIterer, T5: CompIterer, T6: CompIterer> FromSpecImpl<(T1, T2, T3, T4, T5, T6)> for CompIter<(T1, T2, T3, T4, T5, T6)> {
    /// The working set is an opaque bit set, so `from` is described by its
    /// own contract and not by a value written out here.
    open spec fn obeys_from_spec() -> bool {
        false
    }

    open spec fn from_spec(comps: (T1, T2, T3, T4, T5, T6)) -> Self {
        arbitrary()
    }
}

impl<T1: NonOptionalCompIterer, T2: CompIterer, T3: CompIterer, T4: CompIterer, T5: CompIterer, T6: CompIterer> CompIter<(T1, T2, T3, T4, T5, T6)> {
    /// Starts the walk: the slots of the working set, lowest first.
    pub fn into_iter(self) -> (rows: IntoCompIter<(T1, T2, T3, T4, T5, T6)>)
        ensures
            rows.walks(self.parts(), self.working()),
    {
        IntoCompIter { comps: self.comps, ones: self.owners.into_ones() }
    }
}

impl<T1: NonOptionalCompIterer, T2: CompIterer, T3: CompIterer, T4: CompIterer, T5: CompIterer, T6: CompIterer> IntoCompIter<(T1, T2, T3, T4, T5, T6)> {
    /// The walk can go on: every participant is in order and can be asked
    /// for each slot that is left, the first for the slot and the others
    /// for the handle that the first has there.
    pub open spec fn wf(&self) -> bool {
        &&& self.parts().0.ready()
        &&& self.parts().1.ready()
        &&& self.parts().2.ready()
        &&& self.parts().3.ready()
        &&& self.parts().4.ready()
        &&& self.parts().5.ready()
        &&& ascending(self.slots_left())
        &&& forall|k: int|
            0 <= k < self.slots_left().len() ==> {
                let slot = #[trigger] self.slots_left()[k];
                &&& self.parts().0.serves_index(slot)
                &&& self.parts().1.serves(self.parts().0.handle_at(slot))
                &&& self.parts().2.serves(self.parts().0.handle_at(slot))
                &&& self.parts().3.serves(self.parts().0.handle_at(slot))
                &&& self.parts().4.serves(self.parts().0.handle_at(slot))
                &&& self.parts().5.serves(self.parts().0.handle_at(slot))
            }
    }

    /// A walk at its start can go on where the first participant can lead
    /// over the working set and each of the others can follow it there.
    pub proof fn lemma_walk_wf(&self, working: Set<int>)
        requires
            self.walks(self.parts(), working),
            serves_all(self.parts().0, working),
            follows(self.parts().0, self.parts().1, working),
            follows(self.parts().0, self.parts().2, working),
            follows(self.parts().0, self.parts().3, working),
            follows(self.parts().0, self.parts().4, working),
            follows(self.parts().0, self.parts().5, working),
        ensures
            self.wf(),
    {
        assert forall|k: int| 0 <= k < self.slots_left().len() implies working.contains(
            #[trigger] self.slots_left()[k],
        ) by {
            assert(self.slots_left().contains(self.slots_left()[k]));
        }
    }

    /// The row of the lowest slot that is left: the handle that the first
    /// participant has there, and what each participant has for it. A
    /// participant that hands out its components to change gives back the
    /// entries that it passed as they were, and the one of this row with
    /// what is written through the reference.
    pub fn next(&mut self) -> (row: Option<(EntityHandle, T1::Item, T2::Item, T3::Item, T4::Item, T5::Item, T6::Item)>)
        requires
            old(self).wf(),
        ensures
            final(self).wf(),
            match row {
                Some(row) => {
                    &&& old(self).slots_left().len() > 0
                    &&& row.0.index() == old(self).slots_left()[0]
                    &&& row.0 == old(self).parts().0.handle_at(old(self).slots_left()[0])
                    &&& old(self).parts().0.holds(row.0, row.1)
                    &&& old(self).parts().1.holds(row.0, row.2)
                    &&& old(self).parts().2.holds(row.0, row.3)
                    &&& old(self).parts().3.holds(row.0, row.4)
                    &&& old(self).parts().4.holds(row.0, row.5)
                    &&& old(self).parts().5.holds(row.0, row.6)
                    &&& final(self).slots_left() == old(self).slots_left().skip(1)
                    &&& led_past(old(self).parts().0, final(self).parts().0, row.0.index() as int)
                    &&& moved_past(old(self).parts().1, final(self).parts().1, row.0.index() as int)
                    &&& moved_past(old(self).parts().2, final(self).parts().2, row.0.index() as int)
                    &&& moved_past(old(self).parts().3, final(self).parts().3, row.0.index() as int)
                    &&& moved_past(old(self).parts().4, final(self).parts().4, row.0.index() as int)
                    &&& moved_past(old(self).parts().5, final(self).parts().5, row.0.index() as int)
                    &&& match old(self).parts().0.lent_out() {
                        Some(before) => final(self).parts().0.lent_out() is Some && gave_back(
                            before@,
                            final(before)@,
                            final(self).parts().0.lent_out()->0@,
                            final(final(self).parts().0.lent_out()->0)@,
                            row.0,
                            match T1::item_mut(&row.1) {
                                Some(comp) => Some(*final(comp)),
                                None => None,
                            },
                        ),
                        None => final(self).parts().0.lent_out() is None,
                    }
                    &&& match old(self).parts().1.lent_out() {
                        Some(before) => final(self).parts().1.lent_out() is Some && gave_back(
                            before@,
                            final(before)@,
                            final(self).parts().1.lent_out()->0@,
                            final(final(self).parts().1.lent_out()->0)@,
                            row.0,
                            match T2::item_mut(&row.2) {
                                Some(comp) => Some(*final(comp)),
                                None => None,
                            },
                        ),
                        None => final(self).parts().1.lent_out() is None,
                    }
                    &&& match old(self).parts().2.lent_out() {
                        Some(before) => final(self).parts().2.lent_out() is Some && gave_back(
                            before@,
                            final(before)@,
                            final(self).parts().2.lent_out()->0@,
                            final(final(self).parts().2.lent_out()->0)@,
                            row.0,
                            match T3::item_mut(&row.3) {
                                Some(comp) => Some(*final(comp)),
                                None => None,
                            },
                        ),
                        None => final(self).parts().2.lent_out() is None,
                    }
                    &&& match old(self).parts().3.lent_out() {
                        Some(before) => final(self).parts().3.lent_out() is Some && gave_back(
                            before@,
                            final(before)@,
                            final(self).parts().3.lent_out()->0@,
                            final(final(self).parts().3.lent_out()->0)@,
                            row.0,
                            match T4::item_mut(&row.4) {
                                Some(comp) => Some(*final(comp)),
                                None => None,
                            },
                        ),
                        None => final(self).parts().3.lent_out() is None,
                    }
                    &&& match old(self).parts().4.lent_out() {
                        Some(before) => final(self).parts().4.lent_out() is Some && gave_back(
                            before@,
                            final(before)@,
                            final(self).parts().4.lent_out()->0@,
                            final(final(self).parts().4.lent_out()->0)@,
                            row.0,
                            match T5::item_mut(&row.5) {
                                Some(comp) => Some(*final(comp)),
                                None => None,
                            },
                        ),
                        None => final(self).parts().4.lent_out() is None,
                    }
                    &&& match old(self).parts().5.lent_out() {
                        Some(before) => final(self).parts().5.lent_out() is Some && gave_back(
                            before@,
                            final(before)@,
                            final(self).parts().5.lent_out()->0@,
                            final(final(self).parts().5.lent_out()->0)@,
                            row.0,
                            match T6::item_mut(&row.6) {
                                Some(comp) => Some(*final(comp)),
                                None => None,
                            },
                        ),
                        None => final(self).parts().5.lent_out() is None,
                    }
                },
                None => {
                    &&& old(self).slots_left().len() == 0
                    &&& final(self).slots_left() == old(self).slots_left()
                    &&& final(self).parts() == old(self).parts()
                },
            },
    {
        match next_one(&mut self.ones) {
            None => None,
            Some(index) => {
                let ghost before = old(self).comps;
                let ghost left = ones_left(old(self).ones);
                assert(left[0] == index);
                let (id1, item1) = self.comps.0.comp_at_index(index);
                proof {
                    before.0.lemma_handle_at(index as int);
                }
                let item2 = self.comps.1.comp_at(id1);
                let item3 = self.comps.2.comp_at(id1);
                let item4 = self.comps.3.comp_at(id1);
                let item5 = self.comps.4.comp_at(id1);
                let item6 = self.comps.5.comp_at(id1);
                proof {
                    assert forall|k: int| 0 <= k < left.skip(1).len() implies ({
                        let slot = #[trigger] left.skip(1)[k];
                        &&& self.comps.0.serves_index(slot)
                        &&& self.comps.1.serves(self.comps.0.handle_at(slot))
                        &&& self.comps.2.serves(self.comps.0.handle_at(slot))
                        &&& self.comps.3.serves(self.comps.0.handle_at(slot))
                        &&& self.comps.4.serves(self.comps.0.handle_at(slot))
                        &&& self.comps.5.serves(self.comps.0.handle_at(slot))
                    }) by {
                        let slot = left[k + 1];
                        assert(left.skip(1)[k] == slot);
                        assert(before.0.serves_index(slot));
                        before.0.lemma_handle_at(slot);
                        assert(before.1.serves(before.0.handle_at(slot)));
                        assert(before.2.serves(before.0.handle_at(slot)));
                        assert(before.3.serves(before.0.handle_at(slot)));
                        assert(before.4.serves(before.0.handle_at(slot)));
                        assert(before.5.serves(before.0.handle_at(slot)));
                    }
                }
                Some((id1, item1, item2, item3, item4, item5, item6))
            },
        }
    }

    /// All the rows that are left, in the order in which `next` would
    /// yield them: one for each slot that is left, lowest first, each with
    /// the handle that the first participant has there and what each
    /// participant has for it. The store of a participant that hands out
    /// its components to change gets back every entry under its handle,
    /// with what is written through the reference of its row, or as it was
    /// where no row has a reference for it.
    pub fn collect(self) -> (rows: Vec<(EntityHandle, T1::Item, T2::Item, T3::Item, T4::Item, T5::Item, T6::Item)>)
        requires
            self.wf(),
        ensures
            rows.len() == self.slots_left().len(),
            forall|k: int|
                0 <= k < rows.len() ==> {
                    let row = #[trigger] rows[k];
                    &&& row.0.index() == self.slots_left()[k]
                    &&& row.0 == self.parts().0.handle_at(self.slots_left()[k])
                    &&& self.parts().0.holds(row.0, row.1)
                    &&& self.parts().1.holds(row.0, row.2)
                    &&& self.parts().2.holds(row.0, row.3)
                    &&& self.parts().3.holds(row.0, row.4)
                    &&& self.parts().4.holds(row.0, row.5)
                    &&& self.parts().5.holds(row.0, row.6)
                },
            match self.parts().0.lent_out() {
                Some(before) => gave_back_all(
                    before@,
                    final(before)@,
                    Seq::new(rows.len() as nat, |k: int| rows@[k].0),
                    Seq::new(
                        rows.len() as nat,
                        |k: int|
                            match T1::item_mut(&rows@[k].1) {
                                Some(comp) => Some(*final(comp)),
                                None => None,
                            },
                    ),
                ),
                None => true,
            },
            match self.parts().1.lent_out() {
                Some(before) => gave_back_all(
                    before@,
                    final(before)@,
                    Seq::new(rows.len() as nat, |k: int| rows@[k].0),
                    Seq::new(
                        rows.len() as nat,
                        |k: int|
                            match T2::item_mut(&rows@[k].2) {
                                Some(comp) => Some(*final(comp)),
                                None => None,
                            },
                    ),
                ),
                None => true,
            },
            match self.parts().2.lent_out() {
                Some(before) => gave_back_all(
                    before@,
                    final(before)@,
                    Seq::new(rows.len() as nat, |k: int| rows@[k].0),
                    Seq::new(
                        rows.len() as nat,
                        |k: int|
                            match T3::item_mut(&rows@[k].3) {
                                Some(comp) => Some(*final(comp)),
                                None => None,
                            },
                    ),
                ),
                None => true,
            },
            match self.parts().3.lent_out() {
                Some(before) => gave_back_all(
                    before@,
                    final(before)@,
                    Seq::new(rows.len() as nat, |k: int| rows@[k].0),
                    Seq::new(
                        rows.len() as nat,
                        |k: int|
                            match T4::item_mut(&rows@[k].4) {
                                Some(comp) => Some(*final(comp)),
                                None => None,
                            },
                    ),
                ),
                None => true,
            },
            match self.parts().4.lent_out() {
                Some(before) => gave_back_all(
                    before@,
                    final(before)@,
                    Seq::new(rows.len() as nat, |k: int| rows@[k].0),
                    Seq::new(
                        rows.len() as nat,
                        |k: int|
                            match T5::item_mut(&rows@[k].5) {
                                Some(comp) => Some(*final(comp)),
                                None => None,
                            },
                    ),
                ),
                None => true,
            },
            match self.parts().5.lent_out() {
                Some(before) => gave_back_all(
                    before@,
                    final(before)@,
                    Seq::new(rows.len() as nat, |k: int| rows@[k].0),
                    Seq::new(
                        rows.len() as nat,
                        |k: int|
                            match T6::item_mut(&rows@[k].6) {
                                Some(comp) => Some(*final(comp)),
                                None => None,
                            },
                    ),
                ),
                None => true,
            },
    {
        let ghost start = self.comps;
        let ghost all = ones_left(self.ones);
        let mut walk = self;
        let mut rows: Vec<(EntityHandle, T1::Item, T2::Item, T3::Item, T4::Item, T5::Item, T6::Item)> = Vec::new();
        loop
            invariant
                walk.wf(),
                ascending(all),
                rows.len() <= all.len(),
                walk.slots_left() == all.skip(rows.len() as int),
                led_past(start.0, walk.parts().0, passed(all, rows.len() as int)),
                moved_past(start.1, walk.parts().1, passed(all, rows.len() as int)),
                moved_past(start.2, walk.parts().2, passed(all, rows.len() as int)),
                moved_past(start.3, walk.parts().3, passed(all, rows.len() as int)),
                moved_past(start.4, walk.parts().4, passed(all, rows.len() as int)),
                moved_past(start.5, walk.parts().5, passed(all, rows.len() as int)),
                match start.0.lent_out() {
                    Some(before) => walk.parts().0.lent_out() is Some && {
                        let now = walk.parts().0.lent_out()->0;
                        &&& now@ == before@.skip(before@.len() - now@.len())
                        &&& final(now)@ == final(before)@.skip(before@.len() - now@.len())
                        &&& gave_back_first(
                            before@,
                            final(before)@,
                            before@.len() - now@.len(),
                            Seq::new(rows.len() as nat, |k: int| rows@[k].0),
                            Seq::new(
                                rows.len() as nat,
                                |k: int|
                                    match T1::item_mut(&rows@[k].1) {
                                        Some(comp) => Some(*final(comp)),
                                        None => None,
                                    },
                            ),
                        )
                    },
                    None => walk.parts().0.lent_out() is None,
                },
                match start.1.lent_out() {
                    Some(before) => walk.parts().1.lent_out() is Some && {
                        let now = walk.parts().1.lent_out()->0;
                        &&& now@ == before@.skip(before@.len() - now@.len())
                        &&& final(now)@ == final(before)@.skip(before@.len() - now@.len())
                        &&& gave_back_first(
                            before@,
                            final(before)@,
                            before@.len() - now@.len(),
                            Seq::new(rows.len() as nat, |k: int| rows@[k].0),
                            Seq::new(
                                rows.len() as nat,
                                |k: int|
                                    match T2::item_mut(&rows@[k].2) {
                                        Some(comp) => Some(*final(comp)),
                                        None => None,
                                    },
                            ),
                        )
                    },
                    None => walk.parts().1.lent_out() is None,
                },
                match start.2.lent_out() {
                    Some(before) => walk.parts().2.lent_out() is Some && {
                        let now = walk.parts().2.lent_out()->0;
                        &&& now@ == before@.skip(before@.len() - now@.len())
                        &&& final(now)@ == final(before)@.skip(before@.len() - now@.len())
                        &&& gave_back_first(
                            before@,
                            final(before)@,
                            before@.len() - now@.len(),
                            Seq::new(rows.len() as nat, |k: int| rows@[k].0),
                            Seq::new(
                                rows.len() as nat,
                                |k: int|
                                    match T3::item_mut(&rows@[k].3) {
                                        Some(comp) => Some(*final(comp)),
                                        None => None,
                                    },
                            ),
                        )
                    },
                    None => walk.parts().2.lent_out() is None,
                },
                match start.3.lent_out() {
                    Some(before) => walk.parts().3.lent_out() is Some && {
                        let now = walk.parts().3.lent_out()->0;
                        &&& now@ == before@.skip(before@.len() - now@.len())
                        &&& final(now)@ == final(before)@.skip(before@.len() - now@.len())
                        &&& gave_back_first(
                            before@,
                            final(before)@,
                            before@.len() - now@.len(),
                            Seq::new(rows.len() as nat, |k: int| rows@[k].0),
                            Seq::new(
                                rows.len() as nat,
                                |k: int|
                                    match T4::item_mut(&rows@[k].4) {
                                        Some(comp) => Some(*final(comp)),
                                        None => None,
                                    },
                            ),
                        )
                    },
                    None => walk.parts().3.lent_out() is None,
                },
                match start.4.lent_out() {
                    Some(before) => walk.parts().4.lent_out() is Some && {
                        let now = walk.parts().4.lent_out()->0;
                        &&& now@ == before@.skip(before@.len() - now@.len())
                        &&& final(now)@ == final(before)@.skip(before@.len() - now@.len())
                        &&& gave_back_first(
                            before@,
                            final(before)@,
                            before@.len() - now@.len(),
                            Seq::new(rows.len() as nat, |k: int| rows@[k].0),
                            Seq::new(
                                rows.len() as nat,
                                |k: int|
                                    match T5::item_mut(&rows@[k].5) {
                                        Some(comp) => Some(*final(comp)),
                                        None => None,
                                    },
                            ),
                        )
                    },
                    None => walk.parts().4.lent_out() is None,
                },
                match start.5.lent_out() {
                    Some(before) => walk.parts().5.lent_out() is Some && {
                        let now = walk.parts().5.lent_out()->0;
                        &&& now@ == before@.skip(before@.len() - now@.len())
                        &&& final(now)@ == final(before)@.skip(before@.len() - now@.len())
                        &&& gave_back_first(
                            before@,
                            final(before)@,
                            before@.len() - now@.len(),
                            Seq::new(rows.len() as nat, |k: int| rows@[k].0),
                            Seq::new(
                                rows.len() as nat,
                                |k: int|
                                    match T6::item_mut(&rows@[k].6) {
                                        Some(comp) => Some(*final(comp)),
                                        None => None,
                                    },
                            ),
                        )
                    },
                    None => walk.parts().5.lent_out() is None,
                },
                forall|k: int|
                    0 <= k < all.len() ==> start.0.serves_index(#[trigger] all[k]),
                forall|k: int|
                    0 <= k < rows.len() ==> {
                        let row = #[trigger] rows[k];
                        &&& row.0.index() == all[k]
                        &&& row.0 == start.0.handle_at(all[k])
                        &&& start.0.holds(row.0, row.1)
                        &&& start.1.holds(row.0, row.2)
                        &&& start.2.holds(row.0, row.3)
                        &&& start.3.holds(row.0, row.4)
                        &&& start.4.holds(row.0, row.5)
                        &&& start.5.holds(row.0, row.6)
                    },
            ensures
                rows.len() == all.len(),
            decreases all.len() - rows.len(),
        {
            let ghost before = walk.comps;
            let ghost done = rows.len() as int;
            match walk.next() {
                None => {
                    break ;
                },
                Some(row) => {
                    proof {
                        assert(all.skip(done)[0] == all[done]);
                        assert(all.skip(done).skip(1) =~= all.skip(done + 1));
                        if done > 0 {
                            assert(all[done - 1] < all[done]);
                        }
                        let p = passed(all, done);
                        let q = all[done];
                        lemma_led_past_twice(start.0, before.0, walk.comps.0, p, q);
                        lemma_moved_past_twice(start.1, before.1, walk.comps.1, p, q);
                        lemma_moved_past_twice(start.2, before.2, walk.comps.2, p, q);
                        lemma_moved_past_twice(start.3, before.3, walk.comps.3, p, q);
                        lemma_moved_past_twice(start.4, before.4, walk.comps.4, p, q);
                        lemma_moved_past_twice(start.5, before.5, walk.comps.5, p, q);
                    }
                    let ghost handles = Seq::new(rows.len() as nat, |k: int| rows@[k].0);
                    let ghost so_far = rows@;
                    let ghost handle = row.0;
                    rows.push(row);
                    proof {
                        assert(Seq::new(rows.len() as nat, |k: int| rows@[k].0) =~= handles.push(handle));
                        if start.0.lent_out() is Some {
                            let first = start.0.lent_out()->0;
                            let now = before.0.lent_out()->0;
                            let after = walk.comps.0.lent_out()->0;
                            assert(Seq::new(
                                rows.len() as nat,
                                |k: int|
                                    match T1::item_mut(&rows@[k].1) {
                                        Some(comp) => Some(*final(comp)),
                                        None => None,
                                    },
                            ) =~= Seq::new(
                                so_far.len(),
                                |k: int|
                                    match T1::item_mut(&so_far[k].1) {
                                        Some(comp) => Some(*final(comp)),
                                        None => None,
                                    },
                            ).push(
                                match T1::item_mut(&rows@[done].1) {
                                    Some(comp) => Some(*final(comp)),
                                    None => None,
                                },
                            ));
                            lemma_gave_back_more(
                                first@,
                                final(first)@,
                                first@.len() - now@.len(),
                                handles,
                                Seq::new(
                                    so_far.len(),
                                    |k: int|
                                        match T1::item_mut(&so_far[k].1) {
                                            Some(comp) => Some(*final(comp)),
                                            None => None,
                                        },
                                ),
                                now@,
                                final(now)@,
                                after@,
                                final(after)@,
                                handle,
                                match T1::item_mut(&rows@[done].1) {
                                    Some(comp) => Some(*final(comp)),
                                    None => None,
                                },
                            );
                        }
                        if start.1.lent_out() is Some {
                            let first = start.1.lent_out()->0;
                            let now = before.1.lent_out()->0;
                            let after = walk.comps.1.lent_out()->0;
                            assert(Seq::new(
                                rows.len() as nat,
                                |k: int|
                                    match T2::item_mut(&rows@[k].2) {
                                        Some(comp) => Some(*final(comp)),
                                        None => None,
                                    },
                            ) =~= Seq::new(
                                so_far.len(),
                                |k: int|
                                    match T2::item_mut(&so_far[k].2) {
                                        Some(comp) => Some(*final(comp)),
                                        None => None,
                                    },
                            ).push(
                                match T2::item_mut(&rows@[done].2) {
                                    Some(comp) => Some(*final(comp)),
                                    None => None,
                                },
                            ));
                            lemma_gave_back_more(
                                first@,
                                final(first)@,
                                first@.len() - now@.len(),
                                handles,
                                Seq::new(
                                    so_far.len(),
                                    |k: int|
                                        match T2::item_mut(&so_far[k].2) {
                                            Some(comp) => Some(*final(comp)),
                                            None => None,
                                        },
                                ),
                                now@,
                                final(now)@,
                                after@,
                                final(after)@,
                                handle,
                                match T2::item_mut(&rows@[done].2) {
                                    Some(comp) => Some(*final(comp)),
                                    None => None,
                                },
                            );
                        }
                        if start.2.lent_out() is Some {
                            let first = start.2.lent_out()->0;
                            let now = before.2.lent_out()->0;
                            let after = walk.comps.2.lent_out()->0;
                            assert(Seq::new(
                                rows.len() as nat,
                                |k: int|
                                    match T3::item_mut(&rows@[k].3) {
                                        Some(comp) => Some(*final(comp)),
                                        None => None,
                                    },
                            ) =~= Seq::new(
                                so_far.len(),
                                |k: int|
                                    match T3::item_mut(&so_far[k].3) {
                                        Some(comp) => Some(*final(comp)),
                                        None => None,
                                    },
                            ).push(
                                match T3::item_mut(&rows@[done].3) {
                                    Some(comp) => Some(*final(comp)),
                                    None => None,
                                },
                            ));
                            lemma_gave_back_more(
                                first@,
                                final(first)@,
                                first@.len() - now@.len(),
                                handles,
                                Seq::new(
                                    so_far.len(),
                                    |k: int|
                                        match T3::item_mut(&so_far[k].3) {
                                            Some(comp) => Some(*final(comp)),
                                            None => None,
                                        },
                                ),
                                now@,
                                final(now)@,
                                after@,
                                final(after)@,
                                handle,
                                match T3::item_mut(&rows@[done].3) {
                                    Some(comp) => Some(*final(comp)),
                                    None => None,
                                },
                            );
                        }
                        if start.3.lent_out() is Some {
                            let first = start.3.lent_out()->0;
                            let now = before.3.lent_out()->0;
                            let after = walk.comps.3.lent_out()->0;
                            assert(Seq::new(
                                rows.len() as nat,
                                |k: int|
                                    match T4::item_mut(&rows@[k].4) {
                                        Some(comp) => Some(*final(comp)),
                                        None => None,
                                    },
                            ) =~= Seq::new(
                                so_far.len(),
                                |k: int|
                                    match T4::item_mut(&so_far[k].4) {
                                        Some(comp) => Some(*final(comp)),
                                        None => None,
                                    },
                            ).push(
                                match T4::item_mut(&rows@[done].4) {
                                    Some(comp) => Some(*final(comp)),
                                    None => None,
                                },
                            ));
                            lemma_gave_back_more(
                                first@,
                                final(first)@,
                                first@.len() - now@.len(),
                                handles,
                                Seq::new(
                                    so_far.len(),
                                    |k: int|
                                        match T4::item_mut(&so_far[k].4) {
                                            Some(comp) => Some(*final(comp)),
                                            None => None,
                                        },
                                ),
                                now@,
                                final(now)@,
                                after@,
                                final(after)@,
                                handle,
                                match T4::item_mut(&rows@[done].4) {
                                    Some(comp) => Some(*final(comp)),
                                    None => None,
                                },
                            );
                        }
                        if start.4.lent_out() is Some {
                            let first = start.4.lent_out()->0;
                            let now = before.4.lent_out()->0;
                            let after = walk.comps.4.lent_out()->0;
                            assert(Seq::new(
                                rows.len() as nat,
                                |k: int|
                                    match T5::item_mut(&rows@[k].5) {
                                        Some(comp) => Some(*final(comp)),
                                        None => None,
                                    },
                            ) =~= Seq::new(
                                so_far.len(),
                                |k: int|
                                    match T5::item_mut(&so_far[k].5) {
                                        Some(comp) => Some(*final(comp)),
                                        None => None,
                                    },
                            ).push(
                                match T5::item_mut(&rows@[done].5) {
                                    Some(comp) => Some(*final(comp)),
                                    None => None,
                                },
                            ));
                            lemma_gave_back_more(
                                first@,
                                final(first)@,
                                first@.len() - now@.len(),
                                handles,
                                Seq::new(
                                    so_far.len(),
                                    |k: int|
                                        match T5::item_mut(&so_far[k].5) {
                                            Some(comp) => Some(*final(comp)),
                                            None => None,
                                        },
                                ),
                                now@,
                                final(now)@,
                                after@,
                                final(after)@,
                                handle,
                                match T5::item_mut(&rows@[done].5) {
                                    Some(comp) => Some(*final(comp)),
                                    None => None,
                                },
                            );
                        }
                        if start.5.lent_out() is Some {
                            let first = start.5.lent_out()->0;
                            let now = before.5.lent_out()->0;
                            let after = walk.comps.5.lent_out()->0;
                            assert(Seq::new(
                                rows.len() as nat,
                                |k: int|
                                    match T6::item_mut(&rows@[k].6) {
                                        Some(comp) => Some(*final(comp)),
                                        None => None,
                                    },
                            ) =~= Seq::new(
                                so_far.len(),
                                |k: int|
                                    match T6::item_mut(&so_far[k].6) {
                                        Some(comp) => Some(*final(comp)),
                                        None => None,
                                    },
                            ).push(
                                match T6::item_mut(&rows@[done].6) {
                                    Some(comp) => Some(*final(comp)),
                                    None => None,
                                },
                            ));
                            lemma_gave_back_more(
                                first@,
                                final(first)@,
                                first@.len() - now@.len(),
                                handles,
                                Seq::new(
                                    so_far.len(),
                                    |k: int|
                                        match T6::item_mut(&so_far[k].6) {
                                            Some(comp) => Some(*final(comp)),
                                            None => None,
                                        },
                                ),
                                now@,
                                final(now)@,
                                after@,
                                final(after)@,
                                handle,
                                match T6::item_mut(&rows@[done].6) {
                                    Some(comp) => Some(*final(comp)),
                                    None => None,
                                },
                            );
                        }
                    }
                },
            }
        }
        proof {
            walk.lemma_done();
            walk.comps.0.lemma_given_back();
            if start.0.lent_out() is Some {
                let first = start.0.lent_out()->0;
                let now = walk.comps.0.lent_out()->0;
                lemma_gave_back_rest(
                    first@,
                    final(first)@,
                    first@.len() - now@.len(),
                    Seq::new(rows.len() as nat, |k: int| rows@[k].0),
                    Seq::new(
                        rows.len() as nat,
                        |k: int|
                            match T1::item_mut(&rows@[k].1) {
                                Some(comp) => Some(*final(comp)),
                                None => None,
                            },
                    ),
                );
            }
            walk.comps.1.lemma_given_back();
            if start.1.lent_out() is Some {
                let first = start.1.lent_out()->0;
                let now = walk.comps.1.lent_out()->0;
                lemma_gave_back_rest(
                    first@,
                    final(first)@,
                    first@.len() - now@.len(),
                    Seq::new(rows.len() as nat, |k: int| rows@[k].0),
                    Seq::new(
                        rows.len() as nat,
                        |k: int|
                            match T2::item_mut(&rows@[k].2) {
                                Some(comp) => Some(*final(comp)),
                                None => None,
                            },
                    ),
                );
            }
            walk.comps.2.lemma_given_back();
            if start.2.lent_out() is Some {
                let first = start.2.lent_out()->0;
                let now = walk.comps.2.lent_out()->0;
                lemma_gave_back_rest(
                    first@,
                    final(first)@,
                    first@.len() - now@.len(),
                    Seq::new(rows.len() as nat, |k: int| rows@[k].0),
                    Seq::new(
                        rows.len() as nat,
                        |k: int|
                            match T3::item_mut(&rows@[k].3) {
                                Some(comp) => Some(*final(comp)),
                                None => None,
                            },
                    ),
                );
            }
            walk.comps.3.lemma_given_back();
            if start.3.lent_out() is Some {
                let first = start.3.lent_out()->0;
                let now = walk.comps.3.lent_out()->0;
                lemma_gave_back_rest(
                    first@,
                    final(first)@,
                    first@.len() - now@.len(),
                    Seq::new(rows.len() as nat, |k: int| rows@[k].0),
                    Seq::new(
                        rows.len() as nat,
                        |k: int|
                            match T4::item_mut(&rows@[k].4) {
                                Some(comp) => Some(*final(comp)),
                                None => None,
                            },
                    ),
                );
            }
            walk.comps.4.lemma_given_back();
            if start.4.lent_out() is Some {
                let first = start.4.lent_out()->0;
                let now = walk.comps.4.lent_out()->0;
                lemma_gave_back_rest(
                    first@,
                    final(first)@,
                    first@.len() - now@.len(),
                    Seq::new(rows.len() as nat, |k: int| rows@[k].0),
                    Seq::new(
                        rows.len() as nat,
                        |k: int|
                            match T5::item_mut(&rows@[k].5) {
                                Some(comp) => Some(*final(comp)),
                                None => None,
                            },
                    ),
                );
            }
            walk.comps.5.lemma_given_back();
            if start.5.lent_out() is Some {
                let first = start.5.lent_out()->0;
                let now = walk.comps.5.lent_out()->0;
                lemma_gave_back_rest(
                    first@,
                    final(first)@,
                    first@.len() - now@.len(),
                    Seq::new(rows.len() as nat, |k: int| rows@[k].0),
                    Seq::new(
                        rows.len() as nat,
                        |k: int|
                            match T6::item_mut(&rows@[k].6) {
                                Some(comp) => Some(*final(comp)),
                                None => None,
                            },
                    ),
                );
            }
        }
        rows
    }
}

impl<T1: NonOptionalCompIterer, T2: CompIterer, T3: CompIterer, T4: CompIterer, T5: CompIterer, T6: CompIterer, T7: CompIterer> From<(T1, T2, T3, T4, T5, T6, T7)> for CompIter<(T1, T2, T3, T4, T5, T6, T7)> {
    /// A join of seven participants. The working set starts as the presence
    /// set of the first, and each of the others narrows it in turn.
    fn from(comps: (T1, T2, T3, T4, T5, T6, T7)) -> (join: Self)
        ensures
            join.parts() == comps,
            join.working() == comps.6.combined(comps.5.combined(comps.4.combined(comps.3.combined(comps.2.combined(comps.1.combined(comps.0.owner_bits())))))),
    {
        let (comp1, comp2, comp3, comp4, comp5, comp6, comp7) = comps;
        let mut owners = comp1.owners().clone();
        comp2.combine_owners(&mut owners);
        comp3.combine_owners(&mut owners);
        comp4.combine_owners(&mut owners);
        comp5.combine_owners(&mut owners);
        comp6.combine_owners(&mut owners);
        comp7.combine_owners(&mut owners);
        Self { comps: (comp1, comp2, comp3, comp4, comp5, comp6, comp7), owners }
    }
}

impl<T1: NonOptionalCompIterer, T2: CompIterer, T3: CompIterer, T4: CompIterer, T5: CompIterer, T6: CompIterer, T7: CompIterer> FromSpecImpl<(T1, T2, T3, T4, T5, T6, T7)> for CompIter<(T1, T2, T3, T4, T5, T6, T7)> {
    /// The working set is an opaque bit set, so `from` is described by its
    /// own contract and not by a value written out here.
    open spec fn obeys_from_spec() -> bool {
        false
    }

    open spec fn from_spec(comps: (T1, T2, T3, T4, T5, T6, T7)) -> Self {
        arbitrary()
    }
}

impl<T1: NonOptionalCompIterer, T2: CompIterer, T3: CompIterer, T4: CompIterer, T5: CompIterer, T6: CompIterer, T7: CompIterer> CompIter<(T1, T2, T3, T4, T5, T6, T7)> {
    /// Starts the walk: the slots of the working set, lowest first.
    pub fn into_iter(self) -> (rows: IntoCompIter<(T1, T2, T3, T4, T5, T6, T7)>)
        ensures
            rows.walks(self.parts(), self.working()),
    {
        IntoCompIter { comps: self.comps, ones: self.owners.into_ones() }
    }
}

impl<T1: NonOptionalCompIterer, T2: CompIterer, T3: CompIterer, T4: CompIterer, T5: CompIterer, T6: CompIterer, T7: CompIterer> IntoCompIter<(T1, T2, T3, T4, T5, T6, T7)> {
    /// The walk can go on: every participant is in order and can be asked
    /// for each slot that is left, the first for the slot and the others
    /// for the handle that the first has there.
    pub open spec fn wf(&self) -> bool {
        &&& self.parts().0.ready()
        &&& self.parts().1.ready()
        &&& self.parts().2.ready()
        &&& self.parts().3.ready()
        &&& self.parts().4.ready()
        &&& self.parts().5.ready()
        &&& self.parts().6.ready()
        &&& ascending(self.slots_left())
        &&& forall|k: int|
            0 <= k < self.slots_left().len() ==> {
                let slot = #[trigger] self.slots_left()[k];
                &&& self.parts().0.serves_index(slot)
                &&& self.parts().1.serves(self.parts().0.handle_at(slot))
                &&& self.parts().2.serves(self.parts().0.handle_at(slot))
                &&& self.parts().3.serves(self.parts().0.handle_at(slot))
                &&& self.parts().4.serves(self.parts().0.handle_at(slot))
                &&& self.parts().5.serves(self.parts().0.handle_at(slot))
                &&& self.parts().6.serves(self.parts().0.handle_at(slot))
            }
    }

    /// A walk at its start can go on where the first participant can lead
    /// over the working set and each of the others can follow it there.
    pub proof fn lemma_walk_wf(&self, working: Set<int>)
        requires
            self.walks(self.parts(), working),
            serves_all(self.parts().0, working),
            follows(self.parts().0, self.parts().1, working),
            follows(self.parts().0, self.parts().2, working),
            follows(self.parts().0, self.parts().3, working),
            follows(self.parts().0, self.parts().4, working),
            follows(self.parts().0, self.parts().5, working),
            follows(self.parts().0, self.parts().6, working),
        ensures
            self.wf(),
    {
        assert forall|k: int| 0 <= k < self.slots_left().len() implies working.contains(
            #[trigger] self.slots_left()[k],
        ) by {
            assert(self.slots_left().contains(self.slots_left()[k]));
        }
    }

    /// The row of the lowest slot that is left: the handle that the first
    /// participant has there, and what each participant has for it. A
    /// participant that hands out its components to change gives back the
    /// entries that it passed as they were, and the one of this row with
    /// what is written through the reference.
    pub fn next(&mut self) -> (row: Option<(EntityHandle, T1::Item, T2::Item, T3::Item, T4::Item, T5::Item, T6::Item, T7::Item)>)
        requires
            old(self).wf(),
        ensures
            final(self).wf(),
            match row {
                Some(row) => {
                    &&& old(self).slots_left().len() > 0
                    &&& row.0.index() == old(self).slots_left()[0]
                    &&& row.0 == old(self).parts().0.handle_at(old(self).slots_left()[0])
                    &&& old(self).parts().0.holds(row.0, row.1)
                    &&& old(self).parts().1.holds(row.0, row.2)
                    &&& old(self).parts().2.holds(row.0, row.3)
                    &&& old(self).parts().3.holds(row.0, row.4)
                    &&& old(self).parts().4.holds(row.0, row.5)
                    &&& old(self).parts().5.holds(row.0, row.6)
                    &&& old(self).parts().6.holds(row.0, row.7)
                    &&& final(self).slots_left() == old(self).slots_left().skip(1)
                    &&& led_past(old(self).parts().0, final(self).parts().0, row.0.index() as int)
                    &&& moved_past(old(self).parts().1, final(self).parts().1, row.0.index() as int)
                    &&& moved_past(old(self).parts().2, final(self).parts().2, row.0.index() as int)
                    &&& moved_past(old(self).parts().3, final(self).parts().3, row.0.index() as int)
                    &&& moved_past(old(self).parts().4, final(self).parts().4, row.0.index() as int)
                    &&& moved_past(old(self).parts().5, final(self).parts().5, row.0.index() as int)
                    &&& moved_past(old(self).parts().6, final(self).parts().6, row.0.index() as int)
                    &&& match old(self).parts().0.lent_out() {
                        Some(before) => final(self).parts().0.lent_out() is Some && gave_back(
                            before@,
                            final(before)@,
                            final(self).parts().0.lent_out()->0@,
                            final(final(self).parts().0.lent_out()->0)@,
                            row.0,
                            match T1::item_mut(&row.1) {
                                Some(comp) => Some(*final(comp)),
                                None => None,
                            },
                        ),
                        None => final(self).parts().0.lent_out() is None,
                    }
                    &&& match old(self).parts().1.lent_out() {
                        Some(before) => final(self).parts().1.lent_out() is Some && gave_back(
                            before@,
                            final(before)@,
                            final(self).parts().1.lent_out()->0@,
                            final(final(self).parts().1.lent_out()->0)@,
                            row.0,
                            match T2::item_mut(&row.2) {
                                Some(comp) => Some(*final(comp)),
                                None => None,
                            },
                        ),
                        None => final(self).parts().1.lent_out() is None,
                    }
                    &&& match old(self).parts().2.lent_out() {
                        Some(before) => final(self).parts().2.lent_out() is Some && gave_back(
                            before@,
                            final(before)@,
                            final(self).parts().2.lent_out()->0@,
                            final(final(self).parts().2.lent_out()->0)@,
                            row.0,
                            match T3::item_mut(&row.3) {
                                Some(comp) => Some(*final(comp)),
                                None => None,
                            },
                        ),
                        None => final(self).parts().2.lent_out() is None,
                    }
                    &&& match old(self).parts().3.lent_out() {
                        Some(before) => final(self).parts().3.lent_out() is Some && gave_back(
                            before@,
                            final(before)@,
                            final(self).parts().3.lent_out()->0@,
                            final(final(self).parts().3.lent_out()->0)@,
                            row.0,
                            match T4::item_mut(&row.4) {
                                Some(comp) => Some(*final(comp)),
                                None => None,
                            },
                        ),
                        None => final(self).parts().3.lent_out() is None,
                    }
                    &&& match old(self).parts().4.lent_out() {
                        Some(before) => final(self).parts().4.lent_out() is Some && gave_back(
                            before@,
                            final(before)@,
                            final(self).parts().4.lent_out()->0@,
                            final(final(self).parts().4.lent_out()->0)@,
                            row.0,
                            match T5::item_mut(&row.5) {
                                Some(comp) => Some(*final(comp)),
                                None => None,
                            },
                        ),
                        None => final(self).parts().4.lent_out() is None,
                    }
                    &&& match old(self).parts().5.lent_out() {
                        Some(before) => final(self).parts().5.lent_out() is Some && gave_back(
                            before@,
                            final(before)@,
                            final(self).parts().5.lent_out()->0@,
                            final(final(self).parts().5.lent_out()->0)@,
                            row.0,
                            match T6::item_mut(&row.6) {
                                Some(comp) => Some(*final(comp)),
                                None => None,
                            },
                        ),
                        None => final(self).parts().5.lent_out() is None,
                    }
                    &&& match old(self).parts().6.lent_out() {
                        Some(before) => final(self).parts().6.lent_out() is Some && gave_back(
                            before@,
                            final(before)@,
                            final(self).parts().6.lent_out()->0@,
                            final(final(self).parts().6.lent_out()->0)@,
                            row.0,
                            match T7::item_mut(&row.7) {
                                Some(comp) => Some(*final(comp)),
                                None => None,
                            },
                        ),
                        None => final(self).parts().6.lent_out() is None,
                    }
                },
                None => {
                    &&& old(self).slots_left().len() == 0
                    &&& final(self).slots_left() == old(self).slots_left()
                    &&& final(self).parts() == old(self).parts()
                },
            },
    {
        match next_one(&mut self.ones) {
            None => None,
            Some(index) => {
                let ghost before = old(self).comps;
                let ghost left = ones_left(old(self).ones);
                assert(left[0] == index);
                let (id1, item1) = self.comps.0.comp_at_index(index);
                proof {
                    before.0.lemma_handle_at(index as int);
                }
                let item2 = self.comps.1.comp_at(id1);
                let item3 = self.comps.2.comp_at(id1);
                let item4 = self.comps.3.comp_at(id1);
                let item5 = self.comps.4.comp_at(id1);
                let item6 = self.comps.5.comp_at(id1);
                let item7 = self.comps.6.comp_at(id1);
                proof {
                    assert forall|k: int| 0 <= k < left.skip(1).len() implies ({
                        let slot = #[trigger] left.skip(1)[k];
                        &&& self.comps.0.serves_index(slot)
                        &&& self.comps.1.serves(self.comps.0.handle_at(slot))
                        &&& self.comps.2.serves(self.comps.0.handle_at(slot))
                        &&& self.comps.3.serves(self.comps.0.handle_at(slot))
                        &&& self.comps.4.serves(self.comps.0.handle_at(slot))
                        &&& self.comps.5.serves(self.comps.0.handle_at(slot))
                        &&& self.comps.6.serves(self.comps.0.handle_at(slot))
                    }) by {
                        let slot = left[k + 1];
                        assert(left.skip(1)[k] == slot);
                        assert(before.0.serves_index(slot));
                        before.0.lemma_handle_at(slot);
                        assert(before.1.serves(before.0.handle_at(slot)));
                        assert(before.2.serves(before.0.handle_at(slot)));
                        assert(before.3.serves(before.0.handle_at(slot)));
                        assert(before.4.serves(before.0.handle_at(slot)));
                        assert(before.5.serves(before.0.handle_at(slot)));
                        assert(before.6.serves(before.0.handle_at(slot)));
                    }
                }
                Some((id1, item1, item2, item3, item4, item5, item6, item7))
            },
        }
    }

    /// All the rows that are left, in the order in which `next` would
    /// yield them: one for each slot that is left, lowest first, each with
    /// the handle that the first participant has there and what each
    /// participant has for it. The store of a participant that hands out
    /// its components to change gets back every entry under its handle,
    /// with what is written through the reference of its row, or as it was
    /// where no row has a reference for it.
    pub fn collect(self) -> (rows: Vec<(EntityHandle, T1::Item, T2::Item, T3::Item, T4::Item, T5::Item, T6::Item, T7::Item)>)
        requires
            self.wf(),
        ensures
            rows.len() == self.slots_left().len(),
            forall|k: int|
                0 <= k < rows.len() ==> {
                    let row = #[trigger] rows[k];
                    &&& row.0.index() == self.slots_left()[k]
                    &&& row.0 == self.parts().0.handle_at(self.slots_left()[k])
                    &&& self.parts().0.holds(row.0, row.1)
                    &&& self.parts().1.holds(row.0, row.2)
                    &&& self.parts().2.holds(row.0, row.3)
                    &&& self.parts().3.holds(row.0, row.4)
                    &&& self.parts().4.holds(row.0, row.5)
                    &&& self.parts().5.holds(row.0, row.6)
                    &&& self.parts().6.holds(row.0, row.7)
                },
            match self.parts().0.lent_out() {
                Some(before) => gave_back_all(
                    before@,
                    final(before)@,
                    Seq::new(rows.len() as nat, |k: int| rows@[k].0),
                    Seq::new(
                        rows.len() as nat,
                        |k: int|
                            match T1::item_mut(&rows@[k].1) {
                                Some(comp) => Some(*final(comp)),
                                None => None,
                            },
                    ),
                ),
                None => true,
            },
            match self.parts().1.lent_out() {
                Some(before) => gave_back_all(
                    before@,
                    final(before)@,
                    Seq::new(rows.len() as nat, |k: int| rows@[k].0),
                    Seq::new(
                        rows.len() as nat,
                        |k: int|
                            match T2::item_mut(&rows@[k].2) {
                                Some(comp) => Some(*final(comp)),
                                None => None,
                            },
                    ),
                ),
                None => true,
            },
            match self.parts().2.lent_out() {
                Some(before) => gave_back_all(
                    before@,
                    final(before)@,
                    Seq::new(rows.len() as nat, |k: int| rows@[k].0),
                    Seq::new(
                        rows.len() as nat,
                        |k: int|
                            match T3::item_mut(&rows@[k].3) {
                                Some(comp) => Some(*final(comp)),
                                None => None,
                            },
                    ),
                ),
                None => true,
            },
            match self.parts().3.lent_out() {
                Some(before) => gave_back_all(
                    before@,
                    final(before)@,
                    Seq::new(rows.len() as nat, |k: int| rows@[k].0),
                    Seq::new(
                        rows.len() as nat,
                        |k: int|
                            match T4::item_mut(&rows@[k].4) {
                                Some(comp) => Some(*final(comp)),
                                None => None,
                            },
                    ),
                ),
                None => true,
            },
            match self.parts().4.lent_out() {
                Some(before) => gave_back_all(
                    before@,
                    final(before)@,
                    Seq::new(rows.len() as nat, |k: int| rows@[k].0),
                    Seq::new(
                        rows.len() as nat,
                        |k: int|
                            match T5::item_mut(&rows@[k].5) {
                                Some(comp) => Some(*final(comp)),
                                None => None,
                            },
                    ),
                ),
                None => true,
            },
            match self.parts().5.lent_out() {
                Some(before) => gave_back_all(
                    before@,
                    final(before)@,
                    Seq::new(rows.len() as nat, |k: int| rows@[k].0),
                    Seq::new(
                        rows.len() as nat,
                        |k: int|
                            match T6::item_mut(&rows@[k].6) {
                                Some(comp) => Some(*final(comp)),
                                None => None,
                            },
                    ),
                ),
                None => true,
            },
            match self.parts().6.lent_out() {
                Some(before) => gave_back_all(
                    before@,
                    final(before)@,
                    Seq::new(rows.len() as nat, |k: int| rows@[k].0),
                    Seq::new(
                        rows.len() as nat,
                        |k: int|
                            match T7::item_mut(&rows@[k].7) {
                                Some(comp) => Some(*final(comp)),
                                None => None,
                            },
                    ),
                ),
                None => true,
            },
    {
        let ghost start = self.comps;
        let ghost all = ones_left(self.ones);
        let mut walk = self;
        let mut rows: Vec<(EntityHandle, T1::Item, T2::Item, T3::Item, T4::Item, T5::Item, T6::Item, T7::Item)> = Vec::new();
        loop
            invariant
                walk.wf(),
                ascending(all),
                rows.len() <= all.len(),
                walk.slots_left() == all.skip(rows.len() as int),
                led_past(start.0, walk.parts().0, passed(all, rows.len() as int)),
                moved_past(start.1, walk.parts().1, passed(all, rows.len() as int)),
                moved_past(start.2, walk.parts().2, passed(all, rows.len() as int)),
                moved_past(start.3, walk.parts().3, passed(all, rows.len() as int)),
                moved_past(start.4, walk.parts().4, passed(all, rows.len() as int)),
                moved_past(start.5, walk.parts().5, passed(all, rows.len() as int)),
                moved_past(start.6, walk.parts().6, passed(all, rows.len() as int)),
                match start.0.lent_out() {
                    Some(before) => walk.parts().0.lent_out() is Some && {
                        let now = walk.parts().0.lent_out()->0;
                        &&& now@ == before@.skip(before@.len() - now@.len())
                        &&& final(now)@ == final(before)@.skip(before@.len() - now@.len())
                        &&& gave_back_first(
                            before@,
                            final(before)@,
                            before@.len() - now@.len(),
                            Seq::new(rows.len() as nat, |k: int| rows@[k].0),
                            Seq::new(
                                rows.len() as nat,
                                |k: int|
                                    match T1::item_mut(&rows@[k].1) {
                                        Some(comp) => Some(*final(comp)),
                                        None => None,
                                    },
                            ),
                        )
                    },
                    None => walk.parts().0.lent_out() is None,
                },
                match start.1.lent_out() {
                    Some(before) => walk.parts().1.lent_out() is Some && {
                        let now = walk.parts().1.lent_out()->0;
                        &&& now@ == before@.skip(before@.len() - now@.len())
                        &&& final(now)@ == final(before)@.skip(before@.len() - now@.len())
                        &&& gave_back_first(
                            before@,
                            final(before)@,
                            before@.len() - now@.len(),
                            Seq::new(rows.len() as nat, |k: int| rows@[k].0),
                            Seq::new(
                                rows.len() as nat,
                                |k: int|
                                    match T2::item_mut(&rows@[k].2) {
                                        Some(comp) => Some(*final(comp)),
                                        None => None,
                                    },
                            ),
                        )
                    },
                    None => walk.parts().1.lent_out() is None,
                },
                match start.2.lent_out() {
                    Some(before) => walk.parts().2.lent_out() is Some && {
                        let now = walk.parts().2.lent_out()->0;
                        &&& now@ == before@.skip(before@.len() - now@.len())
                        &&& final(now)@ == final(before)@.skip(before@.len() - now@.len())
                        &&& gave_back_first(
                            before@,
                            final(before)@,
                            before@.len() - now@.len(),
                            Seq::new(rows.len() as nat, |k: int| rows@[k].0),
                            Seq::new(
                                rows.len() as nat,
                                |k: int|
                                    match T3::item_mut(&rows@[k].3) {
                                        Some(comp) => Some(*final(comp)),
                                        None => None,
                                    },
                            ),
                        )
                    },
                    None => walk.parts().2.lent_out() is None,
                },
                match start.3.lent_out() {
                    Some(before) => walk.parts().3.lent_out() is Some && {
                        let now = walk.parts().3.lent_out()->0;
                        &&& now@ == before@.skip(before@.len() - now@.len())
                        &&& final(now)@ == final(before)@.skip(before@.len() - now@.len())
                        &&& gave_back_first(
                            before@,
                            final(before)@,
                            before@.len() - now@.len(),
                            Seq::new(rows.len() as nat, |k: int| rows@[k].0),
                            Seq::new(
                                rows.len() as nat,
                                |k: int|
                                    match T4::item_mut(&rows@[k].4) {
                                        Some(comp) => Some(*final(comp)),
                                        None => None,
                                    },
                            ),
                        )
                    },
                    None => walk.parts().3.lent_out() is None,
                },
                match start.4.lent_out() {
                    Some(before) => walk.parts().4.lent_out() is Some && {
                        let now = walk.parts().4.lent_out()->0;
                        &&& now@ == before@.skip(before@.len() - now@.len())
                        &&& final(now)@ == final(before)@.skip(before@.len() - now@.len())
                        &&& gave_back_first(
                            before@,
                            final(before)@,
                            before@.len() - now@.len(),
                            Seq::new(rows.len() as nat, |k: int| rows@[k].0),
                            Seq::new(
                                rows.len() as nat,
                                |k: int|
                                    match T5::item_mut(&rows@[k].5) {
                                        Some(comp) => Some(*final(comp)),
                                        None => None,
                                    },
                            ),
                        )
                    },
                    None => walk.parts().4.lent_out() is None,
                },
                match start.5.lent_out() {
                    Some(before) => walk.parts().5.lent_out() is Some && {
                        let now = walk.parts().5.lent_out()->0;
                        &&& now@ == before@.skip(before@.len() - now@.len())
                        &&& final(now)@ == final(before)@.skip(before@.len() - now@.len())
                        &&& gave_back_first(
                            before@,
                            final(before)@,
                            before@.len() - now@.len(),
                            Seq::new(rows.len() as nat, |k: int| rows@[k].0),
                            Seq::new(
                                rows.len() as nat,
                                |k: int|
                                    match T6::item_mut(&rows@[k].6) {
                                        Some(comp) => Some(*final(comp)),
                                        None => None,
                                    },
                            ),
                        )
                    },
                    None => walk.parts().5.lent_out() is None,
                },
                match start.6.lent_out() {
                    Some(before) => walk.parts().6.lent_out() is Some && {
                        let now = walk.parts().6.lent_out()->0;
                        &&& now@ == before@.skip(before@.len() - now@.len())
                        &&& final(now)@ == final(before)@.skip(before@.len() - now@.len())
                        &&& gave_back_first(
                            before@,
                            final(before)@,
                            before@.len() - now@.len(),
                            Seq::new(rows.len() as nat, |k: int| rows@[k].0),
                            Seq::new(
                                rows.len() as nat,
                                |k: int|
                                    match T7::item_mut(&rows@[k].7) {
                                        Some(comp) => Some(*final(comp)),
                                        None => None,
                                    },
                            ),
                        )
                    },
                    None => walk.parts().6.lent_out() is None,
                },
                forall|k: int|
                    0 <= k < all.len() ==> start.0.serves_index(#[trigger] all[k]),
                forall|k: int|
                    0 <= k < rows.len() ==> {
                        let row = #[trigger] rows[k];
                        &&& row.0.index() == all[k]
                        &&& row.0 == start.0.handle_at(all[k])
                        &&& start.0.holds(row.0, row.1)
                        &&& start.1.holds(row.0, row.2)
                        &&& start.2.holds(row.0, row.3)
                        &&& start.3.holds(row.0, row.4)
                        &&& start.4.holds(row.0, row.5)
                        &&& start.5.holds(row.0, row.6)
                        &&& start.6.holds(row.0, row.7)
                    },
            ensures
                rows.len() == all.len(),
            decreases all.len() - rows.len(),
        {
            let ghost before = walk.comps;
            let ghost done = rows.len() as int;
            match walk.next() {
                None => {
                    break ;
                },
                Some(row) => {
                    proof {
                        assert(all.skip(done)[0] == all[done]);
                        assert(all.skip(done).skip(1) =~= all.skip(done + 1));
                        if done > 0 {
                            assert(all[done - 1] < all[done]);
                        }
                        let p = passed(all, done);
                        let q = all[done];
                        lemma_led_past_twice(start.0, before.0, walk.comps.0, p, q);
                        lemma_moved_past_twice(start.1, before.1, walk.comps.1, p, q);
                        lemma_moved_past_twice(start.2, before.2, walk.comps.2, p, q);
                        lemma_moved_past_twice(start.3, before.3, walk.comps.3, p, q);
                        lemma_moved_past_twice(start.4, before.4, walk.comps.4, p, q);
                        lemma_moved_past_twice(start.5, before.5, walk.comps.5, p, q);
                        lemma_moved_past_twice(start.6, before.6, walk.comps.6, p, q);
                    }
                    let ghost handles = Seq::new(rows.len() as nat, |k: int| rows@[k].0);
                    let ghost so_far = rows@;
                    let ghost handle = row.0;
                    rows.push(row);
                    proof {
                        assert(Seq::new(rows.len() as nat, |k: int| rows@[k].0) =~= handles.push(handle));
                        if start.0.lent_out() is Some {
                            let first = start.0.lent_out()->0;
                            let now = before.0.lent_out()->0;
                            let after = walk.comps.0.lent_out()->0;
                            assert(Seq::new(
                                rows.len() as nat,
                                |k: int|
                                    match T1::item_mut(&rows@[k].1) {
                                        Some(comp) => Some(*final(comp)),
                                        None => None,
                                    },
                            ) =~= Seq::new(
                                so_far.len(),
                                |k: int|
                                    match T1::item_mut(&so_far[k].1) {
                                        Some(comp) => Some(*final(comp)),
                                        None => None,
                                    },
                            ).push(
                                match T1::item_mut(&rows@[done].1) {
                                    Some(comp) => Some(*final(comp)),
                                    None => None,
                                },
                            ));
                            lemma_gave_back_more(
                                first@,
                                final(first)@,
                                first@.len() - now@.len(),
                                handles,
                                Seq::new(
                                    so_far.len(),
                                    |k: int|
                                        match T1::item_mut(&so_far[k].1) {
                                            Some(comp) => Some(*final(comp)),
                                            None => None,
                                        },
                                ),
                                now@,
                                final(now)@,
                                after@,
                                final(after)@,
                                handle,
                                match T1::item_mut(&rows@[done].1) {
                                    Some(comp) => Some(*final(comp)),
                                    None => None,
                                },
                            );
                        }
                        if start.1.lent_out() is Some {
                            let first = start.1.lent_out()->0;
                            let now = before.1.lent_out()->0;
                            let after = walk.comps.1.lent_out()->0;
                            assert(Seq::new(
                                rows.len() as nat,
                                |k: int|
                                    match T2::item_mut(&rows@[k].2) {
                                        Some(comp) => Some(*final(comp)),
                                        None => None,
                                    },
                            ) =~= Seq::new(
                                so_far.len(),
                                |k: int|
                                    match T2::item_mut(&so_far[k].2) {
                                        Some(comp) => Some(*final(comp)),
                                        None => None,
                                    },
                            ).push(
                                match T2::item_mut(&rows@[done].2) {
                                    Some(comp) => Some(*final(comp)),
                                    None => None,
                                },
                            ));
                            lemma_gave_back_more(
                                first@,
                                final(first)@,
                                first@.len() - now@.len(),
                                handles,
                                Seq::new(
                                    so_far.len(),
                                    |k: int|
                                        match T2::item_mut(&so_far[k].2) {
                                            Some(comp) => Some(*final(comp)),
                                            None => None,
                                        },
                                ),
                                now@,
                                final(now)@,
                                after@,
                                final(after)@,
                                handle,
                                match T2::item_mut(&rows@[done].2) {
                                    Some(comp) => Some(*final(comp)),
                                    None => None,
                                },
                            );
                        }
                        if start.2.lent_out() is Some {
                            let first = start.2.lent_out()->0;
                            let now = before.2.lent_out()->0;
                            let after = walk.comps.2.lent_out()->0;
                            assert(Seq::new(
                                rows.len() as nat,
                                |k: int|
                                    match T3::item_mut(&rows@[k].3) {
                                        Some(comp) => Some(*final(comp)),
                                        None => None,
                                    },
                            ) =~= Seq::new(
                                so_far.len(),
                                |k: int|
                                    match T3::item_mut(&so_far[k].3) {
                                        Some(comp) => Some(*final(comp)),
                                        None => None,
                                    },
                            ).push(
                                match T3::item_mut(&rows@[done].3) {
                                    Some(comp) => Some(*final(comp)),
                                    None => None,
                                },
                            ));
                            lemma_gave_back_more(
                                first@,
                                final(first)@,
                                first@.len() - now@.len(),
                                handles,
                                Seq::new(
                                    so_far.len(),
                                    |k: int|
                                        match T3::item_mut(&so_far[k].3) {
                                            Some(comp) => Some(*final(comp)),
                                            None => None,
                                        },
                                ),
                                now@,
                                final(now)@,
                                after@,
                                final(after)@,
                                handle,
                                match T3::item_mut(&rows@[done].3) {
                                    Some(comp) => Some(*final(comp)),
                                    None => None,
                                },
                            );
                        }
                        if start.3.lent_out() is Some {
                            let first = start.3.lent_out()->0;
                            let now = before.3.lent_out()->0;
                            let after = walk.comps.3.lent_out()->0;
                            assert(Seq::new(
                                rows.len() as nat,
                                |k: int|
                                    match T4::item_mut(&rows@[k].4) {
                                        Some(comp) => Some(*final(comp)),
                                        None => None,
                                    },
                            ) =~= Seq::new(
                                so_far.len(),
                                |k: int|
                                    match T4::item_mut(&so_far[k].4) {
                                        Some(comp) => Some(*final(comp)),
                                        None => None,
                                    },
                            ).push(
                                match T4::item_mut(&rows@[done].4) {
                                    Some(comp) => Some(*final(comp)),
                                    None => None,
                                },
                            ));
                            lemma_gave_back_more(
                                first@,
                                final(first)@,
                                first@.len() - now@.len(),
                                handles,
                                Seq::new(
                                    so_far.len(),
                                    |k: int|
                                        match T4::item_mut(&so_far[k].4) {
                                            Some(comp) => Some(*final(comp)),
                                            None => None,
                                        },
                                ),
                                now@,
                                final(now)@,
                                after@,
                                final(after)@,
                                handle,
                                match T4::item_mut(&rows@[done].4) {
                                    Some(comp) => Some(*final(comp)),
                                    None => None,
                                },
                            );
                        }
                        if start.4.lent_out() is Some {
                            let first = start.4.lent_out()->0;
                            let now = before.4.lent_out()->0;
                            let after = walk.comps.4.lent_out()->0;
                            assert(Seq::new(
                                rows.len() as nat,
                                |k: int|
                                    match T5::item_mut(&rows@[k].5) {
                                        Some(comp) => Some(*final(comp)),
                                        None => None,
                                    },
                            ) =~= Seq::new(
                                so_far.len(),
                                |k: int|
                                    match T5::item_mut(&so_far[k].5) {
                                        Some(comp) => Some(*final(comp)),
                                        None => None,
                                    },
                            ).push(
                                match T5::item_mut(&rows@[done].5) {
                                    Some(comp) => Some(*final(comp)),
                                    None => None,
                                },
                            ));
                            lemma_gave_back_more(
                                first@,
                                final(first)@,
                                first@.len() - now@.len(),
                                handles,
                                Seq::new(
                                    so_far.len(),
                                    |k: int|
                                        match T5::item_mut(&so_far[k].5) {
                                            Some(comp) => Some(*final(comp)),
                                            None => None,
                                        },
                                ),
                                now@,
                                final(now)@,
                                after@,
                                final(after)@,
                                handle,
                                match T5::item_mut(&rows@[done].5) {
                                    Some(comp) => Some(*final(comp)),
                                    None => None,
                                },
                            );
                        }
                        if start.5.lent_out() is Some {
                            let first = start.5.lent_out()->0;
                            let now = before.5.lent_out()->0;
                            let after = walk.comps.5.lent_out()->0;
                            assert(Seq::new(
                                rows.len() as nat,
                                |k: int|
                                    match T6::item_mut(&rows@[k].6) {
                                        Some(comp) => Some(*final(comp)),
                                        None => None,
                                    },
                            ) =~= Seq::new(
                                so_far.len(),
                                |k: int|
                                    match T6::item_mut(&so_far[k].6) {
                                        Some(comp) => Some(*final(comp)),
                                        None => None,
                                    },
                            ).push(
                                match T6::item_mut(&rows@[done].6) {
                                    Some(comp) => Some(*final(comp)),
                                    None => None,
                                },
                            ));
                            lemma_gave_back_more(
                                first@,
                                final(first)@,
                                first@.len() - now@.len(),
                                handles,
                                Seq::new(
                                    so_far.len(),
                                    |k: int|
                                        match T6::item_mut(&so_far[k].6) {
                                            Some(comp) => Some(*final(comp)),
                                            None => None,
                                        },
                                ),
                                now@,
                                final(now)@,
                                after@,
                                final(after)@,
                                handle,
                                match T6::item_mut(&rows@[done].6) {
                                    Some(comp) => Some(*final(comp)),
                                    None => None,
                                },
                            );
                        }
                        if start.6.lent_out() is Some {
                            let first = start.6.lent_out()->0;
                            let now = before.6.lent_out()->0;
                            let after = walk.comps.6.lent_out()->0;
                            assert(Seq::new(
                                rows.len() as nat,
                                |k: int|
                                    match T7::item_mut(&rows@[k].7) {
                                        Some(comp) => Some(*final(comp)),
                                        None => None,
                                    },
                            ) =~= Seq::new(
                                so_far.len(),
                                |k: int|
                                    match T7::item_mut(&so_far[k].7) {
                                        Some(comp) => Some(*final(comp)),
                                        None => None,
                                    },
                            ).push(
                                match T7::item_mut(&rows@[done].7) {
                                    Some(comp) => Some(*final(comp)),
                                    None => None,
                                },
                            ));
                            lemma_gave_back_more(
                                first@,
                                final(first)@,
                                first@.len() - now@.len(),
                                handles,
                                Seq::new(
                                    so_far.len(),
                                    |k: int|
                                        match T7::item_mut(&so_far[k].7) {
                                            Some(comp) => Some(*final(comp)),
                                            None => None,
                                        },
                                ),
                                now@,
                                final(now)@,
                                after@,
                                final(after)@,
                                handle,
                                match T7::item_mut(&rows@[done].7) {
                                    Some(comp) => Some(*final(comp)),
                                    None => None,
                                },
                            );
                        }
                    }
                },
            }
        }
        proof {
            walk.lemma_done();
            walk.comps.0.lemma_given_back();
            if start.0.lent_out() is Some {
                let first = start.0.lent_out()->0;
                let now = walk.comps.0.lent_out()->0;
                lemma_gave_back_rest(
                    first@,
                    final(first)@,
                    first@.len() - now@.len(),
                    Seq::new(rows.len() as nat, |k: int| rows@[k].0),
                    Seq::new(
                        rows.len() as nat,
                        |k: int|
                            match T1::item_mut(&rows@[k].1) {
                                Some(comp) => Some(*final(comp)),
                                None => None,
                            },
                    ),
                );
            }
            walk.comps.1.lemma_given_back();
            if start.1.lent_out() is Some {
                let first = start.1.lent_out()->0;
                let now = walk.comps.1.lent_out()->0;
                lemma_gave_back_rest(
                    first@,
                    final(first)@,
                    first@.len() - now@.len(),
                    Seq::new(rows.len() as nat, |k: int| rows@[k].0),
                    Seq::new(
                        rows.len() as nat,
                        |k: int|
                            match T2::item_mut(&rows@[k].2) {
                                Some(comp) => Some(*final(comp)),
                                None => None,
                            },
                    ),
                );
            }
            walk.comps.2.lemma_given_back();
            if start.2.lent_out() is Some {
                let first = start.2.lent_out()->0;
                let now = walk.comps.2.lent_out()->0;
                lemma_gave_back_rest(
                    first@,
                    final(first)@,
                    first@.len() - now@.len(),
                    Seq::new(rows.len() as nat, |k: int| rows@[k].0),
                    Seq::new(
                        rows.len() as nat,
                        |k: int|
                            match T3::item_mut(&rows@[k].3) {
                                Some(comp) => Some(*final(comp)),
                                None => None,
                            },
                    ),
                );
            }
            walk.comps.3.lemma_given_back();
            if start.3.lent_out() is Some {
                let first = start.3.lent_out()->0;
                let now = walk.comps.3.lent_out()->0;
                lemma_gave_back_rest(
                    first@,
                    final(first)@,
                    first@.len() - now@.len(),
                    Seq::new(rows.len() as nat, |k: int| rows@[k].0),
                    Seq::new(
                        rows.len() as nat,
                        |k: int|
                            match T4::item_mut(&rows@[k].4) {
                                Some(comp) => Some(*final(comp)),
                                None => None,
                            },
                    ),
                );
            }
            walk.comps.4.lemma_given_back();
            if start.4.lent_out() is Some {
                let first = start.4.lent_out()->0;
                let now = walk.comps.4.lent_out()->0;
                lemma_gave_back_rest(
                    first@,
                    final(first)@,
                    first@.len() - now@.len(),
                    Seq::new(rows.len() as nat, |k: int| rows@[k].0),
                    Seq::new(
                        rows.len() as nat,
                        |k: int|
                            match T5::item_mut(&rows@[k].5) {
                                Some(comp) => Some(*final(comp)),
                                None => None,
                            },
                    ),
                );
            }
            walk.comps.5.lemma_given_back();
            if start.5.lent_out() is Some {
                let first = start.5.lent_out()->0;
                let now = walk.comps.5.lent_out()->0;
                lemma_gave_back_rest(
                    first@,
                    final(first)@,
                    first@.len() - now@.len(),
                    Seq::new(rows.len() as nat, |k: int| rows@[k].0),
                    Seq::new(
                        rows.len() as nat,
                        |k: int|
                            match T6::item_mut(&rows@[k].6) {
                                Some(comp) => Some(*final(comp)),
                                None => None,
                            },
                    ),
                );
            }
            walk.comps.6.lemma_given_back();
            if start.6.lent_out() is Some {
                let first = start.6.lent_out()->0;
                let now = walk.comps.6.lent_out()->0;
                lemma_gave_back_rest(
                    first@,
                    final(first)@,
                    first@.len() - now@.len(),
                    Seq::new(rows.len() as nat, |k: int| rows@[k].0),
                    Seq::new(
                        rows.len() as nat,
                        |k: int|
                            match T7::item_mut(&rows@[k].7) {
                                Some(comp) => Some(*final(comp)),
                                None => None,
                            },
                    ),
                );
            }
        }
        rows
    }
}

} // verus!
