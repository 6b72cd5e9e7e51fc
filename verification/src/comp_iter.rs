//! Cursors over single stores, and what a join asks of its participants.

use crate::bits::ascending;
use crate::bits::bit_len;
use crate::bits::bounded_by;
use crate::bits::count_in;
use crate::bits::count_ones_in;
use crate::bits::lemma_count_split;
use crate::bits::set_bits;
use crate::comp_vec::CompVec;
use crate::dense::dense_from;
use crate::dense::lemma_dense_skip;
use crate::entity_handle::EntityHandle;
use fixedbitset::FixedBitSet;
use vstd::prelude::*;

verus! {

/// The entries that a cursor at `position` has yet to reach, by slot.
pub open spec fn pending<T>(entries: Seq<(EntityHandle, T)>, slots: Set<int>, position: int) -> Map<
    int,
    (EntityHandle, T),
> {
    Map::new(
        |i: int| position <= i && slots.contains(i),
        |i: int| entries[count_in(slots, position, i) as int],
    )
}

/// What is left of `m` from slot `from` on.
pub open spec fn from_slot<V>(m: Map<int, V>, from: int) -> Map<int, V> {
    m.restrict(Set::new(|i: int| from <= i))
}

/// Skipping to `to` leaves the pending entries from `to` on as they were.
pub proof fn lemma_pending_skip<T>(
    entries: Seq<(EntityHandle, T)>,
    slots: Set<int>,
    from: int,
    to: int,
)
    requires
        dense_from(entries, slots, from),
        from <= to,
    ensures
        count_in(slots, from, to) <= entries.len(),
        dense_from(entries.skip(count_in(slots, from, to) as int), slots, to),
        pending(entries.skip(count_in(slots, from, to) as int), slots, to) == from_slot(
            pending(entries, slots, from),
            to,
        ),
{
    lemma_dense_skip(entries, slots, from, to);
    let k = count_in(slots, from, to) as int;
    let after = pending(entries.skip(k), slots, to);
    let expected = from_slot(pending(entries, slots, from), to);
    assert forall|i: int| after.dom().contains(i) implies #[trigger] after[i] == expected[i] by {
        lemma_count_split(slots, from, to, i);
    }
    assert(after =~= expected);
}

/// The first entry belongs to the lowest pending slot, and what follows it
/// is what is pending past that slot.
pub proof fn lemma_pending_first<T>(entries: Seq<(EntityHandle, T)>, slots: Set<int>, from: int)
    requires
        dense_from(entries, slots, from),
        entries.len() > 0,
    ensures
        pending(entries, slots, from).dom().contains(entries[0].0.index() as int),
        pending(entries, slots, from)[entries[0].0.index() as int] == entries[0],
        forall|i: int| #[trigger]
            pending(entries, slots, from).dom().contains(i) ==> entries[0].0.index() <= i,
        dense_from(entries.skip(1), slots, entries[0].0.index() + 1),
        pending(entries.skip(1), slots, entries[0].0.index() + 1) == from_slot(
            pending(entries, slots, from),
            entries[0].0.index() + 1,
        ),
{
    let first = entries[0].0.index() as int;
    assert(count_in(slots, from, first) == 0);
    assert(count_in(slots, from, first + 1) == 1);
    lemma_pending_skip(entries, slots, from, first + 1);
    assert forall|i: int| #[trigger]
        pending(entries, slots, from).dom().contains(i) implies first <= i by {
        if i < first {
            crate::bits::lemma_count_member(slots, from, i, first);
        }
    }
}

/// A cursor over the entries of one store, in ascending order of slot.
pub struct Iter<'a, T> {
    next_entity_ind: usize,
    owners: &'a FixedBitSet,
    vec: &'a [(EntityHandle, T)],
}

impl<'a, T> View for Iter<'a, T> {
    type V = Map<int, (EntityHandle, T)>;

    /// The entries that the cursor has yet to reach, by slot.
    open spec fn view(&self) -> Map<int, (EntityHandle, T)> {
        pending(self.remaining(), self.slots(), self.position())
    }
}

impl<'a, T> Iter<'a, T> {
    /// The lowest slot that the cursor has not passed.
    pub closed spec fn position(&self) -> int {
        self.next_entity_ind as int
    }

    /// The slots of the store, passed or not.
    pub closed spec fn slots(&self) -> Set<int> {
        set_bits(*self.owners)
    }

    /// The length of the store's presence set.
    pub closed spec fn capacity(&self) -> nat {
        bit_len(*self.owners)
    }

    /// The entries that the cursor has yet to reach, in order.
    pub closed spec fn remaining(&self) -> Seq<(EntityHandle, T)> {
        self.vec@
    }

    /// The cursor's invariant: what remains are the entries of the slots
    /// from the position on.
    pub closed spec fn wf(&self) -> bool {
        &&& dense_from(self.vec@, set_bits(*self.owners), self.next_entity_ind as int)
        &&& bounded_by(set_bits(*self.owners), bit_len(*self.owners) as int)
    }

    /// The cursor stands at the start of `store`: everything is yet to
    /// come.
    pub open spec fn covers(&self, store: CompVec<T>) -> bool {
        &&& self.wf()
        &&& self.position() == 0
        &&& self.remaining() == store.dense()
        &&& self.slots() == store.slots()
        &&& self.capacity() == store.capacity()
        &&& self@ == store@
    }

    /// What the invariant says in terms of the public model.
    pub proof fn lemma_wf(&self)
        requires
            self.wf(),
        ensures
            dense_from(self.remaining(), self.slots(), self.position()),
            bounded_by(self.slots(), self.capacity() as int),
    {
    }

    pub(crate) fn new(vec: &'a [(EntityHandle, T)], owners: &'a FixedBitSet) -> (it: Self)
        requires
            dense_from(vec@, set_bits(*owners), 0),
            bounded_by(set_bits(*owners), bit_len(*owners) as int),
        ensures
            it.wf(),
            it.position() == 0,
            it.remaining() == vec@,
            it.slots() == set_bits(*owners),
            it.capacity() == bit_len(*owners),
    {
        Self { next_entity_ind: 0, vec, owners }
    }

    /// Moves the cursor up to `entity_index`, past the entries of the slots
    /// below it.
    fn advance_forward_to(&mut self, entity_index: usize)
        requires
            old(self).wf(),
            old(self).position() <= entity_index <= old(self).capacity(),
        ensures
            final(self).wf(),
            final(self).position() == entity_index,
            final(self).slots() == old(self).slots(),
            final(self).capacity() == old(self).capacity(),
            final(self)@ == from_slot(old(self)@, entity_index as int),
    {
        let advance_by = count_ones_in(self.owners, self.next_entity_ind, entity_index);
        proof {
            lemma_pending_skip(
                self.vec@,
                set_bits(*self.owners),
                self.next_entity_ind as int,
                entity_index as int,
            );
        }
        self.vec = self.vec.split_at(advance_by).1;
        assert(self.vec@ =~= old(self).vec@.skip(advance_by as int));
        self.next_entity_ind = entity_index;
    }

    /// Make the cursor optional: in a join it then narrows nothing, and
    /// yields `None` for the entities that its store has nothing for.
    pub fn optional(self) -> (wrapped: Optional<Self>)
        ensures
            wrapped.inner() == self,
    {
        Optional(self)
    }

    /// The next entry, if there is one: that of the lowest slot not yet
    /// passed.
    pub fn next(&mut self) -> (entry: Option<(EntityHandle, &'a T)>)
        requires
            old(self).wf(),
        ensures
            final(self).wf(),
            final(self).slots() == old(self).slots(),
            final(self).capacity() == old(self).capacity(),
            match entry {
                Some((id, out)) => {
                    &&& old(self).remaining().len() > 0
                    &&& (id, *out) == old(self).remaining()[0]
                    &&& final(self).remaining() == old(self).remaining().skip(1)
                    &&& final(self).position() == id.index() + 1
                    &&& old(self)@.dom().contains(id.index() as int)
                    &&& old(self)@[id.index() as int] == (id, *out)
                    &&& forall|i: int| #[trigger] old(self)@.dom().contains(i) ==> id.index() <= i
                    &&& final(self)@ == from_slot(old(self)@, id.index() + 1)
                },
                None => {
                    &&& old(self).remaining().len() == 0
                    &&& old(self)@.dom() =~= Set::<int>::empty()
                    &&& final(self).remaining() == old(self).remaining()
                    &&& final(self).position() == old(self).position()
                },
            },
    {
        if self.vec.len() == 0 {
            None
        } else {
            proof {
                lemma_pending_first(
                    self.vec@,
                    set_bits(*self.owners),
                    self.next_entity_ind as int,
                );
            }
            let (id, out) = &self.vec[0];
            let rest = self.vec.split_at(1).1;
            assert(rest@ =~= self.vec@.skip(1));
            self.vec = rest;
            self.next_entity_ind = id.index() + 1;
            Some((*id, out))
        }
    }
}

/// What a cursor that hands out its entries to change gives back as it
/// moves on. `before` is what its borrow of the entries yet to come held
/// before the move and `before_end` what that borrow holds in the end;
/// `after` and `after_end` are the same of the borrow that it is left with,
/// which is the rest of the first. The entries that the cursor passed go
/// back as they were, but for the one that it handed out for `handle`, if
/// it handed one out: that one goes back with the component `written`
/// through the reference.
pub open spec fn gave_back<C>(
    before: Seq<(EntityHandle, C)>,
    before_end: Seq<(EntityHandle, C)>,
    after: Seq<(EntityHandle, C)>,
    after_end: Seq<(EntityHandle, C)>,
    handle: EntityHandle,
    written: Option<C>,
) -> bool {
    let passed = before.len() - after.len();
    &&& 0 <= passed
    &&& after == before.skip(passed)
    &&& match written {
        Some(comp) => {
            &&& passed >= 1
            &&& before[passed - 1].0 == handle
            &&& before_end == before.take(passed - 1).push((handle, comp)) + after_end
        },
        None => before_end == before.take(passed) + after_end,
    }
}

/// What a cursor that hands out its entries to change has given back for
/// the first `n` of the entries `before`, after it handed out a component
/// for each of `handles`, in that order, through which `written` was
/// written, where anything could be: every entry still stands under its
/// handle, every component written stands under the handle that it was
/// handed out for, and an entry that no component was written for is as it
/// was.
pub open spec fn gave_back_first<C>(
    before: Seq<(EntityHandle, C)>,
    before_end: Seq<(EntityHandle, C)>,
    n: int,
    handles: Seq<EntityHandle>,
    written: Seq<Option<C>>,
) -> bool {
    &&& 0 <= n <= before.len()
    &&& n <= before_end.len()
    &&& handles.len() == written.len()
    &&& forall|p: int| 0 <= p < n ==> (#[trigger] before_end[p]).0 == before[p].0
    &&& forall|k: int|
        0 <= k < written.len() && (#[trigger] written[k]) is Some ==> exists|p: int|
            0 <= p < n && #[trigger] before_end[p] == (handles[k], written[k]->0)
    &&& forall|p: int|
        0 <= p < n ==> (#[trigger] before_end[p]) == before[p] || exists|k: int|
            0 <= k < written.len() && #[trigger] written[k] == Some(before_end[p].1) && handles[k]
                == before[p].0
}

/// [`gave_back_first`] for all the entries: what a cursor has given back
/// once it is done with.
pub open spec fn gave_back_all<C>(
    before: Seq<(EntityHandle, C)>,
    before_end: Seq<(EntityHandle, C)>,
    handles: Seq<EntityHandle>,
    written: Seq<Option<C>>,
) -> bool {
    &&& before_end.len() == before.len()
    &&& gave_back_first(before, before_end, before.len() as int, handles, written)
}

/// One more move adds to what a cursor has given back.
pub proof fn lemma_gave_back_more<C>(
    before: Seq<(EntityHandle, C)>,
    before_end: Seq<(EntityHandle, C)>,
    n: int,
    handles: Seq<EntityHandle>,
    written: Seq<Option<C>>,
    now: Seq<(EntityHandle, C)>,
    now_end: Seq<(EntityHandle, C)>,
    after: Seq<(EntityHandle, C)>,
    after_end: Seq<(EntityHandle, C)>,
    handle: EntityHandle,
    more: Option<C>,
)
    requires
        gave_back_first(before, before_end, n, handles, written),
        now == before.skip(n),
        now_end == before_end.skip(n),
        gave_back(now, now_end, after, after_end, handle, more),
    ensures
        gave_back_first(
            before,
            before_end,
            n + now.len() - after.len(),
            handles.push(handle),
            written.push(more),
        ),
        after == before.skip(n + now.len() - after.len()),
        after_end == before_end.skip(n + now.len() - after.len()),
{
    let passed = now.len() - after.len();
    let m = n + passed;
    let hs = handles.push(handle);
    let ws = written.push(more);
    assert(after =~= before.skip(m));
    assert(now_end.len() == passed + after_end.len());
    assert(after_end =~= before_end.skip(m)) by {
        assert forall|q: int| 0 <= q < after_end.len() implies after_end[q] == before_end.skip(
            m,
        )[q] by {
            assert(now_end[passed + q] == after_end[q]);
            assert(before_end[n + (passed + q)] == now_end[passed + q]);
        }
    }
    assert forall|p: int| 0 <= p < m implies ((#[trigger] before_end[p]).0 == before[p].0 && (
    before_end[p] == before[p] || exists|k: int|
        0 <= k < ws.len() && #[trigger] ws[k] == Some(before_end[p].1) && hs[k] == before[p].0))
        by {
        if p < n {
            if before_end[p] != before[p] {
                let k = choose|k: int|
                    0 <= k < written.len() && #[trigger] written[k] == Some(before_end[p].1)
                        && handles[k] == before[p].0;
                assert(ws[k] == written[k]);
                assert(hs[k] == handles[k]);
            }
        } else {
            let q = p - n;
            assert(before_end[p] == now_end[q]);
            assert(before[p] == now[q]);
            if more is Some && q == passed - 1 {
                assert(ws[written.len() as int] == more);
                assert(hs[written.len() as int] == handle);
            } else {
                assert(now_end[q] == now[q]);
            }
        }
    }
    assert forall|k: int| 0 <= k < ws.len() && (#[trigger] ws[k]) is Some implies exists|p: int|
        0 <= p < m && #[trigger] before_end[p] == (hs[k], ws[k]->0) by {
        if k < written.len() {
            assert(ws[k] == written[k]);
            assert(hs[k] == handles[k]);
            let p = choose|p: int|
                0 <= p < n && #[trigger] before_end[p] == (handles[k], written[k]->0);
            assert(before_end[p] == (hs[k], ws[k]->0));
        } else {
            let p = n + passed - 1;
            assert(before_end[p] == now_end[passed - 1]);
            assert(before_end[p] == (hs[k], ws[k]->0));
        }
    }
}

/// Where the entries that a cursor did not reach go back as they were,
/// what it has given back for the first `n` is what it has given back.
pub proof fn lemma_gave_back_rest<C>(
    before: Seq<(EntityHandle, C)>,
    before_end: Seq<(EntityHandle, C)>,
    n: int,
    handles: Seq<EntityHandle>,
    written: Seq<Option<C>>,
)
    requires
        gave_back_first(before, before_end, n, handles, written),
        before_end.skip(n) == before.skip(n),
    ensures
        gave_back_all(before, before_end, handles, written),
{
    let rest = before.skip(n);
    assert(before_end.skip(n).len() == before_end.len() - n);
    assert(rest.len() == before.len() - n);
    assert(before_end.len() == before.len());
    assert forall|p: int| n <= p < before.len() implies #[trigger] before_end[p] == before[p] by {
        assert(before_end.skip(n)[p - n] == before_end[p]);
        assert(rest[p - n] == before[p]);
    }
    assert forall|k: int|
        0 <= k < written.len() && (#[trigger] written[k]) is Some implies exists|p: int|
        0 <= p < before.len() && #[trigger] before_end[p] == (handles[k], written[k]->0) by {
        let p = choose|p: int| 0 <= p < n && #[trigger] before_end[p] == (handles[k], written[k]->0);
        assert(before_end[p] == (handles[k], written[k]->0));
    }
}

/// Where no two entries stand under one handle, what was written for a
/// handle is what the entry of that handle holds in the end.
pub proof fn lemma_written_entry<C>(
    before: Seq<(EntityHandle, C)>,
    before_end: Seq<(EntityHandle, C)>,
    handles: Seq<EntityHandle>,
    written: Seq<Option<C>>,
    k: int,
    p: int,
)
    requires
        gave_back_all(before, before_end, handles, written),
        forall|i: int, j: int| 0 <= i < j < before.len() ==> before[i].0 != before[j].0,
        0 <= k < written.len(),
        written[k] is Some,
        0 <= p < before.len(),
        before[p].0 == handles[k],
    ensures
        before_end[p] == (handles[k], written[k]->0),
{
    let q = choose|q: int|
        0 <= q < before.len() && #[trigger] before_end[q] == (handles[k], written[k]->0);
    assert(before_end[q].0 == before[q].0);
    if q < p {
        assert(before[q].0 != before[p].0);
    }
    if p < q {
        assert(before[p].0 != before[q].0);
    }
}

/// An entry for whose handle nothing was written is in the end as it was.
pub proof fn lemma_untouched_entry<C>(
    before: Seq<(EntityHandle, C)>,
    before_end: Seq<(EntityHandle, C)>,
    handles: Seq<EntityHandle>,
    written: Seq<Option<C>>,
    p: int,
)
    requires
        gave_back_all(before, before_end, handles, written),
        0 <= p < before.len(),
        forall|k: int|
            0 <= k < written.len() ==> (#[trigger] written[k]) is None || handles[k] != before[p].0,
    ensures
        before_end[p] == before[p],
{
    if before_end[p] != before[p] {
        let k = choose|k: int|
            0 <= k < written.len() && #[trigger] written[k] == Some(before_end[p].1) && handles[k]
                == before[p].0;
        assert(written[k] is Some);
    }
}

/// A participant of a join: something that can say which slots it insists
/// on, and hand out what it holds for one entity after another, in
/// ascending order of slot.
pub trait CompIterer: Sized {
    type Item;

    /// The type of the components behind the participant.
    type Comp;

    /// The participant's own invariant.
    spec fn ready(&self) -> bool;

    /// The borrow of the entries yet to come, where the participant hands
    /// out its components to change. What the borrow holds in the end is
    /// what the store gets back.
    spec fn lent_out<'x>(&'x self) -> Option<&'x mut [(EntityHandle, Self::Comp)]>;

    /// The reference in `item`, where `item` is, or holds, one through
    /// which the component can be changed.
    spec fn item_mut<'x>(item: &'x Self::Item) -> Option<&'x mut Self::Comp>;

    /// Once the participant is done with, the store gets back the entries
    /// that were yet to come as they are.
    proof fn lemma_given_back(&self)
        requires
            has_resolved(*self),
        ensures
            match self.lent_out() {
                Some(rest) => final(rest)@ == rest@,
                None => true,
            },
    ;

    /// The slots of the store behind the participant.
    spec fn owner_bits(&self) -> Set<int>;

    /// What is left of the working set `working` of a join once this
    /// participant had its say.
    spec fn combined(&self, working: Set<int>) -> Set<int>;

    /// The participant can be asked for `handle` now.
    spec fn serves(&self, handle: EntityHandle) -> bool;

    /// `item` is what the participant has for `handle`.
    spec fn holds(&self, handle: EntityHandle, item: Self::Item) -> bool;

    /// Narrows the working set of a join to what this participant allows.
    fn combine_owners(&self, owners: &mut FixedBitSet)
        ensures
            set_bits(*final(owners)) == self.combined(set_bits(*old(owners))),
            bit_len(*final(owners)) == bit_len(*old(owners)),
    ;

    /// What the participant has for `entity_handle`. Afterwards it can
    /// still be asked for every entity of a higher slot that it could be
    /// asked for before, with the same answer.
    fn comp_at(&mut self, entity_handle: EntityHandle) -> (item: Self::Item)
        requires
            old(self).ready(),
            old(self).serves(entity_handle),
        ensures
            final(self).ready(),
            final(self).owner_bits() == old(self).owner_bits(),
            old(self).holds(entity_handle, item),
            forall|later: EntityHandle|
                later.index() > entity_handle.index() && #[trigger] old(self).serves(later)
                    ==> final(self).serves(later),
            forall|later: EntityHandle, other: Self::Item|
                later.index() > entity_handle.index() ==> (#[trigger] final(self).holds(
                    later,
                    other,
                ) <==> old(self).holds(later, other)),
            match old(self).lent_out() {
                Some(before) => final(self).lent_out() is Some && gave_back(
                    before@,
                    final(before)@,
                    final(self).lent_out()->0@,
                    final(final(self).lent_out()->0)@,
                    entity_handle,
                    match Self::item_mut(&item) {
                        Some(comp) => Some(*final(comp)),
                        None => None,
                    },
                ),
                None => final(self).lent_out() is None,
            },
    ;
}

/// `post` is `pre` after it moved past slot `passed`, or did not move:
/// whatever `pre` served above `passed`, `post` serves, with the same
/// answer.
pub open spec fn moved_past<C: CompIterer>(pre: C, post: C, passed: int) -> bool {
    &&& post.ready()
    &&& post.owner_bits() == pre.owner_bits()
    &&& forall|later: EntityHandle|
        later.index() > passed && #[trigger] pre.serves(later) ==> post.serves(later)
    &&& forall|later: EntityHandle, other: C::Item|
        later.index() > passed ==> (#[trigger] post.holds(later, other) <==> pre.holds(
            later,
            other,
        ))
}

/// [`moved_past`] for a participant that leads: the slots above `passed`
/// that `pre` served, `post` serves under the same handles.
pub open spec fn led_past<C: NonOptionalCompIterer>(pre: C, post: C, passed: int) -> bool {
    &&& moved_past(pre, post, passed)
    &&& forall|later: int|
        later > passed && #[trigger] pre.serves_index(later) ==> post.serves_index(later)
            && post.handle_at(later) == pre.handle_at(later)
}

/// `lead` can lead a walk over `working`: it is in order and can be asked
/// for every slot of `working`.
pub open spec fn serves_all<L: NonOptionalCompIterer>(lead: L, working: Set<int>) -> bool {
    &&& lead.ready()
    &&& forall|slot: int| #[trigger] working.contains(slot) ==> lead.serves_index(slot)
}

/// `part` can follow `lead` on a walk over `working`: it is in order and
/// can be asked for the handle that `lead` has at each slot of `working`.
pub open spec fn follows<L: NonOptionalCompIterer, P: CompIterer>(
    lead: L,
    part: P,
    working: Set<int>,
) -> bool {
    &&& part.ready()
    &&& forall|slot: int| #[trigger] working.contains(slot) ==> part.serves(lead.handle_at(slot))
}

/// Moving on twice is moving on once.
pub proof fn lemma_moved_past_twice<C: CompIterer>(pre: C, mid: C, post: C, p: int, q: int)
    requires
        moved_past(pre, mid, p),
        moved_past(mid, post, q),
        p <= q,
    ensures
        moved_past(pre, post, q),
{
    assert forall|later: EntityHandle| later.index() > q && #[trigger] pre.serves(later) implies post.serves(
        later,
    ) by {
        assert(mid.serves(later));
    }
    assert forall|later: EntityHandle, other: C::Item| later.index() > q implies (#[trigger] post.holds(
        later,
        other,
    ) <==> pre.holds(later, other)) by {
        assert(mid.holds(later, other) <==> pre.holds(later, other));
    }
}

/// Leading on twice is leading on once.
pub proof fn lemma_led_past_twice<C: NonOptionalCompIterer>(pre: C, mid: C, post: C, p: int, q: int)
    requires
        led_past(pre, mid, p),
        led_past(mid, post, q),
        p <= q,
    ensures
        led_past(pre, post, q),
{
    lemma_moved_past_twice(pre, mid, post, p, q);
    assert forall|later: int| later > q && #[trigger] pre.serves_index(later) implies post.serves_index(
        later,
    ) && post.handle_at(later) == pre.handle_at(later) by {
        assert(mid.serves_index(later));
    }
}

impl<'a, T> CompIterer for Iter<'a, T> {
    type Item = &'a T;

    type Comp = T;

    open spec fn ready(&self) -> bool {
        self.wf()
    }

    open spec fn lent_out<'x>(&'x self) -> Option<&'x mut [(EntityHandle, T)]> {
        None
    }

    open spec fn item_mut<'x>(item: &'x &'a T) -> Option<&'x mut T> {
        None
    }

    proof fn lemma_given_back(&self) {
    }

    open spec fn owner_bits(&self) -> Set<int> {
        self.slots()
    }

    open spec fn combined(&self, working: Set<int>) -> Set<int> {
        working.intersect(self.slots())
    }

    open spec fn serves(&self, handle: EntityHandle) -> bool {
        self@.dom().contains(handle.index() as int) && self@[handle.index() as int].0 == handle
    }

    open spec fn holds(&self, handle: EntityHandle, item: &'a T) -> bool {
        self@.dom().contains(handle.index() as int) && self@[handle.index() as int].1 == *item
    }

    fn combine_owners(&self, owners: &mut FixedBitSet) {
        owners.intersect_with(self.owners);
    }

    fn comp_at(&mut self, entity_handle: EntityHandle) -> (item: &'a T)
        ensures
            final(self)@ == from_slot(old(self)@, entity_handle.index() + 1),
    {
        self.advance_forward_to(entity_handle.index());
        let (_handle2, comp) = self.next().unwrap();
        assert(self@ =~= from_slot(old(self)@, entity_handle.index() + 1));
        comp
    }
}

/// A participant that can lead a join: it supplies the identities, and its
/// presence set is where the working set starts.
pub trait NonOptionalCompIterer: CompIterer {
    /// The length of the presence set of the store behind the participant.
    spec fn owner_len(&self) -> nat;

    /// The participant can be asked for slot `entity_index` now.
    spec fn serves_index(&self, entity_index: int) -> bool;

    /// The handle under which the participant holds slot `entity_index`.
    spec fn handle_at(&self, entity_index: int) -> EntityHandle;

    /// A slot is served under a handle that names it.
    proof fn lemma_handle_at(&self, entity_index: int)
        requires
            self.ready(),
            self.serves_index(entity_index),
        ensures
            self.handle_at(entity_index).index() == entity_index,
            self.serves(self.handle_at(entity_index)),
            self.owner_bits().contains(entity_index),
    ;

    /// Every slot of the store lies below the length of its presence set.
    proof fn lemma_owner_bits_bounded(&self)
        requires
            self.ready(),
        ensures
            bounded_by(self.owner_bits(), self.owner_len() as int),
    ;

    /// The presence set of the store behind the participant.
    fn owners(&self) -> (owners: &FixedBitSet)
        ensures
            set_bits(*owners) == self.owner_bits(),
            bit_len(*owners) == self.owner_len(),
    ;

    /// The handle and the item of slot `entity_index`. Afterwards the
    /// participant can still be asked for every higher slot that it could
    /// be asked for before, with the same answer.
    fn comp_at_index(&mut self, entity_index: usize) -> (entry: (EntityHandle, Self::Item))
        requires
            old(self).ready(),
            old(self).serves_index(entity_index as int),
        ensures
            final(self).ready(),
            final(self).owner_bits() == old(self).owner_bits(),
            entry.0 == old(self).handle_at(entity_index as int),
            old(self).holds(entry.0, entry.1),
            forall|later: int|
                later > entity_index && #[trigger] old(self).serves_index(later) ==> final(self).serves_index(later) && final(self).handle_at(later) == old(self).handle_at(later),
            forall|later: EntityHandle|
                later.index() > entity_index && #[trigger] old(self).serves(later) ==> final(self).serves(later),
            forall|later: EntityHandle, other: Self::Item|
                later.index() > entity_index ==> (#[trigger] final(self).holds(later, other)
                    <==> old(self).holds(later, other)),
            match old(self).lent_out() {
                Some(before) => final(self).lent_out() is Some && gave_back(
                    before@,
                    final(before)@,
                    final(self).lent_out()->0@,
                    final(final(self).lent_out()->0)@,
                    entry.0,
                    match Self::item_mut(&entry.1) {
                        Some(comp) => Some(*final(comp)),
                        None => None,
                    },
                ),
                None => final(self).lent_out() is None,
            },
    ;
}

impl<'a, T> NonOptionalCompIterer for Iter<'a, T> {
    open spec fn owner_len(&self) -> nat {
        self.capacity()
    }

    open spec fn serves_index(&self, entity_index: int) -> bool {
        self@.dom().contains(entity_index)
    }

    open spec fn handle_at(&self, entity_index: int) -> EntityHandle {
        self@[entity_index].0
    }

    proof fn lemma_handle_at(&self, entity_index: int) {
    }

    proof fn lemma_owner_bits_bounded(&self) {
    }

    fn owners(&self) -> (owners: &FixedBitSet) {
        self.owners
    }

    fn comp_at_index(&mut self, entity_index: usize) -> (entry: (EntityHandle, &'a T))
        ensures
            final(self)@ == from_slot(old(self)@, entity_index + 1),
    {
        self.advance_forward_to(entity_index);
        let entry = self.next().unwrap();
        assert(self@ =~= from_slot(old(self)@, entity_index + 1));
        entry
    }
}

/// A cursor over the entries of one store, in ascending order of slot, that
/// hands out each component to change in place.
pub struct IterMut<'a, T> {
    next_entity_ind: usize,
    owners: &'a FixedBitSet,
    vec: &'a mut [(EntityHandle, T)],
}

impl<'a, T> View for IterMut<'a, T> {
    type V = Map<int, (EntityHandle, T)>;

    /// The entries that the cursor has yet to reach, by slot.
    open spec fn view(&self) -> Map<int, (EntityHandle, T)> {
        pending(self.remaining(), self.slots(), self.position())
    }
}

impl<'a, T> IterMut<'a, T> {
    /// The lowest slot that the cursor has not passed.
    pub closed spec fn position(&self) -> int {
        self.next_entity_ind as int
    }

    /// The slots of the store, passed or not.
    pub closed spec fn slots(&self) -> Set<int> {
        set_bits(*self.owners)
    }

    /// The length of the store's presence set.
    pub closed spec fn capacity(&self) -> nat {
        bit_len(*self.owners)
    }

    /// The entries that the cursor has yet to reach, in order.
    pub closed spec fn remaining(&self) -> Seq<(EntityHandle, T)> {
        self.vec@
    }

    /// The borrow of the entries that the cursor has yet to reach. What it
    /// holds in the end is what the store gets back for them.
    pub closed spec fn lent(&self) -> &'a mut [(EntityHandle, T)] {
        self.vec
    }

    /// The cursor's invariant: what remains are the entries of the slots
    /// from the position on.
    pub closed spec fn wf(&self) -> bool {
        &&& dense_from(self.vec@, set_bits(*self.owners), self.next_entity_ind as int)
        &&& bounded_by(set_bits(*self.owners), bit_len(*self.owners) as int)
    }

    /// The cursor stands at the start of `store`: everything is yet to
    /// come.
    pub open spec fn covers(&self, store: CompVec<T>) -> bool {
        &&& self.wf()
        &&& self.position() == 0
        &&& self.remaining() == store.dense()
        &&& self.slots() == store.slots()
        &&& self.capacity() == store.capacity()
        &&& self@ == store@
    }

    /// What the invariant says in terms of the public model.
    pub proof fn lemma_wf(&self)
        requires
            self.wf(),
        ensures
            dense_from(self.remaining(), self.slots(), self.position()),
            bounded_by(self.slots(), self.capacity() as int),
            self.remaining() == self.lent()@,
    {
    }

    /// Once the cursor is done with, the store gets back the entries that
    /// were left, as they are.
    pub proof fn lemma_done(&self)
        requires
            has_resolved(*self),
        ensures
            final(self.lent())@ == self.remaining(),
    {
    }

    pub(crate) fn new(vec: &'a mut [(EntityHandle, T)], owners: &'a FixedBitSet) -> (it: Self)
        requires
            dense_from(old(vec)@, set_bits(*owners), 0),
            bounded_by(set_bits(*owners), bit_len(*owners) as int),
        ensures
            it.wf(),
            it.position() == 0,
            it.remaining() == old(vec)@,
            final(it.lent())@ == final(vec)@,
            it.slots() == set_bits(*owners),
            it.capacity() == bit_len(*owners),
    {
        Self { next_entity_ind: 0, vec, owners }
    }

    /// Moves the cursor up to `entity_index`, past the entries of the slots
    /// below it, which go back to the store as they are.
    fn advance_forward_to(&mut self, entity_index: usize)
        requires
            old(self).wf(),
            old(self).position() <= entity_index <= old(self).capacity(),
        ensures
            final(self).wf(),
            final(self).position() == entity_index,
            final(self).slots() == old(self).slots(),
            final(self).capacity() == old(self).capacity(),
            final(self)@ == from_slot(old(self)@, entity_index as int),
            count_in(old(self).slots(), old(self).position(), entity_index as int) <= old(self).remaining().len(),
            final(self).remaining() == old(self).remaining().skip(
                count_in(old(self).slots(), old(self).position(), entity_index as int) as int,
            ),
            final(old(self).lent())@ == old(self).remaining().take(
                count_in(old(self).slots(), old(self).position(), entity_index as int) as int,
            ) + final(final(self).lent())@,
    {
        let advance_by = count_ones_in(self.owners, self.next_entity_ind, entity_index);
        proof {
            lemma_pending_skip(
                self.vec@,
                set_bits(*self.owners),
                self.next_entity_ind as int,
                entity_index as int,
            );
        }
        let slice = std::mem::replace(&mut self.vec, Default::default());
        let (_passed, rest) = slice.split_at_mut(advance_by);
        assert(rest@ =~= old(self).vec@.skip(advance_by as int));
        self.vec = rest;
        self.next_entity_ind = entity_index;
    }

    /// Make the cursor optional: in a join it then narrows nothing, and
    /// yields `None` for the entities that its store has nothing for.
    pub fn optional(self) -> (wrapped: Optional<Self>)
        ensures
            wrapped.inner() == self,
    {
        Optional(self)
    }

    /// The next entry, if there is one: that of the lowest slot not yet
    /// passed, its component to change in place. What is written through
    /// the reference is what the store holds for the slot afterwards.
    pub fn next(&mut self) -> (entry: Option<(EntityHandle, &'a mut T)>)
        requires
            old(self).wf(),
        ensures
            final(self).wf(),
            final(self).slots() == old(self).slots(),
            final(self).capacity() == old(self).capacity(),
            match entry {
                Some((id, out)) => {
                    &&& old(self).remaining().len() > 0
                    &&& (id, *out) == old(self).remaining()[0]
                    &&& final(self).remaining() == old(self).remaining().skip(1)
                    &&& final(self).position() == id.index() + 1
                    &&& old(self)@.dom().contains(id.index() as int)
                    &&& old(self)@[id.index() as int] == (id, *out)
                    &&& forall|i: int| #[trigger] old(self)@.dom().contains(i) ==> id.index() <= i
                    &&& final(self)@ == from_slot(old(self)@, id.index() + 1)
                    &&& final(old(self).lent())@ == seq![(id, *final(out))] + final(final(self).lent())@
                },
                None => {
                    &&& old(self).remaining().len() == 0
                    &&& old(self)@.dom() =~= Set::<int>::empty()
                    &&& final(self).remaining() == old(self).remaining()
                    &&& final(self).position() == old(self).position()
                    &&& final(old(self).lent())@ == old(self).remaining()
                },
            },
    {
        let slice = std::mem::replace(&mut self.vec, Default::default());
        if slice.len() == 0 {
            assert(self.vec@ =~= old(self).vec@);
            None
        } else {
            proof {
                lemma_pending_first(
                    old(self).vec@,
                    set_bits(*self.owners),
                    self.next_entity_ind as int,
                );
            }
            let (head, rest) = slice.split_at_mut(1);
            assert(rest@ =~= old(self).vec@.skip(1));
            self.vec = rest;
            let entry = &mut head[0];
            let id = entry.0;
            self.next_entity_ind = id.index() + 1;
            Some((id, &mut entry.1))
        }
    }
}

impl<'a, T> CompIterer for IterMut<'a, T> {
    type Item = &'a mut T;

    type Comp = T;

    open spec fn ready(&self) -> bool {
        self.wf()
    }

    open spec fn lent_out<'x>(&'x self) -> Option<&'x mut [(EntityHandle, T)]> {
        Some(self.lent())
    }

    open spec fn item_mut<'x>(item: &'x &'a mut T) -> Option<&'x mut T> {
        Some(*item)
    }

    proof fn lemma_given_back(&self) {
        self.lemma_done();
    }

    open spec fn owner_bits(&self) -> Set<int> {
        self.slots()
    }

    open spec fn combined(&self, working: Set<int>) -> Set<int> {
        working.intersect(self.slots())
    }

    open spec fn serves(&self, handle: EntityHandle) -> bool {
        self@.dom().contains(handle.index() as int) && self@[handle.index() as int].0 == handle
    }

    open spec fn holds(&self, handle: EntityHandle, item: &'a mut T) -> bool {
        self@.dom().contains(handle.index() as int) && self@[handle.index() as int].1 == *item
    }

    fn combine_owners(&self, owners: &mut FixedBitSet) {
        owners.intersect_with(self.owners);
    }

    fn comp_at(&mut self, entity_handle: EntityHandle) -> (item: &'a mut T)
        ensures
            final(self)@ == from_slot(old(self)@, entity_handle.index() + 1),
            final(old(self).lent())@ == old(self).remaining().take(
                count_in(old(self).slots(), old(self).position(), entity_handle.index() as int) as int,
            ) + seq![(entity_handle, *final(item))] + final(final(self).lent())@,
    {
        self.advance_forward_to(entity_handle.index());
        let ghost mid = self.vec@;
        let (_handle2, comp) = self.next().unwrap();
        assert(self@ =~= from_slot(old(self)@, entity_handle.index() + 1));
        proof {
            let before = old(self).vec@;
            let k = count_in(
                old(self).slots(),
                old(self).position(),
                entity_handle.index() as int,
            ) as int;
            assert(0 <= k < before.len());
            assert(self.vec@ =~= before.skip(k + 1));
            assert(before[k] == mid[0]);
            assert(before.take(k).push((entity_handle, *final(comp))) =~= before.take(k)
                + seq![(entity_handle, *final(comp))]);
            assert(before.len() - self.vec@.len() == k + 1);
            assert(final(old(self).vec)@ == before.take(k).push((entity_handle, *final(comp)))
                + final(self.vec)@);
        }
        comp
    }
}

impl<'a, T> NonOptionalCompIterer for IterMut<'a, T> {
    open spec fn owner_len(&self) -> nat {
        self.capacity()
    }

    open spec fn serves_index(&self, entity_index: int) -> bool {
        self@.dom().contains(entity_index)
    }

    open spec fn handle_at(&self, entity_index: int) -> EntityHandle {
        self@[entity_index].0
    }

    proof fn lemma_handle_at(&self, entity_index: int) {
    }

    proof fn lemma_owner_bits_bounded(&self) {
    }

    fn owners(&self) -> (owners: &FixedBitSet) {
        self.owners
    }

    fn comp_at_index(&mut self, entity_index: usize) -> (entry: (EntityHandle, &'a mut T))
        ensures
            final(self)@ == from_slot(old(self)@, entity_index + 1),
            final(old(self).lent())@ == old(self).remaining().take(
                count_in(old(self).slots(), old(self).position(), entity_index as int) as int,
            ) + seq![(entry.0, *final(entry.1))] + final(final(self).lent())@,
    {
        self.advance_forward_to(entity_index);
        let ghost mid = self.vec@;
        let entry = self.next().unwrap();
        assert(self@ =~= from_slot(old(self)@, entity_index + 1));
        proof {
            let before = old(self).vec@;
            let k = count_in(old(self).slots(), old(self).position(), entity_index as int) as int;
            assert(0 <= k < before.len());
            assert(self.vec@ =~= before.skip(k + 1));
            assert(before[k] == mid[0]);
            assert(before.take(k).push((entry.0, *final(entry.1))) =~= before.take(k)
                + seq![(entry.0, *final(entry.1))]);
            assert(before.len() - self.vec@.len() == k + 1);
            assert(final(old(self).vec)@ == before.take(k).push((entry.0, *final(entry.1)))
                + final(self.vec)@);
        }
        entry
    }
}

/// Wraps a cursor so that, in a join, it yields `Some` of its item for the
/// entities that its store has an entry for and `None` for the others, and
/// narrows nothing.
pub struct Optional<T: NonOptionalCompIterer>(T);

impl<T: NonOptionalCompIterer> Optional<T> {
    /// The cursor inside.
    pub closed spec fn inner(&self) -> T {
        self.0
    }
}

impl<T: NonOptionalCompIterer> CompIterer for Optional<T> {
    type Item = Option<T::Item>;

    type Comp = T::Comp;

    open spec fn ready(&self) -> bool {
        self.inner().ready()
    }

    open spec fn lent_out<'x>(&'x self) -> Option<&'x mut [(EntityHandle, T::Comp)]> {
        self.inner().lent_out()
    }

    open spec fn item_mut<'x>(item: &'x Option<T::Item>) -> Option<&'x mut T::Comp> {
        match item {
            Some(inner_item) => T::item_mut(inner_item),
            None => None,
        }
    }

    proof fn lemma_given_back(&self) {
        let whole = *self;
        assert(has_resolved(whole));
        assert(has_resolved(whole.0));
        self.0.lemma_given_back();
    }

    open spec fn owner_bits(&self) -> Set<int> {
        self.inner().owner_bits()
    }

    open spec fn combined(&self, working: Set<int>) -> Set<int> {
        working
    }

    open spec fn serves(&self, handle: EntityHandle) -> bool {
        self.inner().owner_bits().contains(handle.index() as int) ==> self.inner().serves(handle)
    }

    open spec fn holds(&self, handle: EntityHandle, item: Option<T::Item>) -> bool {
        match item {
            Some(inner_item) => {
                &&& self.inner().owner_bits().contains(handle.index() as int)
                &&& self.inner().holds(handle, inner_item)
            },
            None => !self.inner().owner_bits().contains(handle.index() as int),
        }
    }

    fn combine_owners(&self, _owners: &mut FixedBitSet) {
    }

    fn comp_at(&mut self, entity_handle: EntityHandle) -> (item: Option<T::Item>) {
        proof {
            self.0.lemma_owner_bits_bounded();
        }
        if self.0.owners().contains(entity_handle.index()) {
            Some(self.0.comp_at(entity_handle))
        } else {
            proof {
                if self.0.lent_out() is Some {
                    assert(self.0.lent_out()->0@.skip(0) =~= self.0.lent_out()->0@);
                    assert(self.0.lent_out()->0@.take(0) + final(self.0.lent_out()->0)@ =~= final(self.0.lent_out()->0)@);
                }
            }
            None
        }
    }
}

} // verus!
