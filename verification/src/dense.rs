//! The rank invariant that ties a dense sequence of entries to a presence
//! set, and how it moves under insertion, removal, update and skipping.

use crate::bits::count_in;
use crate::bits::lemma_count_insert;
use crate::bits::lemma_count_member;
use crate::bits::lemma_count_monotone;
use crate::bits::lemma_count_remove;
use crate::bits::lemma_count_split;
use crate::bits::rank;
use crate::entity_handle::EntityHandle;
use vstd::prelude::*;

verus! {

/// `entries` holds exactly one entry for each member of `slots` from `from`
/// on, and the entry for slot `i` stands at the position that is the number
/// of members in `from..i`.
pub open spec fn dense_from<T>(entries: Seq<(EntityHandle, T)>, slots: Set<int>, from: int) -> bool {
    &&& forall|p: int|
        0 <= p < entries.len() ==> {
            let i = (#[trigger] entries[p]).0.index() as int;
            from <= i && slots.contains(i) && count_in(slots, from, i) == p
        }
    &&& forall|i: int|
        from <= i && #[trigger] slots.contains(i) ==> {
            let p = count_in(slots, from, i) as int;
            p < entries.len() && entries[p].0.index() == i
        }
}

/// `a` and `b` are as long as each other and name the same slot at each
/// position.
pub open spec fn same_slots<T>(a: Seq<(EntityHandle, T)>, b: Seq<(EntityHandle, T)>) -> bool {
    &&& a.len() == b.len()
    &&& forall|p: int| 0 <= p < a.len() ==> (#[trigger] a[p]).0.index() == b[p].0.index()
}

/// Entries stand in ascending order of slot, no slot twice.
pub proof fn lemma_dense_ascending<T>(
    entries: Seq<(EntityHandle, T)>,
    slots: Set<int>,
    from: int,
    p: int,
    q: int,
)
    requires
        dense_from(entries, slots, from),
        0 <= p < q < entries.len(),
    ensures
        entries[p].0.index() < entries[q].0.index(),
{
    let i = entries[p].0.index() as int;
    let j = entries[q].0.index() as int;
    if j <= i {
        lemma_count_monotone(slots, from, j, i);
    }
}

/// A new slot's entry goes in at its rank.
pub proof fn lemma_dense_insert<T>(
    entries: Seq<(EntityHandle, T)>,
    slots: Set<int>,
    from: int,
    e: (EntityHandle, T),
)
    requires
        dense_from(entries, slots, from),
        from <= e.0.index(),
        !slots.contains(e.0.index() as int),
    ensures
        count_in(slots, from, e.0.index() as int) <= entries.len(),
        dense_from(
            entries.insert(count_in(slots, from, e.0.index() as int) as int, e),
            slots.insert(e.0.index() as int),
            from,
        ),
{
    let i = e.0.index() as int;
    let r = count_in(slots, from, i) as int;
    lemma_rank_within(entries, slots, from, i);
    let after = entries.insert(r, e);
    let grown = slots.insert(i);
    assert forall|p: int| 0 <= p < after.len() implies ({
        let j = (#[trigger] after[p]).0.index() as int;
        from <= j && grown.contains(j) && count_in(grown, from, j) == p
    }) by {
        let j = after[p].0.index() as int;
        lemma_count_insert(slots, i, from, j);
        if p < r {
            assert(after[p] == entries[p]);
            if i < j {
                lemma_count_monotone(slots, from, i, j);
            }
        } else if p > r {
            assert(after[p] == entries[p - 1]);
            if j < i {
                lemma_count_member(slots, from, j, i);
            }
        }
    }
    assert forall|j: int| from <= j && #[trigger] grown.contains(j) implies ({
        let p = count_in(grown, from, j) as int;
        p < after.len() && after[p].0.index() == j
    }) by {
        lemma_count_insert(slots, i, from, j);
        if j != i {
            assert(slots.contains(j));
            let p = count_in(slots, from, j) as int;
            if i < j {
                lemma_count_monotone(slots, from, i, j);
                assert(after[p + 1] == entries[p]);
            } else {
                lemma_count_member(slots, from, j, i);
                assert(after[p] == entries[p]);
            }
        }
    }
}

/// The rank of any slot from `from` on is at most the number of entries.
pub proof fn lemma_rank_within<T>(
    entries: Seq<(EntityHandle, T)>,
    slots: Set<int>,
    from: int,
    to: int,
)
    requires
        dense_from(entries, slots, from),
        from <= to,
    ensures
        count_in(slots, from, to) <= entries.len(),
    decreases to - from,
{
    if from < to {
        lemma_rank_within(entries, slots, from, to - 1);
        if slots.contains(to - 1) {
            assert(count_in(slots, from, to - 1) < entries.len());
        }
    }
}

/// There are as many entries as slots from `from` on.
pub proof fn lemma_dense_len<T>(
    entries: Seq<(EntityHandle, T)>,
    slots: Set<int>,
    from: int,
    bound: int,
)
    requires
        dense_from(entries, slots, from),
        from <= bound,
        forall|i: int| slots.contains(i) ==> i < bound,
    ensures
        count_in(slots, from, bound) == entries.len(),
{
    lemma_rank_within(entries, slots, from, bound);
    if entries.len() > 0 {
        let last = entries[entries.len() - 1].0.index() as int;
        lemma_count_member(slots, from, last, bound);
    }
}

/// A slot's entry leaves from its rank.
pub proof fn lemma_dense_remove<T>(
    entries: Seq<(EntityHandle, T)>,
    slots: Set<int>,
    from: int,
    i: int,
)
    requires
        dense_from(entries, slots, from),
        from <= i,
        slots.contains(i),
    ensures
        count_in(slots, from, i) < entries.len(),
        dense_from(entries.remove(count_in(slots, from, i) as int), slots.remove(i), from),
{
    let r = count_in(slots, from, i) as int;
    let after = entries.remove(r);
    let shrunk = slots.remove(i);
    assert forall|p: int| 0 <= p < after.len() implies ({
        let j = (#[trigger] after[p]).0.index() as int;
        from <= j && shrunk.contains(j) && count_in(shrunk, from, j) == p
    }) by {
        let j = after[p].0.index() as int;
        lemma_count_remove(slots, i, from, j);
        if p < r {
            assert(after[p] == entries[p]);
            if i < j {
                lemma_count_monotone(slots, from, i, j);
            }
        } else {
            assert(after[p] == entries[p + 1]);
            if j < i {
                lemma_count_member(slots, from, j, i);
            }
        }
    }
    assert forall|j: int| from <= j && #[trigger] shrunk.contains(j) implies ({
        let p = count_in(shrunk, from, j) as int;
        p < after.len() && after[p].0.index() == j
    }) by {
        lemma_count_remove(slots, i, from, j);
        assert(slots.contains(j));
        let p = count_in(slots, from, j) as int;
        if i < j {
            lemma_count_member(slots, from, i, j);
            assert(after[p - 1] == entries[p]);
        } else {
            lemma_count_member(slots, from, j, i);
            assert(after[p] == entries[p]);
        }
    }
}

/// Entries may change as long as each position keeps its slot.
pub proof fn lemma_dense_same_slots<T>(
    entries: Seq<(EntityHandle, T)>,
    after: Seq<(EntityHandle, T)>,
    slots: Set<int>,
    from: int,
)
    requires
        dense_from(entries, slots, from),
    ensures
        same_slots(entries, after) ==> dense_from(after, slots, from),
{
    if same_slots(entries, after) {
        assert forall|p: int| 0 <= p < after.len() implies ({
            let j = (#[trigger] after[p]).0.index() as int;
            from <= j && slots.contains(j) && count_in(slots, from, j) == p
        }) by {
            assert(entries[p].0.index() == after[p].0.index());
        }
        assert forall|j: int| from <= j && #[trigger] slots.contains(j) implies ({
            let p = count_in(slots, from, j) as int;
            p < after.len() && after[p].0.index() == j
        }) by {
            let p = count_in(slots, from, j) as int;
            assert(entries[p].0.index() == after[p].0.index());
        }
    }
}

/// Skipping the entries of the slots in `from..to` leaves the entries of
/// the slots from `to` on.
pub proof fn lemma_dense_skip<T>(
    entries: Seq<(EntityHandle, T)>,
    slots: Set<int>,
    from: int,
    to: int,
)
    requires
        dense_from(entries, slots, from),
        from <= to,
    ensures
        count_in(slots, from, to) <= entries.len(),
        dense_from(entries.skip(count_in(slots, from, to) as int), slots, to),
{
    lemma_rank_within(entries, slots, from, to);
    let k = count_in(slots, from, to) as int;
    let rest = entries.skip(k);
    assert forall|p: int| 0 <= p < rest.len() implies ({
        let j = (#[trigger] rest[p]).0.index() as int;
        to <= j && slots.contains(j) && count_in(slots, to, j) == p
    }) by {
        assert(rest[p] == entries[p + k]);
        let j = rest[p].0.index() as int;
        if j < to {
            lemma_count_member(slots, from, j, to);
        }
        lemma_count_split(slots, from, to, j);
    }
    assert forall|j: int| to <= j && #[trigger] slots.contains(j) implies ({
        let p = count_in(slots, to, j) as int;
        p < rest.len() && rest[p].0.index() == j
    }) by {
        lemma_count_split(slots, from, to, j);
        let p = count_in(slots, to, j) as int;
        assert(rest[p] == entries[p + k]);
    }
}

/// The entries by slot: the model of a store.
pub open spec fn by_slot<T>(entries: Seq<(EntityHandle, T)>, slots: Set<int>) -> Map<
    int,
    (EntityHandle, T),
> {
    Map::new(|i: int| 0 <= i && slots.contains(i), |i: int| entries[rank(slots, i) as int])
}

/// Replacing the entry at one position, under the same slot, changes the
/// model at that slot and nowhere else.
pub proof fn lemma_by_slot_update<T>(
    entries: Seq<(EntityHandle, T)>,
    slots: Set<int>,
    p: int,
    e: (EntityHandle, T),
)
    requires
        dense_from(entries, slots, 0),
        0 <= p < entries.len(),
        e.0.index() == entries[p].0.index(),
    ensures
        by_slot(entries.update(p, e), slots) == by_slot(entries, slots).insert(
            e.0.index() as int,
            e,
        ),
{
    let after = by_slot(entries.update(p, e), slots);
    let expected = by_slot(entries, slots).insert(e.0.index() as int, e);
    assert forall|j: int| after.dom().contains(j) implies #[trigger] after[j] == expected[j] by {
        assert(entries[rank(slots, j) as int].0.index() == j);
    }
    assert(after =~= expected);
}

/// A new slot's entry shows in the model at that slot and moves no other.
pub proof fn lemma_by_slot_insert<T>(
    entries: Seq<(EntityHandle, T)>,
    slots: Set<int>,
    e: (EntityHandle, T),
)
    requires
        dense_from(entries, slots, 0),
        !slots.contains(e.0.index() as int),
    ensures
        by_slot(
            entries.insert(rank(slots, e.0.index() as int) as int, e),
            slots.insert(e.0.index() as int),
        ) == by_slot(entries, slots).insert(e.0.index() as int, e),
{
    let i = e.0.index() as int;
    let r = rank(slots, i) as int;
    lemma_rank_within(entries, slots, 0, i);
    let after = by_slot(entries.insert(r, e), slots.insert(i));
    let expected = by_slot(entries, slots).insert(i, e);
    assert forall|j: int| after.dom().contains(j) implies #[trigger] after[j] == expected[j] by {
        lemma_count_insert(slots, i, 0, j);
        if j != i {
            if i < j {
                lemma_count_monotone(slots, 0, i, j);
            } else {
                lemma_count_member(slots, 0, j, i);
            }
        }
    }
    assert(after =~= expected);
}

/// A removed slot leaves the model and moves no other.
pub proof fn lemma_by_slot_remove<T>(entries: Seq<(EntityHandle, T)>, slots: Set<int>, i: int)
    requires
        dense_from(entries, slots, 0),
        0 <= i,
        slots.contains(i),
    ensures
        by_slot(entries.remove(rank(slots, i) as int), slots.remove(i)) == by_slot(
            entries,
            slots,
        ).remove(i),
{
    let after = by_slot(entries.remove(rank(slots, i) as int), slots.remove(i));
    let expected = by_slot(entries, slots).remove(i);
    assert forall|j: int| after.dom().contains(j) implies #[trigger] after[j] == expected[j] by {
        lemma_count_remove(slots, i, 0, j);
        if i < j {
            lemma_count_member(slots, 0, i, j);
        } else {
            lemma_count_member(slots, 0, j, i);
        }
    }
    assert(after =~= expected);
}

} // verus!
