//! What joins over stores yield: the laws that tie the rows of a walk to
//! the contents of the stores behind it.
//!
//! A walk of any shape can be made once its first participant leads and
//! the others follow (`lemma_walk_wf` of the walk). The lemmas here show
//! that for each kind of cursor, fresh from a store: a plain or a mutable
//! one, required or optional.

use crate::bits::count_in;
use crate::bits::lemma_ascending_ranks;
use crate::bits::rank;
use crate::comp_iter::CompIterer;
use crate::comp_iter::follows;
use crate::comp_iter::serves_all;
use crate::comp_iter::Iter;
use crate::comp_iter::IterMut;
use crate::comp_iter::NonOptionalCompIterer;
use crate::comp_iter::Optional;
use crate::comp_vec::agree;
use crate::comp_vec::CompVec;
use crate::dense::lemma_dense_len;
use crate::join::IntoCompIter;
use vstd::prelude::*;

verus! {

/// The slots of a walk are those of its working set by rank: slot `k` of
/// the walk has `k` members of the working set below it, and the walk has
/// as many slots as the working set has members.
pub proof fn lemma_walk_ranks<T>(walk: IntoCompIter<T>, parts: T, working: Set<int>, bound: int)
    requires
        walk.walks(parts, working),
        forall|slot: int| working.contains(slot) ==> 0 <= slot < bound,
    ensures
        walk.slots_left().len() == count_in(working, 0, bound),
        forall|k: int|
            0 <= k < walk.slots_left().len() ==> rank(working, #[trigger] walk.slots_left()[k])
                == k,
{
    let left = walk.slots_left();
    assert forall|k: int| 0 <= k < left.len() implies 0 <= #[trigger] left[k] < bound by {
        assert(left.contains(left[k]));
        assert(working.contains(left[k]));
    }
    lemma_ascending_ranks(left, working, bound);
}

/// `lead` can lead a walk over `working` with the handles of the store
/// `a`: it can be asked for every slot of `working`, each of which `a` has
/// an entry for, and answers with the handle that `a` holds it under.
pub open spec fn leads<L: NonOptionalCompIterer, A>(
    lead: L,
    a: CompVec<A>,
    working: Set<int>,
) -> bool {
    &&& serves_all(lead, working)
    &&& forall|slot: int| #[trigger]
        working.contains(slot) ==> a.slots().contains(slot) && lead.handle_at(slot) == a@[slot].0
}

/// A fresh cursor over a store leads over any part of the store's slots.
pub proof fn lemma_iter_leads<'a, A>(it: Iter<'a, A>, a: CompVec<A>, working: Set<int>)
    requires
        a.wf(),
        it.covers(a),
        working.subset_of(a.slots()),
    ensures
        leads(it, a, working),
{
    a.lemma_wf();
}

/// A fresh cursor that hands out its components to change leads over any
/// part of the store's slots.
pub proof fn lemma_iter_mut_leads<'a, A>(it: IterMut<'a, A>, a: CompVec<A>, working: Set<int>)
    requires
        a.wf(),
        it.covers(a),
        working.subset_of(a.slots()),
    ensures
        leads(it, a, working),
{
    a.lemma_wf();
}

/// A fresh cursor over a store that agrees with the leader's follows the
/// leader over any part of the store's slots.
pub proof fn lemma_iter_follows<'a, L: NonOptionalCompIterer, A, B>(
    lead: L,
    a: CompVec<A>,
    it: Iter<'a, B>,
    b: CompVec<B>,
    working: Set<int>,
)
    requires
        leads(lead, a, working),
        b.wf(),
        it.covers(b),
        agree(a, b),
        working.subset_of(b.slots()),
    ensures
        follows(lead, it, working),
{
    b.lemma_wf();
    assert forall|slot: int| #[trigger] working.contains(slot) implies it.serves(
        lead.handle_at(slot),
    ) by {
        assert(a@[slot].0 == b@[slot].0);
    }
}

/// A fresh cursor that hands out its components to change, over a store
/// that agrees with the leader's, follows the leader over any part of the
/// store's slots.
pub proof fn lemma_iter_mut_follows<'a, L: NonOptionalCompIterer, A, B>(
    lead: L,
    a: CompVec<A>,
    it: IterMut<'a, B>,
    b: CompVec<B>,
    working: Set<int>,
)
    requires
        leads(lead, a, working),
        b.wf(),
        it.covers(b),
        agree(a, b),
        working.subset_of(b.slots()),
    ensures
        follows(lead, it, working),
{
    b.lemma_wf();
    assert forall|slot: int| #[trigger] working.contains(slot) implies it.serves(
        lead.handle_at(slot),
    ) by {
        assert(a@[slot].0 == b@[slot].0);
    }
}

/// An optional fresh cursor over a store that agrees with the leader's
/// follows the leader anywhere.
pub proof fn lemma_optional_iter_follows<'a, L: NonOptionalCompIterer, A, B>(
    lead: L,
    a: CompVec<A>,
    it: Optional<Iter<'a, B>>,
    b: CompVec<B>,
    working: Set<int>,
)
    requires
        leads(lead, a, working),
        a.wf(),
        b.wf(),
        it.inner().covers(b),
        agree(a, b),
    ensures
        follows(lead, it, working),
{
    a.lemma_wf();
    b.lemma_wf();
    assert forall|slot: int| #[trigger] working.contains(slot) implies it.serves(
        lead.handle_at(slot),
    ) by {
        if b.slots().contains(slot) {
            assert(a@[slot].0 == b@[slot].0);
        }
    }
}

/// An optional fresh cursor that hands out its components to change, over
/// a store that agrees with the leader's, follows the leader anywhere.
pub proof fn lemma_optional_iter_mut_follows<'a, L: NonOptionalCompIterer, A, B>(
    lead: L,
    a: CompVec<A>,
    it: Optional<IterMut<'a, B>>,
    b: CompVec<B>,
    working: Set<int>,
)
    requires
        leads(lead, a, working),
        a.wf(),
        b.wf(),
        it.inner().covers(b),
        agree(a, b),
    ensures
        follows(lead, it, working),
{
    a.lemma_wf();
    b.lemma_wf();
    assert forall|slot: int| #[trigger] working.contains(slot) implies it.serves(
        lead.handle_at(slot),
    ) by {
        if b.slots().contains(slot) {
            assert(a@[slot].0 == b@[slot].0);
        }
    }
}

/// A join of two stores that agree can be walked: fresh cursors over the
/// two serve every slot of a working set that lies within what both have.
pub proof fn lemma_walk_of_two<'a, A, B>(
    a: CompVec<A>,
    b: CompVec<B>,
    walk: IntoCompIter<(Iter<'a, A>, Iter<'a, B>)>,
    working: Set<int>,
)
    requires
        a.wf(),
        b.wf(),
        agree(a, b),
        walk.parts().0.covers(a),
        walk.parts().1.covers(b),
        walk.walks(walk.parts(), working),
        working.subset_of(a.slots().intersect(b.slots())),
    ensures
        walk.wf(),
{
    a.lemma_wf();
    b.lemma_wf();
    assert forall|k: int| 0 <= k < walk.slots_left().len() implies ({
        let slot = #[trigger] walk.slots_left()[k];
        &&& walk.parts().0.serves_index(slot)
        &&& walk.parts().1.serves(walk.parts().0.handle_at(slot))
    }) by {
        let slot = walk.slots_left()[k];
        assert(walk.slots_left().contains(slot));
        assert(working.contains(slot));
        assert(a@[slot].0 == b@[slot].0);
    }
}

/// Round trip. Where two stores hold entries for the same slots, under
/// the same handles, the join of the two has exactly one row for each
/// entry, in the order in which the stores hold them: row `k` carries the
/// handle of entry `k`, and any items that the cursors hold for it are the
/// components of entry `k` of either store.
pub proof fn lemma_round_trip<'a, A, B>(
    a: CompVec<A>,
    b: CompVec<B>,
    walk: IntoCompIter<(Iter<'a, A>, Iter<'a, B>)>,
)
    requires
        a.wf(),
        b.wf(),
        agree(a, b),
        a.slots() == b.slots(),
        walk.parts().0.covers(a),
        walk.parts().1.covers(b),
        walk.walks(walk.parts(), walk.parts().1.combined(walk.parts().0.owner_bits())),
    ensures
        walk.wf(),
        walk.slots_left().len() == a.dense().len(),
        walk.slots_left().len() == b.dense().len(),
        forall|k: int|
            0 <= k < walk.slots_left().len() ==> {
                let slot = #[trigger] walk.slots_left()[k];
                &&& walk.parts().0.handle_at(slot) == a.dense()[k].0
                &&& a.dense()[k].0 == b.dense()[k].0
                &&& a.dense()[k].0.index() == slot
                &&& forall|x: &A| #[trigger]
                    walk.parts().0.holds(a.dense()[k].0, x) <==> *x == a.dense()[k].1
                &&& forall|y: &B| #[trigger]
                    walk.parts().1.holds(a.dense()[k].0, y) <==> *y == b.dense()[k].1
            },
{
    let working = walk.parts().1.combined(walk.parts().0.owner_bits());
    assert(working =~= a.slots());
    lemma_walk_of_two(a, b, walk, working);
    a.lemma_wf();
    b.lemma_wf();
    let bound = if a.capacity() < b.capacity() {
        b.capacity() as int
    } else {
        a.capacity() as int
    };
    lemma_walk_ranks(walk, walk.parts(), working, bound);
    lemma_dense_len(a.dense(), a.slots(), 0, bound);
    lemma_dense_len(b.dense(), b.slots(), 0, bound);
    let left = walk.slots_left();
    assert forall|k: int| 0 <= k < left.len() implies ({
        let slot = #[trigger] left[k];
        &&& walk.parts().0.handle_at(slot) == a.dense()[k].0
        &&& a.dense()[k].0 == b.dense()[k].0
        &&& a.dense()[k].0.index() == slot
        &&& forall|x: &A| #[trigger]
            walk.parts().0.holds(a.dense()[k].0, x) <==> *x == a.dense()[k].1
        &&& forall|y: &B| #[trigger]
            walk.parts().1.holds(a.dense()[k].0, y) <==> *y == b.dense()[k].1
    }) by {
        let slot = left[k];
        assert(left.contains(slot));
        assert(rank(a.slots(), slot) == k);
        assert(a@[slot] == a.dense()[k]);
        assert(b@[slot] == b.dense()[k]);
    }
}

/// Exclusion. The working set of a join of two stores, narrowed by
/// `without` a third, holds a slot exactly when the first two have an
/// entry for it and the third has none; and where the first two agree the
/// walk over it can be made.
pub proof fn lemma_exclusion<'a, A, B, C>(
    a: CompVec<A>,
    b: CompVec<B>,
    c: CompVec<C>,
    walk: IntoCompIter<(Iter<'a, A>, Iter<'a, B>)>,
)
    requires
        a.wf(),
        b.wf(),
        agree(a, b),
        walk.parts().0.covers(a),
        walk.parts().1.covers(b),
        walk.walks(
            walk.parts(),
            walk.parts().1.combined(walk.parts().0.owner_bits()).difference(c.slots()),
        ),
    ensures
        walk.wf(),
        forall|slot: int|
            walk.slots_left().contains(slot) <==> a.slots().contains(slot) && b.slots().contains(slot)
                && !c.slots().contains(slot),
{
    let working = walk.parts().1.combined(walk.parts().0.owner_bits()).difference(c.slots());
    lemma_walk_of_two(a, b, walk, working);
    assert forall|slot: int|
        walk.slots_left().contains(slot) <==> a.slots().contains(slot) && b.slots().contains(slot)
            && !c.slots().contains(slot) by {
        assert(working.contains(slot) <==> walk.slots_left().contains(slot));
    }
}

/// Optional. A join of a store with a second, optional one visits every
/// slot of the first, whatever the second has; and for each such slot the
/// optional participant holds `Some` of the second store's component where
/// that store has an entry for the slot, and `None` where it has none.
pub proof fn lemma_optional<'a, A, B>(
    a: CompVec<A>,
    b: CompVec<B>,
    walk: IntoCompIter<(Iter<'a, A>, Optional<Iter<'a, B>>)>,
)
    requires
        a.wf(),
        b.wf(),
        agree(a, b),
        walk.parts().0.covers(a),
        walk.parts().1.inner().covers(b),
        walk.walks(walk.parts(), walk.parts().1.combined(walk.parts().0.owner_bits())),
    ensures
        walk.wf(),
        forall|slot: int| walk.slots_left().contains(slot) <==> a.slots().contains(slot),
        forall|slot: int, item: Option<&'a B>|
            a.slots().contains(slot) ==> (#[trigger] walk.parts().1.holds(a@[slot].0, item) <==> (
            match item {
                Some(y) => b.slots().contains(slot) && *y == b@[slot].1,
                None => !b.slots().contains(slot),
            })),
{
    a.lemma_wf();
    b.lemma_wf();
    assert forall|k: int| 0 <= k < walk.slots_left().len() implies ({
        let slot = #[trigger] walk.slots_left()[k];
        &&& walk.parts().0.serves_index(slot)
        &&& walk.parts().1.serves(walk.parts().0.handle_at(slot))
    }) by {
        let slot = walk.slots_left()[k];
        assert(walk.slots_left().contains(slot));
        assert(a.slots().contains(slot));
        if b.slots().contains(slot) {
            assert(a@[slot].0 == b@[slot].0);
        }
    }
}

} // verus!
