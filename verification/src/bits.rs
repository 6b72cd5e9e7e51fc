//! What this crate takes on trust about `fixedbitset`, and the counting
//! function that the rank arithmetic of the stores is built on.
//!
//! A `FixedBitSet` is opaque to the verifier. Its contents are named by
//! [`set_bits`] and [`bit_len`], and every call into the crate goes through
//! one of the specifications below, each of which repeats what the crate's
//! source does. The specifications are taken on trust; the lemmas about
//! counting that follow them are proved.

use fixedbitset::FixedBitSet;
use fixedbitset::IntoOnes;
use vstd::prelude::*;

verus! {

#[verifier::external_type_specification]
#[verifier::external_body]
pub struct ExFixedBitSet(fixedbitset::FixedBitSet);

#[verifier::external_type_specification]
#[verifier::external_body]
pub struct ExIntoOnes(fixedbitset::IntoOnes);

/// The positions of the bits that are enabled in `s`.
pub uninterp spec fn set_bits(s: FixedBitSet) -> Set<int>;

/// The length of `s` in bits, enabled or not.
pub uninterp spec fn bit_len(s: FixedBitSet) -> nat;

/// The positions that `it` has yet to hand out, in the order in which it
/// will hand them out.
pub uninterp spec fn ones_left(it: IntoOnes) -> Seq<int>;

/// How many members of `s` lie in `lo..hi`.
pub open spec fn count_in(s: Set<int>, lo: int, hi: int) -> nat
    decreases hi - lo,
{
    if hi <= lo {
        0
    } else {
        count_in(s, lo, hi - 1) + if s.contains(hi - 1) {
            1nat
        } else {
            0nat
        }
    }
}

/// How many members of `s` lie below `idx`: the rank of `idx` in `s`.
pub open spec fn rank(s: Set<int>, idx: int) -> nat {
    count_in(s, 0, idx)
}

/// Every member of `s` lies in `0..len`.
pub open spec fn bounded_by(s: Set<int>, len: int) -> bool {
    forall|b: int| s.contains(b) ==> 0 <= b < len
}

/// `a` is strictly ascending.
pub open spec fn ascending(a: Seq<int>) -> bool {
    forall|i: int, j: int| 0 <= i < j < a.len() ==> a[i] < a[j]
}

/// `FixedBitSet::new` returns a set of length 0, with no bit enabled.
pub assume_specification[ FixedBitSet::new ]() -> (s: FixedBitSet)
    ensures
        set_bits(s) == Set::<int>::empty(),
        bit_len(s) == 0,
;

/// `FixedBitSet::clone` copies the blocks and the length.
pub assume_specification[ <FixedBitSet as Clone>::clone ](s: &FixedBitSet) -> (c: FixedBitSet)
    ensures
        set_bits(c) == set_bits(*s),
        bit_len(c) == bit_len(*s),
;

/// `FixedBitSet::contains` answers `false` for a position at or past the
/// length, and reads the bit otherwise.
pub assume_specification[ FixedBitSet::contains ](s: &FixedBitSet, bit: usize) -> (r: bool)
    ensures
        r == (bit < bit_len(*s) && set_bits(*s).contains(bit as int)),
;

/// `FixedBitSet::grow_and_insert` grows the set to `bits + 1` bits where it
/// is shorter, the new bits disabled, and then enables bit `bits`. The sum
/// `bits + 1` must not overflow.
pub assume_specification[ FixedBitSet::grow_and_insert ](s: &mut FixedBitSet, bits: usize)
    requires
        bits < usize::MAX,
    ensures
        set_bits(*final(s)) == set_bits(*old(s)).insert(bits as int),
        bit_len(*final(s)) == if bits < bit_len(*old(s)) {
            bit_len(*old(s))
        } else {
            (bits + 1) as nat
        },
;

/// `FixedBitSet::remove` disables `bit`, and panics where `bit` is not below
/// the length.
pub assume_specification[ FixedBitSet::remove ](s: &mut FixedBitSet, bit: usize)
    requires
        bit < bit_len(*old(s)),
    ensures
        set_bits(*final(s)) == set_bits(*old(s)).remove(bit as int),
        bit_len(*final(s)) == bit_len(*old(s)),
;

/// `FixedBitSet::minimum` returns the lowest enabled position, or `None`
/// where no bit is enabled.
pub assume_specification[ FixedBitSet::minimum ](s: &FixedBitSet) -> (r: Option<usize>)
    ensures
        match r {
            Some(m) => set_bits(*s).contains(m as int) && forall|b: int|
                set_bits(*s).contains(b) ==> m <= b,
            None => forall|b: int| !set_bits(*s).contains(b),
        },
;

/// `FixedBitSet::intersect_with` keeps the bits that are enabled in both
/// sets; the length of `s` stays.
pub assume_specification[ FixedBitSet::intersect_with ](s: &mut FixedBitSet, other: &FixedBitSet)
    ensures
        set_bits(*final(s)) == set_bits(*old(s)).intersect(set_bits(*other)),
        bit_len(*final(s)) == bit_len(*old(s)),
;

/// `FixedBitSet::difference_with` disables the bits that are enabled in
/// `other`; the length of `s` stays.
pub assume_specification[ FixedBitSet::difference_with ](s: &mut FixedBitSet, other: &FixedBitSet)
    ensures
        set_bits(*final(s)) == set_bits(*old(s)).difference(set_bits(*other)),
        bit_len(*final(s)) == bit_len(*old(s)),
;

/// `FixedBitSet::into_ones` turns the set into an iterator over its enabled
/// positions, lowest first.
pub assume_specification[ FixedBitSet::into_ones ](s: FixedBitSet) -> (it: IntoOnes)
    ensures
        ascending(ones_left(it)),
        forall|b: int| set_bits(s).contains(b) <==> ones_left(it).contains(b),
;

/// `FixedBitSet::insert` enables `bit`, and panics where `bit` is not below
/// the length.
#[verifier::external_body]
pub(crate) fn enable_bit(s: &mut FixedBitSet, bit: usize)
    requires
        bit < bit_len(*old(s)),
    ensures
        set_bits(*final(s)) == set_bits(*old(s)).insert(bit as int),
        bit_len(*final(s)) == bit_len(*old(s)),
{
    s.insert(bit)
}

/// `FixedBitSet::count_ones` over `start..end`: the number of enabled bits
/// in that range. It panics unless `start <= end <= len`.
#[verifier::external_body]
pub(crate) fn count_ones_in(s: &FixedBitSet, start: usize, end: usize) -> (n: usize)
    requires
        start <= end <= bit_len(*s),
    ensures
        n == count_in(set_bits(*s), start as int, end as int),
{
    s.count_ones(start..end)
}

/// `IntoOnes::next` hands out the first of the positions that are left, and
/// goes on returning `None` once none is.
#[verifier::external_body]
pub(crate) fn next_one(it: &mut IntoOnes) -> (r: Option<usize>)
    ensures
        match r {
            Some(b) => ones_left(*old(it)).len() > 0 && b == ones_left(*old(it))[0] && ones_left(
                *final(it),
            ) == ones_left(*old(it)).skip(1),
            None => ones_left(*old(it)).len() == 0 && ones_left(*final(it)) == ones_left(*old(it)),
        },
{
    it.next()
}

/// Counting over `lo..hi` splits at any `mid` in between.
pub proof fn lemma_count_split(s: Set<int>, lo: int, mid: int, hi: int)
    requires
        lo <= mid <= hi,
    ensures
        count_in(s, lo, hi) == count_in(s, lo, mid) + count_in(s, mid, hi),
    decreases hi - mid,
{
    if mid < hi {
        lemma_count_split(s, lo, mid, hi - 1);
    }
}

/// Counting is monotone in the upper end.
pub proof fn lemma_count_monotone(s: Set<int>, lo: int, a: int, b: int)
    requires
        lo <= a <= b,
    ensures
        count_in(s, lo, a) <= count_in(s, lo, b),
{
    lemma_count_split(s, lo, a, b);
}

/// A member counts: past a member `i` the count is larger than up to it.
pub proof fn lemma_count_member(s: Set<int>, lo: int, i: int, hi: int)
    requires
        lo <= i < hi,
        s.contains(i),
    ensures
        count_in(s, lo, i) < count_in(s, lo, hi),
{
    lemma_count_split(s, lo, i + 1, hi);
    assert(count_in(s, lo, i + 1) == count_in(s, lo, i) + 1);
}

/// Two sets that agree on `lo..hi` have the same count there.
pub proof fn lemma_count_agree(s: Set<int>, t: Set<int>, lo: int, hi: int)
    requires
        forall|b: int| lo <= b < hi ==> (s.contains(b) <==> t.contains(b)),
    ensures
        count_in(s, lo, hi) == count_in(t, lo, hi),
    decreases hi - lo,
{
    if lo < hi {
        lemma_count_agree(s, t, lo, hi - 1);
    }
}

/// Enabling a position that was disabled adds one to the count of every
/// range that holds it, and nothing to the others.
pub proof fn lemma_count_insert(s: Set<int>, b: int, lo: int, hi: int)
    requires
        !s.contains(b),
    ensures
        count_in(s.insert(b), lo, hi) == count_in(s, lo, hi) + if lo <= b < hi {
            1nat
        } else {
            0nat
        },
    decreases hi - lo,
{
    if lo < hi {
        lemma_count_insert(s, b, lo, hi - 1);
    }
}

/// Disabling a position that was enabled takes one from the count of every
/// range that holds it, and nothing from the others.
pub proof fn lemma_count_remove(s: Set<int>, b: int, lo: int, hi: int)
    requires
        s.contains(b),
    ensures
        count_in(s, lo, hi) == count_in(s.remove(b), lo, hi) + if lo <= b < hi {
            1nat
        } else {
            0nat
        },
    decreases hi - lo,
{
    if lo < hi {
        lemma_count_remove(s, b, lo, hi - 1);
    }
}

/// A strictly ascending sequence lists its members by rank: the member at
/// position `k` has `k` members below it, and there are as many members
/// as positions.
pub proof fn lemma_ascending_ranks(a: Seq<int>, s: Set<int>, bound: int)
    requires
        ascending(a),
        forall|b: int| s.contains(b) <==> a.contains(b),
        forall|k: int| 0 <= k < a.len() ==> 0 <= #[trigger] a[k] < bound,
    ensures
        count_in(s, 0, bound) == a.len(),
        forall|k: int| 0 <= k < a.len() ==> count_in(s, 0, #[trigger] a[k]) == k,
    decreases a.len(),
{
    if a.len() == 0 {
        assert forall|b: int| 0 <= b < bound implies (s.contains(b) <==> Set::<int>::empty().contains(
            b,
        )) by {
            if s.contains(b) {
                assert(a.contains(b));
            }
        }
        lemma_count_agree(s, Set::<int>::empty(), 0, bound);
        lemma_count_empty(0, bound);
    } else {
        let top = a.last();
        let rest = a.drop_last();
        let below = s.remove(top);
        assert(a.contains(top));
        assert forall|b: int| below.contains(b) <==> rest.contains(b) by {
            if below.contains(b) {
                assert(a.contains(b));
                let k = choose|k: int| 0 <= k < a.len() && a[k] == b;
                assert(rest[k] == b);
            }
            if rest.contains(b) {
                let k = choose|k: int| 0 <= k < rest.len() && rest[k] == b;
                assert(a[k] == b);
                assert(a.contains(b));
            }
        }
        assert forall|k: int| 0 <= k < rest.len() implies 0 <= #[trigger] rest[k] < top by {
            assert(rest[k] == a[k]);
        }
        lemma_ascending_ranks(rest, below, top);
        lemma_count_remove(s, top, 0, top);
        lemma_count_split(s, 0, top + 1, bound);
        assert(count_in(s, top + 1, bound) == 0) by {
            assert forall|b: int| top + 1 <= b < bound implies (s.contains(b) <==> Set::<
                int,
            >::empty().contains(b)) by {
                if s.contains(b) {
                    assert(a.contains(b));
                    let k = choose|k: int| 0 <= k < a.len() && a[k] == b;
                    assert(k == a.len() - 1 || a[k] < top);
                }
            }
            lemma_count_agree(s, Set::<int>::empty(), top + 1, bound);
            lemma_count_empty(top + 1, bound);
        }
        assert forall|k: int| 0 <= k < a.len() implies count_in(s, 0, #[trigger] a[k]) == k by {
            if k < a.len() - 1 {
                assert(rest[k] == a[k]);
                lemma_count_remove(s, top, 0, a[k]);
            }
        }
    }
}

/// The empty set counts nothing.
pub proof fn lemma_count_empty(lo: int, hi: int)
    ensures
        count_in(Set::<int>::empty(), lo, hi) == 0,
    decreases hi - lo,
{
    if lo < hi {
        lemma_count_empty(lo, hi - 1);
    }
}

} // verus!
