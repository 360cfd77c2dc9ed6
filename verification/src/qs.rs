//! Quicksort: a partition that tracks its pivot by position, and the
//! recursion over the two parts that it leaves.
//!
//! The partition works in place and keeps no copy of the pivot. It chooses
//! the position in the middle of the stretch, the lower of the two where
//! there are two, and from then on knows the pivot by where it stands.

use vstd::prelude::*;
use vstd::std_specs::cmp::PartialOrdIs;
use crate::exchange::{lemma_element_found, lemma_exchange_within};
use crate::order::{
    comparisons_agree,
    equivalent,
    irreflexive,
    mirrored,
    sorted,
    sorted_between,
    total_order,
};

verus! {

/// Every position outside `lo..=hi` holds in `after` what it held in `before`.
pub open spec fn same_outside<E>(before: Seq<E>, after: Seq<E>, lo: int, hi: int) -> bool {
    &&& after.len() == before.len()
    &&& forall|k: int|
        #![trigger before[k]]
        0 <= k < before.len() && !(lo <= k <= hi) ==> after[k] == before[k]
}

/// The positions `lo..=hi` of `after` hold the elements that they held in
/// `before`, in some order.
pub open spec fn rearranged_within<E>(before: Seq<E>, after: Seq<E>, lo: int, hi: int) -> bool {
    &&& same_outside(before, after, lo, hi)
    &&& after.subrange(lo, hi + 1).to_multiset() == before.subrange(lo, hi + 1).to_multiset()
}

/// The element `x` stands in one of the positions `lo..=hi` of `s`.
pub open spec fn stands_within<E>(s: Seq<E>, lo: int, hi: int, x: E) -> bool {
    exists|b: int| #![trigger s[b]] lo <= b <= hi && s[b] == x
}

/// Whatever stands in the positions `lo..=hi` of `before` stands in one of
/// those positions of `after`.
pub open spec fn found_within<E>(before: Seq<E>, after: Seq<E>, lo: int, hi: int) -> bool {
    forall|a: int| lo <= a <= hi ==> stands_within(after, lo, hi, #[trigger] before[a])
}

/// What stood on its side of the pivot from the start has not been moved:
/// with the pivot at `p`, a position before `p` that held an element below
/// the pivot holds it still, and so does a position beyond `p` that held an
/// element above the pivot.
pub open spec fn kept_in_place<E: PartialOrd>(
    before: Seq<E>,
    after: Seq<E>,
    lo: int,
    p: int,
    hi: int,
) -> bool {
    &&& forall|k: int|
        #![trigger before[k]]
        lo <= k < p && before[k].is_lt(&after[p]) ==> after[k] == before[k]
    &&& forall|k: int|
        #![trigger before[k]]
        p < k <= hi && before[k].is_gt(&after[p]) ==> after[k] == before[k]
}

/// Within `lo..=hi`, nothing before position `p` is above the element at `p`,
/// and nothing beyond `p` is below it.
pub open spec fn parted_around<E: PartialOrd>(s: Seq<E>, lo: int, p: int, hi: int) -> bool {
    &&& forall|k: int| #![trigger s[k]] lo <= k < p ==> !s[k].is_gt(&s[p])
    &&& forall|k: int| #![trigger s[k]] p < k <= hi ==> !s[k].is_lt(&s[p])
}

/// Within `lo..=hi`, everything up to position `p` is at most the element at
/// `p`, and everything beyond `p` is at least that element.
pub open spec fn split_around<E: PartialOrd>(s: Seq<E>, lo: int, p: int, hi: int) -> bool {
    &&& forall|k: int| #![trigger s[k]] lo <= k <= p ==> s[k].is_le(&s[p])
    &&& forall|k: int| #![trigger s[k]] p < k <= hi ==> s[p].is_le(&s[k])
}

/// Within `lo..=hi`, everything before position `p` is strictly below the
/// element at `p`, and everything beyond `p` is strictly above it.
pub open spec fn strictly_split_around<E: PartialOrd>(s: Seq<E>, lo: int, p: int, hi: int) -> bool {
    &&& forall|k: int| #![trigger s[k]] lo <= k < p ==> s[k].is_lt(&s[p])
    &&& forall|k: int| #![trigger s[k]] p < k <= hi ==> s[k].is_gt(&s[p])
}

/// No two positions of `lo..=hi` hold elements that the order cannot tell
/// apart.
pub open spec fn no_two_equivalent<E: PartialOrd>(s: Seq<E>, lo: int, hi: int) -> bool {
    forall|a: int, b: int|
        #![trigger s[a], s[b]]
        lo <= a <= hi && lo <= b <= hi && a != b ==> !equivalent(s[a], s[b])
}

/// Nothing in `lo..hi` is above the element at `hi`.
pub open spec fn highest_last<E: PartialOrd>(s: Seq<E>, lo: int, hi: int) -> bool {
    forall|k: int| #![trigger s[k]] lo <= k < hi ==> !s[k].is_gt(&s[hi])
}

/// A rearrangement within `lo..=hi` is one within any wider stretch too.
proof fn lemma_rearranged_wider<E>(
    before: Seq<E>,
    after: Seq<E>,
    lo: int,
    hi: int,
    wide_lo: int,
    wide_hi: int,
)
    requires
        rearranged_within(before, after, lo, hi),
        0 <= wide_lo <= lo <= hi <= wide_hi < before.len(),
    ensures
        rearranged_within(before, after, wide_lo, wide_hi),
{
    // the wider stretch is the narrower one between two stretches that
    // are as they were
    let b_in = before.subrange(lo, hi + 1);
    let a_in = after.subrange(lo, hi + 1);
    let below = before.subrange(wide_lo, lo);
    let above = before.subrange(hi + 1, wide_hi + 1);
    assert(before.subrange(wide_lo, wide_hi + 1) =~= (below + b_in) + above);
    assert(after.subrange(wide_lo, wide_hi + 1) =~= (below + a_in) + above);
    vstd::seq_lib::lemma_multiset_commutative(below, b_in);
    vstd::seq_lib::lemma_multiset_commutative(below, a_in);
    vstd::seq_lib::lemma_multiset_commutative(below + b_in, above);
    vstd::seq_lib::lemma_multiset_commutative(below + a_in, above);
}

/// A rearrangement within `lo..=hi` keeps every element of the stretch in
/// the stretch.
proof fn lemma_rearranged_found<E>(before: Seq<E>, after: Seq<E>, lo: int, hi: int)
    requires
        rearranged_within(before, after, lo, hi),
        0 <= lo <= hi < before.len(),
    ensures
        found_within(before, after, lo, hi),
{
    assert forall|a: int| lo <= a <= hi implies stands_within(after, lo, hi, #[trigger] before[a]) by {
        let at = lemma_element_found(
            before.subrange(lo, hi + 1),
            after.subrange(lo, hi + 1),
            a - lo,
        );
        assert(after[lo + at] == before[a]);
    }
}

/// Rearranging `lo..=hi`, then `lo..=p`, then `p+1..=hi` is rearranging
/// `lo..=hi`.
proof fn lemma_parts_rearranged<E>(
    start: Seq<E>,
    split: Seq<E>,
    left_done: Seq<E>,
    done: Seq<E>,
    lo: int,
    p: int,
    hi: int,
)
    requires
        0 <= lo <= p <= hi < start.len(),
        lo < hi,
        rearranged_within(start, split, lo, hi),
        lo < p ==> rearranged_within(split, left_done, lo, p),
        lo >= p ==> left_done == split,
        p + 1 < hi ==> rearranged_within(left_done, done, p + 1, hi),
        p + 1 >= hi ==> done == left_done,
    ensures
        rearranged_within(start, done, lo, hi),
{
    if lo < p {
        lemma_rearranged_wider(split, left_done, lo, p, lo, hi);
    }
    if p + 1 < hi {
        lemma_rearranged_wider(left_done, done, p + 1, hi, lo, hi);
    }
}

/// Once `lo..=hi` is split around the element at `p`, sorting the part up
/// to `p` and the part beyond it, each within itself, sorts the whole
/// stretch.
proof fn lemma_sorted_parts_join<E: PartialOrd>(
    split: Seq<E>,
    left_done: Seq<E>,
    done: Seq<E>,
    lo: int,
    p: int,
    hi: int,
)
    requires
        total_order::<E>(),
        0 <= lo <= p <= hi < split.len(),
        lo < hi,
        split_around(split, lo, p, hi),
        lo < p ==> rearranged_within(split, left_done, lo, p) && sorted_between(left_done, lo, p + 1),
        lo >= p ==> left_done == split,
        p + 1 < hi ==> rearranged_within(left_done, done, p + 1, hi) && sorted_between(
            done,
            p + 1,
            hi + 1,
        ),
        p + 1 >= hi ==> done == left_done,
    ensures
        sorted_between(done, lo, hi + 1),
{
    assert forall|i: int, j: int| #![trigger done[i], done[j]] lo <= i < j < hi + 1 implies done[i].is_le(
        &done[j],
    ) by {
        if i <= p < j {
            // what stands at `i` stood up to `p` after the split, and what
            // stands at `j` stood beyond `p`
            let a = lemma_element_found(
                left_done.subrange(lo, p + 1),
                split.subrange(lo, p + 1),
                i - lo,
            );
            let b = lemma_element_found(
                done.subrange(p + 1, hi + 1),
                left_done.subrange(p + 1, hi + 1),
                j - (p + 1),
            );
            assert(done[i] == split[lo + a] && done[j] == split[p + 1 + b]);
        }
    }
}

/// Splits the positions `lo..=hi` around the element that stands in their
/// middle, and returns the position where that element, the pivot, ends.
///
/// The pivot is never copied out: `piv` is the position where it stands, and
/// follows it when an exchange moves it. The cursors `i` and `j` close in on
/// it from both ends and exchange what stands on the wrong side. Where both
/// rest on elements that an exchange would only bring back under them, one
/// of them steps on instead, so that they meet even where every element
/// equals the pivot.
pub fn partition<E: PartialOrd>(v: &mut [E], lo: usize, hi: usize) -> (p: usize)
    requires
        comparisons_agree::<E>(),
        irreflexive::<E>(),
        mirrored::<E>(),
        lo <= hi < old(v)@.len(),
    ensures
        lo <= p <= hi,
        rearranged_within(old(v)@, final(v)@, lo as int, hi as int),
        found_within(old(v)@, final(v)@, lo as int, hi as int),
        final(v)@[p as int] == old(v)@[lo + (hi - lo) / 2],
        kept_in_place(old(v)@, final(v)@, lo as int, p as int, hi as int),
        parted_around(final(v)@, lo as int, p as int, hi as int),
        total_order::<E>() ==> split_around(final(v)@, lo as int, p as int, hi as int),
        total_order::<E>() && no_two_equivalent(old(v)@, lo as int, hi as int)
            ==> strictly_split_around(final(v)@, lo as int, p as int, hi as int),
        total_order::<E>() && sorted_between(old(v)@, lo as int, hi + 1) ==> final(v)@ == old(v)@,
        lo < hi && highest_last(old(v)@, lo as int, hi as int) ==> p < hi,
{
    let mut i: usize = lo;
    let mut j: usize = hi;
    let mut piv: usize = lo + (hi - lo) / 2;
    let ghost pivot = v@[piv as int];
    // After an exchange the walk of one cursor at least is due to move.
    let ghost mut due: bool = false;
    loop
        invariant
            comparisons_agree::<E>(),
            irreflexive::<E>(),
            mirrored::<E>(),
            lo <= i <= piv <= j <= hi < v@.len(),
            v@[piv as int] == pivot,
            pivot == old(v)@[lo + (hi - lo) / 2],
            rearranged_within(old(v)@, v@, lo as int, hi as int),
            forall|k: int| #![trigger v@[k]] lo <= k < i ==> !v@[k].is_gt(&pivot),
            forall|k: int| #![trigger v@[k]] j < k <= hi ==> !v@[k].is_lt(&pivot),
            due ==> v@[i as int].is_lt(&pivot) || v@[j as int].is_gt(&pivot),
            // between the cursors nothing has been moved, and under them
            // only what stood on the wrong side
            forall|k: int| #![trigger old(v)@[k]] i < k < j ==> v@[k] == old(v)@[k],
            i < j ==> v@[i as int] == old(v)@[i as int] || !old(v)@[i as int].is_lt(&pivot),
            i < j ==> v@[j as int] == old(v)@[j as int] || !old(v)@[j as int].is_gt(&pivot),
            forall|k: int|
                #![trigger old(v)@[k]]
                lo <= k < i && old(v)@[k].is_lt(&pivot) ==> v@[k] == old(v)@[k],
            forall|k: int|
                #![trigger old(v)@[k]]
                j < k <= hi && old(v)@[k].is_gt(&pivot) ==> v@[k] == old(v)@[k],
            total_order::<E>() && no_two_equivalent(old(v)@, lo as int, hi as int) ==> {
                &&& no_two_equivalent(v@, lo as int, hi as int)
                &&& forall|k: int| #![trigger v@[k]] lo <= k < i ==> v@[k].is_lt(&pivot)
                &&& forall|k: int| #![trigger v@[k]] j < k <= hi ==> v@[k].is_gt(&pivot)
            },
            total_order::<E>() && sorted_between(old(v)@, lo as int, hi + 1) ==> v@ == old(v)@,
            lo < hi && highest_last(old(v)@, lo as int, hi as int) && j == hi ==> {
                &&& piv < hi
                &&& v@ == old(v)@ || v@[hi as int].is_gt(&pivot)
            },
        decreases j - i, if due { 0int } else { 1int },
    {
        let ghost i_before = i;
        let ghost j_before = j;
        while v[i] < v[piv]
            invariant
                comparisons_agree::<E>(),
                irreflexive::<E>(),
                i_before <= i,
                lo <= i <= piv < v@.len(),
                piv <= j_before < v@.len(),
                v@.len() == old(v)@.len(),
                v@[piv as int] == pivot,
                forall|k: int|
                    #![trigger old(v)@[k]]
                    i_before < k < j_before ==> v@[k] == old(v)@[k],
                i_before < j_before ==> v@[i_before as int] == old(v)@[i_before as int]
                    || !old(v)@[i_before as int].is_lt(&pivot),
                forall|k: int|
                    #![trigger old(v)@[k]]
                    lo <= k < i && old(v)@[k].is_lt(&pivot) ==> v@[k] == old(v)@[k],
                forall|k: int| #![trigger v@[k]] lo <= k < i ==> !v@[k].is_gt(&pivot),
                total_order::<E>() && no_two_equivalent(old(v)@, lo as int, hi as int)
                    ==> forall|k: int| #![trigger v@[k]] lo <= k < i ==> v@[k].is_lt(&pivot),
            decreases piv - i,
        {
            i += 1;
        }
        while v[j] > v[piv]
            invariant
                comparisons_agree::<E>(),
                irreflexive::<E>(),
                j <= j_before,
                piv <= j <= hi < v@.len(),
                i_before <= i <= piv,
                v@.len() == old(v)@.len(),
                v@[piv as int] == pivot,
                forall|k: int|
                    #![trigger old(v)@[k]]
                    i_before < k < j_before ==> v@[k] == old(v)@[k],
                i_before < j_before ==> v@[j_before as int] == old(v)@[j_before as int]
                    || !old(v)@[j_before as int].is_gt(&pivot),
                forall|k: int|
                    #![trigger old(v)@[k]]
                    j < k <= hi && old(v)@[k].is_gt(&pivot) ==> v@[k] == old(v)@[k],
                forall|k: int| #![trigger v@[k]] j < k <= hi ==> !v@[k].is_lt(&pivot),
                total_order::<E>() && no_two_equivalent(old(v)@, lo as int, hi as int)
                    ==> forall|k: int| #![trigger v@[k]] j < k <= hi ==> v@[k].is_gt(&pivot),
            decreases j - piv,
        {
            j -= 1;
        }
        if i >= j {
            proof {
                lemma_rearranged_found(old(v)@, v@, lo as int, hi as int);
            }
            return j;
        }
        if v[j] < v[piv] || v[i] > v[piv] {
            // follow the pivot to where the exchange takes it
            if i == piv {
                piv = j;
            } else if j == piv {
                piv = i;
            }
            proof {
                lemma_exchange_within(v@, lo as int, hi + 1, i as int, j as int);
                due = true;
            }
            v.swap(i, j);
        } else if i == piv {
            // an exchange would bring neither cursor on
            j -= 1;
            proof {
                due = false;
            }
        } else {
            i += 1;
            proof {
                due = false;
            }
        }
    }
}

/// Sorts the positions `lo..=hi`; a stretch of fewer than two positions is
/// left alone.
///
/// Where the pivot ends at `hi`, the first of the two parts is the whole
/// stretch again, now with nothing in it above its last element. The
/// partition of such a stretch ends below `hi`.
pub fn qs<E: PartialOrd>(v: &mut [E], lo: usize, hi: usize)
    requires
        comparisons_agree::<E>(),
        irreflexive::<E>(),
        mirrored::<E>(),
        lo < hi ==> hi < old(v)@.len(),
    ensures
        lo >= hi ==> final(v)@ == old(v)@,
        lo < hi ==> rearranged_within(old(v)@, final(v)@, lo as int, hi as int),
        lo < hi && total_order::<E>() ==> sorted_between(final(v)@, lo as int, hi + 1),
        total_order::<E>() && sorted_between(old(v)@, lo as int, hi + 1) ==> final(v)@ == old(v)@,
    decreases
        if lo < hi { hi - lo } else { 0 },
        if highest_last(old(v)@, lo as int, hi as int) { 0int } else { 1int },
{
    if lo < hi {
        assert(hi < v.len());
        let p = partition(v, lo, hi);
        let ghost split = v@;
        qs(v, lo, p);
        let ghost left_done = v@;
        qs(v, p + 1, hi);
        proof {
            lemma_parts_rearranged(old(v)@, split, left_done, v@, lo as int, p as int, hi as int);
            if total_order::<E>() {
                lemma_sorted_parts_join(split, left_done, v@, lo as int, p as int, hi as int);
            }
        }
    }
}

/// Sorts the slice. An empty slice is left alone.
///
/// What is asked of the order is what keeps the cursors of the partition
/// inside the slice and brings the recursion to an end: that no element is
/// below or above itself, and that `a < b` says the same as `b > a`. Any
/// partial order provides that. Where the order is not total, the result is
/// some rearrangement of the slice.
pub fn quicksort<E: PartialOrd>(v: &mut [E])
    requires
        comparisons_agree::<E>(),
        irreflexive::<E>(),
        mirrored::<E>(),
    ensures
        final(v)@.len() == old(v)@.len(),
        final(v)@.to_multiset() == old(v)@.to_multiset(),
        total_order::<E>() ==> sorted(final(v)@),
        total_order::<E>() && sorted(old(v)@) ==> final(v)@ == old(v)@,
        old(v)@.len() <= 1 ==> final(v)@ == old(v)@,
{
    if v.len() == 0 {
        return;
    }
    let max = v.len() - 1;
    qs(v, 0, max);
    proof {
        assert(v@.subrange(0, max + 1) == v@);
        assert(old(v)@.subrange(0, max + 1) == old(v)@);
    }
}

} // verus!
