//! Gnome sort.

use vstd::prelude::*;
use vstd::std_specs::cmp::PartialOrdIs;
use crate::exchange::lemma_exchange_keeps_multiset;
use crate::order::{
    asymmetric,
    comparisons_agree,
    descends_at,
    lemma_never_descending_is_sorted,
    mirrored,
    never_descends,
    sorted,
    total_order,
};

verus! {

/// Sorts the slice with one cursor: where the element under it is strictly
/// below its left neighbour it exchanges the two and steps back, and
/// otherwise it steps forward.
///
/// Two elements that the order cannot compare are left as they stand. The
/// cursor comes to an end because no two elements are each below the other:
/// a pair once exchanged is not exchanged back.
pub fn gnome<E: PartialOrd>(v: &mut [E])
    requires
        comparisons_agree::<E>(),
        asymmetric::<E>(),
    ensures
        final(v)@.len() == old(v)@.len(),
        final(v)@.to_multiset() == old(v)@.to_multiset(),
        never_descends(final(v)@),
        total_order::<E>() ==> sorted(final(v)@),
        mirrored::<E>() && sorted(old(v)@) ==> final(v)@ == old(v)@,
        old(v)@.len() <= 1 ==> final(v)@ == old(v)@,
{
    let mut cur: usize = 0;
    // The positions `0..top` are those the cursor has been on. While an
    // element is on its way down, `settled` is false, and the cursor is on it.
    let ghost mut top: int = 0;
    let ghost mut settled: bool = true;
    loop
        invariant
            comparisons_agree::<E>(),
            asymmetric::<E>(),
            0 <= cur <= top <= v@.len(),
            v@.len() == old(v)@.len(),
            v@.to_multiset() == old(v)@.to_multiset(),
            mirrored::<E>() && sorted(old(v)@) ==> v@ == old(v)@,
            old(v)@.len() <= 1 ==> v@ == old(v)@,
            !settled ==> cur < top,
            // below `top` nothing descends, but perhaps beside an element on
            // its way down
            forall|k: int|
                0 < k < top && (settled || (k != cur && k != cur + 1)) ==> !#[trigger] descends_at(
                    v@,
                    k,
                ),
            // the element it has just passed is not below that element,
            !settled && cur + 1 < top ==> !v@[cur + 1].is_lt(&v@[cur as int]),
            // nor below the one it meets next
            !settled && 0 < cur && cur + 1 < top ==> !v@[cur + 1].is_lt(&v@[cur - 1]),
        decreases
            v@.len() - top,
            if settled { 0int } else { 1int },
            if settled { top - cur } else { cur as int },
    {
        if cur >= v.len() {
            proof {
                if total_order::<E>() {
                    lemma_never_descending_is_sorted(v@);
                }
            }
            return;
        } else if cur == 0 || !(v[cur] < v[cur - 1]) {
            proof {
                if cur == top {
                    top = top + 1;
                }
                settled = true;
            }
            cur += 1;
        } else {
            let ghost before = v@;
            proof {
                // among settled elements the cursor finds nothing to exchange
                if settled && cur < top {
                    assert(!descends_at(before, cur as int));
                }
            }
            v.swap(cur, cur - 1);
            cur -= 1;
            proof {
                lemma_exchange_keeps_multiset(before, cur + 1, cur as int);
                if cur + 1 == top {
                    top = top + 1;
                }
                settled = false;
                assert forall|k: int| 0 < k < top && k != cur && k != cur + 1 implies !#[trigger] descends_at(
                    v@,
                    k,
                ) by {
                    if k != cur + 2 {
                        assert(!descends_at(before, k));
                    }
                }
                if 0 < cur {
                    assert(!descends_at(before, cur as int));
                }
            }
        }
    }
}

} // verus!
