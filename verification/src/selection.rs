//! Selection sort.

use vstd::prelude::*;
use vstd::std_specs::cmp::PartialOrdIs;
use crate::exchange::lemma_exchange_keeps_multiset;
use crate::order::{
    comparisons_agree,
    divided_at,
    irreflexive,
    mirrored,
    sorted,
    sorted_between,
    total_order,
};

verus! {

/// Sorts the slice by moving, for each position but the last, the smallest
/// element of the rest into it. An empty slice is left alone.
pub fn selection<E: PartialOrd>(v: &mut [E])
    ensures
        final(v)@.len() == old(v)@.len(),
        final(v)@.to_multiset() == old(v)@.to_multiset(),
        total_order::<E>() ==> sorted(final(v)@),
        comparisons_agree::<E>() && irreflexive::<E>() && mirrored::<E>() && sorted(old(v)@)
            ==> final(v)@ == old(v)@,
        old(v)@.len() <= 1 ==> final(v)@ == old(v)@,
{
    let n = v.len();
    if n == 0 {
        return;
    }
    for i in 0..(n - 1)
        invariant
            1 <= n == v@.len(),
            v@.len() == old(v)@.len(),
            v@.to_multiset() == old(v)@.to_multiset(),
            comparisons_agree::<E>() && irreflexive::<E>() && mirrored::<E>() && sorted(old(v)@)
            ==> v@ == old(v)@,
            old(v)@.len() <= 1 ==> v@ == old(v)@,
            total_order::<E>() ==> sorted_between(v@, 0, i as int),
            total_order::<E>() ==> divided_at(v@, i as int),
    {
        let mut j_min = i;
        for j in i..n
            invariant
                i < n - 1,
                n == v@.len(),
                i <= j_min < n,
                j_min == i || j_min < j,
                total_order::<E>() ==> forall|k: int|
                    #![trigger v@[k]]
                    i <= k < j ==> v@[j_min as int].is_le(&v@[k]),
                comparisons_agree::<E>() && irreflexive::<E>() && mirrored::<E>() && sorted(v@)
                    ==> j_min == i,
        {
            if v[j] < v[j_min] {
                j_min = j;
            }
        }
        if j_min != i {
            proof {
                lemma_exchange_keeps_multiset(v@, i as int, j_min as int);
            }
            v.swap(i, j_min);
        }
    }
}

} // verus!
