//! Insertion sort.

use vstd::prelude::*;
use vstd::std_specs::cmp::PartialOrdIs;
use crate::exchange::lemma_exchange_keeps_multiset;
use crate::order::{comparisons_agree, sorted, sorted_between, total_order};

verus! {

/// Sorts the slice by taking the elements one by one and moving each to the
/// left, past every neighbour that is greater, into the sorted part before it.
pub fn insertion<E: PartialOrd>(v: &mut [E])
    ensures
        final(v)@.len() == old(v)@.len(),
        final(v)@.to_multiset() == old(v)@.to_multiset(),
        total_order::<E>() ==> sorted(final(v)@),
        comparisons_agree::<E>() && sorted(old(v)@) ==> final(v)@ == old(v)@,
        old(v)@.len() <= 1 ==> final(v)@ == old(v)@,
{
    let n = v.len();
    let mut i: usize = 1;
    while i < n
        invariant
            1 <= i,
            n == v@.len(),
            v@.len() == old(v)@.len(),
            v@.to_multiset() == old(v)@.to_multiset(),
            comparisons_agree::<E>() && sorted(old(v)@) ==> v@ == old(v)@,
            old(v)@.len() <= 1 ==> v@ == old(v)@,
            total_order::<E>() ==> sorted_between(v@, 0, i as int),
        decreases n - i,
    {
        let mut j = i;
        while j > 0 && v[j - 1] > v[j]
            invariant
                j <= i < v@.len(),
                v@.len() == old(v)@.len(),
                v@.to_multiset() == old(v)@.to_multiset(),
                comparisons_agree::<E>() && sorted(old(v)@) ==> v@ == old(v)@,
                old(v)@.len() <= 1 ==> v@ == old(v)@,
                // without the element on its way, the part up to `i` is sorted
                total_order::<E>() ==> forall|a: int, b: int|
                    #![trigger v@[a], v@[b]]
                    0 <= a < b <= i && a != j && b != j ==> v@[a].is_le(&v@[b]),
                // and the element on its way is below everything it has passed
                total_order::<E>() ==> forall|b: int|
                    #![trigger v@[b]]
                    j < b <= i ==> v@[j as int].is_le(&v@[b]),
            decreases j,
        {
            proof {
                lemma_exchange_keeps_multiset(v@, j as int, j - 1);
            }
            v.swap(j, j - 1);
            j -= 1;
        }
        i += 1;
    }
}

} // verus!
