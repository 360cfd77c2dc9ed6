//! Bubble sort.

use vstd::prelude::*;
use vstd::std_specs::cmp::PartialOrdIs;
use crate::exchange::lemma_exchange_keeps_multiset;
use crate::order::{comparisons_agree, divided_at, sorted, sorted_between, total_order};

verus! {

/// Sorts the slice by passes over a shrinking front part, each of which
/// carries the largest element it meets to the end of that part. Stops after
/// the first pass that exchanges nothing.
pub fn bubble<E: PartialOrd>(v: &mut [E])
    ensures
        final(v)@.len() == old(v)@.len(),
        final(v)@.to_multiset() == old(v)@.to_multiset(),
        total_order::<E>() ==> sorted(final(v)@),
        comparisons_agree::<E>() && sorted(old(v)@) ==> final(v)@ == old(v)@,
        old(v)@.len() <= 1 ==> final(v)@ == old(v)@,
{
    let mut n = v.len();
    if n == 0 {
        return;
    }
    loop
        invariant_except_break
            1 <= n <= v@.len(),
            total_order::<E>() ==> sorted_between(v@, n as int, v@.len() as int),
            total_order::<E>() ==> divided_at(v@, n as int),
        invariant
            v@.len() == old(v)@.len(),
            v@.to_multiset() == old(v)@.to_multiset(),
            comparisons_agree::<E>() && sorted(old(v)@) ==> v@ == old(v)@,
            old(v)@.len() <= 1 ==> v@ == old(v)@,
        ensures
            total_order::<E>() ==> sorted(v@),
        decreases n,
    {
        let mut swapped = false;
        for i in 1..n
            invariant
                1 <= n <= v@.len(),
                swapped ==> n >= 2,
                v@.len() == old(v)@.len(),
                v@.to_multiset() == old(v)@.to_multiset(),
                comparisons_agree::<E>() && sorted(old(v)@) ==> v@ == old(v)@,
                old(v)@.len() <= 1 ==> v@ == old(v)@,
                total_order::<E>() ==> sorted_between(v@, n as int, v@.len() as int),
                total_order::<E>() ==> divided_at(v@, n as int),
                total_order::<E>() ==> forall|k: int|
                    #![trigger v@[k]]
                    0 <= k < i ==> v@[k].is_le(&v@[i - 1]),
                total_order::<E>() && !swapped ==> sorted_between(v@, 0, i as int),
        {
            if v[i - 1] > v[i] {
                proof {
                    lemma_exchange_keeps_multiset(v@, i - 1, i as int);
                }
                v.swap(i - 1, i);
                swapped = true;
            }
        }
        n -= 1;
        if !swapped {
            break;
        }
    }
}

} // verus!
