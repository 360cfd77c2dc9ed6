//! What follows from being sorted: a multiset of elements has, up to
//! elements that the order cannot tell apart, one sorted arrangement only.
//! So every sort of this crate gives the same result, and none changes a
//! sequence that is sorted already.

use vstd::prelude::*;
use vstd::std_specs::cmp::PartialOrdIs;
use crate::exchange::lemma_element_found;
use crate::order::{
    antisymmetric,
    descends_at,
    equivalent,
    equivalent_throughout,
    lemma_never_descending_is_sorted,
    sorted,
    total_order,
};

verus! {

/// Taking one element out of a sorted sequence leaves it sorted.
proof fn lemma_remove_keeps_sorted<E: PartialOrd>(s: Seq<E>, p: int)
    requires
        sorted(s),
        0 <= p < s.len(),
    ensures
        sorted(s.remove(p)),
{
    let r = s.remove(p);
    assert forall|i: int, j: int| #![trigger r[i], r[j]] 0 <= i < j < r.len() implies r[i].is_le(
        &r[j],
    ) by {
        // what stands at `i` and `j` stood in `s` in the same order
        let at_i = if i < p { i } else { i + 1 };
        let at_j = if j < p { j } else { j + 1 };
        assert(r[i] == s[at_i] && r[j] == s[at_j]);
    }
}

/// Two sorted sequences with the same multiset of elements agree position by
/// position, up to elements that the order cannot tell apart.
pub proof fn lemma_sorted_arrangements_agree<E: PartialOrd>(a: Seq<E>, b: Seq<E>)
    requires
        total_order::<E>(),
        sorted(a),
        sorted(b),
        a.to_multiset() == b.to_multiset(),
    ensures
        equivalent_throughout(a, b),
    decreases a.len(),
{
    vstd::seq_lib::to_multiset_len(a);
    vstd::seq_lib::to_multiset_len(b);
    if a.len() > 0 {
        let x = a[0];
        let y = b[0];
        // Each first element stands somewhere in the other sequence, so each
        // is at most the other.
        let p = lemma_element_found(b, a, 0);
        let q = lemma_element_found(a, b, 0);
        assert(x.is_le(&a[p]) && y.is_le(&b[q])) by {
            assert(x.is_le(&x) && y.is_le(&y));
        }
        // Without `y`, both are sorted arrangements of one multiset still.
        let a_rest = a.remove(p);
        let b_rest = b.remove(0);
        vstd::seq_lib::to_multiset_remove(a, p);
        vstd::seq_lib::to_multiset_remove(b, 0);
        lemma_remove_keeps_sorted(a, p);
        lemma_remove_keeps_sorted(b, 0);
        lemma_sorted_arrangements_agree(a_rest, b_rest);
        assert forall|i: int| 0 <= i < a.len() implies equivalent(#[trigger] a[i], b[i]) by {
            if 0 < i <= p {
                // `b[i]` agrees with `a[i - 1]`, and up to `p` the order
                // cannot tell anything in `a` from `x`
                assert(equivalent(a_rest[i - 1], b_rest[i - 1]));
                assert(equivalent(a[i - 1], x) && equivalent(a[i], x)) by {
                    assert(a[i - 1].is_le(&a[p]) && a[i].is_le(&y));
                    assert(x.is_le(&a[i - 1]) && x.is_le(&a[i]));
                }
            } else if p < i {
                assert(equivalent(a_rest[i - 1], b_rest[i - 1]));
                assert(a_rest[i - 1] == a[i] && b_rest[i - 1] == b[i]);
            }
        }
    }
}

/// The element at position `i` of `s` is greater than its right neighbour.
pub open spec fn exceeds_next<E: PartialOrd>(s: Seq<E>, i: int) -> bool {
    s[i].is_gt(&s[i + 1])
}

/// In a sorted sequence no element is greater than its right neighbour.
pub proof fn lemma_sorted_never_exceeds_next<E: PartialOrd>(s: Seq<E>)
    requires
        sorted(s),
    ensures
        forall|i: int| 0 <= i < s.len() - 1 ==> !#[trigger] exceeds_next(s, i),
{
    assert forall|i: int| 0 <= i < s.len() - 1 implies !#[trigger] exceeds_next(s, i) by {
        assert(s[i].is_le(&s[i + 1]));
    }
}

/// Under a total order, a sequence in which no element is greater than its
/// right neighbour is sorted.
pub proof fn lemma_never_exceeding_next_is_sorted<E: PartialOrd>(s: Seq<E>)
    requires
        total_order::<E>(),
        forall|i: int| 0 <= i < s.len() - 1 ==> !#[trigger] exceeds_next(s, i),
    ensures
        sorted(s),
{
    assert forall|k: int| 0 < k < s.len() implies !#[trigger] descends_at(s, k) by {
        assert(!exceeds_next(s, k - 1));
    }
    lemma_never_descending_is_sorted(s);
}

/// Where the order tells any two different elements apart, a multiset of
/// elements has one sorted arrangement only.
pub proof fn lemma_sorted_arrangement_unique<E: PartialOrd>(a: Seq<E>, b: Seq<E>)
    requires
        total_order::<E>(),
        antisymmetric::<E>(),
        sorted(a),
        sorted(b),
        a.to_multiset() == b.to_multiset(),
    ensures
        a == b,
{
    lemma_sorted_arrangements_agree(a, b);
    assert(a =~= b);
}

/// Sorting what is sorted already changes nothing that the order can see:
/// any sorted rearrangement of a sorted sequence agrees with it position by
/// position.
pub proof fn lemma_sorting_is_idempotent<E: PartialOrd>(before: Seq<E>, after: Seq<E>)
    requires
        total_order::<E>(),
        sorted(before),
        sorted(after),
        after.to_multiset() == before.to_multiset(),
    ensures
        equivalent_throughout(after, before),
{
    lemma_sorted_arrangements_agree(after, before);
}

} // verus!
