//! What the sorts assume of the order on the elements, and what it means for
//! a sequence to be sorted by it.
//!
//! The relation itself is the one the element type brings along: `a.is_lt(&b)`,
//! `a.is_le(&b)`, `a.is_gt(&b)` and `a.is_ge(&b)` are what `<`, `<=`, `>` and
//! `>=` mean for it.

use vstd::prelude::*;
use vstd::std_specs::cmp::PartialOrdIs;
use vstd::std_specs::cmp::PartialOrdSpec;

verus! {

/// The comparison operators of `E` return what its order relation says, the
/// same answer every time they are asked about the same two values.
pub open spec fn comparisons_agree<E: PartialOrd>() -> bool {
    E::obeys_partial_cmp_spec()
}

/// No element is strictly below or strictly above itself.
pub open spec fn irreflexive<E: PartialOrd>() -> bool {
    forall|a: E| #![trigger a.partial_cmp_spec(&a)] !a.is_lt(&a) && !a.is_gt(&a)
}

/// `a < b` says the same as `b > a`.
pub open spec fn mirrored<E: PartialOrd>() -> bool {
    forall|a: E, b: E| #![trigger a.partial_cmp_spec(&b)] a.is_lt(&b) <==> b.is_gt(&a)
}

/// No two elements are each strictly below the other.
pub open spec fn asymmetric<E: PartialOrd>() -> bool {
    forall|a: E, b: E| #![trigger a.partial_cmp_spec(&b)] !(a.is_lt(&b) && b.is_lt(&a))
}

/// The order on `E` is total: the comparison operators agree with it, any two
/// elements are comparable, `a < b` says the same as `b > a`, and `<=` is
/// transitive. Distinct elements may still compare as equal.
pub open spec fn total_order<E: PartialOrd>() -> bool {
    &&& E::obeys_partial_cmp_spec()
    &&& forall|a: E, b: E| (#[trigger] a.partial_cmp_spec(&b)) is Some
    &&& forall|a: E, b: E| #![trigger a.partial_cmp_spec(&b)] a.is_lt(&b) <==> b.is_gt(&a)
    &&& forall|a: E, b: E, c: E|
        #![trigger a.partial_cmp_spec(&b), b.partial_cmp_spec(&c), a.partial_cmp_spec(&c)]
        a.is_le(&b) && b.is_le(&c) ==> a.is_le(&c)
}

/// Each of the two elements is at most the other: the order cannot tell them
/// apart.
pub open spec fn equivalent<E: PartialOrd>(a: E, b: E) -> bool {
    a.is_le(&b) && b.is_le(&a)
}

/// Elements that the order cannot tell apart are the same element.
pub open spec fn antisymmetric<E: PartialOrd>() -> bool {
    forall|x: E, y: E| #[trigger] equivalent(x, y) ==> x == y
}

/// The two sequences are equally long and hold, position by position,
/// elements that the order cannot tell apart.
pub open spec fn equivalent_throughout<E: PartialOrd>(a: Seq<E>, b: Seq<E>) -> bool {
    &&& a.len() == b.len()
    &&& forall|i: int| #![trigger a[i]] #![trigger b[i]] 0 <= i < a.len() ==> equivalent(a[i], b[i])
}

/// The positions `from..to` of `s` are in non-decreasing order: no element
/// there is followed, at any distance, by one that is not at least as large.
pub open spec fn sorted_between<E: PartialOrd>(s: Seq<E>, from: int, to: int) -> bool {
    forall|i: int, j: int| #![trigger s[i], s[j]] from <= i < j < to ==> s[i].is_le(&s[j])
}

/// Nothing in the positions `0..at` of `s` is followed, at `at` or beyond, by
/// an element that is not at least as large.
pub open spec fn divided_at<E: PartialOrd>(s: Seq<E>, at: int) -> bool {
    forall|a: int, b: int| #![trigger s[a], s[b]] 0 <= a < at <= b < s.len() ==> s[a].is_le(&s[b])
}

/// The whole of `s` is in non-decreasing order.
pub open spec fn sorted<E: PartialOrd>(s: Seq<E>) -> bool {
    sorted_between(s, 0, s.len() as int)
}

/// The element at position `k` of `s` is strictly below its left neighbour.
pub open spec fn descends_at<E: PartialOrd>(s: Seq<E>, k: int) -> bool {
    s[k].is_lt(&s[k - 1])
}

/// No element of `s` is strictly below its left neighbour.
pub open spec fn never_descends<E: PartialOrd>(s: Seq<E>) -> bool {
    forall|k: int| 0 < k < s.len() ==> !#[trigger] descends_at(s, k)
}

/// Whatever a sort asks of the order, a total order provides.
pub proof fn lemma_total_order_meets_every_demand<E: PartialOrd>()
    requires
        total_order::<E>(),
    ensures
        comparisons_agree::<E>(),
        irreflexive::<E>(),
        mirrored::<E>(),
        asymmetric::<E>(),
{
}

/// The built-in order of the machine integers is total, and tells any two
/// different integers apart.
pub proof fn lemma_integers_are_totally_ordered()
    ensures
        antisymmetric::<u8>(),
        antisymmetric::<u16>(),
        antisymmetric::<u32>(),
        antisymmetric::<u64>(),
        antisymmetric::<u128>(),
        antisymmetric::<usize>(),
        antisymmetric::<i8>(),
        antisymmetric::<i16>(),
        antisymmetric::<i32>(),
        antisymmetric::<i64>(),
        antisymmetric::<i128>(),
        antisymmetric::<isize>(),
        total_order::<u8>(),
        total_order::<u16>(),
        total_order::<u32>(),
        total_order::<u64>(),
        total_order::<u128>(),
        total_order::<usize>(),
        total_order::<i8>(),
        total_order::<i16>(),
        total_order::<i32>(),
        total_order::<i64>(),
        total_order::<i128>(),
        total_order::<isize>(),
{
}

/// Where no element is below its left neighbour, `s[i]` is at most `s[j]`
/// for any `i` before `j`.
proof fn lemma_steps_reach<E: PartialOrd>(s: Seq<E>, i: int, j: int)
    requires
        total_order::<E>(),
        never_descends(s),
        0 <= i < j < s.len(),
    ensures
        s[i].is_le(&s[j]),
    decreases j - i,
{
    assert(!descends_at(s, j));
    if i < j - 1 {
        lemma_steps_reach(s, i, j - 1);
    }
}

/// Under a total order, a sequence in which no element is below its left
/// neighbour is sorted.
pub proof fn lemma_never_descending_is_sorted<E: PartialOrd>(s: Seq<E>)
    requires
        total_order::<E>(),
        never_descends(s),
    ensures
        sorted(s),
{
    assert forall|i: int, j: int| #![trigger s[i], s[j]] 0 <= i < j < s.len() implies s[i].is_le(
        &s[j],
    ) by {
        lemma_steps_reach(s, i, j);
    }
}

} // verus!
