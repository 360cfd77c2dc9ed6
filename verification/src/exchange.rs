//! The one primitive every sort here is built from: exchanging two positions
//! of a slice. An exchange moves elements and never makes or loses one.

use vstd::prelude::*;

verus! {

/// The sequence `s` with the elements at positions `a` and `b` exchanged.
pub open spec fn exchanged<E>(s: Seq<E>, a: int, b: int) -> Seq<E> {
    s.update(a, s[b]).update(b, s[a])
}

/// `<[T]>::swap` of the standard library: exchanges the elements at the two
/// positions and leaves every other position as it was. The standard library
/// panics when a position is out of bounds, so both must be in bounds.
pub assume_specification<T>[ <[T]>::swap ](slice: &mut [T], a: usize, b: usize)
    requires
        a < old(slice)@.len(),
        b < old(slice)@.len(),
    ensures
        final(slice)@ == exchanged(old(slice)@, a as int, b as int),
;

/// An exchange keeps the multiset of elements.
pub proof fn lemma_exchange_keeps_multiset<E>(s: Seq<E>, a: int, b: int)
    requires
        0 <= a < s.len(),
        0 <= b < s.len(),
    ensures
        exchanged(s, a, b).to_multiset() == s.to_multiset(),
{
    broadcast use vstd::seq_lib::group_to_multiset_ensures;

    // each of the two updates puts one element in and takes one out that is there
    let half = s.update(a, s[b]);
    assert(s.contains(s[a]) && half.contains(half[b]));
    assert(exchanged(s, a, b).to_multiset() =~= s.to_multiset());
}

/// An exchange of two positions inside `from..to` keeps the multiset of
/// elements of that stretch.
pub proof fn lemma_exchange_within<E>(s: Seq<E>, from: int, to: int, a: int, b: int)
    requires
        0 <= from <= a < to <= s.len(),
        from <= b < to,
    ensures
        exchanged(s, a, b).subrange(from, to).to_multiset() == s.subrange(from, to).to_multiset(),
{
    let part = s.subrange(from, to);
    assert(exchanged(s, a, b).subrange(from, to) =~= exchanged(part, a - from, b - from));
    lemma_exchange_keeps_multiset(part, a - from, b - from);
}

/// Two sequences with the same multiset hold the same elements: whatever
/// stands at position `i` of `a` stands somewhere in `b`, at the position
/// returned.
pub proof fn lemma_element_found<E>(a: Seq<E>, b: Seq<E>, i: int) -> (j: int)
    requires
        a.to_multiset() == b.to_multiset(),
        0 <= i < a.len(),
    ensures
        0 <= j < b.len(),
        b[j] == a[i],
{
    vstd::seq_lib::to_multiset_contains(a, a[i]);
    vstd::seq_lib::to_multiset_contains(b, a[i]);
    assert(a.contains(a[i]));
    choose|j: int| 0 <= j < b.len() && b[j] == a[i]
}

} // verus!
