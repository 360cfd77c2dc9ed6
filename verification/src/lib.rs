//! In-place comparison sorts over mutable slices, with machine-checked contracts.
//!
//! Five sorts, each in a module of its own: [`qs::quicksort`],
//! [`selection::selection`], [`insertion::insertion`], [`bubble::bubble`] and
//! [`gnome::gnome`]. Each rearranges a slice by exchanging pairs of positions,
//! so the multiset of its elements never changes, and leaves it in
//! non-decreasing order whenever the order on the elements is total.
//!
//! What a sort asks of the order is what it needs to come to an end inside
//! the slice, and any partial order provides it. Selection, insertion and
//! bubble sort ask nothing: they end and keep every element whatever the
//! comparisons answer. Quicksort asks that no element be below or above
//! itself and that `a < b` say the same as `b > a`; gnome sort asks that no
//! two elements be each below the other. The module [`order`] holds these
//! notions, [`laws`] what follows from a sequence being sorted.

pub mod exchange;
pub mod order;
pub mod bubble;
pub mod gnome;
pub mod insertion;
pub mod laws;
pub mod qs;
pub mod selection;
