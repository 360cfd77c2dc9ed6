//! The partition and the recursion over a stretch of a slice.

use sorts::qs::{partition, qs};
use std::cmp::Ordering;

/// A key with a mark that the order does not look at.
#[derive(Clone, Copy, Debug)]
struct Marked(i32, char);

impl PartialEq for Marked {
    fn eq(&self, other: &Marked) -> bool {
        self.0 == other.0
    }
}

impl PartialOrd for Marked {
    fn partial_cmp(&self, other: &Marked) -> Option<Ordering> {
        self.0.partial_cmp(&other.0)
    }
}

/// Partitions the pairs by their first field alone.
fn partition_by_key<const N: usize>(v: &mut [(i32, char); N], lo: usize, hi: usize) -> usize {
    let mut marked = v.map(|(key, mark)| Marked(key, mark));
    let p = partition(&mut marked, lo, hi);
    *v = marked.map(|m| (m.0, m.1));
    p
}

#[test]
fn partition_puts_the_pivot_between_the_parts() {
    // the pivot 8 goes to the end for the 2, and comes back one place for the 9
    let mut v = [5, 3, 8, 1, 9, 2];
    let p = partition(&mut v, 0, 5);
    assert_eq!(p, 4);
    assert_eq!(v, [5, 3, 2, 1, 8, 9]);
}

#[test]
fn partition_follows_the_pivot_through_an_exchange() {
    // the pivot 8 stands in the middle and is exchanged with the 2 at the end
    let mut v = [1, 8, 2];
    let p = partition(&mut v, 0, 2);
    assert_eq!(v, [1, 2, 8]);
    assert_eq!(p, 2);
    // the pivot 1 stands in the middle and is exchanged with the 3 at the start
    let mut v = [3, 1, 2];
    let p = partition(&mut v, 0, 2);
    assert_eq!(v, [1, 3, 2]);
    assert_eq!(p, 0);
    // the pivot 3 stands in the middle; the cursors meet on it at once
    let mut v = [1, 3, 5];
    let p = partition(&mut v, 0, 2);
    assert_eq!(v, [1, 3, 5]);
    assert_eq!(p, 1);
    let mut v = [1, 2, 3];
    let p = partition(&mut v, 0, 2);
    assert_eq!(v, [1, 2, 3]);
    assert_eq!(p, 1);
}

#[test]
fn partition_may_end_at_the_upper_end() {
    // the pivot 2 is the largest and ends last
    let mut v = [2, 1];
    let p = partition(&mut v, 0, 1);
    assert_eq!(p, 1);
    assert_eq!(v, [1, 2]);
}

#[test]
fn partition_of_equal_elements_moves_nothing() {
    let mut v = [(2, 'a'), (2, 'b')];
    let p = partition_by_key(&mut v, 0, 1);
    assert_eq!(p, 0);
    assert_eq!(v, [(2, 'a'), (2, 'b')]);
    let mut v = [(4, 'a'), (4, 'b'), (4, 'c'), (4, 'd'), (4, 'e'), (4, 'f')];
    let p = partition_by_key(&mut v, 0, 5);
    assert_eq!(p, 2);
    assert_eq!(v, [(4, 'a'), (4, 'b'), (4, 'c'), (4, 'd'), (4, 'e'), (4, 'f')]);
}

#[test]
fn partition_steps_over_an_equal_of_the_pivot() {
    // the first 5 is stepped over; the 7 goes to the end for the last 5,
    // which then gives its place to the 1
    let mut v = [(5, 'a'), (7, 'b'), (5, 'c'), (1, 'd'), (5, 'e')];
    let p = partition_by_key(&mut v, 0, 4);
    assert_eq!(v, [(5, 'a'), (1, 'd'), (5, 'c'), (5, 'e'), (7, 'b')]);
    assert_eq!(p, 2);
}

#[test]
fn partition_of_one_position_returns_it() {
    let mut v = [9, 7, 8];
    let p = partition(&mut v, 1, 1);
    assert_eq!(p, 1);
    assert_eq!(v, [9, 7, 8]);
}

#[test]
fn partition_leaves_the_rest_of_the_slice() {
    let mut v = [100, 4, 3, 2, 1, -100];
    let p = partition(&mut v, 1, 4);
    assert_eq!(p, 3);
    assert_eq!(v, [100, 1, 2, 3, 4, -100]);
    for a in 1..=p {
        for b in (p + 1)..5 {
            assert!(v[a] <= v[b]);
        }
    }
}

#[test]
fn qs_sorts_a_stretch_and_nothing_else() {
    let mut v = [9, 8, 7, 6, 5, 4, 3, 2, 1, 0];
    qs(&mut v, 2, 6);
    assert_eq!(v, [9, 8, 3, 4, 5, 6, 7, 2, 1, 0]);
}

#[test]
fn qs_leaves_a_stretch_of_one_or_none() {
    let mut v = [3, 2, 1];
    qs(&mut v, 1, 1);
    assert_eq!(v, [3, 2, 1]);
    qs(&mut v, 2, 1);
    assert_eq!(v, [3, 2, 1]);
    let mut none: [u8; 0] = [];
    qs(&mut none, 0, 0);
    assert_eq!(none, []);
}

#[test]
fn partition_takes_the_lower_middle_as_pivot() {
    // of two positions the first holds the pivot
    let mut v = [1, 2];
    let p = partition(&mut v, 0, 1);
    assert_eq!(p, 0);
    assert_eq!(v, [1, 2]);
    // of four positions the second holds it: here the 1
    let mut v = [3, 1, 4, 2];
    let p = partition(&mut v, 0, 3);
    assert_eq!(p, 0);
    assert_eq!(v, [1, 3, 4, 2]);
}

#[test]
fn partition_exchanges_across_the_pivot() {
    // pivot 5: the 9 and the 2 change places, then the 7 and the 4
    let mut v = [9, 7, 5, 4, 2];
    let p = partition(&mut v, 0, 4);
    assert_eq!(v, [2, 4, 5, 7, 9]);
    assert_eq!(p, 2);
}
