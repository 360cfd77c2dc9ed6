//! The sorts on small inputs with known results.

use sorts::bubble::bubble;
use sorts::gnome::gnome;
use sorts::insertion::insertion;
use sorts::qs::quicksort;
use sorts::selection::selection;

#[test]
fn quicksort_sorts_six_numbers() {
    let mut v = [5, 3, 8, 1, 9, 2];
    quicksort(&mut v);
    assert_eq!(v, [1, 2, 3, 5, 8, 9]);
}

#[test]
fn selection_sorts_six_numbers() {
    let mut v = [5, 3, 8, 1, 9, 2];
    selection(&mut v);
    assert_eq!(v, [1, 2, 3, 5, 8, 9]);
}

#[test]
fn insertion_sorts_six_numbers() {
    let mut v = [5, 3, 8, 1, 9, 2];
    insertion(&mut v);
    assert_eq!(v, [1, 2, 3, 5, 8, 9]);
}

#[test]
fn bubble_sorts_six_numbers() {
    let mut v = [5, 3, 8, 1, 9, 2];
    bubble(&mut v);
    assert_eq!(v, [1, 2, 3, 5, 8, 9]);
}

#[test]
fn gnome_sorts_six_numbers() {
    let mut v = [5, 3, 8, 1, 9, 2];
    gnome(&mut v);
    assert_eq!(v, [1, 2, 3, 5, 8, 9]);
}

#[test]
fn insertion_leaves_sorted_input_as_it_is() {
    let mut v = [1, 2, 3, 4, 5];
    insertion(&mut v);
    assert_eq!(v, [1, 2, 3, 4, 5]);
}

#[test]
fn bubble_sorts_repeated_values() {
    let mut v = [2, 2, 1, 1];
    bubble(&mut v);
    assert_eq!(v, [1, 1, 2, 2]);
}

#[test]
fn a_single_element_stays() {
    let mut v = [7];
    quicksort(&mut v);
    assert_eq!(v, [7]);
    selection(&mut v);
    assert_eq!(v, [7]);
    insertion(&mut v);
    assert_eq!(v, [7]);
    bubble(&mut v);
    assert_eq!(v, [7]);
    gnome(&mut v);
    assert_eq!(v, [7]);
}

#[test]
fn an_empty_slice_is_left_alone() {
    let mut v: [i32; 0] = [];
    quicksort(&mut v);
    assert_eq!(v, []);
    selection(&mut v);
    assert_eq!(v, []);
    insertion(&mut v);
    assert_eq!(v, []);
    bubble(&mut v);
    assert_eq!(v, []);
    gnome(&mut v);
    assert_eq!(v, []);
}

#[test]
fn an_empty_vec_is_left_alone() {
    let mut v: Vec<String> = Vec::new();
    quicksort(v.as_mut_slice());
    selection(v.as_mut_slice());
    insertion(v.as_mut_slice());
    bubble(v.as_mut_slice());
    gnome(v.as_mut_slice());
    assert!(v.is_empty());
}

#[test]
fn two_elements_out_of_order_are_exchanged() {
    let mut v = [2, 1];
    quicksort(&mut v);
    assert_eq!(v, [1, 2]);
    let mut v = [2, 1];
    selection(&mut v);
    assert_eq!(v, [1, 2]);
    let mut v = [2, 1];
    insertion(&mut v);
    assert_eq!(v, [1, 2]);
    let mut v = [2, 1];
    bubble(&mut v);
    assert_eq!(v, [1, 2]);
    let mut v = [2, 1];
    gnome(&mut v);
    assert_eq!(v, [1, 2]);
}

#[test]
fn quicksort_ends_on_equal_elements() {
    let mut v = [2, 2];
    quicksort(&mut v);
    assert_eq!(v, [2, 2]);
    let mut v = [3, 3, 3, 3, 3];
    quicksort(&mut v);
    assert_eq!(v, [3, 3, 3, 3, 3]);
    let mut v = [1, 2, 1];
    quicksort(&mut v);
    assert_eq!(v, [1, 1, 2]);
    let mut v = [2, 2, 1, 1];
    quicksort(&mut v);
    assert_eq!(v, [1, 1, 2, 2]);
}

#[test]
fn quicksort_sorts_sorted_and_reversed_input() {
    let mut v = [1, 2, 3, 4, 5, 6, 7, 8];
    quicksort(&mut v);
    assert_eq!(v, [1, 2, 3, 4, 5, 6, 7, 8]);
    let mut v = [8, 7, 6, 5, 4, 3, 2, 1];
    quicksort(&mut v);
    assert_eq!(v, [1, 2, 3, 4, 5, 6, 7, 8]);
    let mut v = [1, 3, 2];
    quicksort(&mut v);
    assert_eq!(v, [1, 2, 3]);
}

#[test]
fn the_sorts_take_negative_numbers() {
    let input: [isize; 7] = [0, -5, isize::MAX, 3, isize::MIN, -5, 12];
    let expected: [isize; 7] = [isize::MIN, -5, -5, 0, 3, 12, isize::MAX];
    let mut v = input;
    quicksort(&mut v);
    assert_eq!(v, expected);
    let mut v = input;
    selection(&mut v);
    assert_eq!(v, expected);
    let mut v = input;
    insertion(&mut v);
    assert_eq!(v, expected);
    let mut v = input;
    bubble(&mut v);
    assert_eq!(v, expected);
    let mut v = input;
    gnome(&mut v);
    assert_eq!(v, expected);
}

#[test]
fn the_sorts_take_strings() {
    let input = ["pear", "apple", "fig", "apple", "quince"];
    let expected = ["apple", "apple", "fig", "pear", "quince"];
    let mut v = input;
    quicksort(&mut v);
    assert_eq!(v, expected);
    let mut v = input;
    selection(&mut v);
    assert_eq!(v, expected);
    let mut v = input;
    insertion(&mut v);
    assert_eq!(v, expected);
    let mut v = input;
    bubble(&mut v);
    assert_eq!(v, expected);
    let mut v = input;
    gnome(&mut v);
    assert_eq!(v, expected);
}
