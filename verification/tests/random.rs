//! The sorts on large random inputs.

use rand::Rng;
use sorts::bubble::bubble;
use sorts::gnome::gnome;
use sorts::insertion::insertion;
use sorts::qs::quicksort;
use sorts::selection::selection;

fn make_test_vec(siz: usize) -> Vec<isize> {
    let mut v: Vec<isize> = vec![];
    let mut rng = rand::thread_rng();
    for _ in 0..siz {
        v.push(rng.gen::<isize>());
    }
    v
}

fn verify_sorted(mut v: Vec<isize>) {
    loop {
        if v.len() == 0 {
            break;
        }
        let a = v.pop().unwrap();
        let b = v.pop().unwrap();
        assert!(a >= b);
    }
}

#[test]
fn test_quicksort() {
    let mut v = make_test_vec(10000);
    quicksort(v.as_mut_slice());
    verify_sorted(v);
}

#[test]
fn test_bubble_random() {
    let mut v = make_test_vec(10000);
    bubble(v.as_mut_slice());
    verify_sorted(v);
}

#[test]
fn test_selection_sort() {
    let mut v = make_test_vec(10000);
    selection(v.as_mut_slice());
    verify_sorted(v);
}

#[test]
fn test_insertion_sort() {
    let mut v = make_test_vec(10000);
    insertion(v.as_mut_slice());
    verify_sorted(v);
}

#[test]
fn test_gnome_sort() {
    let mut v = make_test_vec(10000);
    gnome(v.as_mut_slice());
    verify_sorted(v);
}

#[test]
fn all_five_agree_on_a_large_random_input() {
    let input = make_test_vec(10000);
    let mut expected = input.clone();
    expected.sort();

    let mut by_quicksort = input.clone();
    quicksort(by_quicksort.as_mut_slice());
    let mut by_selection = input.clone();
    selection(by_selection.as_mut_slice());
    let mut by_insertion = input.clone();
    insertion(by_insertion.as_mut_slice());
    let mut by_bubble = input.clone();
    bubble(by_bubble.as_mut_slice());
    let mut by_gnome = input.clone();
    gnome(by_gnome.as_mut_slice());

    assert_eq!(by_quicksort, expected);
    assert_eq!(by_selection, expected);
    assert_eq!(by_insertion, expected);
    assert_eq!(by_bubble, expected);
    assert_eq!(by_gnome, expected);
}

#[test]
fn quicksort_sorts_random_input_with_many_repeats() {
    let mut rng = rand::thread_rng();
    let mut v: Vec<u8> = vec![];
    for _ in 0..10000 {
        v.push(rng.gen::<u8>() % 7);
    }
    let mut expected = v.clone();
    expected.sort();
    quicksort(v.as_mut_slice());
    assert_eq!(v, expected);
}
