use cglib::sort::check_sort;
use cglib::sort::merge_sort::{merge, merge_sort};
use cglib::sort::quick_sort::quick_sort;
use cglib::sort::selection_sort::selection_sort;

const ARRAY_SIZE: usize = 10_000;

fn is_sorted(array: &[usize]) -> bool {
    for i in 1..array.len() {
        if array[i - 1] > array[i] {
            return false;
        }
    }
    true
}

fn generate_random_array(size: usize) -> Vec<usize> {
    let mut random_array: Vec<usize> = Vec::with_capacity(size);
    for _ in 0..size {
        random_array.push(rand::random_range(1..=size));
    }
    random_array
}

fn sorted_copy(array: &[usize]) -> Vec<usize> {
    let mut copy = array.to_vec();
    copy.sort();
    copy
}

#[test]
fn test_merge_sort() {
    let mut array = generate_random_array(ARRAY_SIZE);
    merge_sort(&mut array);
    assert!(is_sorted(&array));
}

#[test]
fn test_quick_sort() {
    let mut array = generate_random_array(ARRAY_SIZE);
    quick_sort(&mut array);
    assert!(is_sorted(&array));
}

#[test]
fn test_selection_sort() {
    let mut array = generate_random_array(ARRAY_SIZE);
    selection_sort(&mut array);
    assert!(is_sorted(&array));
}

#[test]
fn sorts_agree_on_the_same_input() {
    let input = generate_random_array(500);
    let mut a = input.clone();
    let mut b = input.clone();
    let mut c = input.clone();
    merge_sort(&mut a);
    quick_sort(&mut b);
    selection_sort(&mut c);
    assert_eq!(a, b);
    assert_eq!(b, c);
    assert_eq!(a, sorted_copy(&input));
}

#[test]
fn sorts_keep_duplicates() {
    let input = vec![5, 1, 5, 3, 1, 5, 0, 3];
    let expected = vec![0, 1, 1, 3, 3, 5, 5, 5];
    let mut a = input.clone();
    merge_sort(&mut a);
    assert_eq!(a, expected);
    let mut b = input.clone();
    quick_sort(&mut b);
    assert_eq!(b, expected);
    let mut c = input.clone();
    selection_sort(&mut c);
    assert_eq!(c, expected);
}

#[test]
fn sorts_handle_empty_and_single() {
    let mut empty: Vec<usize> = Vec::new();
    merge_sort(&mut empty);
    quick_sort(&mut empty);
    selection_sort(&mut empty);
    assert!(empty.is_empty());
    let mut single = vec![42];
    merge_sort(&mut single);
    quick_sort(&mut single);
    selection_sort(&mut single);
    assert_eq!(single, vec![42]);
}

#[test]
fn sorting_a_sorted_array_changes_nothing() {
    let sorted = vec![1, 2, 2, 7, 9, 9, 10];
    let mut a = sorted.clone();
    merge_sort(&mut a);
    assert_eq!(a, sorted);
    let mut b = sorted.clone();
    quick_sort(&mut b);
    assert_eq!(b, sorted);
    let mut c = sorted.clone();
    selection_sort(&mut c);
    assert_eq!(c, sorted);
}

#[test]
fn sorts_reverse_order_and_extremes() {
    let input = vec![usize::MAX, 9, 8, 7, 0, usize::MAX, 1];
    let expected = vec![0, 1, 7, 8, 9, usize::MAX, usize::MAX];
    let mut a = input.clone();
    merge_sort(&mut a);
    assert_eq!(a, expected);
    let mut b = input.clone();
    quick_sort(&mut b);
    assert_eq!(b, expected);
    let mut c = input.clone();
    selection_sort(&mut c);
    assert_eq!(c, expected);
}

#[test]
fn check_sort_detects_order() {
    assert!(check_sort(&[]));
    assert!(check_sort(&[3]));
    assert!(check_sort(&[1, 1, 2, 3]));
    assert!(!check_sort(&[1, 3, 2]));
    assert!(!check_sort(&[2, 1]));
}

#[test]
fn check_sort_accepts_every_sort_result() {
    let mut array = generate_random_array(1000);
    assert!(!check_sort(&array) || is_sorted(&array));
    quick_sort(&mut array);
    assert!(check_sort(&array));
}

#[test]
fn merge_merges_sorted_halves_across_both_slices() {
    let mut left = vec![1, 4, 9];
    let mut right = vec![2, 3, 10, 11];
    merge(&mut left, &mut right);
    assert_eq!(left, vec![1, 2, 3]);
    assert_eq!(right, vec![4, 9, 10, 11]);
}

#[test]
fn merge_prefers_right_on_ties() {
    let mut left = vec![2, 5];
    let mut right = vec![2, 5];
    merge(&mut left, &mut right);
    assert_eq!(left, vec![2, 2]);
    assert_eq!(right, vec![5, 5]);
}

#[test]
fn merge_with_an_empty_side_changes_nothing() {
    let mut left: Vec<usize> = Vec::new();
    let mut right = vec![3, 1, 2];
    merge(&mut left, &mut right);
    assert!(left.is_empty());
    assert_eq!(right, vec![3, 1, 2]);
    let mut left = vec![9, 8];
    let mut right: Vec<usize> = Vec::new();
    merge(&mut left, &mut right);
    assert_eq!(left, vec![9, 8]);
    assert!(right.is_empty());
}

#[test]
fn merge_of_unsorted_inputs_follows_the_heads() {
    let mut left = vec![3, 1];
    let mut right = vec![2, 0];
    merge(&mut left, &mut right);
    assert_eq!(left, vec![2, 0]);
    assert_eq!(right, vec![3, 1]);
}
