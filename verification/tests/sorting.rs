use classic_algos::merge_sort::{merge, merge_sort};
use classic_algos::quicksort::randomized_quicksort;

#[test]
fn test_merge_sort_basic() {
    let arr = vec![3, 1, 4, 1, 5, 9, 2, 6];
    assert_eq!(merge_sort(&arr), vec![1, 1, 2, 3, 4, 5, 6, 9]);
}

#[test]
fn test_merge_sort_empty() {
    let arr: Vec<i32> = vec![];
    assert_eq!(merge_sort(&arr), vec![]);
}

#[test]
fn test_merge_sort_single() {
    let arr = vec![42];
    assert_eq!(merge_sort(&arr), vec![42]);
}

#[test]
fn test_merge_sort_sorted() {
    let arr = vec![1, 2, 3, 4, 5];
    assert_eq!(merge_sort(&arr), vec![1, 2, 3, 4, 5]);
}

#[test]
fn test_merge_sort_reversed() {
    let arr = vec![5, 4, 3, 2, 1];
    assert_eq!(merge_sort(&arr), vec![1, 2, 3, 4, 5]);
}

#[test]
fn test_merge_sort_strings() {
    let arr = vec!["banana", "apple", "cherry"];
    assert_eq!(merge_sort(&arr), vec!["apple", "banana", "cherry"]);
}

#[test]
fn test_merge_two_runs() {
    let left = vec![1, 4, 6];
    let right = vec![2, 3, 5];
    assert_eq!(merge(&left, &right), vec![1, 2, 3, 4, 5, 6]);
}

#[test]
fn test_quicksort_basic() {
    let mut arr = vec![3, 1, 4, 1, 5, 9, 2, 6];
    let len = arr.len();
    randomized_quicksort(&mut arr, 0, len - 1);
    assert_eq!(arr, vec![1, 1, 2, 3, 4, 5, 6, 9]);
}

#[test]
fn test_quicksort_empty() {
    let mut arr: Vec<i32> = vec![];
    // No-op for empty array
    let len = arr.len();
    if len > 0 {
        randomized_quicksort(&mut arr, 0, len - 1);
    }
    assert_eq!(arr, vec![]);
}

#[test]
fn test_quicksort_single() {
    let mut arr = vec![42];
    randomized_quicksort(&mut arr, 0, 0);
    assert_eq!(arr, vec![42]);
}

#[test]
fn test_quicksort_sorted() {
    let mut arr = vec![1, 2, 3, 4, 5];
    let len = arr.len();
    randomized_quicksort(&mut arr, 0, len - 1);
    assert_eq!(arr, vec![1, 2, 3, 4, 5]);
}

#[test]
fn test_quicksort_reversed() {
    let mut arr = vec![5, 4, 3, 2, 1];
    let len = arr.len();
    randomized_quicksort(&mut arr, 0, len - 1);
    assert_eq!(arr, vec![1, 2, 3, 4, 5]);
}

#[test]
fn test_quicksort_many_random_pivots() {
    // Long reversed run: exercises many pivot draws; a draw outside the
    // requested range would panic or misplace elements.
    let mut arr: Vec<i32> = (0..50).rev().collect();
    let len = arr.len();
    randomized_quicksort(&mut arr, 0, len - 1);
    let expected: Vec<i32> = (0..50).collect();
    assert_eq!(arr, expected);
}

#[test]
fn test_quicksort_partial_range() {
    // Only the requested range is sorted; the rest stays put.
    let mut arr = vec![9, 5, 3, 7, 0];
    randomized_quicksort(&mut arr, 1, 3);
    assert_eq!(arr, vec![9, 3, 5, 7, 0]);
}
