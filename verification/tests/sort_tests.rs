use std::cmp::Ordering;

use matrixkit::ops::{row_max_or, IntAsc, IntDesc, RowMaxAsc};
use matrixkit::sort::{Comparator, Sort};

#[test]
fn compare_decides_the_ascending_order() {
    assert_eq!(IntAsc.compare(&1, &2), Ordering::Less);
    assert_eq!(IntAsc.compare(&2, &2), Ordering::Equal);
    assert_eq!(IntAsc.compare(&3, &2), Ordering::Greater);
}

#[test]
fn compare_decides_the_descending_order() {
    assert_eq!(IntDesc.compare(&1, &2), Ordering::Greater);
    assert_eq!(IntDesc.compare(&2, &2), Ordering::Equal);
    assert_eq!(IntDesc.compare(&3, &2), Ordering::Less);
}

#[test]
fn bubble_sort_orders_a_reversed_vector() {
    let mut v = vec![3, 2, 1];
    v.bubble_sort(&IntAsc);
    assert_eq!(v, vec![1, 2, 3]);
}

#[test]
fn bubble_sort_orders_a_shuffled_vector() {
    let mut v = vec![5, 1, 4, 2];
    v.bubble_sort(&IntAsc);
    assert_eq!(v, vec![1, 2, 4, 5]);
}

#[test]
fn bubble_sort_leaves_a_sorted_vector_unchanged() {
    let mut v = vec![1, 2, 2, 3];
    v.bubble_sort(&IntAsc);
    assert_eq!(v, vec![1, 2, 2, 3]);
}

#[test]
fn bubble_sort_orders_a_nearly_sorted_vector() {
    let mut v = vec![1, 3, 2];
    v.bubble_sort(&IntAsc);
    assert_eq!(v, vec![1, 2, 3]);
}

#[test]
fn bubble_sort_is_idempotent() {
    let mut once = vec![4, 2, 5, 2, 1];
    once.bubble_sort(&IntAsc);
    let mut twice = once.clone();
    twice.bubble_sort(&IntAsc);
    assert_eq!(twice, once);
}

#[test]
fn bubble_sort_descending() {
    let mut v = vec![1, 3, 2];
    v.bubble_sort(&IntDesc);
    assert_eq!(v, vec![3, 2, 1]);
}

#[test]
fn bubble_sort_of_empty_and_singleton() {
    let mut v: Vec<i32> = vec![];
    v.bubble_sort(&IntAsc);
    assert_eq!(v, Vec::<i32>::new());
    let mut w = vec![7];
    w.bubble_sort(&IntAsc);
    assert_eq!(w, vec![7]);
}

#[test]
fn row_max_or_picks_the_maximum_or_the_default() {
    assert_eq!(row_max_or(&vec![], 0), 0);
    assert_eq!(row_max_or(&vec![-5], 0), -5);
    assert_eq!(row_max_or(&vec![1, 7, 3], 0), 7);
    assert_eq!(row_max_or(&vec![-3, -9], 0), -3);
}

#[test]
fn rows_compare_by_their_maximum() {
    assert_eq!(
        RowMaxAsc.compare(&vec![1, 9], &vec![8, 2]),
        Ordering::Greater
    );
    assert_eq!(RowMaxAsc.compare(&vec![4], &vec![0, 4]), Ordering::Equal);
    assert_eq!(RowMaxAsc.compare(&vec![], &vec![3]), Ordering::Less);
}

#[test]
fn bubble_sort_orders_rows_by_maximum() {
    let mut rows = vec![vec![9, 2], vec![1, 3]];
    rows.bubble_sort(&RowMaxAsc);
    assert_eq!(rows, vec![vec![1, 3], vec![9, 2]]);
}

#[test]
fn rows_with_equal_maxima_keep_their_order() {
    // Adjacent positions swap only on strictly greater, so the relative
    // order of equal-key elements survives the sort.
    let mut rows = vec![vec![2, 1], vec![0, 2], vec![1, 0]];
    rows.bubble_sort(&RowMaxAsc);
    assert_eq!(rows, vec![vec![1, 0], vec![2, 1], vec![0, 2]]);
}
