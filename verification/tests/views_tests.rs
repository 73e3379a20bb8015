use matrixkit::matrix::Matrix;
use matrixkit::ops::{IntAsc, IntDesc};
use matrixkit::sort::Sort;

fn grid(rows: Vec<Vec<i32>>) -> Matrix<i32> {
    Matrix::from(rows)
}

#[test]
fn rows_iter_yields_every_row_in_order() {
    let m = grid(vec![vec![1, 2], vec![3]]);
    let mut it = m.iter_rows();
    assert_eq!(it.len(), 2);
    assert_eq!(it.next(), Some(&vec![1, 2]));
    assert_eq!(it.next(), Some(&vec![3]));
    assert_eq!(it.next(), None);
    assert_eq!(it.next(), None);
}

#[test]
fn elements_iter_walks_row_major_and_skips_empty_rows() {
    let m = grid(vec![vec![1], vec![], vec![2, 3], vec![]]);
    let mut it = m.iter_elements();
    assert_eq!(it.next(), Some(&1));
    assert_eq!(it.next(), Some(&2));
    assert_eq!(it.next(), Some(&3));
    assert_eq!(it.next(), None);
}

#[test]
fn elements_iter_of_empty_matrix_is_exhausted_at_once() {
    let m: Matrix<i32> = Matrix::with_rows(0);
    let mut it = m.iter_elements();
    assert_eq!(it.next(), None);
}

#[test]
fn primary_diagonal_iter_reads_i_i() {
    let m = grid(vec![vec![1, 2, 3], vec![4, 5, 6], vec![7, 8, 9]]);
    let mut it = m.iter_diagonal(true);
    assert_eq!(it.len(), 3);
    assert_eq!(it.next(), Some(&1));
    assert_eq!(it.next(), Some(&5));
    assert_eq!(it.next(), Some(&9));
    assert_eq!(it.next(), None);
}

#[test]
fn side_diagonal_iter_reads_top_right_to_bottom_left() {
    let m = grid(vec![vec![1, 2, 3], vec![4, 5, 6], vec![7, 8, 9]]);
    let mut it = m.iter_diagonal(false);
    assert_eq!(it.next(), Some(&3));
    assert_eq!(it.next(), Some(&5));
    assert_eq!(it.next(), Some(&7));
    assert_eq!(it.next(), None);
}

#[test]
fn columns_iter_len_equals_column_count() {
    let ragged = grid(vec![vec![1, 2], vec![3], vec![4, 5, 6]]);
    assert_eq!(ragged.iter_columns().len(), 3);
    let empty: Matrix<i32> = Matrix::with_rows(0);
    assert_eq!(empty.iter_columns().len(), 0);
}

#[test]
fn columns_iter_marks_short_rows_absent() {
    let m = grid(vec![vec![1, 2], vec![3]]);
    let mut it = m.iter_columns();
    assert_eq!(it.next(), Some(vec![Some(&1), Some(&3)]));
    assert_eq!(it.next(), Some(vec![Some(&2), None]));
    assert_eq!(it.next(), None);
}

#[test]
fn columns_iter_mut_snapshots_and_writes_one_column() {
    let m = grid(vec![vec![1, 2], vec![3, 4]]);
    let mut view = m.iter_columns_mut();
    assert_eq!(view.len(), 2);
    view.set(0, 10);
    assert_eq!(view.next(), Some(vec![Some(10), Some(3)]));
    view.set(1, 40);
    assert_eq!(view.next(), Some(vec![Some(2), Some(40)]));
    assert_eq!(view.next(), None);
    let m = view.into_matrix();
    assert_eq!(m.into_rows(), vec![vec![10, 2], vec![3, 40]]);
}

#[test]
fn columns_iter_mut_handles_ragged_columns() {
    let m = grid(vec![vec![1], vec![2, 3]]);
    let mut view = m.iter_columns_mut();
    assert_eq!(view.next(), Some(vec![Some(1), Some(2)]));
    assert_eq!(view.next(), Some(vec![None, Some(3)]));
    assert_eq!(view.next(), None);
}

#[test]
fn rows_cursor_reads_and_replaces_rows() {
    let m = grid(vec![vec![1, 2], vec![3, 4]]);
    let mut cur = m.iter_rows_mut();
    assert_eq!(cur.len(), 2);
    assert_eq!(cur.current(), &vec![1, 2]);
    cur.set_current(vec![9, 9, 9]);
    cur.advance();
    assert_eq!(cur.current(), &vec![3, 4]);
    let m = cur.into_matrix();
    assert_eq!(m.into_rows(), vec![vec![9, 9, 9], vec![3, 4]]);
}

#[test]
fn elements_cursor_walks_and_overwrites_in_row_major_order() {
    let m = grid(vec![vec![1], vec![], vec![2, 3]]);
    let mut cur = m.iter_elements_mut();
    let mut seen = Vec::new();
    while cur.has_current() {
        let v = *cur.current();
        seen.push(v);
        cur.set_current(v * 10);
        cur.advance();
    }
    assert_eq!(seen, vec![1, 2, 3]);
    let m = cur.into_matrix();
    assert_eq!(m.into_rows(), vec![vec![10], vec![], vec![20, 30]]);
}

#[test]
fn diagonal_iter_mut_reads_and_writes_diagonal_cells() {
    let m = grid(vec![vec![1, 2], vec![3, 4]]);
    let mut view = m.iter_diagonal_mut(false);
    assert_eq!(*view.get(0), 2);
    assert_eq!(*view.get(1), 3);
    view.set(0, 20);
    assert_eq!(*view.get(0), 20);
    let m = view.into_matrix();
    assert_eq!(m.into_rows(), vec![vec![1, 20], vec![3, 4]]);
}

#[test]
fn diagonal_sort_reorders_primary_diagonal_only() {
    let m = grid(vec![vec![9, 2, 3], vec![4, 5, 6], vec![7, 8, 1]]);
    let mut view = m.iter_diagonal_mut(true);
    view.bubble_sort(&IntAsc);
    let m = view.into_matrix();
    assert_eq!(
        m.into_rows(),
        vec![vec![1, 2, 3], vec![4, 5, 6], vec![7, 8, 9]]
    );
}

#[test]
fn diagonal_sort_descending_reorders_side_diagonal() {
    let m = grid(vec![vec![1, 2, 3], vec![4, 5, 6], vec![7, 8, 9]]);
    let mut view = m.iter_diagonal_mut(false);
    view.bubble_sort(&IntDesc);
    let m = view.into_matrix();
    assert_eq!(
        m.into_rows(),
        vec![vec![1, 2, 7], vec![4, 5, 6], vec![3, 8, 9]]
    );
}
