use matrixkit::matrix::Matrix;
use matrixkit::ops::{count_negatives, sort_columns_by_max, sort_diagonal, swap_first_row_with_diagonal, IntAsc, IntDesc};

fn grid(rows: Vec<Vec<i32>>) -> Matrix<i32> {
    Matrix::from(rows)
}

#[test]
fn count_negatives_counts_every_row() {
    let m = grid(vec![vec![1, -2, 3], vec![-4, 5, -6]]);
    assert_eq!(count_negatives(&m), 3);
}

#[test]
fn count_negatives_of_all_positive_and_of_empty() {
    assert_eq!(count_negatives(&grid(vec![vec![1, 2], vec![3]])), 0);
    let empty: Matrix<i32> = Matrix::with_rows(0);
    assert_eq!(count_negatives(&empty), 0);
}

#[test]
fn first_row_trades_with_the_main_diagonal() {
    let mut m = grid(vec![vec![1, 2, 3], vec![4, 5, 6], vec![7, 8, 9]]);
    swap_first_row_with_diagonal(&mut m);
    assert_eq!(
        m.into_rows(),
        vec![vec![1, 5, 9], vec![4, 2, 6], vec![7, 8, 3]]
    );
}

#[test]
fn first_row_swap_twice_restores_the_matrix() {
    let mut m = grid(vec![vec![1, 2, 3], vec![4, 5, 6], vec![7, 8, 9]]);
    swap_first_row_with_diagonal(&mut m);
    swap_first_row_with_diagonal(&mut m);
    assert_eq!(
        m.into_rows(),
        vec![vec![1, 2, 3], vec![4, 5, 6], vec![7, 8, 9]]
    );
}

#[test]
fn ascending_side_diagonal_stays_put() {
    // The side diagonal reads [3, 5, 7]: already ascending from the top
    // right down to the bottom left, so sorting it that way changes nothing.
    let m = grid(vec![vec![1, 2, 3], vec![4, 5, 6], vec![7, 8, 9]]);
    let m = sort_diagonal(m, false, &IntAsc);
    assert_eq!(
        m.into_rows(),
        vec![vec![1, 2, 3], vec![4, 5, 6], vec![7, 8, 9]]
    );
}

#[test]
fn descending_sort_reverses_the_side_diagonal() {
    let m = grid(vec![vec![1, 2, 3], vec![4, 5, 6], vec![7, 8, 9]]);
    let m = sort_diagonal(m, false, &IntDesc);
    assert_eq!(
        m.into_rows(),
        vec![vec![1, 2, 7], vec![4, 5, 6], vec![3, 8, 9]]
    );
}

#[test]
fn primary_diagonal_sort_touches_only_the_diagonal() {
    let m = grid(vec![vec![9, 2, 3], vec![4, 5, 6], vec![7, 8, 1]]);
    let m = sort_diagonal(m, true, &IntAsc);
    assert_eq!(
        m.into_rows(),
        vec![vec![1, 2, 3], vec![4, 5, 6], vec![7, 8, 9]]
    );
}

#[test]
fn sorting_a_diagonal_twice_changes_nothing_further() {
    let m = grid(vec![vec![4, 0], vec![0, 2]]);
    let once = sort_diagonal(m, true, &IntAsc).into_rows();
    let again = sort_diagonal(grid(once.clone()), true, &IntAsc).into_rows();
    assert_eq!(again, once);
}

#[test]
fn columns_sort_by_their_maximum() {
    let m = grid(vec![vec![9, 1], vec![2, 3]]);
    let m = sort_columns_by_max(m);
    assert_eq!(m.into_rows(), vec![vec![1, 9], vec![3, 2]]);
}

#[test]
fn columns_already_ordered_by_maximum_stay_put() {
    let m = grid(vec![vec![1, 9], vec![8, 2]]);
    let m = sort_columns_by_max(m);
    assert_eq!(m.into_rows(), vec![vec![1, 9], vec![8, 2]]);
}

#[test]
fn single_row_columns_sort_orders_the_maxima() {
    let m = grid(vec![vec![1, 3, 2]]);
    let m = sort_columns_by_max(m);
    assert_eq!(m.into_rows(), vec![vec![1, 2, 3]]);
}

#[test]
fn columns_sort_of_empty_matrix() {
    let empty: Matrix<i32> = Matrix::with_rows(0);
    let m = sort_columns_by_max(empty);
    assert_eq!(m.rows(), 0);
}
