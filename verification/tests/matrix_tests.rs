use matrixkit::matrix::Matrix;

fn grid(rows: Vec<Vec<i32>>) -> Matrix<i32> {
    Matrix::from(rows)
}

fn contents(m: Matrix<i32>) -> Vec<Vec<i32>> {
    m.into_rows()
}

#[test]
fn with_rows_starts_empty() {
    let m: Matrix<i32> = Matrix::with_rows(4);
    assert_eq!(m.rows(), 0);
    assert_eq!(m.columns(), 0);
    assert!(m.is_square());
}

#[test]
fn push_row_appends_in_order() {
    let mut m: Matrix<i32> = Matrix::with_rows(2);
    m.push_row(vec![1, 2]);
    m.push_row(vec![3]);
    assert_eq!(m.rows(), 2);
    assert_eq!(contents(m), vec![vec![1, 2], vec![3]]);
}

#[test]
fn columns_is_max_row_length() {
    let m = grid(vec![vec![1], vec![2, 3, 4], vec![5, 6]]);
    assert_eq!(m.columns(), 3);
    let empty: Matrix<i32> = Matrix::with_rows(0);
    assert_eq!(empty.columns(), 0);
}

#[test]
fn squareness_is_checked_on_demand() {
    assert!(grid(vec![vec![1, 2], vec![3, 4]]).is_square());
    assert!(!grid(vec![vec![1, 2], vec![3]]).is_square());
    assert!(!grid(vec![vec![1, 2, 9], vec![3, 4, 9]]).is_square());
}

#[test]
fn get_and_set_single_cells() {
    let mut m = grid(vec![vec![1, 2], vec![3, 4]]);
    assert_eq!(*m.get(1, 0), 3);
    m.set(1, 0, 30);
    assert_eq!(*m.get(1, 0), 30);
    assert_eq!(*m.get(0, 0), 1);
}

#[test]
fn get_opt_is_absent_outside_the_matrix() {
    let m = grid(vec![vec![1, 2], vec![3]]);
    assert_eq!(m.get_opt(0, 1), Some(&2));
    assert_eq!(m.get_opt(1, 1), None);
    assert_eq!(m.get_opt(2, 0), None);
}

#[test]
fn set_row_replaces_one_row() {
    let mut m = grid(vec![vec![1, 2], vec![3, 4]]);
    m.set_row(0, vec![7, 8, 9]);
    assert_eq!(contents(m), vec![vec![7, 8, 9], vec![3, 4]]);
}

#[test]
fn swap_rows_exchanges_whole_rows() {
    let mut m = grid(vec![vec![1, 2], vec![3, 4], vec![5, 6]]);
    m.swap_rows(0, 2);
    assert_eq!(contents(m), vec![vec![5, 6], vec![3, 4], vec![1, 2]]);
}

#[test]
fn swap_elements_within_one_row() {
    let mut m = grid(vec![vec![1, 2, 3], vec![4, 5, 6]]);
    m.swap_elements((0, 0), (0, 2));
    assert_eq!(contents(m), vec![vec![3, 2, 1], vec![4, 5, 6]]);
}

#[test]
fn swap_elements_across_rows_in_either_order() {
    let mut m = grid(vec![vec![1, 2], vec![3, 4]]);
    m.swap_elements((0, 1), (1, 0));
    assert_eq!(contents(m), vec![vec![1, 3], vec![2, 4]]);

    let mut m2 = grid(vec![vec![1, 2], vec![3, 4]]);
    m2.swap_elements((1, 0), (0, 1));
    assert_eq!(contents(m2), vec![vec![1, 3], vec![2, 4]]);
}

#[test]
fn swap_elements_twice_restores_the_cells() {
    let mut m = grid(vec![vec![1, 2, 3], vec![4, 5, 6], vec![7, 8, 9]]);
    m.swap_elements((0, 2), (2, 1));
    m.swap_elements((0, 2), (2, 1));
    assert_eq!(
        contents(m),
        vec![vec![1, 2, 3], vec![4, 5, 6], vec![7, 8, 9]]
    );
}

#[test]
fn transpose_square_in_place() {
    let mut m = grid(vec![vec![3, 1], vec![2, 4]]);
    m.transpose();
    assert_eq!(contents(m), vec![vec![3, 2], vec![1, 4]]);
}

#[test]
fn transpose_twice_restores_a_square_matrix() {
    let mut m = grid(vec![vec![3, 1], vec![2, 4]]);
    m.transpose();
    m.transpose();
    assert_eq!(contents(m), vec![vec![3, 1], vec![2, 4]]);
}

#[test]
fn transpose_rectangular_reallocates() {
    let mut m = grid(vec![vec![1, 2, 3], vec![4, 5, 6]]);
    m.transpose();
    assert_eq!(contents(m), vec![vec![1, 4], vec![2, 5], vec![3, 6]]);
}

#[test]
fn transpose_twice_restores_a_rectangular_matrix() {
    let mut m = grid(vec![vec![1, 2, 3], vec![4, 5, 6]]);
    m.transpose();
    m.transpose();
    assert_eq!(contents(m), vec![vec![1, 2, 3], vec![4, 5, 6]]);
}

#[test]
fn transpose_of_empty_stays_empty() {
    let mut m: Matrix<i32> = Matrix::with_rows(0);
    m.transpose();
    assert_eq!(m.rows(), 0);
}

#[test]
fn from_and_into_rows_round_trip() {
    let rows = vec![vec![1], vec![2, 3]];
    let m = Matrix::from(rows.clone());
    assert_eq!(m.into_rows(), rows);
}

#[test]
fn to_text_renders_rows_bracketed_and_newline_joined() {
    let m = grid(vec![vec![1, 2, 3], vec![4, 5, 6]]);
    assert_eq!(m.to_text(), "[1, 2, 3]\n[4, 5, 6]");
}

#[test]
fn to_text_renders_negative_numbers_and_zero() {
    let m = grid(vec![vec![-1, 0], vec![10, -25]]);
    assert_eq!(m.to_text(), "[-1, 0]\n[10, -25]");
}

#[test]
fn to_text_renders_extreme_values() {
    let m = grid(vec![vec![i32::MIN, i32::MAX]]);
    assert_eq!(m.to_text(), "[-2147483648, 2147483647]");
}

#[test]
fn to_text_of_empty_matrix_and_empty_rows() {
    let empty: Matrix<i32> = Matrix::with_rows(0);
    assert_eq!(empty.to_text(), "");
    let m = grid(vec![vec![], vec![7]]);
    assert_eq!(m.to_text(), "[]\n[7]");
}
