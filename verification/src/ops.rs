//! Whole-matrix operations: counting negative entries, swapping the first
//! row with the main diagonal, sorting a diagonal, and sorting the columns
//! by their maximum element — together with the comparators they use and
//! the laws that relate them.

use core::cmp::Ordering;
use vstd::prelude::*;

use crate::matrix::{rectangular, square, transpose_spec, Matrix};
use crate::sort::{
    bubble_sort_spec, le_fn, lemma_bubble_sort_spec_idempotent, lemma_bubble_sort_spec_map,
    lemma_bubble_sort_spec_permutes, lemma_bubble_sort_spec_sorted,
    lemma_bubble_sort_spec_sorted_input, lemma_comparator_order, total_on, transitive_on,
    Comparator, Sort,
};
use crate::views::{agrees_off_diagonal, diag_pos, diag_seq};

verus! {

/// Ascending order on machine integers.
pub struct IntAsc;

impl Comparator<i32> for IntAsc {
    open spec fn le(&self, a: i32, b: i32) -> bool {
        a <= b
    }

    proof fn le_total(&self, a: i32, b: i32) {
    }

    proof fn le_transitive(&self, a: i32, b: i32, c: i32) {
    }

    fn compare(&self, a: &i32, b: &i32) -> (r: Ordering) {
        if *a < *b {
            Ordering::Less
        } else if *a == *b {
            Ordering::Equal
        } else {
            Ordering::Greater
        }
    }
}

/// Descending order on machine integers: the ascending order reversed.
pub struct IntDesc;

impl Comparator<i32> for IntDesc {
    open spec fn le(&self, a: i32, b: i32) -> bool {
        b <= a
    }

    proof fn le_total(&self, a: i32, b: i32) {
    }

    proof fn le_transitive(&self, a: i32, b: i32, c: i32) {
    }

    fn compare(&self, a: &i32, b: &i32) -> (r: Ordering) {
        if *b < *a {
            Ordering::Less
        } else if *a == *b {
            Ordering::Equal
        } else {
            Ordering::Greater
        }
    }
}

/// The maximum element of a sequence of integers, or `default` when it is
/// empty.
pub open spec fn max_or(s: Seq<i32>, default: i32) -> i32
    decreases s.len(),
{
    if s.len() == 0 {
        default
    } else if s.len() == 1 {
        s[0]
    } else {
        let rest = max_or(s.drop_last(), default);
        if s.last() > rest {
            s.last()
        } else {
            rest
        }
    }
}

/// The maximum element of a vector of integers, or `default` when it is
/// empty.
pub fn row_max_or(v: &Vec<i32>, default: i32) -> (m: i32)
    ensures
        m == max_or(v@, default),
{
    let len = v.len();
    if len == 0 {
        return default;
    }
    let mut m = v[0];
    proof {
        assert(v@.subrange(0, 1) =~= seq![v@[0]]);
    }
    for i in 1..len
        invariant
            1 <= i <= len,
            len == v@.len(),
            m == max_or(v@.subrange(0, i as int), default),
    {
        proof {
            assert(v@.subrange(0, i + 1).drop_last() =~= v@.subrange(0, i as int));
            assert(v@.subrange(0, i + 1).last() == v@[i as int]);
        }
        if v[i] > m {
            m = v[i];
        }
    }
    proof {
        assert(v@.subrange(0, len as int) =~= v@);
    }
    m
}

/// The order the column sort uses: non-decreasing maximum element, an
/// empty column counting as 0.
pub open spec fn le_col_max(a: Seq<i32>, b: Seq<i32>) -> bool {
    max_or(a, 0) <= max_or(b, 0)
}

/// Columns compared by their maximum element, ascending; an empty column
/// counts as 0.
pub struct RowMaxAsc;

impl Comparator<Vec<i32>> for RowMaxAsc {
    open spec fn le(&self, a: Vec<i32>, b: Vec<i32>) -> bool {
        le_col_max(a@, b@)
    }

    proof fn le_total(&self, a: Vec<i32>, b: Vec<i32>) {
    }

    proof fn le_transitive(&self, a: Vec<i32>, b: Vec<i32>, c: Vec<i32>) {
    }

    fn compare(&self, a: &Vec<i32>, b: &Vec<i32>) -> (r: Ordering) {
        let ma = row_max_or(a, 0);
        let mb = row_max_or(b, 0);
        if ma < mb {
            Ordering::Less
        } else if ma == mb {
            Ordering::Equal
        } else {
            Ordering::Greater
        }
    }
}

/// How many elements of a row are negative.
pub open spec fn row_neg_count(row: Seq<i32>) -> nat
    decreases row.len(),
{
    if row.len() == 0 {
        0
    } else {
        row_neg_count(row.drop_last()) + (if row.last() < 0 {
            1nat
        } else {
            0nat
        })
    }
}

/// How many elements of a matrix are negative.
pub open spec fn neg_count(m: Seq<Seq<i32>>) -> nat
    decreases m.len(),
{
    if m.len() == 0 {
        0
    } else {
        neg_count(m.drop_last()) + row_neg_count(m.last())
    }
}

proof fn lemma_row_neg_prefix_step(row: Seq<i32>, j: int)
    requires
        0 <= j < row.len(),
    ensures
        row_neg_count(row.subrange(0, j + 1)) == row_neg_count(row.subrange(0, j)) + (if row[j]
            < 0 {
            1nat
        } else {
            0nat
        }),
{
    assert(row.subrange(0, j + 1).drop_last() =~= row.subrange(0, j));
    assert(row.subrange(0, j + 1).last() == row[j]);
}

proof fn lemma_row_neg_prefix_le(row: Seq<i32>, j: int)
    requires
        0 <= j <= row.len(),
    ensures
        row_neg_count(row.subrange(0, j)) <= row_neg_count(row),
    decreases row.len() - j,
{
    if j == row.len() {
        assert(row.subrange(0, j) =~= row);
    } else {
        lemma_row_neg_prefix_step(row, j);
        lemma_row_neg_prefix_le(row, j + 1);
    }
}

proof fn lemma_neg_prefix_step(m: Seq<Seq<i32>>, i: int)
    requires
        0 <= i < m.len(),
    ensures
        neg_count(m.subrange(0, i + 1)) == neg_count(m.subrange(0, i)) + row_neg_count(m[i]),
{
    assert(m.subrange(0, i + 1).drop_last() =~= m.subrange(0, i));
    assert(m.subrange(0, i + 1).last() == m[i]);
}

proof fn lemma_neg_prefix_le(m: Seq<Seq<i32>>, i: int)
    requires
        0 <= i <= m.len(),
    ensures
        neg_count(m.subrange(0, i)) <= neg_count(m),
    decreases m.len() - i,
{
    if i == m.len() {
        assert(m.subrange(0, i) =~= m);
    } else {
        lemma_neg_prefix_step(m, i);
        lemma_neg_prefix_le(m, i + 1);
    }
}

/// Counts the negative elements of the matrix, scanning every row; nothing
/// is mutated.
pub fn count_negatives(m: &Matrix<i32>) -> (n: usize)
    requires
        neg_count(m@) <= usize::MAX,
    ensures
        n == neg_count(m@),
{
    let mut n: usize = 0;
    let rows = m.rows();
    for i in 0..rows
        invariant
            rows == m@.len(),
            neg_count(m@) <= usize::MAX,
            n == neg_count(m@.subrange(0, i as int)),
    {
        let row = m.row(i);
        let row_len = row.len();
        proof {
            assert(row@.subrange(0, 0) =~= Seq::<i32>::empty());
        }
        for j in 0..row_len
            invariant
                rows == m@.len(),
                i < rows,
                row@ == m@[i as int],
                row_len == row@.len(),
                neg_count(m@) <= usize::MAX,
                n == neg_count(m@.subrange(0, i as int)) + row_neg_count(
                    row@.subrange(0, j as int),
                ),
        {
            proof {
                lemma_row_neg_prefix_step(row@, j as int);
                lemma_row_neg_prefix_le(row@, j + 1);
                lemma_neg_prefix_step(m@, i as int);
                lemma_neg_prefix_le(m@, i + 1);
            }
            if row[j] < 0 {
                n = n + 1;
            }
        }
        proof {
            assert(row@.subrange(0, row_len as int) =~= row@);
            lemma_neg_prefix_step(m@, i as int);
        }
    }
    proof {
        assert(m@.subrange(0, rows as int) =~= m@);
    }
    n
}

/// Exchanges the first row elementwise with the main diagonal of a square
/// matrix: for each index `i` from 1 on, cell `(0, i)` and cell `(i, i)`
/// trade values.  Cell `(0, 0)` is both the first row's and the diagonal's
/// element, so it stays.
pub fn swap_first_row_with_diagonal<T>(m: &mut Matrix<T>)
    requires
        square(old(m)@),
    ensures
        square(final(m)@),
        final(m)@.len() == old(m)@.len(),
        forall|i: int|
            1 <= i < old(m)@.len() ==> #[trigger] final(m)@[0][i] == old(m)@[i][i] && final(m)@[i][i] == old(m)@[0][i],
        forall|r: int, c: int|
            0 <= r < old(m)@.len() && 0 <= c < old(m)@.len() && !(r == 0 && 1 <= c) && !(r == c
                && 1 <= r) ==> #[trigger] final(m)@[r][c] == old(m)@[r][c],
{
    let ghost prior = m@;
    let rows = m.rows();
    let mut i: usize = 1;
    while i < rows
        invariant
            rows == prior.len(),
            square(prior),
            1 <= i,
            m@.len() == rows,
            forall|r: int| 0 <= r < rows ==> (#[trigger] m@[r]).len() == rows,
            forall|k: int| 1 <= k < i ==> #[trigger] m@[0][k] == prior[k][k] && m@[k][k]
                == prior[0][k],
            forall|r: int, c: int|
                0 <= r < rows && 0 <= c < rows && !(r == 0 && 1 <= c < i) && !(r == c && 1 <= r
                    < i) ==> #[trigger] m@[r][c] == prior[r][c],
        decreases rows - i,
    {
        let ghost before = m@;
        m.swap_elements((0, i), (i, i));
        proof {
            let iw = i as int;
            assert(m@[0] == before[0].update(iw, before[iw][iw]));
            assert(m@[iw] == before[iw].update(iw, before[0][iw]));
            assert(forall|r: int| 0 <= r < rows && r != 0 && r != iw ==> #[trigger] m@[r]
                == before[r]);
        }
        i = i + 1;
    }
}

/// The model of sorting one diagonal: the diagonal's values are rearranged
/// by [`bubble_sort_spec`], every other cell keeps its value.
pub open spec fn sort_diagonal_spec<T>(
    m: Seq<Seq<T>>,
    primary: bool,
    le: spec_fn(T, T) -> bool,
) -> Seq<Seq<T>> {
    let d = bubble_sort_spec(diag_seq(m, primary), le);
    Seq::new(
        m.len(),
        |r: int|
            Seq::new(
                m[r].len(),
                |c: int|
                    if c == diag_pos(m.len() as int, primary, r) {
                        d[r]
                    } else {
                        m[r][c]
                    },
            ),
    )
}

/// Sorts one diagonal of a square matrix in place by the given comparator,
/// through the mutable diagonal view and the shared sort.  Afterwards the
/// diagonal reads ordered by the comparator from front to back, and no
/// other cell has moved.
pub fn sort_diagonal<T, C: Comparator<T>>(m: Matrix<T>, primary: bool, cmp: &C) -> (r: Matrix<
    T,
>)
    requires
        square(m@),
    ensures
        r@ == sort_diagonal_spec(m@, primary, le_fn(cmp)),
        forall|a: int, b: int|
            0 <= a <= b < m@.len() ==> cmp.le(
                #[trigger] diag_seq(r@, primary)[a],
                #[trigger] diag_seq(r@, primary)[b],
            ),
{
    let ghost prior = m@;
    let mut view = m.iter_diagonal_mut(primary);
    view.bubble_sort(cmp);
    let result = view.into_matrix();
    proof {
        lemma_bubble_sort_spec_permutes(diag_seq(prior, primary), le_fn(cmp));
        assert(result@ =~~= sort_diagonal_spec(prior, primary, le_fn(cmp)));
        assert(diag_seq(result@, primary) =~= bubble_sort_spec(
            diag_seq(prior, primary),
            le_fn(cmp),
        ));
    }
    result
}

/// Re-sorting a diagonal with the same comparator is idempotent: the second
/// sort finds a minimum already in front, performs no swap and changes
/// nothing.
pub proof fn lemma_sort_diagonal_idempotent<T>(
    m: Seq<Seq<T>>,
    primary: bool,
    le: spec_fn(T, T) -> bool,
)
    requires
        square(m),
        total_on(le),
        transitive_on(le),
    ensures
        sort_diagonal_spec(sort_diagonal_spec(m, primary, le), primary, le) == sort_diagonal_spec(
            m,
            primary,
            le,
        ),
{
    let d = diag_seq(m, primary);
    let m1 = sort_diagonal_spec(m, primary, le);
    lemma_bubble_sort_spec_permutes(d, le);
    assert(diag_seq(m1, primary) =~= bubble_sort_spec(d, le));
    lemma_bubble_sort_spec_idempotent(d, le);
    assert(sort_diagonal_spec(m1, primary, le) =~~= m1);
}

/// [`lemma_sort_diagonal_idempotent`] stated for a comparator: sorting a
/// diagonal with a comparator and then re-sorting with the same comparator
/// changes nothing the second time.
pub proof fn lemma_sort_diagonal_idempotent_for<T, C: Comparator<T>>(
    m: Seq<Seq<T>>,
    primary: bool,
    cmp: &C,
)
    requires
        square(m),
    ensures
        sort_diagonal_spec(sort_diagonal_spec(m, primary, le_fn(cmp)), primary, le_fn(cmp))
            == sort_diagonal_spec(m, primary, le_fn(cmp)),
{
    lemma_comparator_order(cmp);
    lemma_sort_diagonal_idempotent(m, primary, le_fn(cmp));
}

/// Sorting a diagonal touches exactly the diagonal's cells: the shape is
/// kept, every off-diagonal cell keeps its value, and the diagonal holds
/// the same values as before, only permuted.
pub proof fn lemma_sort_diagonal_cells<T>(m: Seq<Seq<T>>, primary: bool, le: spec_fn(T, T) -> bool)
    requires
        square(m),
    ensures
        sort_diagonal_spec(m, primary, le).len() == m.len(),
        agrees_off_diagonal(sort_diagonal_spec(m, primary, le), m, primary),
        diag_seq(sort_diagonal_spec(m, primary, le), primary).to_multiset() == diag_seq(
            m,
            primary,
        ).to_multiset(),
{
    let d = diag_seq(m, primary);
    lemma_bubble_sort_spec_permutes(d, le);
    assert(diag_seq(sort_diagonal_spec(m, primary, le), primary) =~= bubble_sort_spec(d, le));
}

/// After the diagonal sort, reading the view front to back yields a
/// sequence ordered by the comparator.
pub proof fn lemma_sort_diagonal_ordered<T>(
    m: Seq<Seq<T>>,
    primary: bool,
    le: spec_fn(T, T) -> bool,
)
    requires
        square(m),
        total_on(le),
        transitive_on(le),
    ensures
        forall|a: int, b: int|
            0 <= a <= b < m.len() ==> le(
                #[trigger] diag_seq(sort_diagonal_spec(m, primary, le), primary)[a],
                #[trigger] diag_seq(sort_diagonal_spec(m, primary, le), primary)[b],
            ),
{
    let d = diag_seq(m, primary);
    lemma_bubble_sort_spec_permutes(d, le);
    lemma_bubble_sort_spec_sorted(d, le);
    assert(diag_seq(sort_diagonal_spec(m, primary, le), primary) =~= bubble_sort_spec(d, le));
}

/// A diagonal already ordered by the comparator is left exactly as it is:
/// the sort's first pass performs no swap and it stops at once.
pub proof fn lemma_sort_diagonal_sorted_input<T>(
    m: Seq<Seq<T>>,
    primary: bool,
    le: spec_fn(T, T) -> bool,
)
    requires
        square(m),
        forall|a: int, b: int|
            0 <= a <= b < m.len() ==> le(
                #[trigger] diag_seq(m, primary)[a],
                #[trigger] diag_seq(m, primary)[b],
            ),
    ensures
        sort_diagonal_spec(m, primary, le) == m,
{
    lemma_bubble_sort_spec_sorted_input(diag_seq(m, primary), le);
    assert(sort_diagonal_spec(m, primary, le) =~~= m);
}

/// The columns of the result, sorted by non-decreasing maximum element:
/// the rows of the transposed input, rearranged by the shared sort.  Row
/// `k` here is column `k` of the final result.
pub open spec fn sorted_columns_rows(m: Seq<Seq<i32>>) -> Seq<Seq<i32>> {
    bubble_sort_spec(transpose_spec(m), |a: Seq<i32>, b: Seq<i32>| le_col_max(a, b))
}

/// The model of the column sort: transpose, sort the rows (the old
/// columns) by non-decreasing maximum element, transpose back.
pub open spec fn sort_columns_spec(m: Seq<Seq<i32>>) -> Seq<Seq<i32>> {
    transpose_spec(sorted_columns_rows(m))
}

/// Sorts the columns of a rectangular matrix by non-decreasing maximum
/// element: transpose, sort the row sequence with the shared sort, and
/// transpose back.  Afterwards the columns — the rows of
/// [`sorted_columns_rows`] — carry non-decreasing maxima from left to
/// right.
pub fn sort_columns_by_max(m: Matrix<i32>) -> (r: Matrix<i32>)
    requires
        rectangular(m@),
    ensures
        r@ == sort_columns_spec(m@),
        forall|a: int, b: int|
            0 <= a <= b < sorted_columns_rows(m@).len() ==> le_col_max(
                #[trigger] sorted_columns_rows(m@)[a],
                #[trigger] sorted_columns_rows(m@)[b],
            ),
{
    let ghost prior = m@;
    let ghost le_rows = |a: Seq<i32>, b: Seq<i32>| le_col_max(a, b);
    let ghost to_view = |v: Vec<i32>| v@;
    let mut t = m;
    t.transpose();
    let ghost t_view = t@;
    let mut rows = t.into_rows();
    let ghost rows0 = rows@;
    rows.bubble_sort(&RowMaxAsc);
    proof {
        assert forall|x: Vec<i32>, y: Vec<i32>| #[trigger] le_fn(&RowMaxAsc)(x, y) == le_rows(
            to_view(x),
            to_view(y),
        ) by {
            assert(le_fn(&RowMaxAsc)(x, y) == RowMaxAsc.le(x, y));
        }
        lemma_bubble_sort_spec_map(rows0, to_view, le_fn(&RowMaxAsc), le_rows);
        assert(rows0.map_values(to_view) == t_view);
        assert(rows@.map_values(to_view) == bubble_sort_spec(t_view, le_rows));
        // Sorting permutes the rows, so every row still has the transposed
        // matrix's common row length.
        lemma_bubble_sort_spec_permutes(t_view, le_rows);
        broadcast use vstd::seq_lib::group_to_multiset_ensures;

        let sorted = bubble_sort_spec(t_view, le_rows);
        assert forall|k: int| 0 <= k < sorted.len() implies (#[trigger] sorted[k]).len()
            == prior.len() by {
            assert(sorted.contains(sorted[k]));
            assert(sorted.to_multiset().count(sorted[k]) > 0);
            assert(t_view.contains(sorted[k]));
            let k0 = choose|k0: int| 0 <= k0 < t_view.len() && t_view[k0] == sorted[k];
            assert(t_view[k0].len() == prior.len());
        }
        assert(rectangular(rows@.map_values(to_view)));
    }
    let mut result: Matrix<i32> = Matrix::from(rows);
    result.transpose();
    proof {
        assert(result@ == sort_columns_spec(prior));
        assert(total_on(le_rows)) by {
            assert forall|x: Seq<i32>, y: Seq<i32>| #[trigger] le_rows(x, y) || #[trigger] le_rows(
                y,
                x,
            ) by {
                assert(le_rows(x, y) == le_col_max(x, y));
                assert(le_rows(y, x) == le_col_max(y, x));
            }
        }
        assert(transitive_on(le_rows)) by {
            assert forall|x: Seq<i32>, y: Seq<i32>, z: Seq<i32>|
                #[trigger] le_rows(x, y) && #[trigger] le_rows(y, z) implies le_rows(x, z) by {
                assert(le_rows(x, z) == le_col_max(x, z));
            }
        }
        lemma_bubble_sort_spec_sorted(t_view, le_rows);
        assert forall|a: int, b: int|
            0 <= a <= b < sorted_columns_rows(prior).len() implies le_col_max(
            #[trigger] sorted_columns_rows(prior)[a],
            #[trigger] sorted_columns_rows(prior)[b],
        ) by {
            assert(sorted_columns_rows(prior) == bubble_sort_spec(t_view, le_rows));
            assert(le_rows(
                bubble_sort_spec(t_view, le_rows)[a],
                bubble_sort_spec(t_view, le_rows)[b],
            ));
        }
    }
    result
}

} // verus!
