//! Positional views into a matrix: rows, elements in row-major order, the
//! two diagonals and the columns, each in a read variant and — for the
//! diagonal and the columns — a mutating variant.
//!
//! Read views borrow the matrix and walk it with `next`.  Mutating views own
//! the matrix for the duration of the operation (recovering it with
//! `into_matrix`) and expose index-based access instead of mutable
//! references: every write goes through the matrix's own checked entry
//! points, so no two references to one cell can ever be live at once.

use core::cmp::Ordering;
use vstd::prelude::*;
use vstd::seq_lib::lemma_flatten_concat;

use crate::matrix::{col_count, square, Matrix};
use crate::sort::{seq_swap, Comparator, Sort};

verus! {

/// The column a diagonal position maps to: step `k` of the primary diagonal
/// reads cell `(k, k)`, step `k` of the side (anti-)diagonal reads cell
/// `(k, n - 1 - k)`.  Since `k` strictly increases while `n - 1 - k`
/// strictly decreases, no two steps of either diagonal name the same cell.
pub open spec fn diag_pos(n: int, primary: bool, k: int) -> int {
    if primary {
        k
    } else {
        n - 1 - k
    }
}

/// The sequence of values along a diagonal of a square matrix.
pub open spec fn diag_seq<T>(m: Seq<Seq<T>>, primary: bool) -> Seq<T> {
    Seq::new(m.len(), |k: int| m[k][diag_pos(m.len() as int, primary, k)])
}

/// Distinct steps of one diagonal touch distinct cells — they already
/// differ in their row, and their columns differ as well.  This is what
/// lets a mutating diagonal view treat its steps as independent positions.
pub proof fn lemma_diag_positions_distinct(n: int, primary: bool, k1: int, k2: int)
    requires
        0 <= k1 < n,
        0 <= k2 < n,
        k1 != k2,
    ensures
        diag_pos(n, primary, k1) != diag_pos(n, primary, k2),
{
}

/// Two matrix models agree everywhere except possibly on one diagonal.
pub open spec fn agrees_off_diagonal<T>(m2: Seq<Seq<T>>, m1: Seq<Seq<T>>, primary: bool) -> bool {
    &&& m2.len() == m1.len()
    &&& forall|r: int| 0 <= r < m1.len() ==> (#[trigger] m2[r]).len() == m1[r].len()
    &&& forall|r: int, c: int|
        0 <= r < m1.len() && 0 <= c < m1[r].len() && c != diag_pos(m1.len() as int, primary, r)
            ==> #[trigger] m2[r][c] == m1[r][c]
}

/// What one entry of a column step must hold: a reference to the row's
/// element in that column, or nothing when the row is too short.
pub open spec fn column_entry<T>(o: Option<&T>, m: Seq<Seq<T>>, r: int, c: int) -> bool {
    if c < m[r].len() {
        o matches Some(v) && *v == m[r][c]
    } else {
        o is None
    }
}

/// Like [`column_entry`], for entries copied out by value.
pub open spec fn column_entry_val<T>(o: Option<T>, m: Seq<Seq<T>>, r: int, c: int) -> bool {
    if c < m[r].len() {
        o == Some(m[r][c])
    } else {
        o is None
    }
}

impl<T> Matrix<T> {
    /// A single-pass view over the rows, in order.
    pub fn iter_rows(&self) -> (it: MatrixRowsIter<'_, T>)
        ensures
            it.matrix == self,
            it.i == 0,
    {
        MatrixRowsIter { matrix: self, i: 0 }
    }

    /// A single-pass view over all elements in row-major order.
    pub fn iter_elements(&self) -> (it: MatrixElementsIter<'_, T>)
        ensures
            it.wf(),
            it.matrix == self,
            it.emitted() == 0,
    {
        let mut it = MatrixElementsIter { matrix: self, r: 0, c: 0 };
        proof {
            assert(self@.subrange(0, 0) =~= Seq::<Seq<T>>::empty());
        }
        it.skip_exhausted_rows();
        it
    }

    /// A mutating cursor over the rows.  The cursor takes the matrix over
    /// for the duration of the mutation; recover it with
    /// [`MatrixRowsIterMut::into_matrix`].
    pub fn iter_rows_mut(self) -> (it: MatrixRowsIterMut<T>)
        ensures
            it.matrix == self,
            it.i == 0,
    {
        MatrixRowsIterMut { matrix: self, i: 0 }
    }

    /// A mutating cursor over all elements in row-major order.  The cursor
    /// takes the matrix over for the duration of the mutation; recover it
    /// with [`MatrixElementsIterMut::into_matrix`].
    pub fn iter_elements_mut(self) -> (it: MatrixElementsIterMut<T>)
        ensures
            it.wf(),
            it.matrix@ == self@,
            it.emitted() == 0,
    {
        let ghost me = self@;
        let mut it = MatrixElementsIterMut { matrix: self, r: 0, c: 0 };
        proof {
            assert(me.subrange(0, 0) =~= Seq::<Seq<T>>::empty());
        }
        it.skip_exhausted_rows();
        it
    }

    /// A single-pass read view over one diagonal of a square matrix.
    pub fn iter_diagonal(&self, primary: bool) -> (it: MatrixDiagonalIter<'_, T>)
        requires
            square(self@),
        ensures
            it.wf(),
            it.matrix == self,
            it.primary == primary,
            it.i == 0,
    {
        MatrixDiagonalIter { matrix: self, i: 0, primary }
    }

    /// A mutating view over one diagonal of a square matrix.  The view takes
    /// the matrix over for the duration of the mutation; recover it with
    /// [`MatrixDiagonalIterMut::into_matrix`].
    pub fn iter_diagonal_mut(self, primary: bool) -> (it: MatrixDiagonalIterMut<T>)
        requires
            square(self@),
        ensures
            it.wf(),
            it.matrix == self,
            it.primary == primary,
    {
        MatrixDiagonalIterMut { matrix: self, primary }
    }

    /// A single-pass read view over the columns.  Works on ragged matrices:
    /// a step yields one optional entry per row, absent where the row is
    /// shorter than the column requires.
    pub fn iter_columns(&self) -> (it: MatrixColumnsIter<'_, T>)
        ensures
            it.matrix == self,
            it.column == 0,
    {
        MatrixColumnsIter { matrix: self, column: 0 }
    }

    /// A mutating view over the columns.  The view takes the matrix over for
    /// the duration of the mutation; recover it with
    /// [`MatrixColumnsIterMut::into_matrix`].
    pub fn iter_columns_mut(self) -> (it: MatrixColumnsIterMut<T>)
        ensures
            it.matrix == self,
            it.column == 0,
    {
        MatrixColumnsIterMut { matrix: self, column: 0 }
    }
}

//------------------------------------------------------------------------
// Rows
//------------------------------------------------------------------------

/// A single-pass read view over the rows of a matrix.
pub struct MatrixRowsIter<'a, T> {
    pub matrix: &'a Matrix<T>,
    pub i: usize,
}

impl<'a, T> MatrixRowsIter<'a, T> {
    /// The total number of steps the view has: one per row.
    pub fn len(&self) -> (n: usize)
        ensures
            n == self.matrix@.len(),
    {
        self.matrix.rows()
    }

    /// The next row, or `None` once all rows have been yielded.
    pub fn next(&mut self) -> (row: Option<&'a Vec<T>>)
        ensures
            final(self).matrix == old(self).matrix,
            old(self).i < old(self).matrix@.len() ==> (row matches Some(v) && v@
                == old(self).matrix@[old(self).i as int] && final(self).i == old(self).i + 1),
            old(self).i >= old(self).matrix@.len() ==> (row is None && final(self).i == old(self).i),
    {
        let m = self.matrix;
        if self.i >= m.rows() {
            return None;
        }
        let idx = self.i;
        self.i = idx + 1;
        Some(m.row(idx))
    }
}

/// A mutating cursor over the rows of a matrix.  It owns the matrix while
/// it lives; the row under the cursor can be read and replaced wholesale,
/// and `advance` moves on to the next one.
pub struct MatrixRowsIterMut<T> {
    pub matrix: Matrix<T>,
    pub i: usize,
}

impl<T> MatrixRowsIterMut<T> {
    /// Releases the matrix again.
    pub fn into_matrix(self) -> (m: Matrix<T>)
        ensures
            m == self.matrix,
    {
        self.matrix
    }

    /// The total number of steps the cursor has: one per row.
    pub fn len(&self) -> (n: usize)
        ensures
            n == self.matrix@.len(),
    {
        self.matrix.rows()
    }

    /// The row under the cursor.
    pub fn current(&self) -> (row: &Vec<T>)
        requires
            self.i < self.matrix@.len(),
        ensures
            row@ == self.matrix@[self.i as int],
    {
        self.matrix.row(self.i)
    }

    /// Replaces the row under the cursor, touching no other row.
    pub fn set_current(&mut self, row: Vec<T>)
        requires
            old(self).i < old(self).matrix@.len(),
        ensures
            final(self).i == old(self).i,
            final(self).matrix@ == old(self).matrix@.update(old(self).i as int, row@),
    {
        let i = self.i;
        self.matrix.set_row(i, row);
    }

    /// Moves the cursor to the next row.
    pub fn advance(&mut self)
        requires
            old(self).i < old(self).matrix@.len(),
        ensures
            final(self).matrix == old(self).matrix,
            final(self).i == old(self).i + 1,
    {
        let rows = self.matrix.rows();
        assert(self.i < rows);
        self.i = self.i + 1;
    }
}

//------------------------------------------------------------------------
// Elements
//------------------------------------------------------------------------

/// A single-pass read view over all elements in row-major order, skipping
/// nothing: it yields exactly the concatenation of the rows.
pub struct MatrixElementsIter<'a, T> {
    pub matrix: &'a Matrix<T>,
    pub r: usize,
    pub c: usize,
}

impl<'a, T> MatrixElementsIter<'a, T> {
    /// The cursor either points at a real element or rests past the last
    /// row.
    pub open spec fn wf(&self) -> bool {
        &&& self.r <= self.matrix@.len()
        &&& self.r < self.matrix@.len() ==> self.c < self.matrix@[self.r as int].len()
        &&& self.r == self.matrix@.len() ==> self.c == 0
    }

    /// How many elements have been yielded so far: all of the rows before
    /// the cursor, plus the cursor's offset in its row.
    pub open spec fn emitted(&self) -> int {
        self.matrix@.subrange(0, self.r as int).flatten().len() + self.c
    }

    /// Advances the cursor past exhausted rows (and empty ones) without
    /// changing how many elements were yielded.
    fn skip_exhausted_rows(&mut self)
        requires
            old(self).r <= old(self).matrix@.len(),
            old(self).r < old(self).matrix@.len() ==> old(self).c <= old(self).matrix@[old(self).r as int].len(),
            old(self).r == old(self).matrix@.len() ==> old(self).c == 0,
        ensures
            final(self).wf(),
            final(self).matrix == old(self).matrix,
            final(self).emitted() == old(self).emitted(),
    {
        let rows = self.matrix.rows();
        while self.r < rows && self.c >= self.matrix.row(self.r).len()
            invariant
                rows == self.matrix@.len(),
                self.matrix == old(self).matrix,
                self.r <= rows,
                self.r < rows ==> self.c <= self.matrix@[self.r as int].len(),
                self.r == rows ==> self.c == 0,
                self.emitted() == old(self).emitted(),
            decreases rows - self.r,
        {
            proof {
                lemma_flatten_prefix_step(self.matrix@, self.r as int);
            }
            self.r = self.r + 1;
            self.c = 0;
        }
    }

    /// The next element in row-major order: step `k` yields element `k` of
    /// the concatenation of all rows.
    pub fn next(&mut self) -> (e: Option<&'a T>)
        requires
            old(self).wf(),
        ensures
            final(self).wf(),
            final(self).matrix == old(self).matrix,
            old(self).emitted() < old(self).matrix@.flatten().len() ==> (e matches Some(v) && *v
                == old(self).matrix@.flatten()[old(self).emitted()] && final(self).emitted()
                == old(self).emitted() + 1),
            old(self).emitted() >= old(self).matrix@.flatten().len() ==> (e is None && final(self).emitted() == old(self).emitted()),
    {
        let m = self.matrix;
        let rows = m.rows();
        if self.r >= rows {
            proof {
                assert(self.matrix@.subrange(0, self.r as int) =~= self.matrix@);
            }
            return None;
        }
        proof {
            lemma_flatten_prefix_step(m@, self.r as int);
            lemma_flatten_prefix_len_le(m@, self.r as int + 1);
        }
        let e = m.get(self.r, self.c);
        let row_len = m.row(self.r).len();
        assert(self.c < row_len);
        self.c = self.c + 1;
        self.skip_exhausted_rows();
        Some(e)
    }
}

/// Extending a row-prefix by one row appends exactly that row to the
/// flattened prefix; in particular element `c` of the row sits at offset
/// `c` after the flattened prefix, inside the flattening of the whole.
proof fn lemma_flatten_prefix_step<T>(m: Seq<Seq<T>>, r: int)
    requires
        0 <= r < m.len(),
    ensures
        m.subrange(0, r + 1).flatten() == m.subrange(0, r).flatten() + m[r],
        forall|c: int|
            0 <= c < m[r].len() ==> m.flatten()[m.subrange(0, r).flatten().len() + c]
                == #[trigger] m[r][c],
{
    let pre = m.subrange(0, r);
    let pre1 = m.subrange(0, r + 1);
    let post = m.subrange(r + 1, m.len() as int);
    assert(pre1 =~= pre + seq![m[r]]);
    lemma_flatten_concat(pre, seq![m[r]]);
    seq![m[r]].lemma_flatten_one_element();
    assert(pre1.flatten() == pre.flatten() + m[r]);
    assert(m =~= pre1 + post);
    lemma_flatten_concat(pre1, post);
    assert(m.flatten() == pre.flatten() + m[r] + post.flatten());
}

/// A longer row-prefix never flattens to fewer elements.
proof fn lemma_flatten_prefix_len_le<T>(m: Seq<Seq<T>>, r: int)
    requires
        0 <= r <= m.len(),
    ensures
        m.subrange(0, r).flatten().len() <= m.flatten().len(),
{
    let pre = m.subrange(0, r);
    let post = m.subrange(r, m.len() as int);
    assert(m =~= pre + post);
    lemma_flatten_concat(pre, post);
}

/// A mutating cursor over all elements of a matrix in row-major order.  It
/// owns the matrix while it lives; the element under the cursor can be read
/// and overwritten, and `advance` moves on to the next one.
pub struct MatrixElementsIterMut<T> {
    pub matrix: Matrix<T>,
    pub r: usize,
    pub c: usize,
}

impl<T> MatrixElementsIterMut<T> {
    /// The cursor either points at a real element or rests past the last
    /// row.
    pub open spec fn wf(&self) -> bool {
        &&& self.r <= self.matrix@.len()
        &&& self.r < self.matrix@.len() ==> self.c < self.matrix@[self.r as int].len()
        &&& self.r == self.matrix@.len() ==> self.c == 0
    }

    /// How many elements lie before the cursor: all of the rows before it,
    /// plus its offset in its own row.
    pub open spec fn emitted(&self) -> int {
        self.matrix@.subrange(0, self.r as int).flatten().len() + self.c
    }

    /// Releases the matrix again.
    pub fn into_matrix(self) -> (m: Matrix<T>)
        ensures
            m == self.matrix,
    {
        self.matrix
    }

    /// Whether an element is left under the cursor.
    pub fn has_current(&self) -> (b: bool)
        requires
            self.wf(),
        ensures
            b <==> self.emitted() < self.matrix@.flatten().len(),
    {
        proof {
            if self.r < self.matrix@.len() {
                lemma_flatten_prefix_step(self.matrix@, self.r as int);
                lemma_flatten_prefix_len_le(self.matrix@, self.r as int + 1);
            } else {
                assert(self.matrix@.subrange(0, self.r as int) =~= self.matrix@);
            }
        }
        self.r < self.matrix.rows()
    }

    /// The element under the cursor: element `emitted()` of the
    /// concatenation of all rows.
    pub fn current(&self) -> (e: &T)
        requires
            self.wf(),
            self.emitted() < self.matrix@.flatten().len(),
        ensures
            *e == self.matrix@[self.r as int][self.c as int],
            *e == self.matrix@.flatten()[self.emitted()],
    {
        proof {
            if self.r == self.matrix@.len() {
                assert(self.matrix@.subrange(0, self.r as int) =~= self.matrix@);
            }
            lemma_flatten_prefix_step(self.matrix@, self.r as int);
        }
        self.matrix.get(self.r, self.c)
    }

    /// Overwrites the element under the cursor, touching no other cell and
    /// not moving the cursor.
    pub fn set_current(&mut self, value: T)
        requires
            old(self).wf(),
            old(self).emitted() < old(self).matrix@.flatten().len(),
        ensures
            final(self).wf(),
            final(self).r == old(self).r,
            final(self).c == old(self).c,
            final(self).emitted() == old(self).emitted(),
            final(self).matrix@ == old(self).matrix@.update(
                old(self).r as int,
                old(self).matrix@[old(self).r as int].update(old(self).c as int, value),
            ),
    {
        proof {
            if self.r == self.matrix@.len() {
                assert(self.matrix@.subrange(0, self.r as int) =~= self.matrix@);
            }
        }
        let r = self.r;
        let c = self.c;
        self.matrix.set(r, c, value);
        proof {
            assert(self.matrix@.subrange(0, self.r as int) =~= old(self).matrix@.subrange(
                0,
                self.r as int,
            ));
        }
    }

    /// Moves the cursor to the next element in row-major order.
    pub fn advance(&mut self)
        requires
            old(self).wf(),
            old(self).emitted() < old(self).matrix@.flatten().len(),
        ensures
            final(self).wf(),
            final(self).matrix == old(self).matrix,
            final(self).emitted() == old(self).emitted() + 1,
    {
        proof {
            if self.r == self.matrix@.len() {
                assert(self.matrix@.subrange(0, self.r as int) =~= self.matrix@);
            }
            lemma_flatten_prefix_step(self.matrix@, self.r as int);
            lemma_flatten_prefix_len_le(self.matrix@, self.r as int + 1);
        }
        let row_len = self.matrix.row(self.r).len();
        assert(self.c < row_len);
        self.c = self.c + 1;
        self.skip_exhausted_rows();
    }

    /// Advances the cursor past exhausted rows (and empty ones) without
    /// changing how many elements lie before it.
    fn skip_exhausted_rows(&mut self)
        requires
            old(self).r <= old(self).matrix@.len(),
            old(self).r < old(self).matrix@.len() ==> old(self).c <= old(self).matrix@[old(self).r as int].len(),
            old(self).r == old(self).matrix@.len() ==> old(self).c == 0,
        ensures
            final(self).wf(),
            final(self).matrix == old(self).matrix,
            final(self).emitted() == old(self).emitted(),
    {
        let rows = self.matrix.rows();
        while self.r < rows && self.c >= self.matrix.row(self.r).len()
            invariant
                rows == self.matrix@.len(),
                self.matrix == old(self).matrix,
                self.r <= rows,
                self.r < rows ==> self.c <= self.matrix@[self.r as int].len(),
                self.r == rows ==> self.c == 0,
                self.emitted() == old(self).emitted(),
            decreases rows - self.r,
        {
            proof {
                lemma_flatten_prefix_step(self.matrix@, self.r as int);
            }
            self.r = self.r + 1;
            self.c = 0;
        }
    }
}

//------------------------------------------------------------------------
// Diagonal, read
//------------------------------------------------------------------------

/// A single-pass read view over one diagonal of a square matrix.
pub struct MatrixDiagonalIter<'a, T> {
    pub matrix: &'a Matrix<T>,
    pub i: usize,
    pub primary: bool,
}

impl<'a, T> MatrixDiagonalIter<'a, T> {
    /// The view is only defined over a square matrix.
    pub open spec fn wf(&self) -> bool {
        square(self.matrix@)
    }

    /// The total number of steps the view has: one per row.
    pub fn len(&self) -> (n: usize)
        ensures
            n == self.matrix@.len(),
    {
        self.matrix.rows()
    }

    /// The next diagonal element: step `k` yields the value at cell
    /// `(k, k)` (primary) or `(k, n - 1 - k)` (side).
    pub fn next(&mut self) -> (e: Option<&'a T>)
        requires
            old(self).wf(),
        ensures
            final(self).wf(),
            final(self).matrix == old(self).matrix,
            final(self).primary == old(self).primary,
            old(self).i < old(self).matrix@.len() ==> (e matches Some(v) && *v == diag_seq(
                old(self).matrix@,
                old(self).primary,
            )[old(self).i as int] && final(self).i == old(self).i + 1),
            old(self).i >= old(self).matrix@.len() ==> (e is None && final(self).i == old(self).i),
    {
        let m = self.matrix;
        let rows = m.rows();
        if self.i >= rows {
            return None;
        }
        let max = rows - 1;
        let idx = self.i;
        self.i = idx + 1;
        if self.primary {
            Some(m.get(idx, idx))
        } else {
            Some(m.get(idx, max - idx))
        }
    }
}

//------------------------------------------------------------------------
// Diagonal, mutating
//------------------------------------------------------------------------

/// A mutating positional view over one diagonal of a square matrix.  It
/// owns the matrix while it lives; reads and writes go through checked
/// index-based entry points, and the view implements [`Sort`], so the
/// shared bubble sort can reorder the diagonal in place.
pub struct MatrixDiagonalIterMut<T> {
    pub matrix: Matrix<T>,
    pub primary: bool,
}

impl<T> MatrixDiagonalIterMut<T> {
    /// Releases the matrix again.
    pub fn into_matrix(self) -> (m: Matrix<T>)
        ensures
            m == self.matrix,
    {
        self.matrix
    }

    /// A reference to the `k`-th diagonal element.
    pub fn get(&self, k: usize) -> (e: &T)
        requires
            self.wf(),
            k < self.logical().len(),
        ensures
            *e == self.logical()[k as int],
    {
        let max = self.matrix.rows() - 1;
        if self.primary {
            self.matrix.get(k, k)
        } else {
            self.matrix.get(k, max - k)
        }
    }

    /// Overwrites the `k`-th diagonal element, touching no other cell.
    pub fn set(&mut self, k: usize, value: T)
        requires
            old(self).wf(),
            k < old(self).logical().len(),
        ensures
            final(self).wf(),
            final(self).primary == old(self).primary,
            final(self).logical() == old(self).logical().update(k as int, value),
            final(self).same_outside(old(self)),
    {
        let max = self.matrix.rows() - 1;
        let ghost prev = *self;
        let pos = if self.primary {
            k
        } else {
            max - k
        };
        self.matrix.set(k, pos, value);
        proof {
            assert(self.logical() =~= prev.logical().update(k as int, value));
        }
    }
}

impl<T> Sort for MatrixDiagonalIterMut<T> {
    type SortedItem = T;

    /// The diagonal is only defined over a square matrix.
    open spec fn wf(&self) -> bool {
        square(self.matrix@)
    }

    /// The sortable sequence: the diagonal's values, top to bottom.
    open spec fn logical(&self) -> Seq<T> {
        diag_seq(self.matrix@, self.primary)
    }

    /// Sorting one diagonal may not disturb any cell off that diagonal.
    open spec fn same_outside(&self, other: &Self) -> bool {
        self.primary == other.primary && agrees_off_diagonal(
            self.matrix@,
            other.matrix@,
            other.primary,
        )
    }

    proof fn same_outside_refl(&self) {
    }

    proof fn same_outside_trans(&self, mid: &Self, first: &Self) {
    }

    fn len(&self) -> (n: usize) {
        self.matrix.rows()
    }

    fn swap(&mut self, a: usize, b: usize) {
        let ghost prev = *self;
        let max = self.matrix.rows() - 1;
        let (pa, pb) = if self.primary {
            (a, b)
        } else {
            (max - a, max - b)
        };
        self.matrix.swap_elements((a, pa), (b, pb));
        proof {
            assert(self.logical() =~= seq_swap(prev.logical(), a as int, b as int));
        }
    }

    fn cmp_by<C: Comparator<T>>(&self, a: usize, b: usize, cmp: &C) -> (r: Ordering) {
        let x = self.get(a);
        let y = self.get(b);
        cmp.compare(x, y)
    }
}

//------------------------------------------------------------------------
// Columns, read
//------------------------------------------------------------------------

/// A single-pass read view over the columns of a (possibly ragged) matrix.
pub struct MatrixColumnsIter<'a, T> {
    pub matrix: &'a Matrix<T>,
    pub column: usize,
}

impl<'a, T> MatrixColumnsIter<'a, T> {
    /// The total number of steps the view has: the column count.
    pub fn len(&self) -> (n: usize)
        ensures
            n == col_count(self.matrix@),
    {
        self.matrix.columns()
    }

    /// The next column: one optional entry per row, absent exactly for the
    /// rows shorter than the column requires.
    pub fn next(&mut self) -> (col: Option<Vec<Option<&'a T>>>)
        ensures
            final(self).matrix == old(self).matrix,
            old(self).column < col_count(old(self).matrix@) ==> (col matches Some(buf) && {
                &&& final(self).column == old(self).column + 1
                &&& buf@.len() == old(self).matrix@.len()
                &&& forall|r: int|
                    0 <= r < buf@.len() ==> column_entry(
                        #[trigger] buf@[r],
                        old(self).matrix@,
                        r,
                        old(self).column as int,
                    )
            }),
            old(self).column >= col_count(old(self).matrix@) ==> (col is None && final(self).column == old(self).column),
    {
        let m = self.matrix;
        let columns = m.columns();
        if self.column >= columns {
            return None;
        }
        let rows = m.rows();
        let c = self.column;
        let mut buf: Vec<Option<&'a T>> = Vec::with_capacity(rows);
        for r in 0..rows
            invariant
                rows == m@.len(),
                buf@.len() == r,
                forall|k: int| 0 <= k < r ==> column_entry(#[trigger] buf@[k], m@, k, c as int),
        {
            buf.push(m.get_opt(r, c));
        }
        self.column = c + 1;
        Some(buf)
    }
}

//------------------------------------------------------------------------
// Columns, mutating
//------------------------------------------------------------------------

/// A mutating view over the columns of a (possibly ragged) matrix.  It owns
/// the matrix while it lives; writes target the column the cursor currently
/// rests on and go through the matrix's checked `set`.
pub struct MatrixColumnsIterMut<T> {
    pub matrix: Matrix<T>,
    pub column: usize,
}

impl<T> MatrixColumnsIterMut<T> {
    /// Releases the matrix again.
    pub fn into_matrix(self) -> (m: Matrix<T>)
        ensures
            m == self.matrix,
    {
        self.matrix
    }

    /// The total number of steps the view has: the column count.
    pub fn len(&self) -> (n: usize)
        ensures
            n == col_count(self.matrix@),
    {
        self.matrix.columns()
    }

    /// Overwrites the entry of row `row` in the current column; the row must
    /// be long enough to have one.
    pub fn set(&mut self, row: usize, value: T)
        requires
            row < old(self).matrix@.len(),
            old(self).column < old(self).matrix@[row as int].len(),
        ensures
            final(self).column == old(self).column,
            final(self).matrix@ == old(self).matrix@.update(
                row as int,
                old(self).matrix@[row as int].update(old(self).column as int, value),
            ),
    {
        let c = self.column;
        self.matrix.set(row, c, value);
    }
}

impl<T: Copy> MatrixColumnsIterMut<T> {
    /// The current column, copied out: one optional value per row, absent
    /// exactly for the rows shorter than the column requires.  Advances the
    /// cursor to the next column.
    pub fn next(&mut self) -> (col: Option<Vec<Option<T>>>)
        ensures
            final(self).matrix == old(self).matrix,
            old(self).column < col_count(old(self).matrix@) ==> (col matches Some(buf) && {
                &&& final(self).column == old(self).column + 1
                &&& buf@.len() == old(self).matrix@.len()
                &&& forall|r: int|
                    0 <= r < buf@.len() ==> column_entry_val(
                        #[trigger] buf@[r],
                        old(self).matrix@,
                        r,
                        old(self).column as int,
                    )
            }),
            old(self).column >= col_count(old(self).matrix@) ==> (col is None && final(self).column == old(self).column),
    {
        let columns = self.matrix.columns();
        if self.column >= columns {
            return None;
        }
        let rows = self.matrix.rows();
        let c = self.column;
        let mut buf: Vec<Option<T>> = Vec::with_capacity(rows);
        for r in 0..rows
            invariant
                rows == self.matrix@.len(),
                c == self.column,
                self.matrix == old(self).matrix,
                buf@.len() == r,
                forall|k: int|
                    0 <= k < r ==> column_entry_val(#[trigger] buf@[k], self.matrix@, k, c as int),
        {
            match self.matrix.get_opt(r, c) {
                Some(v) => buf.push(Some(*v)),
                None => buf.push(None),
            }
        }
        self.column = c + 1;
        Some(buf)
    }
}

} // verus!
