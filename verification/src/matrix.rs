//! The matrix container: an ordered sequence of rows, each an independently
//! sized sequence of elements.

use vstd::prelude::*;

verus! {

/// A resizable two-dimensional container.  Rows may differ in length
/// ("ragged" matrices are legal); being square or rectangular is a property
/// checked on demand, not a structural constraint.
pub struct Matrix<T> {
    rows: Vec<Vec<T>>,
}

/// The number of columns of a matrix model: the maximum row length, or 0 for
/// an empty matrix.
pub open spec fn col_count<T>(m: Seq<Seq<T>>) -> nat
    decreases m.len(),
{
    if m.len() == 0 {
        0
    } else {
        let rest = col_count(m.drop_last());
        if m.last().len() > rest {
            m.last().len()
        } else {
            rest
        }
    }
}

/// Every row has exactly as many elements as there are rows.
pub open spec fn square<T>(m: Seq<Seq<T>>) -> bool {
    forall|i: int| 0 <= i < m.len() ==> (#[trigger] m[i]).len() == m.len()
}

/// Every row has the same length as the first one.
pub open spec fn rectangular<T>(m: Seq<Seq<T>>) -> bool {
    forall|i: int| 0 <= i < m.len() ==> (#[trigger] m[i]).len() == m[0].len()
}

/// The model of a matrix after exchanging the cells `(r1, c1)` and
/// `(r2, c2)`: each of the two cells holds the other's prior value and no
/// other cell is touched.  The two positions may coincide.
pub open spec fn swap_cells<T>(m: Seq<Seq<T>>, r1: int, c1: int, r2: int, c2: int) -> Seq<
    Seq<T>,
> {
    let v1 = m[r1][c1];
    let v2 = m[r2][c2];
    let m1 = m.update(r1, m[r1].update(c1, v2));
    m1.update(r2, m1[r2].update(c2, v1))
}

/// The model of a transposed matrix: one row per column of the input, where
/// new row `i` collects element `i` of every old row in old-row order.
pub open spec fn transpose_spec<T>(m: Seq<Seq<T>>) -> Seq<Seq<T>> {
    Seq::new(col_count(m) as nat, |i: int| Seq::new(m.len(), |j: int| m[j][i]))
}

impl<T> View for Matrix<T> {
    type V = Seq<Seq<T>>;

    closed spec fn view(&self) -> Seq<Seq<T>> {
        self.rows@.map_values(|row: Vec<T>| row@)
    }
}

impl<T> Matrix<T> {
    /// An empty matrix with storage reserved for `capacity` rows.
    pub fn with_rows(capacity: usize) -> (m: Matrix<T>)
        ensures
            m@ == Seq::<Seq<T>>::empty(),
    {
        let m = Matrix { rows: Vec::with_capacity(capacity) };
        proof {
            assert(m@ =~= Seq::<Seq<T>>::empty());
        }
        m
    }

    /// The number of rows.
    pub fn rows(&self) -> (n: usize)
        ensures
            n == self@.len(),
    {
        self.rows.len()
    }

    /// Appends a new row; no length constraint is enforced, so the matrix may
    /// become ragged.
    pub fn push_row(&mut self, row: Vec<T>)
        ensures
            final(self)@ == old(self)@.push(row@),
    {
        let ghost prior = self@;
        self.rows.push(row);
        proof {
            assert(self@ =~= prior.push(row@));
        }
    }

    /// The number of columns: the maximum row length, or 0 if the matrix has
    /// no rows.
    pub fn columns(&self) -> (n: usize)
        ensures
            n == col_count(self@),
    {
        let mut mx: usize = 0;
        let rows = self.rows.len();
        for i in 0..rows
            invariant
                rows == self@.len(),
                mx == col_count(self@.subrange(0, i as int)),
        {
            proof {
                lemma_col_count_step(self@, i as int);
            }
            let len = self.rows[i].len();
            if len > mx {
                mx = len;
            }
        }
        proof {
            assert(self@.subrange(0, self@.len() as int) =~= self@);
        }
        mx
    }

    /// Whether every row has exactly as many elements as there are rows.
    pub fn is_square(&self) -> (r: bool)
        ensures
            r == square(self@),
    {
        let rows = self.rows.len();
        for i in 0..rows
            invariant
                rows == self@.len(),
                forall|k: int| 0 <= k < i ==> (#[trigger] self@[k]).len() == rows,
        {
            if self.rows[i].len() != rows {
                proof {
                    assert(!square(self@)) by {
                        assert(self@[i as int].len() != self@.len());
                    }
                }
                return false;
            }
        }
        true
    }

    /// Whether every row has the same length as the first one — the shape
    /// the column operations require.
    pub fn is_rectangular(&self) -> (r: bool)
        ensures
            r == rectangular(self@),
    {
        let rows = self.rows.len();
        if rows == 0 {
            return true;
        }
        let width = self.rows[0].len();
        for i in 1..rows
            invariant
                rows == self@.len(),
                rows > 0,
                width == self@[0].len(),
                forall|k: int| 0 <= k < i ==> (#[trigger] self@[k]).len() == width,
        {
            if self.rows[i].len() != width {
                proof {
                    assert(!rectangular(self@)) by {
                        assert(self@[i as int].len() != self@[0].len());
                    }
                }
                return false;
            }
        }
        true
    }

    /// A shared reference to one cell.
    pub fn get(&self, r: usize, c: usize) -> (e: &T)
        requires
            r < self@.len(),
            c < self@[r as int].len(),
        ensures
            *e == self@[r as int][c as int],
    {
        &self.rows[r][c]
    }

    /// A shared reference to one cell, or `None` when the position lies
    /// outside the matrix (in particular when row `r` is shorter than
    /// `c + 1`).
    pub fn get_opt(&self, r: usize, c: usize) -> (e: Option<&T>)
        ensures
            (r < self@.len() && c < self@[r as int].len()) ==> (e matches Some(v) && *v
                == self@[r as int][c as int]),
            !(r < self@.len() && c < self@[r as int].len()) ==> e is None,
    {
        if r < self.rows.len() {
            let row = &self.rows[r];
            if c < row.len() {
                return Some(&row[c]);
            }
        }
        None
    }

    /// A shared reference to one row.
    pub fn row(&self, r: usize) -> (row: &Vec<T>)
        requires
            r < self@.len(),
        ensures
            row@ == self@[r as int],
    {
        &self.rows[r]
    }

    /// Overwrites one cell.  The single mutation entry point that all views
    /// route their writes through.
    pub fn set(&mut self, r: usize, c: usize, value: T)
        requires
            r < old(self)@.len(),
            c < old(self)@[r as int].len(),
        ensures
            final(self)@ == old(self)@.update(r as int, old(self)@[r as int].update(c as int, value)),
    {
        let ghost prior = self@;
        let row = &mut self.rows[r];
        row[c] = value;
        proof {
            assert(self@ =~= prior.update(r as int, prior[r as int].update(c as int, value)));
        }
    }

    /// Replaces one row wholesale.
    pub fn set_row(&mut self, r: usize, row: Vec<T>)
        requires
            r < old(self)@.len(),
        ensures
            final(self)@ == old(self)@.update(r as int, row@),
    {
        let ghost prior = self@;
        *(&mut self.rows[r]) = row;
        proof {
            assert(self@ =~= prior.update(r as int, row@));
        }
    }

    /// Exchanges two entire rows by moving them, not element by element.
    pub fn swap_rows(&mut self, a: usize, b: usize)
        requires
            a < old(self)@.len(),
            b < old(self)@.len(),
        ensures
            final(self)@ == old(self)@.update(a as int, old(self)@[b as int]).update(
                b as int,
                old(self)@[a as int],
            ),
    {
        let ghost prior = self@;
        vec_swap(&mut self.rows, a, b);
        proof {
            assert(self@ =~= prior.update(a as int, prior[b as int]).update(
                b as int,
                prior[a as int],
            ));
        }
    }

    /// Exchanges the values of two cells.  The two positions may share a row
    /// or even coincide, and may be passed in either order.
    pub fn swap_elements(&mut self, a: (usize, usize), b: (usize, usize))
        requires
            a.0 < old(self)@.len(),
            a.1 < old(self)@[a.0 as int].len(),
            b.0 < old(self)@.len(),
            b.1 < old(self)@[b.0 as int].len(),
        ensures
            final(self)@ == swap_cells(
                old(self)@,
                a.0 as int,
                a.1 as int,
                b.0 as int,
                b.1 as int,
            ),
    {
        let ghost prior = self@;
        let (ar, ac) = a;
        let (br, bc) = b;
        if ar == br {
            let row = &mut self.rows[ar];
            vec_swap(row, ac, bc);
        } else {
            // Normalize so that `hi` is the larger row index; removing that
            // row first leaves the smaller index valid.
            let (lo, loc, hi, hic) = if ar < br {
                (ar, ac, br, bc)
            } else {
                (br, bc, ar, ac)
            };
            let mut hirow = self.rows.remove(hi);
            core::mem::swap(&mut self.rows[lo][loc], &mut hirow[hic]);
            self.rows.insert(hi, hirow);
        }
        proof {
            assert(self@ =~~= swap_cells(prior, ar as int, ac as int, br as int, bc as int));
        }
    }

    /// Swaps rows and columns.  A square matrix is transposed in place by
    /// exchanging each cell `(i, j)`, `i < j`, with `(j, i)`; any other
    /// rectangular matrix is rebuilt, new row `k` taking element `k` from
    /// every old row in old-row order.  Ragged input is excluded: taking
    /// "element `k` of every row" is undefined once a row is shorter than
    /// `k + 1`.
    pub fn transpose(&mut self)
        requires
            rectangular(old(self)@),
        ensures
            final(self)@ == transpose_spec(old(self)@),
    {
        let ghost prior = self@;
        let n = self.columns();
        let m = self.rows();
        proof {
            lemma_rectangular_col_count(prior);
        }
        if n == m {
            self.transpose_square_in_place();
        } else {
            let mut new_rows: Vec<Vec<T>> = Vec::with_capacity(n);
            for k in 0..n
                invariant
                    n == col_count(prior),
                    m == prior.len(),
                    rectangular(prior),
                    n != m,
                    self@.len() == m,
                    forall|j: int|
                        0 <= j < m ==> #[trigger] self@[j] =~= prior[j].subrange(
                            k as int,
                            n as int,
                        ),
                    new_rows@.len() == k,
                    forall|i: int|
                        0 <= i < k ==> #[trigger] new_rows@[i]@ =~= Seq::new(
                            m as nat,
                            |j: int| prior[j][i],
                        ),
            {
                let mut new_row: Vec<T> = Vec::with_capacity(m);
                for j in 0..m
                    invariant
                        n == col_count(prior),
                        m == prior.len(),
                        rectangular(prior),
                        k < n,
                        self@.len() == m,
                        forall|j2: int|
                            j <= j2 < m ==> #[trigger] self@[j2] =~= prior[j2].subrange(
                                k as int,
                                n as int,
                            ),
                        forall|j2: int|
                            0 <= j2 < j ==> #[trigger] self@[j2] =~= prior[j2].subrange(
                                k + 1,
                                n as int,
                            ),
                        new_row@.len() == j,
                        forall|j2: int| 0 <= j2 < j ==> #[trigger] new_row@[j2] == prior[j2][k as int],
                {
                    proof {
                        lemma_rectangular_col_count(prior);
                        assert(prior[j as int].len() == n);
                        assert(self@[j as int].len() == n - k);
                    }
                    let ghost before = self@;
                    let row = &mut self.rows[j];
                    let e = row.remove(0);
                    new_row.push(e);
                    proof {
                        assert(self@ =~= before.update(j as int, before[j as int].remove(0)));
                        assert(self@[j as int] =~= prior[j as int].subrange(k + 1, n as int));
                    }
                }
                new_rows.push(new_row);
            }
            self.rows = new_rows;
            proof {
                assert(self@ =~~= transpose_spec(prior));
            }
        }
    }

    /// The in-place path of [`Self::transpose`], for matrices whose row count
    /// equals their column count (under the rectangularity precondition that
    /// makes them square).
    fn transpose_square_in_place(&mut self)
        requires
            rectangular(old(self)@),
            col_count(old(self)@) == old(self)@.len(),
        ensures
            final(self)@ == transpose_spec(old(self)@),
    {
        let ghost prior = self@;
        let n = self.rows();
        proof {
            lemma_rectangular_col_count(prior);
        }
        for i in 0..n
            invariant
                n == prior.len(),
                n == col_count(prior),
                square(prior),
                self@.len() == n,
                forall|a: int| 0 <= a < n ==> (#[trigger] self@[a]).len() == n,
                forall|a: int, b: int|
                    0 <= a < n && 0 <= b < n ==> #[trigger] self@[a][b] == (if swapped_before(
                        a,
                        b,
                        i as int,
                        i as int + 1,
                    ) {
                        prior[b][a]
                    } else {
                        prior[a][b]
                    }),
        {
            let mut j = i + 1;
            while j < n
                invariant
                    i < n,
                    i < j <= n,
                    n == prior.len(),
                    square(prior),
                    self@.len() == n,
                    forall|a: int| 0 <= a < n ==> (#[trigger] self@[a]).len() == n,
                    forall|a: int, b: int|
                        0 <= a < n && 0 <= b < n ==> #[trigger] self@[a][b] == (if swapped_before(
                            a,
                            b,
                            i as int,
                            j as int,
                        ) {
                            prior[b][a]
                        } else {
                            prior[a][b]
                        }),
                decreases n - j,
            {
                let ghost before = self@;
                self.swap_elements((i, j), (j, i));
                proof {
                    assert forall|a: int, b: int| 0 <= a < n && 0 <= b < n implies #[trigger] self@[a][b]
                        == (if swapped_before(a, b, i as int, j as int + 1) {
                        prior[b][a]
                    } else {
                        prior[a][b]
                    }) by {
                        assert(self@[a][b] == swap_cells(
                            before,
                            i as int,
                            j as int,
                            j as int,
                            i as int,
                        )[a][b]);
                    }
                }
                j = j + 1;
            }
        }
        proof {
            assert(self@ =~~= transpose_spec(prior));
        }
    }

    /// Gives the rows up, consuming the matrix.
    pub fn into_rows(self) -> (rows: Vec<Vec<T>>)
        ensures
            rows@.map_values(|row: Vec<T>| row@) == self@,
    {
        self.rows
    }
}

impl<T> From<Vec<Vec<T>>> for Matrix<T> {
    /// Wraps an existing nested row sequence without copying it.
    fn from(rows: Vec<Vec<T>>) -> (m: Matrix<T>)
        ensures
            m@ == rows@.map_values(|row: Vec<T>| row@),
    {
        Matrix { rows }
    }
}

impl<T> vstd::std_specs::convert::FromSpecImpl<Vec<Vec<T>>> for Matrix<T> {
    open spec fn obeys_from_spec() -> bool {
        true
    }

    closed spec fn from_spec(rows: Vec<Vec<T>>) -> Matrix<T> {
        Matrix { rows }
    }
}

/// Whether the in-place transposition has already exchanged the cell pair
/// `{(a, b), (b, a)}` when the sweep is about to compare row `i` with
/// column `j`.
pub open spec fn swapped_before(a: int, b: int, i: int, j: int) -> bool {
    let lo = if a <= b {
        a
    } else {
        b
    };
    let hi = if a <= b {
        b
    } else {
        a
    };
    lo != hi && (lo < i || (lo == i && hi < j))
}

/// Exchanges two positions of a vector in place.
pub fn vec_swap<T>(v: &mut Vec<T>, i: usize, j: usize)
    requires
        i < old(v)@.len(),
        j < old(v)@.len(),
    ensures
        final(v)@ == old(v)@.update(i as int, old(v)@[j as int]).update(
            j as int,
            old(v)@[i as int],
        ),
{
    let ghost prior = v@;
    if i != j {
        let (lo, hi) = if i < j {
            (i, j)
        } else {
            (j, i)
        };
        let mut x = v.remove(hi);
        core::mem::swap(&mut v[lo], &mut x);
        v.insert(hi, x);
    }
    proof {
        assert(v@ =~= prior.update(i as int, prior[j as int]).update(j as int, prior[i as int]));
    }
}

/// One step of the column-count recursion: extending a prefix by one row
/// takes the maximum of the prefix count and that row's length.
proof fn lemma_col_count_step<T>(m: Seq<Seq<T>>, i: int)
    requires
        0 <= i < m.len(),
    ensures
        col_count(m.subrange(0, i + 1)) == (if m[i].len() > col_count(m.subrange(0, i)) {
            m[i].len()
        } else {
            col_count(m.subrange(0, i))
        }),
{
    assert(m.subrange(0, i + 1).drop_last() =~= m.subrange(0, i));
    assert(m.subrange(0, i + 1).last() == m[i]);
}

/// In a rectangular matrix with at least one row, the column count is the
/// common row length.
pub proof fn lemma_rectangular_col_count<T>(m: Seq<Seq<T>>)
    requires
        rectangular(m),
    ensures
        m.len() > 0 ==> col_count(m) == m[0].len(),
        m.len() == 0 ==> col_count(m) == 0,
    decreases m.len(),
{
    if m.len() > 0 {
        assert(rectangular(m.drop_last())) by {
            assert(forall|i: int|
                0 <= i < m.len() - 1 ==> #[trigger] m.drop_last()[i] == m[i]);
        }
        lemma_rectangular_col_count(m.drop_last());
    }
}

/// Exchanging the same two distinct cells twice restores the original
/// matrix: `swap_cells` is an involution.
pub proof fn lemma_swap_cells_involution<T>(m: Seq<Seq<T>>, r1: int, c1: int, r2: int, c2: int)
    requires
        0 <= r1 < m.len(),
        0 <= c1 < m[r1].len(),
        0 <= r2 < m.len(),
        0 <= c2 < m[r2].len(),
        (r1, c1) != (r2, c2),
    ensures
        swap_cells(swap_cells(m, r1, c1, r2, c2), r1, c1, r2, c2) == m,
{
    assert(swap_cells(swap_cells(m, r1, c1, r2, c2), r1, c1, r2, c2) =~~= m);
}

/// Transposing twice restores the original matrix, for any rectangular
/// matrix that is empty or has at least one column.
pub proof fn lemma_transpose_involution<T>(m: Seq<Seq<T>>)
    requires
        rectangular(m),
        m.len() == 0 || col_count(m) > 0,
    ensures
        transpose_spec(transpose_spec(m)) == m,
{
    lemma_rectangular_col_count(m);
    let t = transpose_spec(m);
    assert(rectangular(t));
    if m.len() == 0 {
        assert(transpose_spec(t) =~~= m);
    } else {
        lemma_rectangular_col_count(t);
        assert(transpose_spec(t) =~~= m);
    }
}

} // verus!

