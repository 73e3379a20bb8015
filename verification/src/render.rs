//! Deterministic textual rendering of an integer matrix: one bracketed,
//! comma-joined row per line, in row order.  The exact character sequence is
//! pinned down by the spec functions here, so the output is reproducible
//! byte for byte.

use vstd::prelude::*;
use vstd::string::StringExecFns;

use crate::matrix::Matrix;

verus! {

/// The character of one decimal digit.
pub open spec fn digit_char(d: int) -> char {
    if d == 0 {
        '0'
    } else if d == 1 {
        '1'
    } else if d == 2 {
        '2'
    } else if d == 3 {
        '3'
    } else if d == 4 {
        '4'
    } else if d == 5 {
        '5'
    } else if d == 6 {
        '6'
    } else if d == 7 {
        '7'
    } else if d == 8 {
        '8'
    } else {
        '9'
    }
}

/// The decimal digits of a non-negative number, most significant first.
pub open spec fn dec_chars(n: int) -> Seq<char>
    decreases n,
{
    if n < 10 {
        seq![digit_char(n)]
    } else {
        dec_chars(n / 10) + seq![digit_char(n % 10)]
    }
}

/// The decimal rendering of a signed number: a minus sign before the digits
/// of its magnitude.
pub open spec fn int_chars(v: int) -> Seq<char> {
    if v < 0 {
        seq!['-'] + dec_chars(-v)
    } else {
        dec_chars(v)
    }
}

/// One row's elements, joined by ", ".
pub open spec fn row_chars(row: Seq<i32>) -> Seq<char>
    decreases row.len(),
{
    if row.len() == 0 {
        Seq::empty()
    } else if row.len() == 1 {
        int_chars(row[0] as int)
    } else {
        row_chars(row.drop_last()) + seq![',', ' '] + int_chars(row.last() as int)
    }
}

/// One output line: the row's elements in brackets.
pub open spec fn line_chars(row: Seq<i32>) -> Seq<char> {
    seq!['['] + row_chars(row) + seq![']']
}

/// The whole matrix: one line per row, joined by newlines.
pub open spec fn matrix_chars(m: Seq<Seq<i32>>) -> Seq<char>
    decreases m.len(),
{
    if m.len() == 0 {
        Seq::empty()
    } else if m.len() == 1 {
        line_chars(m[0])
    } else {
        matrix_chars(m.drop_last()) + seq!['\n'] + line_chars(m.last())
    }
}

/// Appends one decimal digit character.
fn push_digit(s: &mut String, d: u64)
    requires
        d < 10,
    ensures
        final(s)@ == old(s)@ + seq![digit_char(d as int)],
{
    proof {
        reveal_strlit("0");
        reveal_strlit("1");
        reveal_strlit("2");
        reveal_strlit("3");
        reveal_strlit("4");
        reveal_strlit("5");
        reveal_strlit("6");
        reveal_strlit("7");
        reveal_strlit("8");
        reveal_strlit("9");
    }
    let lit = if d == 0 {
        "0"
    } else if d == 1 {
        "1"
    } else if d == 2 {
        "2"
    } else if d == 3 {
        "3"
    } else if d == 4 {
        "4"
    } else if d == 5 {
        "5"
    } else if d == 6 {
        "6"
    } else if d == 7 {
        "7"
    } else if d == 8 {
        "8"
    } else {
        "9"
    };
    s.append(lit);
    proof {
        assert(s@ =~= old(s)@ + seq![digit_char(d as int)]);
    }
}

/// Appends the decimal digits of a non-negative number.
fn push_dec(s: &mut String, n: u64)
    ensures
        final(s)@ == old(s)@ + dec_chars(n as int),
    decreases n,
{
    if n >= 10 {
        push_dec(s, n / 10);
        push_digit(s, n % 10);
        proof {
            assert(s@ =~= old(s)@ + dec_chars(n as int));
        }
    } else {
        push_digit(s, n);
    }
}

/// Appends the decimal rendering of one element.
fn push_i32(s: &mut String, v: i32)
    ensures
        final(s)@ == old(s)@ + int_chars(v as int),
{
    let wide = v as i64;
    if wide < 0 {
        proof {
            reveal_strlit("-");
        }
        s.append("-");
        let mag = (-wide) as u64;
        push_dec(s, mag);
        proof {
            assert("-"@ =~= seq!['-']);
            assert(mag as int == -(v as int));
            assert(s@ =~= old(s)@ + int_chars(v as int));
        }
    } else {
        push_dec(s, v as u64);
    }
}

/// Appends one row as a bracketed, comma-joined line.
fn push_row_text(s: &mut String, row: &Vec<i32>)
    ensures
        final(s)@ == old(s)@ + line_chars(row@),
{
    proof {
        reveal_strlit("[");
        reveal_strlit("]");
        reveal_strlit(", ");
    }
    s.append("[");
    let len = row.len();
    for j in 0..len
        invariant
            len == row@.len(),
            s@ == old(s)@ + seq!['['] + row_chars(row@.subrange(0, j as int)),
    {
        proof {
            reveal_strlit(", ");
            lemma_row_chars_step(row@, j as int);
        }
        if j > 0 {
            s.append(", ");
        }
        push_i32(s, row[j]);
        proof {
            assert(s@ =~= old(s)@ + seq!['['] + row_chars(row@.subrange(0, j + 1)));
        }
    }
    s.append("]");
    proof {
        assert(row@.subrange(0, len as int) =~= row@);
        assert(s@ =~= old(s)@ + line_chars(row@));
    }
}

/// Extending a row prefix by one element appends a separator (after the
/// first element) and the element's rendering.
proof fn lemma_row_chars_step(row: Seq<i32>, j: int)
    requires
        0 <= j < row.len(),
    ensures
        j == 0 ==> row_chars(row.subrange(0, 1)) == int_chars(row[0] as int),
        j > 0 ==> row_chars(row.subrange(0, j + 1)) == row_chars(row.subrange(0, j)) + seq![
            ',',
            ' ',
        ] + int_chars(row[j] as int),
{
    assert(row.subrange(0, j + 1).drop_last() =~= row.subrange(0, j));
    assert(row.subrange(0, j + 1).last() == row[j]);
}

/// Extending a matrix prefix by one row appends a newline (after the first
/// row) and the row's line.
proof fn lemma_matrix_chars_step(m: Seq<Seq<i32>>, i: int)
    requires
        0 <= i < m.len(),
    ensures
        i == 0 ==> matrix_chars(m.subrange(0, 1)) == line_chars(m[0]),
        i > 0 ==> matrix_chars(m.subrange(0, i + 1)) == matrix_chars(m.subrange(0, i)) + seq![
            '\n',
        ] + line_chars(m[i]),
{
    assert(m.subrange(0, i + 1).drop_last() =~= m.subrange(0, i));
    assert(m.subrange(0, i + 1).last() == m[i]);
}

impl Matrix<i32> {
    /// The deterministic multi-line textual form of the matrix: one
    /// bracketed, comma-joined row per line, in row order.
    pub fn to_text(&self) -> (s: String)
        ensures
            s@ == matrix_chars(self@),
    {
        let mut s = String::new();
        let rows = self.rows();
        proof {
            assert(s@ =~= Seq::<char>::empty());
        }
        for i in 0..rows
            invariant
                rows == self@.len(),
                s@ == matrix_chars(self@.subrange(0, i as int)),
        {
            proof {
                reveal_strlit("\n");
                lemma_matrix_chars_step(self@, i as int);
            }
            if i > 0 {
                s.append("\n");
            }
            push_row_text(&mut s, self.row(i));
            proof {
                assert(s@ =~= matrix_chars(self@.subrange(0, i + 1)));
            }
        }
        proof {
            assert(self@.subrange(0, rows as int) =~= self@);
        }
        s
    }
}

} // verus!
