//! A shared in-place comparison sort over an abstract "sortable sequence of
//! positions".
//!
//! Any positional view (a plain vector, a matrix diagonal) implements the
//! [`Sort`] capability — a length, a position swap and a position compare —
//! and inherits the one bubble-sort routine written against those three
//! primitives.  The routine is the classic adjacent-swap bubble sort: each
//! pass compares neighbouring positions and swaps them when they compare
//! greater, which floats a maximum to the end of the shrinking window; a
//! swap-free pass means every adjacent pair is already in order, so the
//! early exit is sound and the best case is one linear pass.  The routine's
//! contract is exact — it returns precisely the sequence described by the
//! recursive model [`bubble_sort_spec`] — and on top of the model it
//! promises outright that the result is ordered by the comparator.

use core::cmp::Ordering;
use vstd::prelude::*;

use crate::matrix::vec_swap;

verus! {

/// A caller-supplied ordering: a decidable total preorder `le`, decided
/// elementwise by `compare`.
pub trait Comparator<T>: Sized {
    /// The order this comparator decides, as contracts see it.
    spec fn le(&self, a: T, b: T) -> bool;

    /// Of any two values, at least one is `le` the other.
    proof fn le_total(&self, a: T, b: T)
        ensures
            self.le(a, b) || self.le(b, a),
    ;

    /// The order is transitive.
    proof fn le_transitive(&self, a: T, b: T, c: T)
        requires
            self.le(a, b),
            self.le(b, c),
        ensures
            self.le(a, c),
    ;

    /// Decides the order of two values.
    fn compare(&self, a: &T, b: &T) -> (r: Ordering)
        ensures
            (r == Ordering::Greater) <==> !self.le(*a, *b),
            (r == Ordering::Less) <==> !self.le(*b, *a),
            (r == Ordering::Equal) <==> (self.le(*a, *b) && self.le(*b, *a)),
    ;
}

/// The comparator's order as a spec closure, for use in the sort model.
pub open spec fn le_fn<T, C: Comparator<T>>(cmp: &C) -> spec_fn(T, T) -> bool {
    |a: T, b: T| cmp.le(a, b)
}

/// `le` relates every pair of values one way or the other.
pub open spec fn total_on<A>(le: spec_fn(A, A) -> bool) -> bool {
    forall|a: A, b: A| #[trigger] le(a, b) || #[trigger] le(b, a)
}

/// `le` is transitive.
pub open spec fn transitive_on<A>(le: spec_fn(A, A) -> bool) -> bool {
    forall|a: A, b: A, c: A| #[trigger] le(a, b) && #[trigger] le(b, c) ==> le(a, c)
}

/// Every comparator's order is a total preorder.
pub proof fn lemma_comparator_order<T, C: Comparator<T>>(cmp: &C)
    ensures
        total_on(le_fn(cmp)),
        transitive_on(le_fn(cmp)),
{
    let le = le_fn::<T, C>(cmp);
    assert forall|a: T, b: T| #[trigger] le(a, b) || #[trigger] le(b, a) by {
        cmp.le_total(a, b);
    }
    assert forall|a: T, b: T, c: T| #[trigger] le(a, b) && #[trigger] le(b, c) implies le(
        a,
        c,
    ) by {
        cmp.le_transitive(a, b, c);
    }
}

/// A sequence with the values at positions `i` and `j` exchanged.
pub open spec fn seq_swap<A>(s: Seq<A>, i: int, j: int) -> Seq<A> {
    s.update(i, s[j]).update(j, s[i])
}

/// One pass of the sort over the window `[j, end)`: compare each pair of
/// neighbouring positions in turn and exchange them whenever the earlier
/// value is not `le` the later one.  Returns the resulting sequence and
/// whether any exchange happened.
pub open spec fn pass_spec<A>(s: Seq<A>, j: int, end: int, le: spec_fn(A, A) -> bool) -> (Seq<
    A,
>, bool)
    decreases end - j,
{
    if j < 0 || j + 1 >= end || end > s.len() {
        (s, false)
    } else {
        let hit = !le(s[j], s[j + 1]);
        let s1 = if hit {
            seq_swap(s, j, j + 1)
        } else {
            s
        };
        let rec = pass_spec(s1, j + 1, end, le);
        (rec.0, hit || rec.1)
    }
}

/// The sort with the window `[0, end)` left to settle: run one pass over
/// it, stop if the pass swapped nothing (every adjacent pair was in order),
/// otherwise continue with the window one shorter — the pass has floated a
/// maximum to its end.
pub open spec fn sort_from_spec<A>(s: Seq<A>, end: int, le: spec_fn(A, A) -> bool) -> Seq<A>
    decreases end,
{
    if end <= 1 || end > s.len() {
        s
    } else {
        let p = pass_spec(s, 0, end, le);
        if p.1 {
            sort_from_spec(p.0, end - 1, le)
        } else {
            p.0
        }
    }
}

/// The exact model of [`Sort::bubble_sort`].
pub open spec fn bubble_sort_spec<A>(s: Seq<A>, le: spec_fn(A, A) -> bool) -> Seq<A> {
    sort_from_spec(s, s.len() as int, le)
}

/// A pass never changes the length.
proof fn lemma_pass_len<A>(s: Seq<A>, j: int, end: int, le: spec_fn(A, A) -> bool)
    ensures
        pass_spec(s, j, end, le).0.len() == s.len(),
    decreases end - j,
{
    if 0 <= j && j + 1 < end && end <= s.len() {
        let s1 = if !le(s[j], s[j + 1]) {
            seq_swap(s, j, j + 1)
        } else {
            s
        };
        lemma_pass_len(s1, j + 1, end, le);
    }
}

/// A pass touches only the positions of its window `[j, end)`.
proof fn lemma_pass_frame<A>(s: Seq<A>, j: int, end: int, le: spec_fn(A, A) -> bool)
    ensures
        forall|p: int|
            0 <= p < s.len() && (p < j || end <= p) ==> pass_spec(s, j, end, le).0[p] == s[p],
    decreases end - j,
{
    if 0 <= j && j + 1 < end && end <= s.len() {
        let s1 = if !le(s[j], s[j + 1]) {
            seq_swap(s, j, j + 1)
        } else {
            s
        };
        lemma_pass_frame(s1, j + 1, end, le);
    }
}

/// The sort touches no position at or beyond its starting window end.
proof fn lemma_sort_from_frame<A>(s: Seq<A>, end: int, le: spec_fn(A, A) -> bool)
    ensures
        sort_from_spec(s, end, le).len() == s.len(),
        forall|p: int| end <= p < s.len() ==> sort_from_spec(s, end, le)[p] == s[p],
    decreases end,
{
    if 1 < end <= s.len() {
        let p = pass_spec(s, 0, end, le);
        lemma_pass_len(s, 0, end, le);
        lemma_pass_frame(s, 0, end, le);
        if p.1 {
            lemma_sort_from_frame(p.0, end - 1, le);
        }
    }
}

/// Exchanging two positions preserves the multiset of values.
proof fn lemma_seq_swap_multiset<A>(s: Seq<A>, i: int, j: int)
    requires
        0 <= i < s.len(),
        0 <= j < s.len(),
    ensures
        seq_swap(s, i, j).to_multiset() == s.to_multiset(),
{
    broadcast use vstd::seq_lib::to_multiset_update;
    broadcast use vstd::seq_lib::group_to_multiset_ensures;

    let t = s.update(i, s[j]);
    assert(s.contains(s[i]));
    assert(s.contains(s[j]));
    assert(t.to_multiset() == s.to_multiset().insert(s[j]).remove(s[i]));
    assert(t[j] == s[j]);
    assert(t.update(j, s[i]).to_multiset() == t.to_multiset().insert(s[i]).remove(s[j]));
    assert(seq_swap(s, i, j).to_multiset() =~= s.to_multiset());
}

/// A pass preserves the multiset of values.
proof fn lemma_pass_multiset<A>(s: Seq<A>, j: int, end: int, le: spec_fn(A, A) -> bool)
    ensures
        pass_spec(s, j, end, le).0.to_multiset() == s.to_multiset(),
    decreases end - j,
{
    if 0 <= j && j + 1 < end && end <= s.len() {
        if !le(s[j], s[j + 1]) {
            lemma_seq_swap_multiset(s, j, j + 1);
            lemma_pass_multiset(seq_swap(s, j, j + 1), j + 1, end, le);
        } else {
            lemma_pass_multiset(s, j + 1, end, le);
        }
    }
}

proof fn lemma_sort_from_multiset<A>(s: Seq<A>, end: int, le: spec_fn(A, A) -> bool)
    ensures
        sort_from_spec(s, end, le).to_multiset() == s.to_multiset(),
    decreases end,
{
    if 1 < end <= s.len() {
        let p = pass_spec(s, 0, end, le);
        lemma_pass_len(s, 0, end, le);
        lemma_pass_multiset(s, 0, end, le);
        if p.1 {
            lemma_sort_from_multiset(p.0, end - 1, le);
        }
    }
}

/// The sorted sequence holds exactly the values of the input: sorting only
/// permutes, it never loses, duplicates or invents an element.
pub proof fn lemma_bubble_sort_spec_permutes<A>(s: Seq<A>, le: spec_fn(A, A) -> bool)
    ensures
        bubble_sort_spec(s, le).len() == s.len(),
        bubble_sort_spec(s, le).to_multiset() == s.to_multiset(),
{
    lemma_sort_from_frame(s, s.len() as int, le);
    lemma_sort_from_multiset(s, s.len() as int, le);
}

/// If every adjacent pair of the window is already in order, the pass swaps
/// nothing and leaves the sequence unchanged.
proof fn lemma_pass_no_swap<A>(s: Seq<A>, j: int, end: int, le: spec_fn(A, A) -> bool)
    requires
        0 <= j,
        end <= s.len(),
        forall|k: int| j <= k && k + 1 < end ==> le(#[trigger] s[k], s[k + 1]),
    ensures
        pass_spec(s, j, end, le) == (s, false),
    decreases end - j,
{
    if j + 1 < end {
        lemma_pass_no_swap(s, j + 1, end, le);
    }
}

/// Conversely, a swap-free pass certifies that every adjacent pair of the
/// window was in order — the fact that makes the sort's early exit sound.
proof fn lemma_pass_no_swap_means_sorted<A>(s: Seq<A>, j: int, end: int, le: spec_fn(A, A) -> bool)
    requires
        0 <= j,
        end <= s.len(),
        !pass_spec(s, j, end, le).1,
    ensures
        pass_spec(s, j, end, le).0 == s,
        forall|k: int| j <= k && k + 1 < end ==> le(#[trigger] s[k], s[k + 1]),
    decreases end - j,
{
    if j + 1 < end {
        lemma_pass_no_swap_means_sorted(s, j + 1, end, le);
    }
}

/// A value that bounds the whole window from above still does after the
/// pass: a pass only permutes the window's values.
proof fn lemma_pass_upper_bound<A>(s: Seq<A>, j: int, end: int, le: spec_fn(A, A) -> bool, v: A)
    requires
        0 <= j,
        end <= s.len(),
        forall|k: int| j <= k < end ==> le(#[trigger] s[k], v),
    ensures
        forall|k: int| j <= k < end ==> le(#[trigger] pass_spec(s, j, end, le).0[k], v),
    decreases end - j,
{
    lemma_pass_len(s, j, end, le);
    if j + 1 < end {
        if !le(s[j], s[j + 1]) {
            let s1 = seq_swap(s, j, j + 1);
            assert forall|k: int| j + 1 <= k < end implies le(#[trigger] s1[k], v) by {
                if k != j + 1 {
                    assert(s1[k] == s[k]);
                }
            }
            lemma_pass_upper_bound(s1, j + 1, end, le, v);
            lemma_pass_frame(s1, j + 1, end, le);
            assert forall|k: int| j <= k < end implies le(
                #[trigger] pass_spec(s, j, end, le).0[k],
                v,
            ) by {
                assert(pass_spec(s, j, end, le).0 == pass_spec(s1, j + 1, end, le).0);
                if k == j {
                    assert(pass_spec(s1, j + 1, end, le).0[j] == s1[j]);
                } else {
                    assert(le(pass_spec(s1, j + 1, end, le).0[k], v));
                }
            }
        } else {
            lemma_pass_upper_bound(s, j + 1, end, le, v);
            lemma_pass_frame(s, j + 1, end, le);
            assert forall|k: int| j <= k < end implies le(
                #[trigger] pass_spec(s, j, end, le).0[k],
                v,
            ) by {
                assert(pass_spec(s, j, end, le).0 == pass_spec(s, j + 1, end, le).0);
                if k == j {
                    assert(pass_spec(s, j + 1, end, le).0[j] == s[j]);
                } else {
                    assert(le(pass_spec(s, j + 1, end, le).0[k], v));
                }
            }
        }
    }
}

/// A pass floats a maximum of the window to the window's last position:
/// afterwards every window value is `le` the value at `end - 1`.
proof fn lemma_pass_max<A>(s: Seq<A>, j: int, end: int, le: spec_fn(A, A) -> bool)
    requires
        total_on(le),
        transitive_on(le),
        0 <= j < end,
        end <= s.len(),
        forall|k: int| 0 <= k <= j ==> le(#[trigger] s[k], s[j]),
    ensures
        forall|k: int|
            0 <= k < end ==> le(
                #[trigger] pass_spec(s, j, end, le).0[k],
                pass_spec(s, j, end, le).0[end - 1],
            ),
    decreases end - j,
{
    lemma_pass_len(s, j, end, le);
    let p = pass_spec(s, j, end, le);
    if j + 1 >= end {
        assert forall|k: int| 0 <= k < end implies le(#[trigger] p.0[k], p.0[end - 1]) by {
            assert(le(s[k], s[j]));
        }
    } else {
        if !le(s[j], s[j + 1]) {
            let s1 = seq_swap(s, j, j + 1);
            assert(le(s[j + 1], s[j]));
            assert forall|k: int| 0 <= k <= j + 1 implies le(#[trigger] s1[k], s1[j + 1]) by {
                assert(s1[j + 1] == s[j]);
                if k < j {
                    assert(s1[k] == s[k]);
                } else if k == j {
                    assert(s1[j] == s[j + 1]);
                } else {
                    assert(le(s1[j + 1], s1[j + 1]));
                }
            }
            lemma_pass_max(s1, j + 1, end, le);
            assert(p.0 == pass_spec(s1, j + 1, end, le).0);
        } else {
            assert forall|k: int| 0 <= k <= j + 1 implies le(#[trigger] s[k], s[j + 1]) by {
                if k <= j {
                    assert(le(s[k], s[j]));
                } else {
                    assert(le(s[j + 1], s[j + 1]));
                }
            }
            lemma_pass_max(s, j + 1, end, le);
            assert(p.0 == pass_spec(s, j + 1, end, le).0);
        }
    }
}

/// Adjacent order within a window chains into pairwise order.
proof fn lemma_le_chain<A>(s: Seq<A>, a: int, b: int, end: int, le: spec_fn(A, A) -> bool)
    requires
        total_on(le),
        transitive_on(le),
        0 <= a <= b < end,
        end <= s.len(),
        forall|k: int| 0 <= k && k + 1 < end ==> le(#[trigger] s[k], s[k + 1]),
    ensures
        le(s[a], s[b]),
    decreases b - a,
{
    if a == b {
        assert(le(s[a], s[a]));
    } else {
        lemma_le_chain(s, a, b - 1, end, le);
        assert(le(s[b - 1], s[b]));
    }
}

/// The heart of the correctness argument: if everything at and beyond the
/// window end is already sorted and dominates the window, running the sort
/// on the window yields a fully sorted sequence — whether it ends by
/// exhausting the window or by a swap-free pass.
proof fn lemma_sort_from_sorted<A>(s: Seq<A>, end: int, le: spec_fn(A, A) -> bool)
    requires
        total_on(le),
        transitive_on(le),
        0 <= end <= s.len(),
        forall|a: int, b: int| end <= a <= b < s.len() ==> le(#[trigger] s[a], #[trigger] s[b]),
        forall|a: int, b: int|
            0 <= a < end && end <= b < s.len() ==> le(#[trigger] s[a], #[trigger] s[b]),
    ensures
        forall|a: int, b: int|
            0 <= a <= b < s.len() ==> le(
                #[trigger] sort_from_spec(s, end, le)[a],
                #[trigger] sort_from_spec(s, end, le)[b],
            ),
    decreases end,
{
    let r = sort_from_spec(s, end, le);
    if end <= 1 {
        assert(r == s);
        assert forall|a: int, b: int| 0 <= a <= b < s.len() implies le(
            #[trigger] r[a],
            #[trigger] r[b],
        ) by {
            if b < end {
                assert(le(s[a], s[a]));
            } else if a < end {
                assert(le(s[a], s[b]));
            } else {
                assert(le(s[a], s[b]));
            }
        }
    } else {
        let p = pass_spec(s, 0, end, le);
        lemma_pass_len(s, 0, end, le);
        lemma_pass_frame(s, 0, end, le);
        assert(le(s[0], s[0]));
        lemma_pass_max(s, 0, end, le);
        if p.1 {
            assert forall|a: int, b: int| end - 1 <= a <= b < s.len() implies le(
                #[trigger] p.0[a],
                #[trigger] p.0[b],
            ) by {
                if a >= end {
                    assert(p.0[a] == s[a] && p.0[b] == s[b]);
                } else if b == a {
                    assert(le(p.0[a], p.0[a]));
                } else if b == end - 1 {
                    assert(le(p.0[a], p.0[end - 1]));
                } else {
                    // a == end - 1 < end <= b: the window's values were all
                    // dominated by s[b], and the pass only permutes them.
                    lemma_pass_upper_bound(s, 0, end, le, s[b]);
                    assert(p.0[b] == s[b]);
                }
            }
            assert forall|a: int, b: int|
                0 <= a < end - 1 && end - 1 <= b < s.len() implies le(
                #[trigger] p.0[a],
                #[trigger] p.0[b],
            ) by {
                if b == end - 1 {
                    assert(le(p.0[a], p.0[end - 1]));
                } else {
                    lemma_pass_upper_bound(s, 0, end, le, s[b]);
                    assert(p.0[b] == s[b]);
                }
            }
            lemma_sort_from_sorted(p.0, end - 1, le);
            assert(r == sort_from_spec(p.0, end - 1, le));
        } else {
            lemma_pass_no_swap_means_sorted(s, 0, end, le);
            assert(r == s);
            assert forall|a: int, b: int| 0 <= a <= b < s.len() implies le(
                #[trigger] r[a],
                #[trigger] r[b],
            ) by {
                if b < end {
                    lemma_le_chain(s, a, b, end, le);
                } else if a < end {
                    assert(le(s[a], s[b]));
                } else {
                    assert(le(s[a], s[b]));
                }
            }
        }
    }
}

/// The sort sorts: the result reads ordered by `le` from front to back.
pub proof fn lemma_bubble_sort_spec_sorted<A>(s: Seq<A>, le: spec_fn(A, A) -> bool)
    requires
        total_on(le),
        transitive_on(le),
    ensures
        forall|a: int, b: int|
            0 <= a <= b < s.len() ==> le(
                #[trigger] bubble_sort_spec(s, le)[a],
                #[trigger] bubble_sort_spec(s, le)[b],
            ),
{
    lemma_sort_from_frame(s, s.len() as int, le);
    lemma_sort_from_sorted(s, s.len() as int, le);
}

/// A sequence already ordered by `le` is a fixed point of the sort: the
/// first pass performs no swap, and the sort stops at once.
pub proof fn lemma_bubble_sort_spec_sorted_input<A>(s: Seq<A>, le: spec_fn(A, A) -> bool)
    requires
        forall|a: int, b: int| 0 <= a <= b < s.len() ==> le(#[trigger] s[a], #[trigger] s[b]),
    ensures
        bubble_sort_spec(s, le) == s,
{
    if s.len() > 1 {
        assert forall|k: int| 0 <= k && k + 1 < s.len() implies le(#[trigger] s[k], s[k + 1]) by {
            assert(le(s[k], s[k + 1]));
        }
        lemma_pass_no_swap(s, 0, s.len() as int, le);
    }
}

/// Sorting is idempotent: the sort's own output is ordered, and ordered
/// input is left untouched, so running the sort again changes nothing.
pub proof fn lemma_bubble_sort_spec_idempotent<A>(s: Seq<A>, le: spec_fn(A, A) -> bool)
    requires
        total_on(le),
        transitive_on(le),
    ensures
        bubble_sort_spec(bubble_sort_spec(s, le), le) == bubble_sort_spec(s, le),
{
    let r = bubble_sort_spec(s, le);
    lemma_sort_from_frame(s, s.len() as int, le);
    lemma_bubble_sort_spec_sorted(s, le);
    lemma_bubble_sort_spec_sorted_input(r, le);
}

/// A pass commutes with mapping the elements, whenever the two orders agree
/// through the map.
proof fn lemma_pass_map<A, B>(
    s: Seq<A>,
    j: int,
    end: int,
    f: spec_fn(A) -> B,
    le_a: spec_fn(A, A) -> bool,
    le_b: spec_fn(B, B) -> bool,
)
    requires
        forall|x: A, y: A| #[trigger] le_a(x, y) == le_b(f(x), f(y)),
    ensures
        pass_spec(s.map_values(f), j, end, le_b).0 == pass_spec(s, j, end, le_a).0.map_values(f),
        pass_spec(s.map_values(f), j, end, le_b).1 == pass_spec(s, j, end, le_a).1,
    decreases end - j,
{
    let sm = s.map_values(f);
    assert(sm.len() == s.len());
    if 0 <= j && j + 1 < end && end <= s.len() {
        assert(sm[j] == f(s[j]) && sm[j + 1] == f(s[j + 1]));
        if !le_a(s[j], s[j + 1]) {
            assert(seq_swap(sm, j, j + 1) =~= seq_swap(s, j, j + 1).map_values(f));
            lemma_pass_map(seq_swap(s, j, j + 1), j + 1, end, f, le_a, le_b);
        } else {
            lemma_pass_map(s, j + 1, end, f, le_a, le_b);
        }
    }
}

proof fn lemma_sort_from_map<A, B>(
    s: Seq<A>,
    end: int,
    f: spec_fn(A) -> B,
    le_a: spec_fn(A, A) -> bool,
    le_b: spec_fn(B, B) -> bool,
)
    requires
        forall|x: A, y: A| #[trigger] le_a(x, y) == le_b(f(x), f(y)),
    ensures
        sort_from_spec(s.map_values(f), end, le_b) == sort_from_spec(s, end, le_a).map_values(f),
    decreases end,
{
    let sm = s.map_values(f);
    assert(sm.len() == s.len());
    if 1 < end <= s.len() {
        let p = pass_spec(s, 0, end, le_a);
        lemma_pass_len(s, 0, end, le_a);
        lemma_pass_map(s, 0, end, f, le_a, le_b);
        if p.1 {
            lemma_sort_from_map(p.0, end - 1, f, le_a, le_b);
        }
    }
}

/// The sort commutes with mapping the elements, whenever the two orders
/// agree through the map: sorting values and sorting their images give the
/// same arrangement.
pub proof fn lemma_bubble_sort_spec_map<A, B>(
    s: Seq<A>,
    f: spec_fn(A) -> B,
    le_a: spec_fn(A, A) -> bool,
    le_b: spec_fn(B, B) -> bool,
)
    requires
        forall|x: A, y: A| #[trigger] le_a(x, y) == le_b(f(x), f(y)),
    ensures
        bubble_sort_spec(s.map_values(f), le_b) == bubble_sort_spec(s, le_a).map_values(f),
{
    assert(s.map_values(f).len() == s.len());
    lemma_sort_from_map(s, s.len() as int, f, le_a, le_b);
}

/// A capability contract for any ordered collection of sortable positions:
/// a length, a position swap and a position compare, over which the shared
/// [`Sort::bubble_sort`] routine is written once.
pub trait Sort: Sized {
    /// The type of the sortable elements.
    type SortedItem;

    /// Well-formedness of the backing state.
    spec fn wf(&self) -> bool;

    /// The logical sequence of sortable elements the view exposes.
    spec fn logical(&self) -> Seq<Self::SortedItem>;

    /// Agreement of everything the logical sequence does not cover, so that
    /// sorting can promise to disturb nothing else.
    spec fn same_outside(&self, other: &Self) -> bool;

    proof fn same_outside_refl(&self)
        ensures
            self.same_outside(self),
    ;

    proof fn same_outside_trans(&self, mid: &Self, first: &Self)
        requires
            self.same_outside(mid),
            mid.same_outside(first),
        ensures
            self.same_outside(first),
    ;

    /// The number of sortable positions.
    fn len(&self) -> (n: usize)
        requires
            self.wf(),
        ensures
            n == self.logical().len(),
    ;

    /// Exchanges the logical elements at positions `a` and `b`.
    fn swap(&mut self, a: usize, b: usize)
        requires
            old(self).wf(),
            a < old(self).logical().len(),
            b < old(self).logical().len(),
        ensures
            final(self).wf(),
            final(self).logical() == seq_swap(old(self).logical(), a as int, b as int),
            final(self).same_outside(old(self)),
    ;

    /// Applies the comparator to the logical elements at `a` and `b` and
    /// returns exactly the ordering it decides.
    fn cmp_by<C: Comparator<Self::SortedItem>>(&self, a: usize, b: usize, cmp: &C) -> (r:
        Ordering)
        requires
            self.wf(),
            a < self.logical().len(),
            b < self.logical().len(),
        ensures
            (r == Ordering::Greater) <==> !cmp.le(
                self.logical()[a as int],
                self.logical()[b as int],
            ),
            (r == Ordering::Less) <==> !cmp.le(
                self.logical()[b as int],
                self.logical()[a as int],
            ),
            (r == Ordering::Equal) <==> (cmp.le(self.logical()[a as int], self.logical()[b as int])
                && cmp.le(self.logical()[b as int], self.logical()[a as int])),
    ;

    /// Sorts the logical sequence in place by the given comparator: passes
    /// of adjacent compare-and-swap float a maximum to the end of a
    /// shrinking window, and the sort stops early as soon as a whole pass
    /// swaps nothing.  The result is exactly [`bubble_sort_spec`] of the
    /// input — in particular a permutation of it, ordered by the
    /// comparator — and nothing outside the logical sequence is disturbed.
    fn bubble_sort<C: Comparator<Self::SortedItem>>(&mut self, cmp: &C)
        requires
            old(self).wf(),
        ensures
            final(self).wf(),
            final(self).logical() == bubble_sort_spec(old(self).logical(), le_fn(cmp)),
            final(self).same_outside(old(self)),
            forall|a: int, b: int|
                0 <= a <= b < final(self).logical().len() ==> cmp.le(
                    #[trigger] final(self).logical()[a],
                    #[trigger] final(self).logical()[b],
                ),
    {
        let ghost le = le_fn::<Self::SortedItem, C>(cmp);
        let ghost orig = *self;
        proof {
            self.same_outside_refl();
        }
        let len = self.len();
        let mut end = len;
        while end > 1
            invariant_except_break
                le == le_fn::<Self::SortedItem, C>(cmp),
                self.wf(),
                end <= len,
                len == self.logical().len(),
                orig.logical().len() == len,
                self.same_outside(&orig),
                sort_from_spec(self.logical(), end as int, le) == bubble_sort_spec(
                    orig.logical(),
                    le,
                ),
            ensures
                self.wf(),
                self.same_outside(&orig),
                self.logical() == bubble_sort_spec(orig.logical(), le),
            decreases end,
        {
            let ghost s_pass = self.logical();
            let mut swapped = false;
            let mut j: usize = 0;
            while j + 1 < end
                invariant
                    le == le_fn::<Self::SortedItem, C>(cmp),
                    self.wf(),
                    1 < end <= len,
                    j + 1 <= end,
                    len == self.logical().len(),
                    s_pass.len() == len,
                    self.same_outside(&orig),
                    pass_spec(s_pass, 0, end as int, le).0 == pass_spec(
                        self.logical(),
                        j as int,
                        end as int,
                        le,
                    ).0,
                    pass_spec(s_pass, 0, end as int, le).1 == (swapped || pass_spec(
                        self.logical(),
                        j as int,
                        end as int,
                        le,
                    ).1),
                decreases end - j,
            {
                let ord = self.cmp_by(j, j + 1, cmp);
                match ord {
                    Ordering::Greater => {
                        let ghost prev = *self;
                        self.swap(j, j + 1);
                        swapped = true;
                        proof {
                            self.same_outside_trans(&prev, &orig);
                            let pl = prev.logical();
                            let cur = self.logical();
                            assert(!le(pl[j as int], pl[j as int + 1])) by {
                                assert(!cmp.le(pl[j as int], pl[j as int + 1]));
                            }
                            assert(cur == seq_swap(pl, j as int, j as int + 1));
                            assert(pass_spec(pl, j as int, end as int, le).0 == pass_spec(
                                cur,
                                j as int + 1,
                                end as int,
                                le,
                            ).0);
                            assert(pass_spec(pl, j as int, end as int, le).1);
                        }
                    },
                    _ => {
                        proof {
                            let cur = self.logical();
                            assert(le(cur[j as int], cur[j as int + 1]));
                            assert(pass_spec(cur, j as int, end as int, le).0 == pass_spec(
                                cur,
                                j as int + 1,
                                end as int,
                                le,
                            ).0);
                            assert(pass_spec(cur, j as int, end as int, le).1 == pass_spec(
                                cur,
                                j as int + 1,
                                end as int,
                                le,
                            ).1);
                        }
                    },
                }
                j = j + 1;
            }
            proof {
                assert(pass_spec(s_pass, 0, end as int, le).0 == self.logical());
                assert(pass_spec(s_pass, 0, end as int, le).1 == swapped);
            }
            if !swapped {
                break ;
            }
            end = end - 1;
        }
        proof {
            lemma_comparator_order(cmp);
            lemma_bubble_sort_spec_permutes(orig.logical(), le);
            lemma_bubble_sort_spec_sorted(orig.logical(), le);
            assert forall|a: int, b: int| 0 <= a <= b < self.logical().len() implies cmp.le(
                #[trigger] self.logical()[a],
                #[trigger] self.logical()[b],
            ) by {
                assert(le(
                    bubble_sort_spec(orig.logical(), le)[a],
                    bubble_sort_spec(orig.logical(), le)[b],
                ));
            }
        }
    }
}

/// A plain vector is itself a sortable sequence: positions are indices and
/// a swap is a direct element swap.
impl<T> Sort for Vec<T> {
    type SortedItem = T;

    open spec fn wf(&self) -> bool {
        true
    }

    open spec fn logical(&self) -> Seq<T> {
        self@
    }

    open spec fn same_outside(&self, other: &Self) -> bool {
        true
    }

    proof fn same_outside_refl(&self) {
    }

    proof fn same_outside_trans(&self, mid: &Self, first: &Self) {
    }

    fn len(&self) -> (n: usize) {
        let v: &Vec<T> = self;
        v.len()
    }

    fn swap(&mut self, a: usize, b: usize) {
        vec_swap(self, a, b);
        proof {
            assert(self@ =~= seq_swap(old(self)@, a as int, b as int));
        }
    }

    fn cmp_by<C: Comparator<T>>(&self, a: usize, b: usize, cmp: &C) -> (r: Ordering) {
        cmp.compare(&self[a], &self[b])
    }
}

} // verus!
