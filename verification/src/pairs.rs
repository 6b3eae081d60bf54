//! The canonical upper-triangular order on index pairs, and small facts
//! about filtering and mapping sequences, shared by the graph builders.
//!
//! Both builders compare every unordered pair of rows exactly once, outer
//! index `a` ascending, inner index `b` running from `a + 1` upward. The
//! sequences here name the pairs visited, so that a builder's loop
//! invariant can say exactly which edges exist after any step.

use vstd::prelude::*;

verus! {

/// The pairs `(a, a+1), (a, a+2), ..., (a, hi-1)`: one row of the
/// upper-triangular iteration, cut off at `hi`.
pub open spec fn row_pairs(a: int, hi: int) -> Seq<(int, int)>
    decreases hi - a,
{
    if hi <= a + 1 {
        Seq::empty()
    } else {
        row_pairs(a, hi - 1).push((a, hi - 1))
    }
}

/// All rows below `a`, complete to `n`, in order.
pub open spec fn rows_below(n: int, a: int) -> Seq<(int, int)>
    decreases a,
{
    if a <= 0 {
        Seq::empty()
    } else {
        rows_below(n, a - 1) + row_pairs(a - 1, n)
    }
}

/// Every unordered pair of indices below `n`, in iteration order.
pub open spec fn tri_pairs(n: int) -> Seq<(int, int)> {
    rows_below(n, n)
}

/// Each element of `row_pairs(a, hi)` is a pair `(a, b)` with
/// `a < b < hi`, and the row holds `hi - a - 1` pairs when `hi > a`.
pub proof fn lemma_row_pairs_elems(a: int, hi: int)
    ensures
        hi > a ==> row_pairs(a, hi).len() == hi - a - 1,
        hi <= a ==> row_pairs(a, hi).len() == 0,
        forall|k: int|
            0 <= k < row_pairs(a, hi).len() ==> (#[trigger] row_pairs(a, hi)[k]) == (a, a + 1 + k),
    decreases hi - a,
{
    if hi > a + 1 {
        lemma_row_pairs_elems(a, hi - 1);
    }
}

/// Each element of `rows_below(n, a)` is a pair `(x, y)` with
/// `0 <= x < a` and `x < y < n`.
pub proof fn lemma_rows_below_elems(n: int, a: int)
    requires
        0 <= a <= n,
    ensures
        forall|k: int|
            0 <= k < rows_below(n, a).len() ==> {
                let p = #[trigger] rows_below(n, a)[k];
                0 <= p.0 < a && p.0 < p.1 < n
            },
        rows_below(n, a).len() <= a * n,
    decreases a,
{
    if a > 0 {
        lemma_rows_below_elems(n, a - 1);
        lemma_row_pairs_elems(a - 1, n);
        assert((a - 1) * n + n == a * n) by (nonlinear_arith);
    }
}

/// A row holds each of its pairs.
pub proof fn lemma_row_pairs_contains(a: int, hi: int, b: int)
    requires
        a < b < hi,
    ensures
        row_pairs(a, hi).contains((a, b)),
    decreases hi - b,
{
    if b == hi - 1 {
        assert(row_pairs(a, hi).last() == (a, b));
    } else {
        lemma_row_pairs_contains(a, hi - 1, b);
        let k = choose|k: int|
            0 <= k < row_pairs(a, hi - 1).len() && #[trigger] row_pairs(a, hi - 1)[k] == (a, b);
        assert(row_pairs(a, hi)[k] == (a, b));
    }
}

/// The triangular iteration reaches every pair below its bound.
pub proof fn lemma_rows_below_contains(n: int, a: int, i: int, j: int)
    requires
        0 <= i < a <= n,
        i < j < n,
    ensures
        rows_below(n, a).contains((i, j)),
    decreases a,
{
    if i == a - 1 {
        lemma_row_pairs_contains(i, n, j);
        let k = choose|k: int|
            0 <= k < row_pairs(i, n).len() && #[trigger] row_pairs(i, n)[k] == (i, j);
        assert(rows_below(n, a)[rows_below(n, a - 1).len() + k] == (i, j));
    } else {
        lemma_rows_below_contains(n, a - 1, i, j);
        let k = choose|k: int|
            0 <= k < rows_below(n, a - 1).len() && #[trigger] rows_below(n, a - 1)[k] == (i, j);
        assert(rows_below(n, a)[k] == (i, j));
    }
}

/// Appending one element and filtering: the element stays exactly when it
/// satisfies the predicate.
pub proof fn lemma_filter_push<A>(s: Seq<A>, x: A, p: spec_fn(A) -> bool)
    ensures
        p(x) ==> s.push(x).filter(p) == s.filter(p).push(x),
        !p(x) ==> s.push(x).filter(p) == s.filter(p),
{
    reveal(Seq::filter);
    assert(s.push(x).drop_last() =~= s);
    assert(s.push(x).last() == x);
}

/// Appending one element and mapping values commute.
pub proof fn lemma_map_values_push<A, B>(s: Seq<A>, x: A, f: spec_fn(A) -> B)
    ensures
        s.push(x).map_values(f) == s.map_values(f).push(f(x)),
{
    assert(s.push(x).map_values(f) =~= s.map_values(f).push(f(x)));
}

/// Filtering by a stronger predicate never yields a longer sequence.
pub proof fn lemma_filter_stronger_len<A>(s: Seq<A>, p: spec_fn(A) -> bool, q: spec_fn(A) -> bool)
    requires
        forall|x: A| #[trigger] p(x) ==> q(x),
    ensures
        s.filter(p).len() <= s.filter(q).len(),
    decreases s.len(),
{
    reveal(Seq::filter);
    if s.len() > 0 {
        lemma_filter_stronger_len(s.drop_last(), p, q);
    }
}

} // verus!
