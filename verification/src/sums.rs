//! Finite sums of natural-valued functions over integer ranges, with the
//! handful of algebraic facts the schedule-cost proofs rely on.
use vstd::prelude::*;

verus! {

/// Sum of `f(lo) + f(lo + 1) + ... + f(hi - 1)`; zero when the range is empty.
pub open spec fn sum_over(lo: int, hi: int, f: spec_fn(int) -> nat) -> nat
    decreases hi - lo,
{
    if hi <= lo {
        0
    } else {
        f(lo) + sum_over(lo + 1, hi, f)
    }
}

/// A sum splits at any point inside the range.
pub proof fn lemma_sum_split(lo: int, mid: int, hi: int, f: spec_fn(int) -> nat)
    requires
        lo <= mid <= hi,
    ensures
        sum_over(lo, hi, f) == sum_over(lo, mid, f) + sum_over(mid, hi, f),
    decreases mid - lo,
{
    if lo < mid {
        lemma_sum_split(lo + 1, mid, hi, f);
    }
}

/// Functions that agree on the range have the same sum.
pub proof fn lemma_sum_congruence(lo: int, hi: int, f: spec_fn(int) -> nat, g: spec_fn(int) -> nat)
    requires
        forall|i: int| lo <= i < hi ==> #[trigger] f(i) == g(i),
    ensures
        sum_over(lo, hi, f) == sum_over(lo, hi, g),
    decreases hi - lo,
{
    if lo < hi {
        lemma_sum_congruence(lo + 1, hi, f, g);
    }
}

/// A sum of terms bounded by a constant is bounded by the range length times it.
pub proof fn lemma_sum_const_bound(lo: int, hi: int, f: spec_fn(int) -> nat, c: nat)
    requires
        forall|i: int| lo <= i < hi ==> #[trigger] f(i) <= c,
    ensures
        sum_over(lo, hi, f) <= (if hi <= lo { 0 } else { (hi - lo) as nat }) * c,
    decreases hi - lo,
{
    if lo < hi {
        lemma_sum_const_bound(lo + 1, hi, f, c);
        assert((hi - lo) as nat * c == c + (hi - lo - 1) as nat * c) by (nonlinear_arith)
            requires
                lo < hi,
        ;
    }
}

/// Pointwise dominated terms give a dominated sum.
pub proof fn lemma_sum_le(lo: int, hi: int, f: spec_fn(int) -> nat, g: spec_fn(int) -> nat)
    requires
        forall|i: int| lo <= i < hi ==> #[trigger] f(i) <= #[trigger] g(i),
    ensures
        sum_over(lo, hi, f) <= sum_over(lo, hi, g),
    decreases hi - lo,
{
    if lo < hi {
        lemma_sum_le(lo + 1, hi, f, g);
    }
}

/// Every term is at most the whole sum.
pub proof fn lemma_sum_term_le(lo: int, hi: int, f: spec_fn(int) -> nat, k: int)
    requires
        lo <= k < hi,
    ensures
        f(k) <= sum_over(lo, hi, f),
{
    lemma_sum_split(lo, k, hi, f);
    assert(sum_over(k, hi, f) == f(k) + sum_over(k + 1, hi, f));
}

/// A positive sum has a positive term.
pub proof fn lemma_sum_pos(lo: int, hi: int, f: spec_fn(int) -> nat) -> (k: int)
    requires
        sum_over(lo, hi, f) > 0,
    ensures
        lo <= k < hi,
        f(k) > 0,
    decreases hi - lo,
{
    if f(lo) > 0 {
        lo
    } else {
        lemma_sum_pos(lo + 1, hi, f)
    }
}

/// Changing one term changes the sum by the difference of that term.
pub proof fn lemma_sum_one_point(
    lo: int,
    hi: int,
    f: spec_fn(int) -> nat,
    g: spec_fn(int) -> nat,
    k: int,
)
    requires
        lo <= k < hi,
        forall|i: int| lo <= i < hi && i != k ==> #[trigger] f(i) == #[trigger] g(i),
    ensures
        sum_over(lo, hi, g) + f(k) == sum_over(lo, hi, f) + g(k),
{
    lemma_sum_split(lo, k, hi, f);
    lemma_sum_split(lo, k, hi, g);
    lemma_sum_congruence(lo, k, f, g);
    lemma_sum_congruence(k + 1, hi, f, g);
    assert(sum_over(k, hi, f) == f(k) + sum_over(k + 1, hi, f));
    assert(sum_over(k, hi, g) == g(k) + sum_over(k + 1, hi, g));
}

/// A common factor moves out of the sum.
pub proof fn lemma_sum_scale(lo: int, hi: int, f: spec_fn(int) -> nat, g: spec_fn(int) -> nat, c: nat)
    requires
        forall|i: int| lo <= i < hi ==> #[trigger] g(i) == f(i) * c,
    ensures
        sum_over(lo, hi, g) == sum_over(lo, hi, f) * c,
    decreases hi - lo,
{
    if lo < hi {
        lemma_sum_scale(lo + 1, hi, f, g, c);
        assert(sum_over(lo, hi, g) == g(lo) + sum_over(lo + 1, hi, g));
        assert(sum_over(lo, hi, f) == f(lo) + sum_over(lo + 1, hi, f));
        assert(g(lo) == f(lo) * c);
        let x = f(lo);
        let y = sum_over(lo + 1, hi, f);
        assert((x + y) * c == x * c + y * c) by (nonlinear_arith);
        assert(sum_over(lo, hi, g) == (x + y) * c);
        assert(sum_over(lo, hi, g) == sum_over(lo, hi, f) * c);
    } else {
        assert(sum_over(lo, hi, g) == 0);
        assert(sum_over(lo, hi, f) == 0);
        assert(sum_over(lo, hi, g) == sum_over(lo, hi, f) * c);
    }
}

/// The order of summation over a rectangle can be exchanged.
pub proof fn lemma_sum_exchange(
    a: int,
    b: int,
    g: spec_fn(int, int) -> nat,
    rows: spec_fn(int) -> nat,
    cols: spec_fn(int) -> nat,
)
    requires
        forall|i: int| 0 <= i < a ==> #[trigger] rows(i) == sum_over(0, b, |j: int| g(i, j)),
        forall|j: int| 0 <= j < b ==> #[trigger] cols(j) == sum_over(0, a, |i: int| g(i, j)),
    ensures
        sum_over(0, a, rows) == sum_over(0, b, cols),
    decreases a,
{
    if a <= 0 {
        lemma_sum_congruence(0, b, cols, |j: int| 0nat);
        lemma_sum_const_bound(0, b, |j: int| 0nat, 0);
    } else {
        let rows_short = |i: int| sum_over(0, b, |j: int| g(i, j));
        let cols_short = |j: int| sum_over(0, a - 1, |i: int| g(i, j));
        lemma_sum_exchange(a - 1, b, g, rows_short, cols_short);
        lemma_sum_congruence(0, a - 1, rows, rows_short);
        lemma_sum_split(0, a - 1, a, rows);
        assert(sum_over(a - 1, a, rows) == rows(a - 1) + sum_over(a, a, rows));
        // Adding the last row adds g(a - 1, j) to each column sum.
        assert forall|j: int| 0 <= j < b implies #[trigger] cols(j) == cols_short(j) + g(a - 1, j) by {
            let f = |i: int| g(i, j);
            lemma_sum_split(0, a - 1, a, f);
            assert(sum_over(a - 1, a, f) == f(a - 1) + sum_over(a, a, f));
        }
        lemma_sum_add(0, b, cols_short, |j: int| g(a - 1, j), cols);
        assert(rows(a - 1) == sum_over(0, b, |j: int| g(a - 1, j)));
    }
}

/// Sums add pointwise.
pub proof fn lemma_sum_add(
    lo: int,
    hi: int,
    f: spec_fn(int) -> nat,
    g: spec_fn(int) -> nat,
    h: spec_fn(int) -> nat,
)
    requires
        forall|i: int| lo <= i < hi ==> #[trigger] h(i) == f(i) + g(i),
    ensures
        sum_over(lo, hi, h) == sum_over(lo, hi, f) + sum_over(lo, hi, g),
    decreases hi - lo,
{
    if lo < hi {
        lemma_sum_add(lo + 1, hi, f, g, h);
    }
}

/// Sums are invariant under shifting the index range.
pub proof fn lemma_sum_shift(lo: int, hi: int, f: spec_fn(int) -> nat, g: spec_fn(int) -> nat, d: int)
    requires
        forall|i: int| lo <= i < hi ==> #[trigger] g(i) == f(i + d),
    ensures
        sum_over(lo, hi, g) == sum_over(lo + d, hi + d, f),
    decreases hi - lo,
{
    if lo < hi {
        lemma_sum_shift(lo + 1, hi, f, g, d);
    }
}

} // verus!
