//! Finite sums of integer-valued functions, and how they split, shift and scale.

use vstd::arithmetic::div_mod::*;
use vstd::prelude::*;

verus! {

/// The sum of `g(u)` over `lo <= u < hi`.
pub open spec fn sum_over(g: spec_fn(int) -> int, lo: int, hi: int) -> int
    decreases hi - lo,
{
    if hi <= lo {
        0
    } else {
        sum_over(g, lo, hi - 1) + g(hi - 1)
    }
}

/// A sum over a range is the sum over its two parts.
pub proof fn lemma_sum_split(g: spec_fn(int) -> int, lo: int, mid: int, hi: int)
    requires
        lo <= mid <= hi,
    ensures
        sum_over(g, lo, hi) == sum_over(g, lo, mid) + sum_over(g, mid, hi),
    decreases hi - mid,
{
    if hi > mid {
        lemma_sum_split(g, lo, mid, hi - 1);
    }
}

/// Where `g(u)` is `first(u)` plus `d` times `second(u + c)` on a range, the sum of
/// `g` is the sum of `first` plus `d` times the sum of `second` over the range
/// moved by `c`.
pub proof fn lemma_sum_linear(
    g: spec_fn(int) -> int,
    first: spec_fn(int) -> int,
    second: spec_fn(int) -> int,
    lo: int,
    hi: int,
    c: int,
    d: int,
)
    requires
        forall|u: int| lo <= u < hi ==> #[trigger] g(u) == first(u) + d * second(u + c),
    ensures
        sum_over(g, lo, hi) == sum_over(first, lo, hi) + d * sum_over(second, lo + c, hi + c),
    decreases hi - lo,
{
    if hi <= lo {
        assert(d * 0 == 0) by (nonlinear_arith);
    } else {
        lemma_sum_linear(g, first, second, lo, hi - 1, c, d);
        let rest = sum_over(second, lo + c, hi - 1 + c);
        let last = second(hi - 1 + c);
        assert(d * (rest + last) == d * rest + d * last) by (nonlinear_arith);
    }
}

/// Where `g(u)` is `d` times `h(u + c)` on a range, the sum of `g` is `d` times the
/// sum of `h` over the range moved by `c`.
pub proof fn lemma_sum_scaled_shift(
    g: spec_fn(int) -> int,
    h: spec_fn(int) -> int,
    lo: int,
    hi: int,
    c: int,
    d: int,
)
    requires
        forall|u: int| lo <= u < hi ==> #[trigger] g(u) == d * h(u + c),
    ensures
        sum_over(g, lo, hi) == d * sum_over(h, lo + c, hi + c),
    decreases hi - lo,
{
    if hi <= lo {
        assert(d * 0 == 0) by (nonlinear_arith);
    } else {
        lemma_sum_scaled_shift(g, h, lo, hi - 1, c, d);
        let rest = sum_over(h, lo + c, hi - 1 + c);
        let last = h(hi - 1 + c);
        assert(d * (rest + last) == d * rest + d * last) by (nonlinear_arith);
    }
}

/// Sums of functions that are congruent on a range are congruent.
pub proof fn lemma_sum_congruent(
    g: spec_fn(int) -> int,
    h: spec_fn(int) -> int,
    lo: int,
    hi: int,
    m: int,
)
    requires
        m > 0,
        forall|u: int| lo <= u < hi ==> (#[trigger] g(u)) % m == h(u) % m,
    ensures
        sum_over(g, lo, hi) % m == sum_over(h, lo, hi) % m,
    decreases hi - lo,
{
    if hi > lo {
        lemma_sum_congruent(g, h, lo, hi - 1, m);
        lemma_add_mod_noop(sum_over(g, lo, hi - 1), g(hi - 1), m);
        lemma_add_mod_noop(sum_over(h, lo, hi - 1), h(hi - 1), m);
    }
}

/// The sum of a function that is zero on a range is zero.
pub proof fn lemma_sum_zero(g: spec_fn(int) -> int, lo: int, hi: int)
    requires
        forall|u: int| lo <= u < hi ==> #[trigger] g(u) == 0,
    ensures
        sum_over(g, lo, hi) == 0,
    decreases hi - lo,
{
    if hi > lo {
        lemma_sum_zero(g, lo, hi - 1);
    }
}

} // verus!
