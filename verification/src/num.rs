//! Fixed-point arithmetic helpers: division with rounding to the nearest
//! integer (ties away from zero) and an integer square root.
use vstd::arithmetic::div_mod::{lemma_div_is_ordered, lemma_fundamental_div_mod_converse};
use vstd::prelude::*;

verus! {

/// Quotient `n / d` rounded to the nearest integer, ties away from zero.
pub open spec fn round_div(n: int, d: int) -> int
    recommends
        0 < d,
{
    if n >= 0 {
        (2 * n + d) / (2 * d)
    } else {
        -((2 * -n + d) / (2 * d))
    }
}

/// `r` is the integer square root of `n`.
pub open spec fn is_isqrt(n: int, r: int) -> bool {
    0 <= r && r * r <= n < (r + 1) * (r + 1)
}

/// The integer square root of a non-negative `n`.
pub open spec fn spec_isqrt(n: int) -> int {
    choose|r: int| is_isqrt(n, r)
}

/// Every non-negative integer has an integer square root.
pub proof fn lemma_isqrt_exists(n: int)
    requires
        0 <= n,
    ensures
        is_isqrt(n, spec_isqrt(n)),
    decreases n,
{
    if n == 0 {
        assert(is_isqrt(0, 0));
    } else {
        lemma_isqrt_exists(n - 1);
        let r0 = spec_isqrt(n - 1);
        if (r0 + 1) * (r0 + 1) <= n {
            assert(n == (r0 + 1) * (r0 + 1));
            assert((r0 + 1) * (r0 + 1) < (r0 + 2) * (r0 + 2)) by (nonlinear_arith)
                requires
                    0 <= r0,
            ;
            assert(is_isqrt(n, r0 + 1));
        } else {
            assert(is_isqrt(n, r0));
        }
    }
}

/// The integer square root is unique.
pub proof fn lemma_isqrt_unique(n: int, a: int, b: int)
    by (nonlinear_arith)
    requires
        0 <= a,
        a * a <= n < (a + 1) * (a + 1),
        0 <= b,
        b * b <= n < (b + 1) * (b + 1),
    ensures
        a == b,
{
}

/// The integer square root never falls below the root of a perfect square
/// that is itself below `n`.
pub proof fn lemma_isqrt_ge_root(n: int, c: int)
    requires
        0 <= c,
        c * c <= n,
        is_isqrt(n, spec_isqrt(n)),
    ensures
        c <= spec_isqrt(n),
{
    let r = spec_isqrt(n);
    if c > r {
        assert((r + 1) * (r + 1) <= c * c) by (nonlinear_arith)
            requires
                0 <= r + 1 <= c,
        ;
    }
}

/// Bounded dividend gives bounded rounded quotient: `|n| <= d * b` implies
/// `|round_div(n, d)| <= b`.
pub proof fn lemma_round_div_le(n: int, d: int, b: int)
    requires
        0 < d,
        0 <= b,
        -(d * b) <= n <= d * b,
    ensures
        -b <= round_div(n, d) <= b,
{
    if n >= 0 {
        assert(2 * n + d <= b * (2 * d) + d) by (nonlinear_arith)
            requires
                0 < d && n <= d * b,
        ;
        lemma_div_is_ordered(2 * n + d, b * (2 * d) + d, 2 * d);
        lemma_fundamental_div_mod_converse(b * (2 * d) + d, 2 * d, b, d);
        lemma_div_is_ordered(0, 2 * n + d, 2 * d);
    } else {
        assert(2 * -n + d <= b * (2 * d) + d) by (nonlinear_arith)
            requires
                0 < d && -(d * b) <= n,
        ;
        lemma_div_is_ordered(2 * -n + d, b * (2 * d) + d, 2 * d);
        lemma_fundamental_div_mod_converse(b * (2 * d) + d, 2 * d, b, d);
        lemma_div_is_ordered(0, 2 * -n + d, 2 * d);
    }
}

/// Rounding an exact multiple recovers the multiplier.
pub proof fn lemma_round_div_exact(q: int, d: int)
    requires
        0 < d,
        0 <= q,
    ensures
        round_div(q * d, d) == q,
{
    assert(2 * (q * d) + d == q * (2 * d) + d) by (nonlinear_arith);
    lemma_fundamental_div_mod_converse(q * (2 * d) + d, 2 * d, q, d);
}

/// Product of two magnitude-bounded integers is magnitude-bounded.
pub proof fn lemma_mul_abs_le(a: int, am: int, b: int, bm: int)
    by (nonlinear_arith)
    requires
        -am <= a <= am,
        -bm <= b <= bm,
    ensures
        -(am * bm) <= a * b <= am * bm,
{
}

/// A square is non-negative and bounded by the square of the bound.
pub proof fn lemma_square_bounds(a: int, am: int)
    by (nonlinear_arith)
    requires
        -am <= a <= am,
    ensures
        0 <= a * a <= am * am,
{
}

/// Dividend magnitudes admitted by `round_div_i128` without overflow.
pub const ROUND_DIV_BOUND: i128 = 0x1000_0000_0000_0000_0000_0000_0000;

/// Executable rounding division on `i128`.
pub(crate) fn round_div_i128(n: i128, d: i128) -> (r: i128)
    requires
        0 < d <= ROUND_DIV_BOUND,
        -ROUND_DIV_BOUND <= n <= ROUND_DIV_BOUND,
    ensures
        r == round_div(n as int, d as int),
{
    if n >= 0 {
        (2 * n + d) / (2 * d)
    } else {
        -((2 * -n + d) / (2 * d))
    }
}

/// Executable integer square root by bisection.
pub(crate) fn isqrt64(n: u64) -> (r: u64)
    requires
        n < 0x1_0000_0000_0000,
    ensures
        is_isqrt(n as int, r as int),
        r == spec_isqrt(n as int),
        r < 0x100_0000,
{
    let mut lo: u64 = 0;
    let mut hi: u64 = 0x100_0000;
    assert((hi as int) * (hi as int) == 0x1_0000_0000_0000) by (nonlinear_arith)
        requires
            hi == 0x100_0000,
    ;
    while lo + 1 < hi
        invariant
            lo < hi <= 0x100_0000,
            (lo as int) * (lo as int) <= n as int,
            (n as int) < (hi as int) * (hi as int),
        decreases hi - lo,
    {
        let mid = lo + (hi - lo) / 2;
        assert((mid as int) * (mid as int) < 0x1_0000_0000_0000_0000) by (nonlinear_arith)
            requires
                mid < 0x100_0000,
        ;
        if mid * mid <= n {
            lo = mid;
        } else {
            hi = mid;
        }
    }
    proof {
        lemma_isqrt_exists(n as int);
        lemma_isqrt_unique(
            n as int,
            lo as int,
            spec_isqrt(n as int),
        );
    }
    lo
}

} // verus!
