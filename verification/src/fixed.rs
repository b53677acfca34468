//! Fixed-point arithmetic: signed values scaled by `FP_SCALE`, with
//! truncating (round-toward-zero) division as the single rounding rule.
use vstd::prelude::*;
use vstd::arithmetic::div_mod::{
    lemma_div_is_ordered,
    lemma_div_multiples_vanish,
    lemma_div_nonincreasing,
    lemma_div_pos_is_pos,
};

verus! {

/// Fixed-point scale: an `i64` coordinate `x` stands for the real number
/// `x / FP_SCALE` (24 fractional bits).
pub const FP_SCALE: i64 = 16777216;

/// Truncating division (rounds toward zero): the rounding used by every
/// fixed-point operation in this crate.
pub open spec fn div_trunc(x: int, d: int) -> int
    recommends
        d > 0,
{
    if x >= 0 {
        x / d
    } else {
        -((-x) / d)
    }
}

/// Dividing an exact multiple is exact: `div_trunc(m * d, m) == d`.
pub proof fn lemma_div_trunc_exact(m: int, d: int)
    requires
        m > 0,
    ensures
        div_trunc(m * d, m) == d,
{
    if d >= 0 {
        assert(m * d >= 0) by (nonlinear_arith)
            requires m > 0 && d >= 0;
        lemma_div_multiples_vanish(d, m);
        assert((m * d) / m == d);
        assert(div_trunc(m * d, m) == (m * d) / m);
    } else {
        assert(m * d < 0) by (nonlinear_arith)
            requires m > 0 && d < 0;
        lemma_div_multiples_vanish(-d, m);
        assert(m * (-d) == -(m * d)) by (nonlinear_arith);
        assert((-(m * d)) / m == -d);
        assert(div_trunc(m * d, m) == -((-(m * d)) / m));
    }
}

/// The magnitude of a truncating quotient is bounded: if `|x| <= k * d`
/// then `|div_trunc(x, d)| <= k`.
pub proof fn lemma_div_trunc_bound(x: int, d: int, k: int)
    requires
        d > 0,
        k >= 0,
        -(k * d) <= x <= k * d,
    ensures
        -k <= div_trunc(x, d) <= k,
{
    lemma_div_trunc_exact(d, k);
    assert(k * d == d * k) by (nonlinear_arith);
    if x >= 0 {
        lemma_div_is_ordered(x, d * k, d);
        lemma_div_pos_is_pos(x, d);
    } else {
        lemma_div_is_ordered(-x, d * k, d);
        lemma_div_pos_is_pos(-x, d);
    }
}

/// Linear interpolation never leaves the segment: for `0 <= i <= n`,
/// `div_trunc(i * x, n)` lies between `0` and `x`.
pub proof fn lemma_div_trunc_interp(i: int, n: int, x: int)
    requires
        n > 0,
        0 <= i <= n,
    ensures
        x >= 0 ==> 0 <= div_trunc(i * x, n) <= x,
        x < 0 ==> x <= div_trunc(i * x, n) <= 0,
{
    if x >= 0 {
        assert(0 <= i * x <= n * x) by (nonlinear_arith)
            requires 0 <= i <= n && x >= 0;
        lemma_div_trunc_bound(i * x, n, x);
    } else {
        assert(0 <= i * (-x) <= n * (-x)) by (nonlinear_arith)
            requires 0 <= i <= n && x < 0;
        assert(i * (-x) == -(i * x)) by (nonlinear_arith);
        lemma_div_trunc_bound(i * x, n, -x);
    }
}

/// Truncating division of an `i128` by a positive divisor, computed on
/// unsigned magnitudes so that the result is pinned to `div_trunc`.
pub fn div_trunc_i128(x: i128, d: i128) -> (q: i128)
    requires
        d > 0,
        x > i128::MIN,
    ensures
        q == div_trunc(x as int, d as int),
{
    if x >= 0 {
        let m: u128 = x as u128;
        let qu: u128 = m / (d as u128);
        proof {
            lemma_div_nonincreasing(m as int, d as int);
        }
        qu as i128
    } else {
        let m: u128 = (-x) as u128;
        let qu: u128 = m / (d as u128);
        proof {
            lemma_div_nonincreasing(m as int, d as int);
            lemma_div_pos_is_pos(m as int, d as int);
        }
        -(qu as i128)
    }
}


/// Multiplication by a positive factor preserves order.
pub proof fn lemma_mul_le_mono(a: int, b: int, m: int)
    requires
        m > 0,
        a <= b,
    ensures
        a * m <= b * m,
{
    assert(a * m <= b * m) by (nonlinear_arith)
        requires m > 0 && a <= b;
}

} // verus!
