//! The escape-time evaluator: starting from z = 0 it repeatedly applies
//! z = z*z + c and reports the first iteration whose result has squared
//! magnitude above 4, or "no escape" if the limit is reached first.
use vstd::prelude::*;
use crate::fixed::{FP_SCALE, div_trunc, div_trunc_i128, lemma_div_trunc_bound};
use crate::plane::Complex;

verus! {

/// Real part of one update step z*z + c, in fixed point.
pub open spec fn step_re(zr: int, zi: int, cr: int) -> int {
    div_trunc(zr * zr - zi * zi, FP_SCALE as int) + cr
}

/// Imaginary part of one update step z*z + c, in fixed point.
pub open spec fn step_im(zr: int, zi: int, ci: int) -> int {
    div_trunc(2 * zr * zi, FP_SCALE as int) + ci
}

/// The k-th iterate of the update rule, starting from z = 0.
pub open spec fn z_iter(c: Complex, k: nat) -> (int, int)
    decreases k,
{
    if k == 0 {
        (0int, 0int)
    } else {
        let prev = z_iter(c, (k - 1) as nat);
        (step_re(prev.0, prev.1, c.re as int), step_im(prev.0, prev.1, c.im as int))
    }
}

/// Squared magnitude of a fixed-point complex value, scaled by FP_SCALE^2.
pub open spec fn norm_sqr(zr: int, zi: int) -> int {
    zr * zr + zi * zi
}

/// The boundedness test's threshold: a squared magnitude of 4, scaled.
pub open spec fn escape_threshold() -> int {
    4 * (FP_SCALE as int) * (FP_SCALE as int)
}

/// The point escapes at iteration `i`: the iterate computed by step `i`
/// (that is, the (i+1)-th iterate) exceeds the threshold.
pub open spec fn escapes_at(c: Complex, i: int) -> bool
    recommends
        i >= 0,
{
    norm_sqr(z_iter(c, (i + 1) as nat).0, z_iter(c, (i + 1) as nat).1) > escape_threshold()
}

/// The first iteration index in `[i, limit)` at which the point escapes,
/// or None if it never does within the limit.
pub open spec fn escape_from(c: Complex, i: int, limit: int) -> Option<int>
    decreases limit - i,
{
    if i >= limit {
        None
    } else if escapes_at(c, i) {
        Some(i)
    } else {
        escape_from(c, i + 1, limit)
    }
}

/// What the evaluator returns for a point `c` and an iteration limit.
pub open spec fn escape_spec(c: Complex, limit: int) -> Option<int> {
    escape_from(c, 0, limit)
}

/// A result is consistent with the evaluator's contract: it names the first
/// escaping iteration below the limit, or reports that none exists.
pub open spec fn matches_escape_behavior(c: Complex, limit: int, r: Option<int>) -> bool {
    match r {
        Some(i) => 0 <= i < limit && escapes_at(c, i) && (forall|j: int|
            0 <= j < i ==> !escapes_at(c, j)),
        None => forall|j: int| 0 <= j < limit ==> !escapes_at(c, j),
    }
}

/// The evaluator is deterministic and pure: any two results consistent with
/// its contract for the same point and limit are equal.
pub proof fn lemma_escape_deterministic(c: Complex, limit: int, r1: Option<int>, r2: Option<int>)
    requires
        matches_escape_behavior(c, limit, r1),
        matches_escape_behavior(c, limit, r2),
    ensures
        r1 == r2,
{
    match (r1, r2) {
        (Some(i1), Some(i2)) => {
            if i1 < i2 {
                assert(!escapes_at(c, i1));
            }
            if i2 < i1 {
                assert(!escapes_at(c, i2));
            }
        },
        (Some(i1), None) => {
            assert(!escapes_at(c, i1));
        },
        (None, Some(i2)) => {
            assert(!escapes_at(c, i2));
        },
        (None, None) => {},
    }
}

/// The first update applied to z = 0 yields c itself.
pub proof fn lemma_z_iter_one(c: Complex)
    ensures
        z_iter(c, 1) == (c.re as int, c.im as int),
{
    assert(z_iter(c, 0) == (0int, 0int));
    assert(div_trunc(0, FP_SCALE as int) == 0);
    assert(z_iter(c, 1).0 == step_re(0, 0, c.re as int));
    assert(step_re(0, 0, c.re as int) == c.re as int);
    assert(z_iter(c, 1).1 == step_im(0, 0, c.im as int));
    assert(step_im(0, 0, c.im as int) == c.im as int);
}

/// The origin never escapes: every iterate of c = 0 is 0, so the evaluator
/// reports "no escape" for any limit.
pub proof fn lemma_origin_never_escapes(limit: int)
    ensures
        escape_spec(Complex { re: 0, im: 0 }, limit) is None,
{
    let c = Complex { re: 0, im: 0 };
    assert forall|k: nat| z_iter(c, k) == (0int, 0int) by {
        lemma_z_iter_origin(k);
    }
    lemma_origin_from(limit, 0);
}

proof fn lemma_z_iter_origin(k: nat)
    ensures
        z_iter(Complex { re: 0, im: 0 }, k) == (0int, 0int),
    decreases k,
{
    if k > 0 {
        lemma_z_iter_origin((k - 1) as nat);
        assert(div_trunc(0, FP_SCALE as int) == 0);
    }
}

proof fn lemma_origin_from(limit: int, i: int)
    requires
        i >= 0,
    ensures
        escape_from(Complex { re: 0, im: 0 }, i, limit) is None,
    decreases limit - i,
{
    let c = Complex { re: 0, im: 0 };
    if i < limit {
        lemma_z_iter_origin((i + 1) as nat);
        assert(!escapes_at(c, i));
        lemma_origin_from(limit, i + 1);
    }
}

/// A point already past the threshold escapes at iteration 0 whenever at
/// least one iteration is allowed.
pub proof fn lemma_far_point_escapes_immediately(c: Complex, limit: int)
    requires
        limit >= 1,
        norm_sqr(c.re as int, c.im as int) > escape_threshold(),
    ensures
        escape_spec(c, limit) == Some(0int),
{
    lemma_z_iter_one(c);
    assert(escapes_at(c, 0));
}

/// If the squared magnitude is at most the threshold, each component's
/// magnitude is at most twice the scale.
proof fn lemma_component_bound(x: int, y: int, s: int)
    requires
        s > 0,
        x * x + y * y <= 4 * s * s,
    ensures
        -2 * s <= x <= 2 * s,
        -2 * s <= y <= 2 * s,
{
    assert(-2 * s <= x <= 2 * s && -2 * s <= y <= 2 * s) by (nonlinear_arith)
        requires s > 0 && x * x + y * y <= 4 * s * s;
}

/// Bounds on factors give a bound on the product.
proof fn lemma_mul_bound(x: int, y: int, bx: int, by: int)
    requires
        bx >= 0,
        by >= 0,
        -bx <= x <= bx,
        -by <= y <= by,
    ensures
        -(bx * by) <= x * y <= bx * by,
{
    assert(-(bx * by) <= x * y <= bx * by) by (nonlinear_arith)
        requires bx >= 0 && by >= 0 && -bx <= x <= bx && -by <= y <= by;
}

/// The magnitude of an `i64`, widened so that i64::MIN needs no special case.
fn abs_u128(x: i64) -> (m: u128)
    ensures
        m as int == (if x >= 0 { x as int } else { -(x as int) }),
{
    if x >= 0 {
        x as u128
    } else {
        (-(x as i128)) as u128
    }
}

/// Whether the squared magnitude of (re, im) exceeds the escape threshold,
/// computed in 128-bit arithmetic so that any `i64` point is accepted.
fn norm_exceeds_threshold(re: i64, im: i64) -> (b: bool)
    ensures
        b == (norm_sqr(re as int, im as int) > escape_threshold()),
{
    let mr = abs_u128(re);
    let mi = abs_u128(im);
    proof {
        assert((mr as int) * (mr as int) == (re as int) * (re as int)
            && (mr as int) * (mr as int) <= 9223372036854775808 * 9223372036854775808int)
            by (nonlinear_arith)
            requires
                mr as int == (if re >= 0 { re as int } else { -(re as int) }),
                -9223372036854775808 <= re as int <= 9223372036854775807;
        assert((mi as int) * (mi as int) == (im as int) * (im as int)
            && (mi as int) * (mi as int) <= 9223372036854775808 * 9223372036854775808int)
            by (nonlinear_arith)
            requires
                mi as int == (if im >= 0 { im as int } else { -(im as int) }),
                -9223372036854775808 <= im as int <= 9223372036854775807;
    }
    let nsq: u128 = mr * mr + mi * mi;
    nsq > 4 * (FP_SCALE as u128) * (FP_SCALE as u128)
}

/// Applies z = z*z + c starting from z = 0, up to `limit` times, and returns
/// the index of the first update whose result exceeds squared magnitude 4
/// (a value in [0, limit)), or None if no update does: the point is then
/// presumed to belong to the set. Total: any fixed-point `c` is accepted.
pub fn escape_time(c: Complex, limit: usize) -> (r: Option<usize>)
    ensures
        r matches Some(i) ==> i < limit && escape_spec(c, limit as int) == Some(i as int),
        r is None ==> escape_spec(c, limit as int) is None,
        matches_escape_behavior(
            c,
            limit as int,
            match r {
                Some(i) => Some(i as int),
                None => None,
            },
        ),
{
    if limit == 0 {
        return None;
    }
    proof {
        lemma_z_iter_one(c);
    }
    if norm_exceeds_threshold(c.re, c.im) {
        // The very first update lands on c itself, already past the
        // threshold.
        assert(escapes_at(c, 0));
        return Some(0);
    }
    let mut zr: i64 = c.re;
    let mut zi: i64 = c.im;
    let mut i: usize = 1;
    assert(escape_from(c, 0, limit as int) == escape_from(c, 1, limit as int));
    while i < limit
        invariant
            1 <= i <= limit,
            zr as int == z_iter(c, i as nat).0,
            zi as int == z_iter(c, i as nat).1,
            norm_sqr(zr as int, zi as int) <= escape_threshold(),
            norm_sqr(c.re as int, c.im as int) <= escape_threshold(),
            forall|j: int| 0 <= j < i ==> !escapes_at(c, j),
            escape_from(c, i as int, limit as int) == escape_spec(c, limit as int),
        decreases limit - i,
    {
        let s: i64 = FP_SCALE;
        proof {
            lemma_component_bound(zr as int, zi as int, s as int);
            lemma_component_bound(c.re as int, c.im as int, s as int);
            lemma_mul_bound(zr as int, zr as int, 2 * (s as int), 2 * (s as int));
            lemma_mul_bound(zi as int, zi as int, 2 * (s as int), 2 * (s as int));
            lemma_mul_bound(zr as int, zi as int, 2 * (s as int), 2 * (s as int));
        }
        let a: i64 = zr * zr;
        let b: i64 = zi * zi;
        let t: i64 = a - b;
        let m: i64 = 2 * (zr * zi);
        proof {
            assert((zr as int) * (zr as int) >= 0 && (zi as int) * (zi as int) >= 0)
                by (nonlinear_arith);
            assert(2 * (zr as int) * (zi as int) == 2 * ((zr as int) * (zi as int)))
                by (nonlinear_arith);
            lemma_div_trunc_bound(t as int, s as int, 4 * (s as int));
            lemma_div_trunc_bound(m as int, s as int, 8 * (s as int));
        }
        let qre: i64 = div_trunc_i128(t as i128, s as i128) as i64;
        let qim: i64 = div_trunc_i128(m as i128, s as i128) as i64;
        let nzr: i64 = qre + c.re;
        let nzi: i64 = qim + c.im;
        proof {
            assert(nzr as int == step_re(zr as int, zi as int, c.re as int));
            assert(nzi as int == step_im(zr as int, zi as int, c.im as int));
            assert(z_iter(c, (i + 1) as nat)
                == (step_re(z_iter(c, i as nat).0, z_iter(c, i as nat).1, c.re as int),
                    step_im(z_iter(c, i as nat).0, z_iter(c, i as nat).1, c.im as int)));
            lemma_mul_bound(nzr as int, nzr as int, 6 * (s as int), 6 * (s as int));
            lemma_mul_bound(nzi as int, nzi as int, 10 * (s as int), 10 * (s as int));
        }
        let nsq: i64 = nzr * nzr + nzi * nzi;
        zr = nzr;
        zi = nzi;
        if nsq > 4 * FP_SCALE * FP_SCALE {
            assert(escapes_at(c, i as int));
            assert(escape_from(c, i as int, limit as int) == Some(i as int));
            return Some(i);
        }
        assert(!escapes_at(c, i as int));
        assert(escape_from(c, i as int, limit as int)
            == escape_from(c, i as int + 1, limit as int));
        i = i + 1;
    }
    assert(escape_from(c, limit as int, limit as int) is None);
    None
}

} // verus!
