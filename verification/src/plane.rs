//! The coordinate mapper: pixel coordinates are carried onto the complex
//! plane by linear interpolation between two viewport corners.
use vstd::prelude::*;
use crate::fixed::{div_trunc, div_trunc_i128, lemma_div_trunc_exact, lemma_div_trunc_interp};

verus! {

/// A point of the complex plane in fixed-point form: `re / FP_SCALE`
/// is the real part, `im / FP_SCALE` the imaginary part.
#[derive(Clone, Copy, Debug, PartialEq, Eq, Structural)]
pub struct Complex {
    pub re: i64,
    pub im: i64,
}

/// The largest coordinate magnitude the mapper accepts (2^61). Interpolating
/// between two such corners then stays comfortably inside `i64`.
pub const COORD_LIMIT: i64 = 2305843009213693952;

/// The largest image dimension accepted (2^31 - 1): raster encoders take
/// 32-bit dimensions, and per-band row arithmetic must fit a machine word
/// even on 32-bit targets.
pub const MAX_DIM: usize = 2147483647;

/// A point whose coordinates the mapper accepts.
pub open spec fn in_range(c: Complex) -> bool {
    &&& -COORD_LIMIT <= c.re <= COORD_LIMIT
    &&& -COORD_LIMIT <= c.im <= COORD_LIMIT
}

/// A usable pair of image dimensions: both positive and encodable.
pub open spec fn dims_ok(bounds: (usize, usize)) -> bool {
    &&& 0 < bounds.0 <= MAX_DIM
    &&& 0 < bounds.1 <= MAX_DIM
}

/// Linear interpolation along one axis: position `i` of `n` steps from `a`
/// toward `b`, rounded toward zero.
pub open spec fn map_axis(a: int, b: int, n: int, i: int) -> int
    recommends
        n > 0,
{
    a + div_trunc(i * (b - a), n)
}

/// The complex point that pixel `(pixel.0, pixel.1)` of an image with the
/// given bounds and viewport corners stands for. The real axis runs
/// left-to-right from `ul.re` to `lr.re`; the imaginary axis runs
/// top-to-bottom from `ul.im` down to `lr.im`.
pub open spec fn map_pixel(
    bounds: (usize, usize),
    pixel: (usize, usize),
    ul: Complex,
    lr: Complex,
) -> Complex
    recommends
        dims_ok(bounds),
{
    Complex {
        re: map_axis(ul.re as int, lr.re as int, bounds.0 as int, pixel.0 as int) as i64,
        im: map_axis(ul.im as int, lr.im as int, bounds.1 as int, pixel.1 as int) as i64,
    }
}

/// For a pixel inside (or on the far edge of) the image, each interpolated
/// coordinate lies between the two corner coordinates, so it fits `i64`
/// without truncation and stays `in_range`.
pub proof fn lemma_map_axis_between(a: int, b: int, n: int, i: int)
    requires
        n > 0,
        0 <= i <= n,
    ensures
        a <= b ==> a <= map_axis(a, b, n, i) <= b,
        a > b ==> b <= map_axis(a, b, n, i) <= a,
{
    lemma_div_trunc_interp(i, n, b - a);
}

/// Under the mapper's preconditions the spec-level casts in `map_pixel` are
/// exact, and the mapped point is itself `in_range`.
pub proof fn lemma_map_pixel_in_range(
    bounds: (usize, usize),
    pixel: (usize, usize),
    ul: Complex,
    lr: Complex,
)
    requires
        dims_ok(bounds),
        pixel.0 <= bounds.0,
        pixel.1 <= bounds.1,
        in_range(ul),
        in_range(lr),
    ensures
        map_pixel(bounds, pixel, ul, lr).re as int
            == map_axis(ul.re as int, lr.re as int, bounds.0 as int, pixel.0 as int),
        map_pixel(bounds, pixel, ul, lr).im as int
            == map_axis(ul.im as int, lr.im as int, bounds.1 as int, pixel.1 as int),
        in_range(map_pixel(bounds, pixel, ul, lr)),
{
    lemma_map_axis_between(ul.re as int, lr.re as int, bounds.0 as int, pixel.0 as int);
    lemma_map_axis_between(ul.im as int, lr.im as int, bounds.1 as int, pixel.1 as int);
}

/// Boundary exactness: pixel `(0, 0)` maps exactly to the upper-left corner,
/// and pixel `(width, height)` maps exactly to the lower-right corner.
pub proof fn lemma_corner_exactness(bounds: (usize, usize), ul: Complex, lr: Complex)
    requires
        dims_ok(bounds),
        in_range(ul),
        in_range(lr),
    ensures
        map_pixel(bounds, (0usize, 0usize), ul, lr) == ul,
        map_pixel(bounds, (bounds.0, bounds.1), ul, lr) == lr,
{
    let w = bounds.0 as int;
    let h = bounds.1 as int;
    assert(0int * (lr.re - ul.re) == 0) by (nonlinear_arith);
    assert(0int * (lr.im - ul.im) == 0) by (nonlinear_arith);
    assert(div_trunc(0, w) == 0);
    assert(div_trunc(0, h) == 0);
    lemma_div_trunc_exact(w, lr.re - ul.re);
    lemma_div_trunc_exact(h, lr.im - ul.im);
    assert(w * (lr.re - ul.re) == (bounds.0 as int) * (lr.re - ul.re));
    assert(map_axis(ul.re as int, lr.re as int, w, w) == lr.re as int);
    assert(map_axis(ul.im as int, lr.im as int, h, h) == lr.im as int);
}

/// Converts a pixel coordinate into the complex point it stands for, by
/// linear interpolation between the viewport corners. Pixel `(width, height)`
/// (one past the last pixel on each axis) is allowed, so that a caller can
/// derive the corner of a sub-rectangle.
pub fn pixel_to_point(
    bounds: (usize, usize),
    pixel: (usize, usize),
    upper_left: Complex,
    lower_right: Complex,
) -> (p: Complex)
    requires
        dims_ok(bounds),
        pixel.0 <= bounds.0,
        pixel.1 <= bounds.1,
        in_range(upper_left),
        in_range(lower_right),
    ensures
        p == map_pixel(bounds, pixel, upper_left, lower_right),
        in_range(p),
{
    proof {
        lemma_map_pixel_in_range(bounds, pixel, upper_left, lower_right);
    }
    let re = axis_point(upper_left.re, lower_right.re, bounds.0, pixel.0);
    let im = axis_point(upper_left.im, lower_right.im, bounds.1, pixel.1);
    Complex { re, im }
}

/// One axis of `pixel_to_point`: interpolates `i` of `n` steps from `a`
/// toward `b` in 128-bit arithmetic, which cannot overflow for coordinates
/// within `COORD_LIMIT`.
fn axis_point(a: i64, b: i64, n: usize, i: usize) -> (r: i64)
    requires
        0 < n <= MAX_DIM,
        i <= n,
        -COORD_LIMIT <= a <= COORD_LIMIT,
        -COORD_LIMIT <= b <= COORD_LIMIT,
    ensures
        r as int == map_axis(a as int, b as int, n as int, i as int),
{
    let delta: i128 = (b as i128) - (a as i128);
    proof {
        assert((i as int) * (delta as int) <= (MAX_DIM as int) * (2 * COORD_LIMIT as int)
            && (i as int) * (delta as int) >= -((MAX_DIM as int) * (2 * COORD_LIMIT as int)))
            by (nonlinear_arith)
            requires
                0 <= i as int <= MAX_DIM as int,
                -(2 * COORD_LIMIT as int) <= delta as int <= 2 * COORD_LIMIT as int;
        lemma_div_trunc_interp(i as int, n as int, delta as int);
    }
    let num: i128 = (i as i128) * delta;
    let q: i128 = div_trunc_i128(num, n as i128);
    let r: i128 = (a as i128) + q;
    r as i64
}

} // verus!
