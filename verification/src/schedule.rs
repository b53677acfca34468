//! The parallel scheduler's plan: the image is partitioned into disjoint
//! horizontal row bands, each with its own viewport corners derived from the
//! full image, and the bands' renderings are concatenated. Because every band
//! is computed purely from its own descriptor, the composed output is
//! deterministic and independent of the order in which bands are rendered.
use vstd::prelude::*;
use vstd::arithmetic::div_mod::{
    lemma_fundamental_div_mod,
    lemma_fundamental_div_mod_converse_div,
    lemma_mod_division_less_than_divisor,
};
use crate::fixed::{div_trunc, lemma_div_trunc_exact, lemma_mul_le_mono};
use crate::plane::{
    Complex, MAX_DIM, dims_ok, in_range, lemma_map_pixel_in_range, map_axis, map_pixel,
    pixel_to_point,
};
use crate::render::{pixel_byte, render};

verus! {

/// A worker count clamped up to at least one.
pub open spec fn clamp_workers(workers: int) -> int {
    if workers < 1 {
        1
    } else {
        workers
    }
}

/// Rows per band: floor(height / workers) + 1. This guarantees at least one
/// row per band and that `workers` bands suffice to cover all rows, at the
/// cost of possibly producing fewer than `workers` bands.
pub open spec fn rows_per_band(height: int, workers: int) -> int
    recommends
        height >= 0,
        workers >= 1,
{
    height / workers + 1
}

/// How many bands of `rpb` rows cover `height` rows: ceil(height / rpb).
pub open spec fn n_bands(height: int, rpb: int) -> int
    recommends
        height >= 1,
        rpb >= 1,
{
    (height + rpb - 1) / rpb
}

/// The first row of band `k`.
pub open spec fn band_top(rpb: int, k: int) -> int {
    k * rpb
}

/// The number of rows of band `k`: full `rpb` rows except possibly for the
/// last band, which takes whatever is left.
pub open spec fn band_height(height: int, rpb: int, k: int) -> int {
    if height - k * rpb < rpb {
        height - k * rpb
    } else {
        rpb
    }
}

/// A band descriptor: created once per scheduling pass and immutable. It
/// names the band's position in the image and the sub-viewport its rows
/// stand for.
#[derive(Clone, Copy, Debug, PartialEq, Eq, Structural)]
pub struct Band {
    pub index: usize,
    pub top: usize,
    pub height: usize,
    pub upper_left: Complex,
    pub lower_right: Complex,
}

/// Band `k` of the plan for this image: its rows are the k-th `rpb`-row
/// chunk, and its corners are the full-image mapping of pixel (0, top) and
/// pixel (width, top + height).
pub open spec fn band_wf(
    bounds: (usize, usize),
    ul: Complex,
    lr: Complex,
    workers: int,
    bd: Band,
    k: int,
) -> bool {
    let h = bounds.1 as int;
    let rpb = rows_per_band(h, clamp_workers(workers));
    &&& bd.index == k
    &&& bd.top == band_top(rpb, k)
    &&& bd.height == band_height(h, rpb, k)
    &&& 1 <= bd.height <= rpb
    &&& bd.top + bd.height <= h
    &&& bd.upper_left == map_pixel(bounds, (0usize, bd.top), ul, lr)
    &&& bd.lower_right == map_pixel(bounds, (bounds.0, (bd.top + bd.height) as usize), ul, lr)
    &&& in_range(bd.upper_left)
    &&& in_range(bd.lower_right)
}

/// The band count is the unique k with (k-1)*rpb < height <= k*rpb.
proof fn lemma_n_bands_bracket(height: int, rpb: int)
    requires
        height >= 1,
        rpb >= 1,
    ensures
        n_bands(height, rpb) >= 1,
        n_bands(height, rpb) * rpb >= height,
        (n_bands(height, rpb) - 1) * rpb < height,
{
    let q = n_bands(height, rpb);
    lemma_fundamental_div_mod(height + rpb - 1, rpb);
    lemma_mod_division_less_than_divisor(height + rpb - 1, rpb);
    let r = (height + rpb - 1) % rpb;
    assert(height + rpb - 1 == rpb * q + r);
    assert(q * rpb == rpb * q) by (nonlinear_arith);
    assert((q - 1) * rpb == rpb * q - rpb) by (nonlinear_arith);
    assert(q >= 1) by {
        if q < 1 {
            assert(q * rpb <= 0) by (nonlinear_arith)
                requires q <= 0 && rpb >= 1;
        }
    }
}

/// Any k whose bands bracket the height this way is the band count.
proof fn lemma_n_bands_from_bracket(height: int, rpb: int, k: int)
    requires
        height >= 1,
        rpb >= 1,
        k * rpb >= height,
        (k - 1) * rpb < height,
    ensures
        k == n_bands(height, rpb),
{
    let q = n_bands(height, rpb);
    lemma_n_bands_bracket(height, rpb);
    if k < q {
        lemma_mul_le_mono(k, q - 1, rpb);
    }
    if q < k {
        lemma_mul_le_mono(q, k - 1, rpb);
    }
}

/// The plan never needs more bands than workers: `workers * rpb > height`.
pub proof fn lemma_bands_at_most_workers(height: int, workers: int)
    requires
        height >= 1,
        workers >= 1,
    ensures
        n_bands(height, rows_per_band(height, workers)) <= workers,
{
    let rpb = rows_per_band(height, workers);
    lemma_fundamental_div_mod(height, workers);
    lemma_mod_division_less_than_divisor(height, workers);
    assert(workers * rpb == workers * (height / workers) + workers) by (nonlinear_arith)
        requires rpb == height / workers + 1;
    assert(workers * rpb >= height + 1);
    lemma_n_bands_bracket(height, rpb);
    let q = n_bands(height, rpb);
    if q > workers {
        lemma_mul_le_mono(workers, q - 1, rpb);
    }
}

/// Partition coverage: every image row lies in band `row / rpb` and in no
/// other band, and every band lies inside the image. With
/// `lemma_bands_at_most_workers`, the bands' row ranges are pairwise
/// disjoint and their union is exactly [0, height).
pub proof fn lemma_partition_covers(height: int, workers: int, row: int)
    requires
        height >= 1,
        workers >= 1,
        0 <= row < height,
    ensures
        ({
            let rpb = rows_per_band(height, workers);
            let k = row / rpb;
            &&& 0 <= k < n_bands(height, rpb)
            &&& band_top(rpb, k) <= row < band_top(rpb, k) + band_height(height, rpb, k)
            &&& forall|j: int|
                0 <= j < n_bands(height, rpb) && j != k
                    ==> !(#[trigger] band_top(rpb, j) <= row
                        < band_top(rpb, j) + band_height(height, rpb, j))
            &&& forall|j: int|
                0 <= j < n_bands(height, rpb)
                    ==> #[trigger] band_top(rpb, j) >= 0
                        && band_top(rpb, j) + band_height(height, rpb, j) <= height
                        && band_height(height, rpb, j) >= 1
        }),
{
    let rpb = rows_per_band(height, workers);
    assert(rpb >= 1) by {
        vstd::arithmetic::div_mod::lemma_div_pos_is_pos(height, workers);
    }
    let k = row / rpb;
    let rem = row % rpb;
    lemma_fundamental_div_mod(row, rpb);
    lemma_mod_division_less_than_divisor(row, rpb);
    assert(row == rpb * k + rem);
    assert(k * rpb == rpb * k) by (nonlinear_arith);
    assert(k >= 0) by {
        if k < 0 {
            assert(rpb * k + rem < 0) by (nonlinear_arith)
                requires k <= -1 && rpb >= 1 && 0 <= rem < rpb;
        }
    }
    lemma_n_bands_bracket(height, rpb);
    let nb = n_bands(height, rpb);
    // k < nb: row < height <= nb * rpb and k * rpb <= row
    assert(k < nb) by {
        if k >= nb {
            lemma_mul_le_mono(nb, k, rpb);
        }
    }
    // row lies in band k
    assert(band_top(rpb, k) <= row);
    assert(row < band_top(rpb, k) + rpb);
    assert(row < band_top(rpb, k) + band_height(height, rpb, k));
    // no other band contains row, and all bands fit the image
    assert forall|j: int| 0 <= j < nb && j != k
        implies !(#[trigger] band_top(rpb, j) <= row
            < band_top(rpb, j) + band_height(height, rpb, j)) by {
        if j < k {
            lemma_mul_le_mono(j + 1, k, rpb);
            assert((j + 1) * rpb == j * rpb + rpb) by (nonlinear_arith);
        } else {
            lemma_mul_le_mono(k + 1, j, rpb);
            assert((k + 1) * rpb == k * rpb + rpb) by (nonlinear_arith);
        }
    }
    assert forall|j: int| 0 <= j < nb
        implies #[trigger] band_top(rpb, j) >= 0
            && band_top(rpb, j) + band_height(height, rpb, j) <= height
            && band_height(height, rpb, j) >= 1 by {
        assert(j * rpb >= 0) by (nonlinear_arith)
            requires j >= 0 && rpb >= 1;
        lemma_mul_le_mono(j + 1, nb, rpb);
        assert((j + 1) * rpb == j * rpb + rpb) by (nonlinear_arith);
        assert((nb - 1) * rpb == nb * rpb - rpb) by (nonlinear_arith);
        // j <= nb - 1, so j * rpb <= (nb - 1) * rpb < height: the band starts
        // inside the image and has at least one row.
        lemma_mul_le_mono(j, nb - 1, rpb);
    }
}

/// Computes the scheduling plan: the bands that partition this image, each
/// carrying its own corners derived by mapping pixel (0, top) and pixel
/// (width, top + height) through the full image's bounds and corners.
pub fn plan_bands(
    bounds: (usize, usize),
    upper_left: Complex,
    lower_right: Complex,
    workers: usize,
) -> (bands: Vec<Band>)
    requires
        dims_ok(bounds),
        in_range(upper_left),
        in_range(lower_right),
    ensures
        bands@.len() == n_bands(
            bounds.1 as int,
            rows_per_band(bounds.1 as int, clamp_workers(workers as int)),
        ),
        forall|k: int|
            0 <= k < bands@.len()
                ==> band_wf(bounds, upper_left, lower_right, workers as int, #[trigger] bands@[k], k),
{
    let w = bounds.0;
    let h = bounds.1;
    let n: usize = if workers == 0 { 1 } else { workers };
    proof {
        vstd::arithmetic::div_mod::lemma_div_nonincreasing(h as int, n as int);
    }
    let rpb: usize = h / n + 1;
    proof {
        assert(rpb as int == rows_per_band(h as int, clamp_workers(workers as int)));
    }
    let mut bands: Vec<Band> = Vec::new();
    let mut top: usize = 0;
    let mut k: usize = 0;
    while top < h
        invariant
            dims_ok(bounds),
            in_range(upper_left),
            in_range(lower_right),
            w == bounds.0,
            h == bounds.1,
            rpb as int == rows_per_band(h as int, clamp_workers(workers as int)),
            1 <= rpb <= h + 1,
            k == bands@.len(),
            top == k * rpb,
            k <= top,
            k == 0 || (k - 1) * rpb < h,
            forall|j: int|
                0 <= j < k
                    ==> band_wf(
                        bounds,
                        upper_left,
                        lower_right,
                        workers as int,
                        #[trigger] bands@[j],
                        j,
                    ),
        decreases h as int - k as int,
    {
        let height: usize = if h - top < rpb { h - top } else { rpb };
        let band_ul = pixel_to_point(bounds, (0, top), upper_left, lower_right);
        let band_lr = pixel_to_point(bounds, (w, top + height), upper_left, lower_right);
        let bd = Band { index: k, top, height, upper_left: band_ul, lower_right: band_lr };
        bands.push(bd);
        proof {
            assert(band_top(rpb as int, k as int) == top);
            assert(band_height(h as int, rpb as int, k as int) == height);
            assert(band_wf(bounds, upper_left, lower_right, workers as int, bd, k as int));
            assert((k + 1) * rpb == k * rpb + rpb) by (nonlinear_arith);
            assert(k + 1 <= (k + 1) * rpb) by (nonlinear_arith)
                requires k >= 0 && rpb >= 1;
        }
        top = top + rpb;
        k = k + 1;
    }
    proof {
        lemma_n_bands_from_bracket(h as int, rpb as int, k as int);
    }
    bands
}

/// When an axis delta is an exact multiple of the step count, interpolation
/// is exact: no rounding occurs at any position.
proof fn lemma_map_axis_exact(a: int, b: int, n: int, i: int, d: int)
    requires
        n > 0,
        b - a == n * d,
    ensures
        map_axis(a, b, n, i) == a + i * d,
{
    assert(i * (b - a) == n * (i * d)) by (nonlinear_arith)
        requires b - a == n * d;
    lemma_div_trunc_exact(n, i * d);
}

/// The byte band `row / rpb` computes for an image pixel, when that band is
/// rendered against its own bounds and derived corners.
pub open spec fn scheduled_pixel_byte(
    bounds: (usize, usize),
    ul: Complex,
    lr: Complex,
    workers: int,
    row: int,
    col: int,
) -> u8
    recommends
        dims_ok(bounds),
        0 <= row < bounds.1,
        0 <= col < bounds.0,
{
    let h = bounds.1 as int;
    let rpb = rows_per_band(h, clamp_workers(workers));
    let k = row / rpb;
    let top = band_top(rpb, k);
    let bh = band_height(h, rpb, k);
    pixel_byte(
        (bounds.0, bh as usize),
        (col as usize, (row - top) as usize),
        map_pixel(bounds, (0usize, top as usize), ul, lr),
        map_pixel(bounds, (bounds.0, (top + bh) as usize), ul, lr),
    )
}

/// The parallel partition is value-preserving: when the viewport's imaginary
/// extent is an exact multiple of the image height (so that per-band corner
/// derivation loses nothing to rounding), the byte a band computes for a
/// pixel equals the byte computed by rendering the whole image as one band,
/// whatever the worker count.
pub proof fn lemma_partition_value_preserving(
    bounds: (usize, usize),
    ul: Complex,
    lr: Complex,
    workers: int,
    row: int,
    col: int,
)
    requires
        dims_ok(bounds),
        in_range(ul),
        in_range(lr),
        0 <= row < bounds.1,
        0 <= col < bounds.0,
        (lr.im as int - ul.im as int) % (bounds.1 as int) == 0,
    ensures
        scheduled_pixel_byte(bounds, ul, lr, workers, row, col)
            == pixel_byte(bounds, (col as usize, row as usize), ul, lr),
{
    let w = bounds.0 as int;
    let h = bounds.1 as int;
    let n = clamp_workers(workers);
    let rpb = rows_per_band(h, n);
    let k = row / rpb;
    let top = band_top(rpb, k);
    let bh = band_height(h, rpb, k);
    lemma_partition_covers(h, n, row);
    assert(0 <= top && top <= row && row < top + bh && top + bh <= h && bh >= 1 && bh <= rpb);

    // The imaginary extent splits into h equal integer steps of size d.
    let d = (lr.im as int - ul.im as int) / h;
    lemma_fundamental_div_mod(lr.im as int - ul.im as int, h);
    assert(lr.im as int - ul.im as int == h * d);

    // The full-image mapping of the pixel and of the band's two corners.
    lemma_map_pixel_in_range(bounds, (col as usize, row as usize), ul, lr);
    lemma_map_pixel_in_range(bounds, (0usize, top as usize), ul, lr);
    lemma_map_pixel_in_range(bounds, (bounds.0, (top + bh) as usize), ul, lr);
    let full = map_pixel(bounds, (col as usize, row as usize), ul, lr);
    let bul = map_pixel(bounds, (0usize, top as usize), ul, lr);
    let blr = map_pixel(bounds, (bounds.0, (top + bh) as usize), ul, lr);

    // Real axis: the band inherits the full viewport's real corners exactly.
    assert(0int * (lr.re as int - ul.re as int) == 0) by (nonlinear_arith);
    assert(div_trunc(0, w) == 0);
    assert(bul.re as int == ul.re as int);
    lemma_div_trunc_exact(w, lr.re as int - ul.re as int);
    assert(blr.re as int == lr.re as int);

    // Imaginary axis: every full-image row mapping is exact.
    lemma_map_axis_exact(ul.im as int, lr.im as int, h, top, d);
    lemma_map_axis_exact(ul.im as int, lr.im as int, h, top + bh, d);
    lemma_map_axis_exact(ul.im as int, lr.im as int, h, row, d);
    assert(bul.im as int == ul.im as int + top * d);
    assert(blr.im as int == ul.im as int + (top + bh) * d);
    assert(full.im as int == ul.im as int + row * d);

    // The band's own interpolation is exact as well: its imaginary extent is
    // bh * d, an exact multiple of its height.
    assert((top + bh) * d - top * d == bh * d) by (nonlinear_arith);
    let band_bounds = (bounds.0, bh as usize);
    let band_pixel = (col as usize, (row - top) as usize);
    lemma_map_pixel_in_range(band_bounds, band_pixel, bul, blr);
    let band_point = map_pixel(band_bounds, band_pixel, bul, blr);
    lemma_map_axis_exact(bul.im as int, blr.im as int, bh, row - top, d);
    assert(band_point.im as int == bul.im as int + (row - top) * d);
    assert(top * d + (row - top) * d == row * d) by (nonlinear_arith);
    assert(band_point.im as int == full.im as int);
    assert(band_point.re as int == map_axis(ul.re as int, lr.re as int, w, col));
    assert(band_point.re as int == full.re as int);
    assert(band_point == full);
}

/// The rows already covered after the first `k` bands.
pub open spec fn rows_done(height: int, rpb: int, k: int) -> int {
    if k >= n_bands(height, rpb) {
        height
    } else {
        band_top(rpb, k)
    }
}

/// An all-zero byte buffer of the requested length.
fn zero_vec(n: usize) -> (v: Vec<u8>)
    ensures
        v@.len() == n,
{
    let mut v: Vec<u8> = Vec::new();
    while v.len() < n
        invariant
            v@.len() <= n,
        decreases n - v.len(),
    {
        v.push(0);
    }
    v
}

/// An earlier row's pixel lands strictly below the first `top` rows' bytes.
proof fn lemma_row_index_below(row: int, col: int, top: int, w: int)
    requires
        0 <= row < top,
        0 <= col < w,
    ensures
        0 <= row * w + col < top * w,
{
    assert(0 <= row * w + col < top * w) by (nonlinear_arith)
        requires 0 <= row < top && 0 <= col < w;
}

/// Renders the whole image by partitioning it into row bands, rendering each
/// band against its own bounds and derived corners, and concatenating the
/// bands in order. Degenerate dimensions (zero, too large to encode, or a
/// buffer that cannot fit the machine) are rejected before any mapping, as
/// None. A worker count of zero is clamped up to one; the output bytes do
/// not depend on how bands would be spread over workers, only on the plan.
pub fn render_image(
    bounds: (usize, usize),
    upper_left: Complex,
    lower_right: Complex,
    workers: usize,
) -> (r: Option<Vec<u8>>)
    requires
        in_range(upper_left),
        in_range(lower_right),
    ensures
        r is Some <==> dims_ok(bounds) && bounds.0 * bounds.1 <= usize::MAX,
        r matches Some(buf) ==> {
            &&& buf@.len() == bounds.0 * bounds.1
            &&& forall|row: usize, col: usize|
                row < bounds.1 && col < bounds.0
                    ==> buf@[row as int * bounds.0 + col as int] == #[trigger] scheduled_pixel_byte(
                        bounds,
                        upper_left,
                        lower_right,
                        workers as int,
                        row as int,
                        col as int,
                    )
            &&& (lower_right.im as int - upper_left.im as int) % (bounds.1 as int) == 0
                ==> forall|row: usize, col: usize|
                    row < bounds.1 && col < bounds.0
                        ==> buf@[row as int * bounds.0 + col as int] == #[trigger] pixel_byte(
                            bounds,
                            (col, row),
                            upper_left,
                            lower_right,
                        )
        },
{
    let w = bounds.0;
    let h = bounds.1;
    if w == 0 || h == 0 || w > MAX_DIM || h > MAX_DIM {
        return None;
    }
    let total = match w.checked_mul(h) {
        Some(t) => t,
        None => {
            return None;
        },
    };
    let bands = plan_bands(bounds, upper_left, lower_right, workers);
    proof {
        lemma_n_bands_bracket(
            h as int,
            rows_per_band(h as int, clamp_workers(workers as int)),
        );
    }
    let mut buf: Vec<u8> = Vec::new();
    let mut k: usize = 0;
    proof {
        assert(0int * rows_per_band(h as int, clamp_workers(workers as int)) == 0)
            by (nonlinear_arith);
        assert(rows_done(h as int, rows_per_band(h as int, clamp_workers(workers as int)), 0)
            == 0);
    }
    while k < bands.len()
        invariant
            in_range(upper_left),
            in_range(lower_right),
            dims_ok(bounds),
            w == bounds.0,
            h == bounds.1,
            w * h <= usize::MAX,
            bands@.len() == n_bands(
                h as int,
                rows_per_band(h as int, clamp_workers(workers as int)),
            ),
            rows_per_band(h as int, clamp_workers(workers as int)) >= 1,
            bands@.len() * rows_per_band(h as int, clamp_workers(workers as int)) >= h,
            (bands@.len() - 1) * rows_per_band(h as int, clamp_workers(workers as int)) < h,
            forall|j: int|
                0 <= j < bands@.len()
                    ==> band_wf(
                        bounds,
                        upper_left,
                        lower_right,
                        workers as int,
                        #[trigger] bands@[j],
                        j,
                    ),
            k <= bands@.len(),
            buf@.len() == bounds.0 * rows_done(
                h as int,
                rows_per_band(h as int, clamp_workers(workers as int)),
                k as int,
            ),
            forall|row: usize, col: usize|
                (row as int) < rows_done(
                    h as int,
                    rows_per_band(h as int, clamp_workers(workers as int)),
                    k as int,
                ) && col < bounds.0
                    ==> buf@[row as int * bounds.0 + col as int] == #[trigger] scheduled_pixel_byte(
                        bounds,
                        upper_left,
                        lower_right,
                        workers as int,
                        row as int,
                        col as int,
                    ),
        decreases bands@.len() - k,
    {
        let ghost rpb = rows_per_band(h as int, clamp_workers(workers as int));
        let ghost nb = bands@.len() as int;
        let band = bands[k];
        proof {
            assert(band_wf(bounds, upper_left, lower_right, workers as int, bands@[k as int], k as int));
            assert(rows_done(h as int, rpb, k as int) == band.top);
            lemma_mul_le_mono(band.height as int, h as int, w as int);
            assert((band.height as int) * (w as int) == (w as int) * (band.height as int))
                by (nonlinear_arith);
            assert((h as int) * (w as int) == (w as int) * (h as int)) by (nonlinear_arith);
        }
        let bh = band.height;
        let mut band_buf = zero_vec(w * bh);
        render(&mut band_buf, (w, bh), band.upper_left, band.lower_right);
        let ghost band_view = band_buf@;
        let ghost old_buf = buf@;
        buf.append(&mut band_buf);
        proof {
            let top = band.top as int;
            let bhi = bh as int;
            let wi = w as int;
            // After this band, exactly the rows below top + bh are done.
            if k as int + 1 < nb {
                lemma_mul_le_mono(k as int + 1, nb - 1, rpb);
                assert((k as int + 1) * rpb == k as int * rpb + rpb) by (nonlinear_arith);
                assert(rows_done(h as int, rpb, k as int + 1) == top + bhi);
            } else {
                assert((k as int + 1) * rpb == k as int * rpb + rpb) by (nonlinear_arith);
                assert(rows_done(h as int, rpb, k as int + 1) == h as int);
                assert(top + bhi == h as int);
            }
            assert(wi * top + wi * bhi == wi * (top + bhi)) by (nonlinear_arith);
            assert(buf@.len() == wi * (top + bhi));
            assert forall|row: usize, col: usize|
                (row as int) < rows_done(h as int, rpb, k as int + 1) && col < bounds.0
                implies buf@[row as int * bounds.0 + col as int] == #[trigger] scheduled_pixel_byte(
                    bounds,
                    upper_left,
                    lower_right,
                    workers as int,
                    row as int,
                    col as int,
                ) by {
                let rowi = row as int;
                let coli = col as int;
                if rowi < top {
                    lemma_row_index_below(rowi, coli, top, wi);
                    assert(buf@[rowi * wi + coli] == old_buf[rowi * wi + coli]);
                } else {
                    // The byte came from this band: row r of the band holds
                    // image row top + r.
                    let rp = rowi - top;
                    assert((top + rp) * wi + coli == top * wi + (rp * wi + coli))
                        by (nonlinear_arith);
                    assert(top * wi == wi * top) by (nonlinear_arith);
                    assert(0 <= rp * wi + coli < bhi * wi) by (nonlinear_arith)
                        requires 0 <= rp < bhi && 0 <= coli < wi;
                    assert(bhi * wi == wi * bhi) by (nonlinear_arith);
                    assert(buf@[rowi * wi + coli] == band_view[rp * wi + coli]);
                    let rpu = rp as usize;
                    assert(band_view[rpu as int * wi + coli]
                        == pixel_byte((w, bh), (col, rpu), band.upper_left, band.lower_right));
                    // The plan's k-th band is exactly the band this row's
                    // quotient names.
                    lemma_fundamental_div_mod_converse_div(rowi, rpb, k as int, rp);
                    assert(rowi / rpb == k as int);
                    assert((band.top as int + band.height as int) as usize
                        == band.top + band.height);
                    assert(scheduled_pixel_byte(
                        bounds,
                        upper_left,
                        lower_right,
                        workers as int,
                        rowi,
                        coli,
                    ) == pixel_byte((w, bh), (col, rpu), band.upper_left, band.lower_right));
                }
            }
        }
        k = k + 1;
    }
    proof {
        if (lower_right.im as int - upper_left.im as int) % (bounds.1 as int) == 0 {
            assert forall|row: usize, col: usize| row < bounds.1 && col < bounds.0
                implies buf@[row as int * bounds.0 + col as int] == #[trigger] pixel_byte(
                    bounds,
                    (col, row),
                    upper_left,
                    lower_right,
                ) by {
                assert(buf@[row as int * bounds.0 + col as int] == scheduled_pixel_byte(
                    bounds,
                    upper_left,
                    lower_right,
                    workers as int,
                    row as int,
                    col as int,
                ));
                lemma_partition_value_preserving(
                    bounds,
                    upper_left,
                    lower_right,
                    workers as int,
                    row as int,
                    col as int,
                );
            }
        }
    }
    Some(buf)
}


} // verus!
