use mandelbrot::escape::escape_time;
use mandelbrot::fixed::FP_SCALE;
use mandelbrot::parse::{parse_pair, parse_u64};
use mandelbrot::plane::{pixel_to_point, Complex};
use mandelbrot::render::render;
use mandelbrot::schedule::{plan_bands, render_image};

const S: i64 = FP_SCALE;

fn cx(re: i64, im: i64) -> Complex {
    Complex { re, im }
}

// Pixel (0,0) maps exactly to the upper-left corner and pixel
// (width, height) exactly to the lower-right corner.
#[test]
fn corners_map_exactly() {
    let ul = cx(-2 * S, S);
    let lr = cx(S, -S);
    assert_eq!(pixel_to_point((100, 200), (0, 0), ul, lr), ul);
    assert_eq!(pixel_to_point((100, 200), (100, 200), ul, lr), lr);
    assert_eq!(pixel_to_point((5, 5), (0, 0), ul, lr), ul);
    assert_eq!(pixel_to_point((5, 5), (5, 5), ul, lr), lr);
}

// An interior pixel: for a 100x200 image over [-1,1] x [-1,1], pixel
// (25, 175) lands at (-0.5, -0.75), which is exact in fixed point.
#[test]
fn interior_pixel_maps_linearly() {
    let p = pixel_to_point((100, 200), (25, 175), cx(-S, S), cx(S, -S));
    assert_eq!(p, cx(-S / 2, -3 * (S / 4)));
}

// The origin is in the set: no escape for any positive limit.
#[test]
fn origin_never_escapes() {
    assert_eq!(escape_time(cx(0, 0), 1), None);
    assert_eq!(escape_time(cx(0, 0), 255), None);
    assert_eq!(escape_time(cx(0, 0), 10_000), None);
}

// A point far outside the set escapes at iteration 0.
#[test]
fn far_point_escapes_at_zero() {
    assert_eq!(escape_time(cx(4 * S, 4 * S), 10), Some(0));
    assert_eq!(escape_time(cx(-4 * S, 0), 10), Some(0));
}

// A limit of zero never reports an escape.
#[test]
fn zero_limit_reports_no_escape() {
    assert_eq!(escape_time(cx(4 * S, 4 * S), 0), None);
}

// The evaluator is deterministic: identical inputs, identical outputs.
#[test]
fn escape_time_is_deterministic() {
    let c = cx(-3 * (S / 4), S / 4);
    let first = escape_time(c, 255);
    for _ in 0..5 {
        assert_eq!(escape_time(c, 255), first);
    }
}

// The exact bytes of a 5x5 render over [-2,1] x [-1,1] with limit 255.
#[test]
fn small_image_exact_bytes() {
    let expected: Vec<u8> = vec![
        255, 253, 253, 249, 253, //
        255, 253, 251, 0, 241, //
        255, 250, 241, 0, 225, //
        255, 250, 241, 0, 225, //
        255, 253, 251, 0, 241,
    ];
    let buf = render_image((5, 5), cx(-2 * S, S), cx(S, -S), 1).unwrap();
    assert_eq!(buf, expected);
    let mut direct = vec![0u8; 25];
    render(&mut direct, (5, 5), cx(-2 * S, S), cx(S, -S));
    assert_eq!(direct, expected);
}

// Splitting the image into bands is value-preserving: any worker count
// yields the bytes of a single whole-image render, when the imaginary
// extent divides evenly by the height.
#[test]
fn worker_count_does_not_change_output() {
    let ul = cx(-2 * S, S);
    let lr = cx(S, -2 * S); // imaginary extent 3*S, height 6: exact steps
    let mut whole = vec![0u8; 8 * 6];
    render(&mut whole, (8, 6), ul, lr);
    for workers in [1usize, 2, 7, 64] {
        let buf = render_image((8, 6), ul, lr, workers).unwrap();
        assert_eq!(buf, whole, "workers = {}", workers);
    }
}

// The planned bands' row ranges are pairwise disjoint and cover [0, H).
#[test]
fn bands_tile_the_image() {
    for (h, workers) in [(13usize, 4usize), (1, 1), (5, 64), (750, 8), (6, 7)] {
        let bands = plan_bands((10, h), cx(-S, S), cx(S, -S), workers);
        let mut covered = vec![0u32; h];
        for (k, band) in bands.iter().enumerate() {
            assert_eq!(band.index, k);
            assert!(band.height >= 1);
            assert!(band.top + band.height <= h);
            for row in band.top..band.top + band.height {
                covered[row] += 1;
            }
        }
        assert!(covered.iter().all(|&n| n == 1), "h = {}, workers = {}", h, workers);
        assert!(bands.len() <= workers.max(1));
    }
}

// The band plan: ceil-style chunks of floor(h / n) + 1 rows, and the
// derived corners of the first band start at the full upper-left corner.
#[test]
fn band_plan_rows_and_corners() {
    let ul = cx(-2 * S, S);
    let lr = cx(S, -2 * S);
    let bands = plan_bands((10, 13), ul, lr, 4);
    // rows per band: 13 / 4 + 1 = 4
    let tops: Vec<usize> = bands.iter().map(|b| b.top).collect();
    let heights: Vec<usize> = bands.iter().map(|b| b.height).collect();
    assert_eq!(tops, vec![0, 4, 8, 12]);
    assert_eq!(heights, vec![4, 4, 4, 1]);
    assert_eq!(bands[0].upper_left, ul);
    assert_eq!(
        bands[0].lower_right,
        pixel_to_point((10, 13), (10, 4), ul, lr)
    );
}

// A worker count of zero is clamped up to one.
#[test]
fn zero_workers_clamped_to_one() {
    let ul = cx(-S, S);
    let lr = cx(S, -S);
    let bands = plan_bands((4, 3), ul, lr, 0);
    assert_eq!(bands.len(), 1);
    assert_eq!(bands[0].top, 0);
    assert_eq!(bands[0].height, 3);
    assert_eq!(render_image((4, 3), ul, lr, 0), render_image((4, 3), ul, lr, 1));
}

// Degenerate dimensions are rejected before any mapping.
#[test]
fn zero_dimensions_rejected() {
    assert_eq!(render_image((0, 5), cx(-S, S), cx(S, -S), 4), None);
    assert_eq!(render_image((5, 0), cx(-S, S), cx(S, -S), 4), None);
    assert_eq!(render_image((0, 0), cx(-S, S), cx(S, -S), 4), None);
}

// Oversized dimensions are rejected rather than overflowing.
#[test]
fn oversized_dimensions_rejected() {
    assert_eq!(render_image((usize::MAX, 5), cx(-S, S), cx(S, -S), 4), None);
    assert_eq!(render_image((5, usize::MAX), cx(-S, S), cx(S, -S), 4), None);
}

// A 1x1 image: the single pixel maps to the upper-left corner.
#[test]
fn one_pixel_image() {
    // corner far outside the set: brightest
    let buf = render_image((1, 1), cx(4 * S, 4 * S), cx(5 * S, 3 * S), 1).unwrap();
    assert_eq!(buf, vec![255]);
    // corner at the origin: in the set, black
    let buf = render_image((1, 1), cx(0, 0), cx(S, -S), 1).unwrap();
    assert_eq!(buf, vec![0]);
}

#[test]
fn parse_pair_reads_both_sides() {
    assert_eq!(parse_pair("1000x750", 'x'), Some((1000, 750)));
    assert_eq!(parse_pair("10,20", ','), Some((10, 20)));
    assert_eq!(parse_pair("0x10", 'x'), Some((0, 10)));
    assert_eq!(parse_pair("+5x3", 'x'), Some((5, 3)));
}

#[test]
fn parse_pair_rejects_malformed_input() {
    assert_eq!(parse_pair("", ','), None);
    assert_eq!(parse_pair("10,", ','), None);
    assert_eq!(parse_pair(",10", ','), None);
    assert_eq!(parse_pair("1020", 'x'), None);
    assert_eq!(parse_pair("10x20", ','), None);
    assert_eq!(parse_pair("a,5", ','), None);
}

#[test]
fn parse_u64_reads_digits() {
    assert_eq!(parse_u64("0"), Some(0));
    assert_eq!(parse_u64("123"), Some(123));
    assert_eq!(parse_u64("18446744073709551615"), Some(u64::MAX));
    // one leading plus sign is allowed, as in unsigned from_str
    assert_eq!(parse_u64("+5"), Some(5));
    assert_eq!(parse_u64("+0"), Some(0));
    assert_eq!(parse_u64("+18446744073709551615"), Some(u64::MAX));
}

#[test]
fn parse_u64_rejects_non_digits_and_overflow() {
    assert_eq!(parse_u64(""), None);
    assert_eq!(parse_u64("12a"), None);
    assert_eq!(parse_u64("-5"), None);
    assert_eq!(parse_u64("+"), None);
    assert_eq!(parse_u64("++5"), None);
    assert_eq!(parse_u64("5+"), None);
    assert_eq!(parse_u64("18446744073709551616"), None);
    assert_eq!(parse_u64("99999999999999999999999"), None);
}
