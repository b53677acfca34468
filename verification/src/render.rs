//! The band renderer: fills a row-major byte buffer, one byte per pixel,
//! from the escape time of the point each pixel maps to.
use vstd::prelude::*;
use crate::plane::{Complex, dims_ok, in_range, map_pixel, pixel_to_point};
use crate::escape::{escape_spec, escape_time};

verus! {

/// The fixed iteration limit of the renderer: one byte of brightness.
pub const ESCAPE_LIMIT: usize = 255;

/// The brightness written for one pixel: `255 - i` when the point escapes at
/// iteration `i` (brighter for faster escape), `0` when it never escapes
/// within the limit.
pub open spec fn pixel_byte(
    bounds: (usize, usize),
    pixel: (usize, usize),
    ul: Complex,
    lr: Complex,
) -> u8 {
    match escape_spec(map_pixel(bounds, pixel, ul, lr), ESCAPE_LIMIT as int) {
        Some(i) => (255 - i) as u8,
        None => 0u8,
    }
}

/// A row-major index from a strictly earlier row stays below `row * w`.
proof fn lemma_index_below(r: int, c: int, row: int, w: int)
    requires
        0 <= r < row,
        0 <= c < w,
    ensures
        r * w + c < row * w,
{
    assert(r * w + c < row * w) by (nonlinear_arith)
        requires 0 <= r < row && 0 <= c < w;
}

/// A row-major index of a pixel inside the image stays inside the buffer.
proof fn lemma_index_in_image(row: int, col: int, w: int, h: int)
    requires
        0 <= row < h,
        0 <= col < w,
    ensures
        0 <= row * w + col < w * h,
{
    assert(0 <= row * w + col < w * h) by (nonlinear_arith)
        requires 0 <= row < h && 0 <= col < w;
}

/// Fills the whole buffer, which must hold exactly width * height bytes,
/// iterating every (row, col) pair in row-major order: each pixel is mapped
/// to its complex point and classified by escape time with limit 255.
pub fn render(
    pixels: &mut Vec<u8>,
    bounds: (usize, usize),
    upper_left: Complex,
    lower_right: Complex,
)
    requires
        old(pixels).len() == bounds.0 * bounds.1,
        dims_ok(bounds),
        in_range(upper_left),
        in_range(lower_right),
    ensures
        final(pixels).len() == bounds.0 * bounds.1,
        forall|row: usize, col: usize|
            row < bounds.1 && col < bounds.0
                ==> final(pixels)@[row as int * bounds.0 + col as int]
                    == #[trigger] pixel_byte(bounds, (col, row), upper_left, lower_right),
{
    let w = bounds.0;
    let h = bounds.1;
    let mut row: usize = 0;
    while row < h
        invariant
            row <= h,
            w == bounds.0,
            h == bounds.1,
            pixels.len() == w * h,
            dims_ok(bounds),
            in_range(upper_left),
            in_range(lower_right),
            forall|r: usize, c: usize|
                r < row && c < w
                    ==> pixels@[r as int * w + c as int]
                        == #[trigger] pixel_byte(bounds, (c, r), upper_left, lower_right),
        decreases h - row,
    {
        let mut col: usize = 0;
        while col < w
            invariant
                row < h,
                col <= w,
                w == bounds.0,
                h == bounds.1,
                pixels.len() == w * h,
                dims_ok(bounds),
                in_range(upper_left),
                in_range(lower_right),
                forall|r: usize, c: usize|
                    r < row && c < w
                        ==> pixels@[r as int * w + c as int]
                            == #[trigger] pixel_byte(bounds, (c, r), upper_left, lower_right),
                forall|c: usize|
                    c < col
                        ==> pixels@[row as int * w + c as int]
                            == #[trigger] pixel_byte(bounds, (c, row), upper_left, lower_right),
            decreases w - col,
        {
            let point = pixel_to_point(bounds, (col, row), upper_left, lower_right);
            let byte: u8 = match escape_time(point, ESCAPE_LIMIT) {
                Some(i) => 255 - (i as u8),
                None => 0,
            };
            proof {
                lemma_index_in_image(row as int, col as int, w as int, h as int);
            }
            let idx = row * w + col;
            pixels[idx] = byte;
            proof {
                assert(byte == pixel_byte(bounds, (col, row), upper_left, lower_right));
                assert forall|r: usize, c: usize| r < row && c < w
                    implies pixels@[r as int * w + c as int]
                        == #[trigger] pixel_byte(bounds, (c, r), upper_left, lower_right) by {
                    lemma_index_below(r as int, c as int, row as int, w as int);
                }
            }
            col = col + 1;
        }
        row = row + 1;
    }
}

} // verus!
