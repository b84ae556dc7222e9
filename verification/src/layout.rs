//! How an image lies in its buffer: row after row, four bytes to a pixel.

use vstd::prelude::*;
use vstd::arithmetic::div_mod::{
    lemma_fundamental_div_mod,
    lemma_fundamental_div_mod_converse,
    lemma_mod_bound,
};

verus! {

/// Bytes in one pixel: red, green, blue and alpha, one byte each.
pub const BYTES_PER_PIXEL: usize = 4;

/// Bytes in the buffer of an image of the given dimensions.
pub open spec fn buffer_len(width: int, height: int) -> int {
    width * height * 4
}

/// Index of channel `ch` of the pixel in column `x` of row `y`.
pub open spec fn offset(width: int, x: int, y: int, ch: int) -> int {
    (y * width + x) * 4 + ch
}

/// Column of the pixel that the byte at index `i` belongs to.
pub open spec fn column_of(width: int, i: int) -> int {
    (i / 4) % width
}

/// Row of the pixel that the byte at index `i` belongs to.
pub open spec fn row_of(width: int, i: int) -> int {
    (i / 4) / width
}

/// Channel that the byte at index `i` holds.
pub open spec fn channel_of(i: int) -> int {
    i % 4
}

/// The pixels of an image are numbered row by row, and no number is used
/// twice.
pub proof fn lemma_pixel_number(width: int, height: int, x: int, y: int)
    by (nonlinear_arith)
    requires
        0 <= x < width,
        0 <= y < height,
    ensures
        0 <= y * width,
        y * width + x < width * height,
        (y + 1) * width == y * width + width,
        width <= width * height,
        height <= width * height,
{
}

/// A pixel's bytes lie inside the buffer, and their indices lead back to
/// the pixel.
pub proof fn lemma_offset(width: int, height: int, x: int, y: int, ch: int)
    requires
        0 <= x < width,
        0 <= y < height,
        0 <= ch < 4,
    ensures
        0 <= offset(width, x, y, ch) < buffer_len(width, height),
        column_of(width, offset(width, x, y, ch)) == x,
        row_of(width, offset(width, x, y, ch)) == y,
        channel_of(offset(width, x, y, ch)) == ch,
{
    lemma_pixel_number(width, height, x, y);
    lemma_fundamental_div_mod_converse(y * width + x, width, y, x);
}

/// Every index into the buffer is that of one channel of one pixel.
pub proof fn lemma_index(width: int, height: int, i: int)
    requires
        width >= 0,
        height >= 0,
        0 <= i < buffer_len(width, height),
    ensures
        0 <= column_of(width, i) < width,
        0 <= row_of(width, i) < height,
        0 <= channel_of(i) < 4,
        offset(width, column_of(width, i), row_of(width, i), channel_of(i)) == i,
{
    let p = i / 4;
    assert(width > 0) by (nonlinear_arith)
        requires
            width >= 0,
            0 < width * height * 4,
    ;
    lemma_fundamental_div_mod(p, width);
    lemma_mod_bound(p, width);
    let q = p / width;
    assert(0 <= q < height) by (nonlinear_arith)
        requires
            width > 0,
            0 <= p < width * height,
            p == width * q + p % width,
            0 <= p % width < width,
    ;
    assert(q * width == width * q) by (nonlinear_arith);
}

/// [`lemma_offset`] for all pixels of an image at once.
pub proof fn lemma_offsets(width: int, height: int)
    ensures
        forall|x: int, y: int, ch: int|
            0 <= x < width && 0 <= y < height && 0 <= ch < 4 ==> {
                let at = #[trigger] offset(width, x, y, ch);
                &&& 0 <= at < buffer_len(width, height)
                &&& column_of(width, at) == x
                &&& row_of(width, at) == y
                &&& channel_of(at) == ch
            },
{
    assert forall|x: int, y: int, ch: int|
        0 <= x < width && 0 <= y < height && 0 <= ch < 4 implies {
        let at = #[trigger] offset(width, x, y, ch);
        &&& 0 <= at < buffer_len(width, height)
        &&& column_of(width, at) == x
        &&& row_of(width, at) == y
        &&& channel_of(at) == ch
    } by {
        lemma_offset(width, height, x, y, ch);
    }
}

} // verus!
