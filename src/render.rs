//! Filling a band of grey pixels from escape times.

use vstd::prelude::*;

verus! {

/// Iteration limit used for every pixel.
pub const ESCAPE_LIMIT: u32 = 255;

/// Grey level of a pixel whose orbit first escaped at iteration `i`:
/// `255 - i`, clamped at 0; a point that never escaped is black.
pub open spec fn shade_of(escape: Option<u32>) -> u8 {
    match escape {
        None => 0u8,
        Some(i) => if i >= 255 { 0u8 } else { (255 - i) as u8 },
    }
}

/// Position of pixel (`column`, `row`) in a row-major buffer `width` wide.
pub open spec fn pixel_index(width: int, column: int, row: int) -> int {
    row * width + column
}

/// `byte` is the shade of one escape time that `escape_at` may report for
/// (`column`, `row`).
pub open spec fn shaded_from<F: Fn(usize, usize) -> Option<u32>>(
    escape_at: F,
    column: usize,
    row: usize,
    byte: u8,
) -> bool {
    exists|e: Option<u32>| escape_at.ensures((column, row), e) && byte == shade_of(e)
}

/// Why a band could not be rendered.
#[derive(Clone, Copy, Debug, PartialEq, Eq, Structural)]
pub enum RenderError {
    /// The buffer does not hold exactly one byte per pixel.
    BufferLength,
}

/// Grey level for an escape time.
pub fn pixel_shade(escape: Option<u32>) -> (r: u8)
    ensures
        r == shade_of(escape),
{
    match escape {
        None => 0,
        Some(i) => if i >= 255 { 0 } else { (255 - i) as u8 },
    }
}

/// Writes every pixel of a `bounds.0` by `bounds.1` band, row-major: pixel
/// (column, row) gets the shade of `escape_at(column, row)`. A buffer whose
/// length is not `bounds.0 * bounds.1` is refused and left as it was.
pub fn render<F: Fn(usize, usize) -> Option<u32>>(
    pixels: &mut [u8],
    bounds: (usize, usize),
    escape_at: F,
) -> (r: Result<(), RenderError>)
    requires
        forall|c: usize, row: usize|
            c < bounds.0 && row < bounds.1 ==> #[trigger] escape_at.requires((c, row)),
    ensures
        r is Err <==> old(pixels)@.len() != bounds.0 * bounds.1,
        final(pixels)@.len() == old(pixels)@.len(),
        r is Err ==> final(pixels)@ == old(pixels)@,
        r is Ok ==> forall|c: usize, row: usize|
            c < bounds.0 && row < bounds.1 ==> #[trigger] shaded_from(
                escape_at,
                c,
                row,
                final(pixels)@[pixel_index(bounds.0 as int, c as int, row as int)],
            ),
{
    let (width, height) = bounds;
    let n = pixels.len();
    let len = match width.checked_mul(height) {
        Some(n) => n,
        None => return Err(RenderError::BufferLength),
    };
    if n != len {
        return Err(RenderError::BufferLength);
    }
    let mut row: usize = 0;
    while row < height
        invariant
            bounds == (width, height),
            len == width * height,
            pixels@.len() == len,
            row <= height,
            forall|c: usize, r: usize|
                c < width && r < height ==> #[trigger] escape_at.requires((c, r)),
            forall|c: usize, r: usize|
                c < width && r < row ==> #[trigger] shaded_from(
                    escape_at,
                    c,
                    r,
                    pixels@[pixel_index(width as int, c as int, r as int)],
                ),
        decreases height - row,
    {
        let mut column: usize = 0;
        while column < width
            invariant
                bounds == (width, height),
                len == width * height,
                pixels@.len() == len,
                row < height,
                column <= width,
                forall|c: usize, r: usize|
                    c < width && r < height ==> #[trigger] escape_at.requires((c, r)),
                forall|c: usize, r: usize|
                    (c < width && r < row) || (c < column && r == row) ==> #[trigger] shaded_from(
                        escape_at,
                        c,
                        r,
                        pixels@[pixel_index(width as int, c as int, r as int)],
                    ),
            decreases width - column,
        {
            assert(row * width + column < width * height) by (nonlinear_arith)
                requires
                    row < height,
                    column < width,
            ;
            let index = row * width + column;
            let e = escape_at(column, row);
            let byte = pixel_shade(e);
            let ghost before = pixels@;
            pixels[index] = byte;
            assert forall|c: usize, r: usize|
                (c < width && r < row) || (c < column + 1 && r == row) implies #[trigger] shaded_from(
                    escape_at,
                    c,
                    r,
                    pixels@[pixel_index(width as int, c as int, r as int)],
                ) by {
                if c == column && r == row {
                    assert(pixel_index(width as int, c as int, r as int) == index);
                    assert(escape_at.ensures((c, r), e) && pixels@[pixel_index(
                        width as int,
                        c as int,
                        r as int,
                    )] == shade_of(e));
                } else {
                    assert(pixel_index(width as int, c as int, r as int) != index
                        && 0 <= pixel_index(width as int, c as int, r as int) < width * height)
                        by (nonlinear_arith)
                        requires
                            c < width,
                            column < width,
                            r <= row < height,
                            (c, r) != (column, row),
                            index == row * width + column,
                    ;
                    assert(shaded_from(escape_at, c, r, before[pixel_index(width as int, c as int, r as int)]));
                }
            }
            column = column + 1;
        }
        row = row + 1;
    }
    Ok(())
}

} // verus!
