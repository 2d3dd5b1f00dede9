//! Partition of an image into horizontal bands, one per rendering task.
//!
//! Each band but the last holds `height / threads + 1` rows; the last holds
//! what remains. Bands are consecutive, so their byte ranges tile the
//! row-major buffer.

use vstd::arithmetic::div_mod::{lemma_fundamental_div_mod, lemma_fundamental_div_mod_converse};
use vstd::prelude::*;

use crate::render::{pixel_index, shade_of, shaded_from};

verus! {

/// Rows in every band but the last, for `threads` tasks.
pub open spec fn band_height_of(height: int, threads: int) -> int {
    height / threads + 1
}

/// Number of bands: `height` divided by the band height, rounded up.
pub open spec fn band_count_of(height: int, threads: int) -> int {
    (height + band_height_of(height, threads) - 1) / band_height_of(height, threads)
}

/// First row of band `i`.
pub open spec fn band_top_of(height: int, threads: int, i: int) -> int {
    i * band_height_of(height, threads)
}

/// Rows of band `i`: the band height, or what is left below its top.
pub open spec fn band_rows_of(height: int, threads: int, i: int) -> int {
    let top = band_top_of(height, threads, i);
    if height - top < band_height_of(height, threads) {
        height - top
    } else {
        band_height_of(height, threads)
    }
}

/// One horizontal band: rows `top .. top + rows`, which are the bytes
/// `start .. end` of the whole image's buffer.
#[derive(Clone, Copy, Debug, PartialEq, Eq, Structural)]
pub struct Band {
    pub top: usize,
    pub rows: usize,
    pub start: usize,
    pub end: usize,
}

/// `b` is band `i` of a `width` by `height` image split for `threads` tasks.
pub open spec fn is_band_of(b: Band, width: int, height: int, threads: int, i: int) -> bool {
    &&& b.top == band_top_of(height, threads, i)
    &&& b.rows == band_rows_of(height, threads, i)
    &&& b.start == b.top * width
    &&& b.end == (b.top + b.rows) * width
}

/// `bands` is the whole split of a `width` by `height` image for `threads`
/// tasks, in order from the top.
pub open spec fn is_layout(bands: Seq<Band>, width: int, height: int, threads: int) -> bool {
    &&& bands.len() == band_count_of(height, threads)
    &&& forall|i: int| 0 <= i < bands.len() ==> is_band_of(#[trigger] bands[i], width, height, threads, i)
}

/// The bounds of an image whose buffer can be allocated.
pub open spec fn valid_bounds(bounds: (usize, usize)) -> bool {
    &&& bounds.0 > 0
    &&& bounds.1 > 0
    &&& bounds.0 * bounds.1 <= isize::MAX
}

/// The image whose pixel (column, row) is `f(column, row)`, row-major.
pub open spec fn image_of(width: int, height: int, f: spec_fn(int, int) -> u8) -> Seq<u8> {
    Seq::new((width * height) as nat, |k: int| f(k % width, k / width))
}

/// The pixels of `rows` rows from `top` on, with pixel (column, row) of the
/// whole image given by `f`.
pub open spec fn band_image(width: int, top: int, rows: int, f: spec_fn(int, int) -> u8) -> Seq<u8> {
    Seq::new((rows * width) as nat, |k: int| f(k % width, top + k / width))
}

/// The first `n` bands of the split for `threads`, each rendered on its
/// own and laid one after the other.
pub open spec fn assembled(
    width: int,
    height: int,
    threads: int,
    f: spec_fn(int, int) -> u8,
    n: nat,
) -> Seq<u8>
    decreases n,
{
    if n == 0 {
        Seq::empty()
    } else {
        assembled(width, height, threads, f, (n - 1) as nat) + band_image(
            width,
            band_top_of(height, threads, n - 1),
            band_rows_of(height, threads, n - 1),
            f,
        )
    }
}

/// The buffer of all bands of the split for `threads`, laid in order.
pub open spec fn assembled_image(
    width: int,
    height: int,
    threads: int,
    f: spec_fn(int, int) -> u8,
) -> Seq<u8> {
    assembled(width, height, threads, f, band_count_of(height, threads) as nat)
}

/// The band count covers the image and no more: the bands before the last
/// end above the bottom row, and all of them reach it.
proof fn lemma_count_bounds(height: int, threads: int)
    requires
        height > 0,
        threads > 0,
    ensures
        band_height_of(height, threads) > 0,
        band_count_of(height, threads) * band_height_of(height, threads) >= height,
        (band_count_of(height, threads) - 1) * band_height_of(height, threads) < height,
{
    let step = band_height_of(height, threads);
    let n = band_count_of(height, threads);
    let x = height + step - 1;
    lemma_fundamental_div_mod(x, step);
    assert(n * step >= height && (n - 1) * step < height) by (nonlinear_arith)
        requires
            x == step * n + x % step,
            0 <= x % step < step,
            x == height + step - 1,
    ;
}

/// A split never has more bands than tasks, and has at least one.
pub proof fn lemma_band_count_within_threads(height: int, threads: int)
    requires
        height > 0,
        threads > 0,
    ensures
        0 < band_count_of(height, threads) <= threads,
{
    let step = band_height_of(height, threads);
    let n = band_count_of(height, threads);
    lemma_count_bounds(height, threads);
    lemma_fundamental_div_mod(height, threads);
    assert(step * threads > height) by (nonlinear_arith)
        requires
            height == threads * (height / threads) + height % threads,
            height % threads < threads,
            step == height / threads + 1,
    ;
    assert(0 < n <= threads) by (nonlinear_arith)
        requires
            (n - 1) * step < height,
            n * step >= height,
            step * threads > height,
            step > 0,
            height > 0,
    ;
}

/// Every row of the image lies in exactly one band: band `row / (height /
/// threads + 1)`.
pub proof fn lemma_row_in_one_band(height: int, threads: int, row: int)
    requires
        height > 0,
        threads > 0,
        0 <= row < height,
    ensures
        ({
            let i = row / band_height_of(height, threads);
            &&& 0 <= i < band_count_of(height, threads)
            &&& band_top_of(height, threads, i) <= row
            &&& row < band_top_of(height, threads, i) + band_rows_of(height, threads, i)
        }),
        forall|j: int|
            0 <= j < band_count_of(height, threads) && #[trigger] band_top_of(height, threads, j)
                <= row < band_top_of(height, threads, j) + band_rows_of(height, threads, j) ==> j
                == row / band_height_of(height, threads),
{
    let step = band_height_of(height, threads);
    let n = band_count_of(height, threads);
    let i = row / step;
    lemma_count_bounds(height, threads);
    lemma_fundamental_div_mod(row, step);
    assert(0 <= i < n && i * step <= row < i * step + step) by (nonlinear_arith)
        requires
            row == step * i + row % step,
            0 <= row % step < step,
            0 <= row < height,
            n * step >= height,
            step > 0,
    ;
    assert forall|j: int|
        0 <= j < n && #[trigger] band_top_of(height, threads, j) <= row < band_top_of(
            height,
            threads,
            j,
        ) + band_rows_of(height, threads, j) implies j == i by {
        assert(j * step <= row < j * step + step);
        lemma_fundamental_div_mod_converse(row, step, j, row - j * step);
    }
}

/// The first `n` bands, laid in order, are the first rows of the image.
proof fn lemma_assembled_prefix(
    width: int,
    height: int,
    threads: int,
    f: spec_fn(int, int) -> u8,
    n: nat,
)
    requires
        width > 0,
        height > 0,
        threads > 0,
        n <= band_count_of(height, threads),
    ensures
        assembled(width, height, threads, f, n) =~= Seq::new(
            (width * (if n * band_height_of(height, threads) < height {
                n * band_height_of(height, threads)
            } else {
                height
            })) as nat,
            |k: int| f(k % width, k / width),
        ),
    decreases n,
{
    let step = band_height_of(height, threads);
    lemma_count_bounds(height, threads);
    if n > 0 {
        let m = (n - 1) as nat;
        lemma_assembled_prefix(width, height, threads, f, m);
        let top = band_top_of(height, threads, m as int);
        let rows = band_rows_of(height, threads, m as int);
        assert(top < height && top == m * step && n * step == top + step) by (nonlinear_arith)
            requires
                m + 1 <= band_count_of(height, threads),
                (band_count_of(height, threads) - 1) * step < height,
                top == m * step,
                n == m + 1,
                step > 0,
        ;
        let prefix = assembled(width, height, threads, f, m);
        let band = band_image(width, top, rows, f);
        assert(prefix.len() == width * top);
        assert((top + rows) * width == width * top + rows * width) by (nonlinear_arith);
        assert forall|k: int| width * top <= k < width * top + rows * width implies #[trigger] band[k
            - width * top] == f(k % width, k / width) by {
            let j = k - width * top;
            lemma_fundamental_div_mod(j, width);
            assert(k == (top + j / width) * width + j % width) by (nonlinear_arith)
                requires
                    j == width * (j / width) + j % width,
                    j == k - width * top,
            ;
            lemma_fundamental_div_mod_converse(k, width, top + j / width, j % width);
        }
        let end = if n * step < height {
            n * step
        } else {
            height
        };
        assert(end == top + rows);
        assert(width * end == width * top + rows * width) by (nonlinear_arith)
            requires
                end == top + rows,
        ;
        let whole = Seq::new((width * end) as nat, |k: int| f(k % width, k / width));
        assert(assembled(width, height, threads, f, n) == prefix + band);
        assert forall|k: int| 0 <= k < whole.len() implies #[trigger] (prefix + band)[k] == whole[k] by {
            if k >= width * top {
                assert(band[k - width * top] == f(k % width, k / width));
            }
        }
        assert(assembled(width, height, threads, f, n) =~= whole);
    } else {
        assert(n * step == 0 && width * 0 == 0) by (nonlinear_arith)
            requires
                n == 0,
        ;
        assert(assembled(width, height, threads, f, n) =~= Seq::new(
            (width * 0) as nat,
            |k: int| f(k % width, k / width),
        ));
    }
}

/// Rendering the bands on their own and laying them one after the other
/// gives the whole image, whatever the number of tasks.
pub proof fn lemma_assembled_is_image(width: int, height: int, threads: int, f: spec_fn(int, int) -> u8)
    requires
        width > 0,
        height > 0,
        threads > 0,
    ensures
        assembled_image(width, height, threads, f) == image_of(width, height, f),
{
    lemma_count_bounds(height, threads);
    lemma_assembled_prefix(width, height, threads, f, band_count_of(height, threads) as nat);
    assert(assembled_image(width, height, threads, f) =~= image_of(width, height, f));
}

/// The partition does not change the output: splits for two task counts
/// give byte-for-byte the same buffer.
pub proof fn lemma_output_independent_of_threads(
    width: int,
    height: int,
    threads_a: int,
    threads_b: int,
    f: spec_fn(int, int) -> u8,
)
    requires
        width > 0,
        height > 0,
        threads_a > 0,
        threads_b > 0,
    ensures
        assembled_image(width, height, threads_a, f) == assembled_image(width, height, threads_b, f),
{
    lemma_assembled_is_image(width, height, threads_a, f);
    lemma_assembled_is_image(width, height, threads_b, f);
}

/// A band filled by `render` with an escape function whose shade at
/// (column, row) is always `f(column, top + row)` holds exactly that band
/// of the image given by `f`.
pub proof fn lemma_rendered_band<F: Fn(usize, usize) -> Option<u32>>(
    pixels: Seq<u8>,
    escape_at: F,
    bounds: (usize, usize),
    top: int,
    f: spec_fn(int, int) -> u8,
)
    requires
        bounds.0 > 0,
        pixels.len() == bounds.0 * bounds.1,
        forall|c: usize, r: usize|
            c < bounds.0 && r < bounds.1 ==> #[trigger] shaded_from(
                escape_at,
                c,
                r,
                pixels[pixel_index(bounds.0 as int, c as int, r as int)],
            ),
        forall|c: usize, r: usize, e: Option<u32>|
            c < bounds.0 && r < bounds.1 && #[trigger] escape_at.ensures((c, r), e) ==> shade_of(e)
                == f(c as int, top + r),
    ensures
        pixels == band_image(bounds.0 as int, top, bounds.1 as int, f),
{
    let w = bounds.0 as int;
    let h = bounds.1 as int;
    let expected = band_image(w, top, h, f);
    assert(pixels.len() == h * w) by (nonlinear_arith)
        requires
            pixels.len() == w * h,
    ;
    assert forall|k: int| 0 <= k < pixels.len() implies pixels[k] == expected[k] by {
        lemma_fundamental_div_mod(k, w);
        let c = k % w;
        let r = k / w;
        assert(0 <= r < h && r * w + c == k) by (nonlinear_arith)
            requires
                k == w * r + c,
                0 <= c < w,
                0 <= k < w * h,
        ;
        assert(pixel_index(w, c, r) == k);
        assert(shaded_from(escape_at, c as usize, r as usize, pixels[k]));
        let e = choose|e: Option<u32>| escape_at.ensures((c as usize, r as usize), e) && pixels[k] == shade_of(e);
    }
    assert(pixels =~= expected);
}

/// Rows in every band but the last: `height / threads + 1`.
pub fn rows_per_band(height: usize, threads: usize) -> (r: usize)
    requires
        threads > 0,
        height < usize::MAX,
    ensures
        r == band_height_of(height as int, threads as int),
{
    height / threads + 1
}

/// Splits a `bounds.0` by `bounds.1` image into bands for `threads` tasks.
pub fn band_layout(bounds: (usize, usize), threads: usize) -> (r: Vec<Band>)
    requires
        valid_bounds(bounds),
        threads > 0,
    ensures
        is_layout(r@, bounds.0 as int, bounds.1 as int, threads as int),
{
    let (width, height) = bounds;
    assert(height <= width * height) by (nonlinear_arith)
        requires
            width > 0,
    ;
    let step = rows_per_band(height, threads);
    let ghost h = height as int;
    let ghost t = threads as int;
    assert(step <= h + 1) by (nonlinear_arith)
        requires
            t > 0,
            h >= 0,
            step == h / t + 1,
    ;
    let mut bands: Vec<Band> = Vec::new();
    let mut top: usize = 0;
    assert(bands.len() * step == 0) by (nonlinear_arith)
        requires
            bands.len() == 0,
    ;
    while top < height
        invariant
            bounds == (width, height),
            valid_bounds(bounds),
            h == height,
            height <= isize::MAX,
            t == threads,
            t > 0,
            step == band_height_of(h, t),
            0 < step <= h + 1,
            top == bands.len() * step,
            bands.len() == 0 || top - step < height,
            top <= height + step,
            forall|i: int|
                0 <= i < bands.len() ==> is_band_of(#[trigger] bands@[i], width as int, h, t, i),
        decreases height + step - top,
    {
        let rows = if height - top < step {
            height - top
        } else {
            step
        };
        assert(top * width + rows * width <= width * height) by (nonlinear_arith)
            requires
                top + rows <= height,
                width > 0,
        ;
        assert((top + rows) * width == top * width + rows * width) by (nonlinear_arith);
        let start = top * width;
        let end = start + rows * width;
        let ghost i = bands.len() as int;
        bands.push(Band { top, rows, start, end });
        assert(is_band_of(bands@[i], width as int, h, t, i));
        assert((i + 1) * step == i * step + step) by (nonlinear_arith);
        top = top + step;
    }
    proof {
        let n = bands.len() as int;
        let x = h + step - 1;
        lemma_fundamental_div_mod_converse(x, step as int, n, x - n * step);
    }
    bands
}

impl Band {
    /// Pixel positions, in the whole image, of the band's upper-left corner
    /// and of its exclusive lower-right corner (column `width`, the row just
    /// below the band).
    pub fn corners(&self, width: usize) -> (r: ((usize, usize), (usize, usize)))
        requires
            self.top + self.rows <= usize::MAX,
        ensures
            r == ((0usize, self.top), (width, (self.top + self.rows) as usize)),
    {
        ((0, self.top), (width, self.top + self.rows))
    }
}

/// Whether `bounds` describes an image that can be split into bands.
pub fn bounds_fit(bounds: (usize, usize)) -> (r: bool)
    ensures
        r == valid_bounds(bounds),
{
    if bounds.0 == 0 || bounds.1 == 0 {
        return false;
    }
    match bounds.0.checked_mul(bounds.1) {
        Some(n) => n <= isize::MAX as usize,
        None => false,
    }
}

/// Relies on `num_cpus::get`: the number of logical CPUs this process may
/// use, which its documentation says is always at least 1.
#[verifier::external_body]
fn available_cpus() -> (r: usize)
    ensures
        r >= 1,
{
    num_cpus::get()
}

/// Splits an image into bands for as many tasks as this host has logical
/// CPUs; returns that task count with the bands.
pub fn host_band_layout(bounds: (usize, usize)) -> (r: (usize, Vec<Band>))
    requires
        valid_bounds(bounds),
    ensures
        r.0 >= 1,
        is_layout(r.1@, bounds.0 as int, bounds.1 as int, r.0 as int),
{
    let threads = available_cpus();
    (threads, band_layout(bounds, threads))
}

} // verus!
