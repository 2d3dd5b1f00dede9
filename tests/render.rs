use mandelbrot::render::{pixel_shade, render, RenderError, ESCAPE_LIMIT};

#[test]
fn shade_of_escape_times() {
    assert_eq!(pixel_shade(None), 0);
    assert_eq!(pixel_shade(Some(0)), 255);
    assert_eq!(pixel_shade(Some(1)), 254);
    assert_eq!(pixel_shade(Some(254)), 1);
    assert_eq!(pixel_shade(Some(255)), 0);
    assert_eq!(pixel_shade(Some(100_000)), 0);
}

#[test]
fn escape_limit_is_255() {
    assert_eq!(ESCAPE_LIMIT, 255);
}

#[test]
fn render_fills_row_major() {
    let mut pixels = vec![7u8; 6];
    let r = render(&mut pixels, (3, 2), |c, row| {
        if c == row {
            None
        } else {
            Some((10 * row + c) as u32)
        }
    });
    assert_eq!(r, Ok(()));
    assert_eq!(pixels, vec![0, 254, 253, 245, 0, 243]);
}

#[test]
fn render_refuses_short_buffer() {
    let mut pixels = vec![9u8; 5];
    let r = render(&mut pixels, (3, 2), |_, _| Some(0));
    assert_eq!(r, Err(RenderError::BufferLength));
    assert_eq!(pixels, vec![9u8; 5]);
}

#[test]
fn render_refuses_long_buffer() {
    let mut pixels = vec![9u8; 7];
    let r = render(&mut pixels, (3, 2), |_, _| Some(0));
    assert_eq!(r, Err(RenderError::BufferLength));
    assert_eq!(pixels, vec![9u8; 7]);
}

#[test]
fn render_refuses_overflowing_bounds() {
    let mut pixels = vec![1u8; 4];
    let r = render(&mut pixels, (usize::MAX, 2), |_, _| None);
    assert_eq!(r, Err(RenderError::BufferLength));
    assert_eq!(pixels, vec![1u8; 4]);
}
