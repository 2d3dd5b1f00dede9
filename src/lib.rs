//! Escape-time rendering of the Mandelbrot set: argument splitting, the
//! per-band pixel loop, and the partition of an image into row bands that
//! are rendered independently.

pub mod parse;
pub mod render;
pub mod schedule;
