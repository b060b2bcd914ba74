//! The pixel side of a small ray tracer: a fixed-size canvas of pixels
//! addressed by `(x, y)`, and its serialization to the plain-text PPM
//! image format, with channel clamping and greedy line wrapping.
pub mod canvas;
pub mod decimal;
pub mod ppm;

pub use canvas::{Canvas, CanvasError};
pub use ppm::ScaledColor;
