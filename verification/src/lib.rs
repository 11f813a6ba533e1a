//! The data kernel of a small ray tracer.
//!
//! * [`matrix`]: square matrices of fixed dimension with their transposes
//!   and submatrices, and the sign rule of cofactors.
//! * [`canvas`]: a grid of pixels that clips writes outside its bounds.
//! * [`true_color`]: colours of one byte per channel, and the clamping of
//!   channel values to a byte.
//! * [`ppm`]: the plain-text image of a canvas.
//! * [`lines`] and [`decimal`]: the line splitting and the number notation
//!   that the image is made of.
//!
//! Matrices and canvases leave the type of their entries and pixels open, so
//! that a renderer can keep floating-point values in them; nothing in this
//! crate computes with such values.

pub mod canvas;
pub mod decimal;
pub mod lines;
pub mod matrix;
pub mod ppm;
pub mod true_color;
