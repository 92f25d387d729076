//! A verified escape-time fractal renderer.
//!
//! The pipeline computes a scalar field over a rectangle of the complex
//! plane with an escape-time kernel, normalizes the raw iteration counts
//! into unit scalars, and maps each scalar through a color gradient into
//! an RGB pixel buffer. All plane coordinates and unit scalars are held
//! in fixed-point form: a value `v` stands for the real number
//! `v / SCALE`, so every step of the pipeline is exact integer
//! arithmetic with a proved contract.
use vstd::prelude::*;

pub mod color;
pub mod field;
pub mod canvas;
pub mod normalize;
pub mod raster;

verus! {

/// Fixed-point denominator: an integer `v` stands for the real `v / SCALE`.
pub const SCALE: u32 = 1000000;

} // verus!
