//! Marching-squares terrain core: a scalar field painted one cell at a time,
//! a per-cell case index derived by thresholding, a fixed 16-entry triangle
//! table, and a rasterizer that fills triangles and rectangles into a flat
//! RGBA pixel buffer.
//!
//! Scalar samples are stored in fixed-point thousandths (`SCALAR_ONE` stands
//! for 1.0), so that thresholding and shading are exact integer arithmetic.

use vstd::prelude::*;

pub mod frame;
pub mod render;
pub mod terrain;

verus! {

/// One whole unit of the scalar field, in thousandths. Every sample and the
/// threshold lie in `0 ..= SCALAR_ONE`.
pub const SCALAR_ONE: u32 = 1000;

/// The errors raised by precondition-checking entry points: a grid smaller
/// than the smallest meaningful one, a scalar outside `0 ..= SCALAR_ONE`, or
/// a cell coordinate outside the grid.
#[derive(Clone, Copy, Debug, PartialEq, Eq, Structural)]
pub enum Error {
    InvalidDimension,
    InvalidValue,
    OutOfBounds,
}

} // verus!
