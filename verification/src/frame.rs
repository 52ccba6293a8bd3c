//! The flat RGBA pixel buffer that the rasterizer writes into: row-major,
//! top-left origin, four bytes per pixel.

use vstd::prelude::*;

use crate::Error;

verus! {

/// Largest accepted frame width or height. Keeping both dimensions below
/// `2^31` lets every pixel address and every barycentric product be computed
/// exactly in machine integers.
pub const MAX_FRAME_DIM: usize = 0x7FFF_FFFF;

/// A `width x height` grid of RGBA pixels in one flat byte vector, row-major
/// with the origin at the top left: pixel `(x, y)` starts at byte
/// `(y * width + x) * 4`.
pub struct Frame {
    pub width: usize,
    pub height: usize,
    pub data: Vec<u8>,
}

/// First byte of pixel `(x, y)` in a row-major buffer `width` pixels wide.
pub open spec fn pixel_idx(width: int, x: int, y: int) -> int {
    (y * width + x) * 4
}

/// The four bytes of pixel `(x, y)` of frame `f`.
pub open spec fn pixel_of(f: Frame, x: int, y: int) -> Seq<u8> {
    f.data@.subrange(pixel_idx(f.width as int, x, y), pixel_idx(f.width as int, x, y) + 4)
}

/// `b` keeps the dimensions of `a`.
pub open spec fn same_dims(a: Frame, b: Frame) -> bool {
    b.width == a.width && b.height == a.height
}

impl Frame {
    /// The buffer is exactly large enough for its pixel grid and its
    /// dimensions are small enough for exact pixel addressing.
    pub open spec fn wf(self) -> bool {
        &&& self.width <= MAX_FRAME_DIM
        &&& self.height <= MAX_FRAME_DIM
        &&& self.data@.len() == self.width * self.height * 4
    }

    /// Allocates a zeroed frame. Dimensions of zero, or too large for the
    /// byte count to fit in `usize`, are rejected with `InvalidDimension`.
    pub fn new(width: usize, height: usize) -> (r: Result<Frame, Error>)
        ensures
            match r {
                Ok(f) => {
                    &&& 1 <= width <= MAX_FRAME_DIM
                    &&& 1 <= height <= MAX_FRAME_DIM
                    &&& width * height * 4 <= usize::MAX
                    &&& f.wf()
                    &&& f.width == width
                    &&& f.height == height
                    &&& f.data@ == Seq::new((width * height * 4) as nat, |i: int| 0u8)
                },
                Err(e) => {
                    &&& e == Error::InvalidDimension
                    &&& (width < 1 || height < 1 || width > MAX_FRAME_DIM || height > MAX_FRAME_DIM
                        || width * height * 4 > usize::MAX)
                },
            },
    {
        if width < 1 || height < 1 || width > MAX_FRAME_DIM || height > MAX_FRAME_DIM {
            return Err(Error::InvalidDimension);
        }
        let Some(pixels) = width.checked_mul(height) else {
            return Err(Error::InvalidDimension);
        };
        let Some(bytes) = pixels.checked_mul(4) else {
            return Err(Error::InvalidDimension);
        };
        let data: Vec<u8> = vec![0u8; bytes];
        Ok(Frame { width, height, data })
    }
}

/// Pixel `(x, y)` starts within the buffer: its four bytes fit before the end.
pub proof fn lemma_pixel_idx_in_range(width: int, height: int, x: int, y: int)
    by (nonlinear_arith)
    requires
        0 <= x < width,
        0 <= y < height,
    ensures
        0 <= pixel_idx(width, x, y),
        pixel_idx(width, x, y) + 4 <= width * height * 4,
{
}

/// Distinct pixels occupy disjoint four-byte ranges.
pub proof fn lemma_pixel_idx_disjoint(width: int, x1: int, y1: int, x2: int, y2: int)
    by (nonlinear_arith)
    requires
        0 <= x1 < width,
        0 <= x2 < width,
        0 <= y1,
        0 <= y2,
        !(x1 == x2 && y1 == y2),
    ensures
        pixel_idx(width, x1, y1) + 4 <= pixel_idx(width, x2, y2)
            || pixel_idx(width, x2, y2) + 4 <= pixel_idx(width, x1, y1),
{
}

} // verus!
