//! The buffers of a rasterizer: which of them to clear, what to draw, and
//! the handles of the vertex data that was loaded.

use vstd::prelude::*;

verus! {

/// Which buffers to clear.
#[allow(dead_code)]
#[derive(Clone, Copy, Debug, PartialEq, Eq, Structural)]
pub enum Buffer {
    Color,
    Depth,
    Both,
}

/// What the indices of a draw call describe.
#[allow(dead_code)]
#[derive(Clone, Copy, Debug, PartialEq, Eq, Structural)]
pub enum Primitive {
    Line,
    Triangle,
}

/// The handle of a buffer of positions.
#[derive(Clone, Copy, Debug, PartialEq, Eq, Structural)]
pub struct PosBufId(pub usize);

/// The handle of a buffer of indices.
#[derive(Clone, Copy, Debug, PartialEq, Eq, Structural)]
pub struct IndBufId(pub usize);

/// The handle of a buffer of colours.
#[derive(Clone, Copy, Debug, PartialEq, Eq, Structural)]
pub struct ColBufId(pub usize);

impl Buffer {
    /// Clearing this clears the colours.
    pub fn clears_color(&self) -> (r: bool)
        ensures
            r == (*self == Buffer::Color || *self == Buffer::Both),
    {
        match self {
            Buffer::Color => true,
            Buffer::Depth => false,
            Buffer::Both => true,
        }
    }

    /// Clearing this clears the depths.
    pub fn clears_depth(&self) -> (r: bool)
        ensures
            r == (*self == Buffer::Depth || *self == Buffer::Both),
    {
        match self {
            Buffer::Color => false,
            Buffer::Depth => true,
            Buffer::Both => true,
        }
    }
}

/// Where the pixel in column `x` of row `y` stands in a frame buffer of
/// `width` by `height` pixels that holds the rows from the top down, while
/// `y` counts from the bottom up.
pub open spec fn index_spec(width: int, height: int, x: int, y: int) -> int {
    (height - 1 - y) * width + x
}

/// Computes [`index_spec`]. Inside the frame, the index is inside the
/// buffer, and no two pixels share one.
pub fn get_index(width: u64, height: u64, x: usize, y: usize) -> (r: usize)
    requires
        x < width,
        y < height,
        width * height <= usize::MAX,
    ensures
        r == index_spec(width as int, height as int, x as int, y as int),
        r < width * height,
{
    assert(0 <= (height - 1 - y) * width <= (height - 1) * width && (height - 1) * width + width
        == height * width) by (nonlinear_arith)
        requires
            0 <= y < height,
            width > 0,
    ;
    assert(width * height == height * width) by (nonlinear_arith);
    ((height - 1 - y as u64) * width + x as u64) as usize
}

/// Two pixels of a frame that stand at the same place of the buffer are
/// the same pixel.
pub proof fn lemma_index_unique(width: int, height: int, x1: int, y1: int, x2: int, y2: int)
    requires
        0 <= x1 < width,
        0 <= x2 < width,
        0 <= y1 < height,
        0 <= y2 < height,
        index_spec(width, height, x1, y1) == index_spec(width, height, x2, y2),
    ensures
        x1 == x2,
        y1 == y2,
{
    assert(y1 == y2) by (nonlinear_arith)
        requires
            (height - 1 - y1) * width + x1 == (height - 1 - y2) * width + x2,
            0 <= x1 < width,
            0 <= x2 < width,
    ;
    assert(x1 == x2) by (nonlinear_arith)
        requires
            (height - 1 - y1) * width + x1 == (height - 1 - y2) * width + x2,
            y1 == y2,
    ;
}

} // verus!
