use vstd::prelude::*;

verus! {

/// A pixel position on the screen grid, with a depth value.
#[derive(Clone, Copy, Debug, PartialEq, Eq, Structural)]
pub struct GridPosition {
    pub x: u16,
    pub y: u16,
    pub z: u16,
}

/// The row-major index of the pixel `(x, y)` in a buffer that is `width` pixels wide.
pub open spec fn pixel_index(x: int, y: int, width: int) -> int {
    y * width + x
}

impl GridPosition {
    /// The position with `x` and `y` exchanged.
    pub open spec fn transposed(self) -> GridPosition {
        GridPosition { x: self.y, y: self.x, z: self.z }
    }

    /// Row-major index of this position in a buffer `width` pixels wide.
    pub fn to_idx(&self, width: u16) -> (idx: usize)
        ensures
            idx == pixel_index(self.x as int, self.y as int, width as int),
    {
        proof {
            assert(self.y * width <= 65535 * 65535) by (nonlinear_arith)
                requires self.y <= 65535, width <= 65535;
            assert(65535 * 65535 + 65535 <= usize::MAX);
        }
        (self.y as usize) * (width as usize) + (self.x as usize)
    }

    /// The same position with `x` and `y` exchanged.
    pub fn transpose_xy(&self) -> (t: GridPosition)
        ensures
            t == self.transposed(),
    {
        GridPosition { x: self.y, y: self.x, z: self.z }
    }
}

/// Exchanging `x` and `y` twice gives the position back.
pub proof fn lemma_transpose_xy_involution(p: GridPosition)
    ensures
        p.transposed().transposed() == p,
{
}

/// Inside a row of `width` pixels, different positions have different buffer indices.
pub proof fn lemma_pixel_index_injective(p: GridPosition, q: GridPosition, width: int)
    requires
        p.x < width,
        q.x < width,
        pixel_index(p.x as int, p.y as int, width) == pixel_index(q.x as int, q.y as int, width),
    ensures
        p.x == q.x,
        p.y == q.y,
{
    assert(p.y == q.y) by (nonlinear_arith)
        requires
            0 <= p.x < width,
            0 <= q.x < width,
            p.y * width + p.x == q.y * width + q.x,
    ;
}

} // verus!
