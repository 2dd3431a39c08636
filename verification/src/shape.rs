//! The shape of a board: its width, height and storage order, as one
//! value that configuration code can carry around.

use vstd::prelude::*;

verus! {

/// Width, height and storage order of a board.
#[derive(Clone, Copy, PartialEq, Eq, Structural, Debug)]
pub struct BitboardShape {
    /// Width in cells.
    pub w: u8,
    /// Height in cells.
    pub h: u8,
    /// Whether the linear index advances fastest along y.
    pub col_major: bool,
}

impl BitboardShape {
    /// Packs a shape.
    pub fn new(w: u8, h: u8, col_major: bool) -> (r: Self)
        ensures
            r.w == w,
            r.h == h,
            r.col_major == col_major,
    {
        BitboardShape { w, h, col_major }
    }
}

} // verus!
