//! Coordinate mapper: translation between cell coordinates `(x, y)` and the
//! linear bit index of a `w` by `h` board, in row-major order (the index
//! advances fastest along x) or column-major order (fastest along y).
//!
//! Coordinates are 0-based; the origin is the bottom-left cell, x grows east
//! and y grows north.

use vstd::prelude::*;

verus! {

/// Linear bit index of the cell `(x, y)`.
pub open spec fn spec_index_of(w: int, h: int, col_major: bool, x: int, y: int) -> int {
    if col_major {
        x * h + y
    } else {
        y * w + x
    }
}

/// x coordinate of the cell at linear index `i`.
pub open spec fn spec_x_of(w: int, h: int, col_major: bool, i: int) -> int {
    if col_major {
        i / h
    } else {
        i % w
    }
}

/// y coordinate of the cell at linear index `i`.
pub open spec fn spec_y_of(w: int, h: int, col_major: bool, i: int) -> int {
    if col_major {
        i % h
    } else {
        i / w
    }
}

/// The index of an in-bounds cell lies below the cell count `w * h`.
pub proof fn lemma_index_of_in_range(w: int, h: int, col_major: bool, x: int, y: int)
    requires
        0 <= x < w,
        0 <= y < h,
    ensures
        0 <= spec_index_of(w, h, col_major, x, y) < w * h,
{
    if col_major {
        assert(0 <= x * h + y < w * h) by (nonlinear_arith)
            requires
                0 <= x < w,
                0 <= y < h,
        ;
    } else {
        assert(0 <= y * w + x < w * h) by (nonlinear_arith)
            requires
                0 <= x < w,
                0 <= y < h,
        ;
    }
}

/// The two coordinates of an index below `w * h` are in bounds, and mapping
/// them back yields the index again.
pub proof fn lemma_coords_of_in_range(w: int, h: int, col_major: bool, i: int)
    requires
        0 <= i < w * h,
        0 <= w,
        0 <= h,
    ensures
        0 <= spec_x_of(w, h, col_major, i) < w,
        0 <= spec_y_of(w, h, col_major, i) < h,
        spec_index_of(
            w,
            h,
            col_major,
            spec_x_of(w, h, col_major, i),
            spec_y_of(w, h, col_major, i),
        ) == i,
{
    if col_major {
        assert(h > 0) by (nonlinear_arith)
            requires
                0 <= i < w * h,
                0 <= h,
        ;
        assert(0 <= i / h && 0 <= i % h < h && (i / h) * h + i % h == i && i / h < w)
            by (nonlinear_arith)
            requires
                0 <= i < w * h,
                0 < h,
        ;
    } else {
        assert(w > 0) by (nonlinear_arith)
            requires
                0 <= i < w * h,
                0 <= w,
        ;
        assert(0 <= i / w && 0 <= i % w < w && (i / w) * w + i % w == i && i / w < h)
            by (nonlinear_arith)
            requires
                0 <= i < w * h,
                0 < w,
        ;
    }
}

/// Mapping a cell to its index and back yields the cell again.
pub proof fn lemma_index_coords_roundtrip(w: int, h: int, col_major: bool, x: int, y: int)
    requires
        0 <= x < w,
        0 <= y < h,
    ensures
        spec_x_of(w, h, col_major, spec_index_of(w, h, col_major, x, y)) == x,
        spec_y_of(w, h, col_major, spec_index_of(w, h, col_major, x, y)) == y,
{
    if col_major {
        assert((x * h + y) / h == x && (x * h + y) % h == y) by (nonlinear_arith)
            requires
                0 <= x,
                0 <= y < h,
        ;
    } else {
        assert((y * w + x) / w == y && (y * w + x) % w == x) by (nonlinear_arith)
            requires
                0 <= y,
                0 <= x < w,
        ;
    }
}

/// Converts `(x, y)` coordinates into a linear bit index.
///
/// The caller must hand in an in-bounds cell; out-of-range coordinates have
/// no defined index.
pub fn index_from_coords(w: u8, h: u8, col_major: bool, x: u8, y: u8) -> (r: usize)
    requires
        x < w,
        y < h,
    ensures
        r == spec_index_of(w as int, h as int, col_major, x as int, y as int),
        r < w as int * h as int,
{
    proof {
        lemma_index_of_in_range(w as int, h as int, col_major, x as int, y as int);
    }
    assert((x as int) * (h as int) + (y as int) < 65536) by (nonlinear_arith)
        requires
            x < 256,
            y < 256,
            h < 256,
    ;
    assert((y as int) * (w as int) + (x as int) < 65536) by (nonlinear_arith)
        requires
            x < 256,
            y < 256,
            w < 256,
    ;
    if col_major {
        x as usize * h as usize + y as usize
    } else {
        y as usize * w as usize + x as usize
    }
}

/// Gets the `(x, y)` coordinates of a linear bit index.
pub fn coords_from_index(w: u8, h: u8, col_major: bool, i: usize) -> (r: (u8, u8))
    requires
        i < w as int * h as int,
    ensures
        r.0 == spec_x_of(w as int, h as int, col_major, i as int),
        r.1 == spec_y_of(w as int, h as int, col_major, i as int),
        r.0 < w,
        r.1 < h,
        spec_index_of(w as int, h as int, col_major, r.0 as int, r.1 as int) == i,
{
    proof {
        lemma_coords_of_in_range(w as int, h as int, col_major, i as int);
    }
    if col_major {
        ((i / h as usize) as u8, (i % h as usize) as u8)
    } else {
        ((i % w as usize) as u8, (i / w as usize) as u8)
    }
}

/// Checks that the cell `(x, y)` lies on the board.
pub fn is_in_bounds(w: u8, h: u8, x: u8, y: u8) -> (r: bool)
    ensures
        r == (x < w && y < h),
{
    x < w && y < h
}

/// Checks that the linear index `i` lies on the board.
pub fn is_index_in_bounds(w: u8, h: u8, i: usize) -> (r: bool)
    ensures
        r == (i < w as int * h as int),
{
    assert((w as int) * (h as int) < 65536) by (nonlinear_arith)
        requires
            w < 256,
            h < 256,
    ;
    i < w as usize * h as usize
}

} // verus!
