//! Lane masks and their arithmetic: how the set bits of a row or column
//! mask line up with the cells of the lane.
//!
//! A row mask holds one bit per cell of a row, a column mask one bit per
//! cell of a column. The central fact is the rank law: the `x`-th set bit
//! of the mask of row `y` sits exactly at the linear index of the cell
//! `(x, y)` — and its dual for columns. On top of it stand the laws that a
//! row mask and a column mask cross in exactly one bit, and that reading a
//! lane back after writing it returns what was written, masked to the
//! lane's width.

use vstd::prelude::*;

verus! {

use crate::bitops::{
    bit64,
    mask64,
    ones_below64,
    popcount64,
    pext64,
    pdep64,
    lemma_bit64_ops,
    lemma_bit64_mask,
    lemma_bit64_ext,
    lemma_ones_below64_constant,
    lemma_ones_below64_interval,
    lemma_ones_below64_strict,
    lemma_pext64_upto_char,
    lemma_pdep64_upto_char,
    lemma_pext64_high_zero,
};
use crate::coords::{
    spec_index_of,
    spec_x_of,
    spec_y_of,
    lemma_index_of_in_range,
    lemma_coords_of_in_range,
    lemma_index_coords_roundtrip,
};

/// The word `mb` is the mask of row `y` of a `w` by `h` board.
pub open spec fn is_row_mask(mb: u64, w: int, h: int, col_major: bool, y: int) -> bool {
    forall|i: int|
        0 <= i < 64 ==> (bit64(mb, #[trigger] (i as u64)) == (i < w * h && spec_y_of(
            w,
            h,
            col_major,
            i,
        ) == y))
}

/// The word `mb` is the mask of column `x` of a `w` by `h` board.
pub open spec fn is_col_mask(mb: u64, w: int, h: int, col_major: bool, x: int) -> bool {
    forall|i: int|
        0 <= i < 64 ==> (bit64(mb, #[trigger] (i as u64)) == (i < w * h && spec_x_of(
            w,
            h,
            col_major,
            i,
        ) == x))
}

/// Cell indices grow strictly along a row.
pub proof fn lemma_index_mono_x(w: int, h: int, col_major: bool, y: int, x1: int, x2: int)
    requires
        0 <= x1 < x2,
        0 < h,
    ensures
        spec_index_of(w, h, col_major, x1, y) < spec_index_of(w, h, col_major, x2, y),
{
    if col_major {
        assert(x1 * h < x2 * h) by (nonlinear_arith)
            requires
                0 <= x1 < x2,
                0 < h,
        ;
    }
}

/// Cell indices grow strictly along a column.
pub proof fn lemma_index_mono_y(w: int, h: int, col_major: bool, x: int, y1: int, y2: int)
    requires
        0 <= y1 < y2,
        0 < w,
    ensures
        spec_index_of(w, h, col_major, x, y1) < spec_index_of(w, h, col_major, x, y2),
{
    if !col_major {
        assert(y1 * w < y2 * w) by (nonlinear_arith)
            requires
                0 <= y1 < y2,
                0 < w,
        ;
    }
}

/// Rank law for rows: below the cell `(x, y)`, the mask of row `y` has
/// exactly `x` set bits, one per cell to the west.
pub proof fn lemma_row_mask_rank(mb: u64, w: int, h: int, col_major: bool, y: int, x: int)
    requires
        w * h <= 64,
        0 <= y < h,
        0 <= x < w,
        is_row_mask(mb, w, h, col_major, y),
    ensures
        ones_below64(mb, spec_index_of(w, h, col_major, x, y)) == x,
    decreases x,
{
    let idx = spec_index_of(w, h, col_major, x, y);
    lemma_index_of_in_range(w, h, col_major, x, y);
    if x == 0 {
        assert forall|j: int| 0 <= j < idx implies !bit64(mb, #[trigger] (j as u64)) by {
            if bit64(mb, j as u64) {
                lemma_coords_of_in_range(w, h, col_major, j);
                if spec_x_of(w, h, col_major, j) > 0 {
                    lemma_index_mono_x(w, h, col_major, y, 0, spec_x_of(w, h, col_major, j));
                }
            }
        }
        lemma_ones_below64_constant(mb, 0, idx);
    } else {
        let idxp = spec_index_of(w, h, col_major, (x - 1) as int, y);
        lemma_index_of_in_range(w, h, col_major, x - 1, y);
        lemma_row_mask_rank(mb, w, h, col_major, y, x - 1);
        lemma_index_mono_x(w, h, col_major, y, x - 1, x);
        lemma_index_coords_roundtrip(w, h, col_major, x - 1, y);
        assert(bit64(mb, idxp as u64));
        assert forall|j: int| idxp < j < idx implies !bit64(mb, #[trigger] (j as u64)) by {
            if bit64(mb, j as u64) {
                lemma_coords_of_in_range(w, h, col_major, j);
                let xj = spec_x_of(w, h, col_major, j);
                if xj <= x - 1 {
                    if xj < x - 1 {
                        lemma_index_mono_x(w, h, col_major, y, xj, x - 1);
                    }
                } else {
                    if x < xj {
                        lemma_index_mono_x(w, h, col_major, y, x, xj);
                    }
                }
            }
        }
        lemma_ones_below64_interval(mb, idxp, idx);
    }
}

/// Rank law for columns: below the cell `(x, y)`, the mask of column `x`
/// has exactly `y` set bits, one per cell to the south.
pub proof fn lemma_col_mask_rank(mb: u64, w: int, h: int, col_major: bool, x: int, y: int)
    requires
        w * h <= 64,
        0 <= x < w,
        0 <= y < h,
        is_col_mask(mb, w, h, col_major, x),
    ensures
        ones_below64(mb, spec_index_of(w, h, col_major, x, y)) == y,
    decreases y,
{
    let idx = spec_index_of(w, h, col_major, x, y);
    lemma_index_of_in_range(w, h, col_major, x, y);
    if y == 0 {
        assert forall|j: int| 0 <= j < idx implies !bit64(mb, #[trigger] (j as u64)) by {
            if bit64(mb, j as u64) {
                lemma_coords_of_in_range(w, h, col_major, j);
                if spec_y_of(w, h, col_major, j) > 0 {
                    lemma_index_mono_y(w, h, col_major, x, 0, spec_y_of(w, h, col_major, j));
                }
            }
        }
        lemma_ones_below64_constant(mb, 0, idx);
    } else {
        let idxp = spec_index_of(w, h, col_major, x, (y - 1) as int);
        lemma_index_of_in_range(w, h, col_major, x, y - 1);
        lemma_col_mask_rank(mb, w, h, col_major, x, y - 1);
        lemma_index_mono_y(w, h, col_major, x, y - 1, y);
        lemma_index_coords_roundtrip(w, h, col_major, x, y - 1);
        assert(bit64(mb, idxp as u64));
        assert forall|j: int| idxp < j < idx implies !bit64(mb, #[trigger] (j as u64)) by {
            if bit64(mb, j as u64) {
                lemma_coords_of_in_range(w, h, col_major, j);
                let yj = spec_y_of(w, h, col_major, j);
                if yj <= y - 1 {
                    if yj < y - 1 {
                        lemma_index_mono_y(w, h, col_major, x, yj, y - 1);
                    }
                } else {
                    if y < yj {
                        lemma_index_mono_y(w, h, col_major, x, y, yj);
                    }
                }
            }
        }
        lemma_ones_below64_interval(mb, idxp, idx);
    }
}

/// A row mask has exactly `w` set bits.
pub proof fn lemma_row_mask_popcount(mb: u64, w: int, h: int, col_major: bool, y: int)
    requires
        w * h <= 64,
        0 <= y < h,
        1 <= w,
        is_row_mask(mb, w, h, col_major, y),
    ensures
        popcount64(mb) == w,
{
    let last = spec_index_of(w, h, col_major, w - 1, y);
    lemma_index_of_in_range(w, h, col_major, w - 1, y);
    lemma_row_mask_rank(mb, w, h, col_major, y, w - 1);
    lemma_index_coords_roundtrip(w, h, col_major, w - 1, y);
    assert(bit64(mb, last as u64));
    assert(ones_below64(mb, last + 1) == w);
    assert forall|j: int| last + 1 <= j < 64 implies !bit64(mb, #[trigger] (j as u64)) by {
        if bit64(mb, j as u64) {
            lemma_coords_of_in_range(w, h, col_major, j);
            let xj = spec_x_of(w, h, col_major, j);
            if xj < w - 1 {
                lemma_index_mono_x(w, h, col_major, y, xj, w - 1);
            }
        }
    }
    lemma_ones_below64_constant(mb, last + 1, 64);
}

/// A column mask has exactly `h` set bits.
pub proof fn lemma_col_mask_popcount(mb: u64, w: int, h: int, col_major: bool, x: int)
    requires
        w * h <= 64,
        0 <= x < w,
        1 <= h,
        is_col_mask(mb, w, h, col_major, x),
    ensures
        popcount64(mb) == h,
{
    let last = spec_index_of(w, h, col_major, x, h - 1);
    lemma_index_of_in_range(w, h, col_major, x, h - 1);
    lemma_col_mask_rank(mb, w, h, col_major, x, h - 1);
    lemma_index_coords_roundtrip(w, h, col_major, x, h - 1);
    assert(bit64(mb, last as u64));
    assert(ones_below64(mb, last + 1) == h);
    assert forall|j: int| last + 1 <= j < 64 implies !bit64(mb, #[trigger] (j as u64)) by {
        if bit64(mb, j as u64) {
            lemma_coords_of_in_range(w, h, col_major, j);
            let yj = spec_y_of(w, h, col_major, j);
            if yj < h - 1 {
                lemma_index_mono_y(w, h, col_major, x, yj, h - 1);
            }
        }
    }
    lemma_ones_below64_constant(mb, last + 1, 64);
}

/// A row mask and a column mask cross in exactly one bit, at the linear
/// index of the crossing cell.
pub proof fn lemma_row_col_mask_single_bit(
    rm: u64,
    cm: u64,
    w: int,
    h: int,
    col_major: bool,
    x: int,
    y: int,
)
    requires
        w * h <= 64,
        0 <= x < w,
        0 <= y < h,
        is_row_mask(rm, w, h, col_major, y),
        is_col_mask(cm, w, h, col_major, x),
    ensures
        forall|i: int|
            0 <= i < 64 ==> (bit64(rm & cm, #[trigger] (i as u64)) == (i == spec_index_of(
                w,
                h,
                col_major,
                x,
                y,
            ))),
        popcount64(rm & cm) == 1,
{
    lemma_bit64_ops();
    let idx = spec_index_of(w, h, col_major, x, y);
    lemma_index_of_in_range(w, h, col_major, x, y);
    lemma_index_coords_roundtrip(w, h, col_major, x, y);
    assert forall|i: int|
        0 <= i < 64 implies (bit64(rm & cm, #[trigger] (i as u64)) == (i == idx)) by {
        assert(bit64(rm & cm, i as u64) == (bit64(rm, i as u64) && bit64(cm, i as u64)));
        if bit64(rm, i as u64) && bit64(cm, i as u64) {
            lemma_coords_of_in_range(w, h, col_major, i);
        }
    }
    assert forall|j: int| 0 <= j < idx implies !bit64(rm & cm, #[trigger] (j as u64)) by {}
    lemma_ones_below64_constant(rm & cm, 0, idx);
    assert(ones_below64(rm & cm, idx + 1) == 1);
    assert forall|j: int| idx + 1 <= j < 64 implies !bit64(rm & cm, #[trigger] (j as u64)) by {}
    lemma_ones_below64_constant(rm & cm, idx + 1, 64);
}

/// Writing a row and reading it back: extracting row `y` from a board into
/// which `row_bits` was just inserted at row `y` yields `row_bits`, masked
/// to the row's width.
pub proof fn lemma_insert_extract_row(
    v: u64,
    mb: u64,
    row_bits: u64,
    w: int,
    h: int,
    col_major: bool,
    y: int,
)
    requires
        w * h <= 64,
        0 <= y < h,
        0 <= w <= 64,
        is_row_mask(mb, w, h, col_major, y),
    ensures
        pext64((v & !mb) | pdep64(mb, row_bits), mb) == row_bits & mask64(w as u64),
{
    lemma_bit64_ops();
    lemma_bit64_mask();
    let v2 = (v & !mb) | pdep64(mb, row_bits);
    let r = pext64(v2, mb);
    assert forall|j: u64| j < 64 implies bit64(r, j) == bit64(row_bits & mask64(w as u64), j) by {
        assert(bit64(row_bits & mask64(w as u64), j) == (bit64(row_bits, j) && (j as int) < w));
        if j < w {
            let idx = spec_index_of(w, h, col_major, j as int, y);
            lemma_index_of_in_range(w, h, col_major, j as int, y);
            lemma_index_coords_roundtrip(w, h, col_major, j as int, y);
            lemma_row_mask_rank(mb, w, h, col_major, y, j as int);
            assert(bit64(mb, idx as u64));
            // the deposited board carries bit j of row_bits at the cell
            lemma_pdep64_upto_char(mb, row_bits, 64, idx as u64);
            assert(bit64(v2, idx as u64) == bit64(row_bits, j));
            // and the extract reads it back at rank j
            lemma_pext64_upto_char(v2, mb, 64, j);
            if bit64(row_bits, j) {
                assert(0 <= idx < 64 && bit64(mb, idx as u64) && bit64(v2, idx as u64)
                    && ones_below64(mb, idx) == j as int);
            } else {
                if bit64(r, j) {
                    let i2 = choose|i2: int|
                        0 <= i2 < 64 && bit64(mb, #[trigger] (i2 as u64)) && bit64(v2, i2 as u64)
                            && ones_below64(mb, i2) == j;
                    if i2 < idx {
                        lemma_ones_below64_strict(mb, i2, idx);
                    } else if i2 > idx {
                        lemma_ones_below64_strict(mb, idx, i2);
                    }
                }
            }
        } else {
            if w >= 1 {
                lemma_row_mask_popcount(mb, w, h, col_major, y);
                lemma_pext64_high_zero(v2, mb, j);
            } else {
                assert forall|i: int| 0 <= i < 64 implies !bit64(
                    mb,
                    #[trigger] (i as u64),
                ) by {
                    if bit64(mb, i as u64) {
                        lemma_coords_of_in_range(w, h, col_major, i);
                    }
                }
                lemma_ones_below64_constant(mb, 0, 64);
                lemma_pext64_high_zero(v2, mb, j);
            }
        }
    }
    lemma_bit64_ext(r, row_bits & mask64(w as u64));
}

} // verus!
