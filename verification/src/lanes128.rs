//! Lane masks over the 128-bit double-word storage: the same rank laws as for the
//! single-word storage, stated over the wider word.
//!
//! A row mask holds one bit per cell of a row, a column mask one bit per
//! cell of a column. The central fact is the rank law: the `x`-th set bit
//! of the mask of row `y` sits exactly at the linear index of the cell
//! `(x, y)` — and its dual for columns. On top of it stand the laws that a
//! row mask and a column mask cross in exactly one bit, and that reading a
//! lane back after writing it returns what was written, masked to the
//! lane's width.

use vstd::prelude::*;

verus! {

use crate::bitops128::{
    bit128,
    mask128,
    ones_below128,
    popcount128,
    pext128,
    pdep128,
    lemma_bit128_ops,
    lemma_bit128_mask,
    lemma_bit128_ext,
    lemma_ones_below128_constant,
    lemma_ones_below128_interval,
    lemma_ones_below128_strict,
    lemma_pext128_upto_char,
    lemma_pdep128_upto_char,
    lemma_pext128_high_zero,
};
use crate::coords::{
    spec_index_of,
    spec_x_of,
    spec_y_of,
    lemma_index_of_in_range,
    lemma_coords_of_in_range,
    lemma_index_coords_roundtrip,
};

/// The word `mb` is the mask of row `y` of a `w` by `h` board.
pub open spec fn is_row_mask(mb: u128, w: int, h: int, col_major: bool, y: int) -> bool {
    forall|i: int|
        0 <= i < 128 ==> (bit128(mb, #[trigger] (i as u128)) == (i < w * h && spec_y_of(
            w,
            h,
            col_major,
            i,
        ) == y))
}

/// The word `mb` is the mask of column `x` of a `w` by `h` board.
pub open spec fn is_col_mask(mb: u128, w: int, h: int, col_major: bool, x: int) -> bool {
    forall|i: int|
        0 <= i < 128 ==> (bit128(mb, #[trigger] (i as u128)) == (i < w * h && spec_x_of(
            w,
            h,
            col_major,
            i,
        ) == x))
}

/// Cell indices grow strictly along a row.
pub proof fn lemma_index_mono_x(w: int, h: int, col_major: bool, y: int, x1: int, x2: int)
    requires
        0 <= x1 < x2,
        0 < h,
    ensures
        spec_index_of(w, h, col_major, x1, y) < spec_index_of(w, h, col_major, x2, y),
{
    if col_major {
        assert(x1 * h < x2 * h) by (nonlinear_arith)
            requires
                0 <= x1 < x2,
                0 < h,
        ;
    }
}

/// Cell indices grow strictly along a column.
pub proof fn lemma_index_mono_y(w: int, h: int, col_major: bool, x: int, y1: int, y2: int)
    requires
        0 <= y1 < y2,
        0 < w,
    ensures
        spec_index_of(w, h, col_major, x, y1) < spec_index_of(w, h, col_major, x, y2),
{
    if !col_major {
        assert(y1 * w < y2 * w) by (nonlinear_arith)
            requires
                0 <= y1 < y2,
                0 < w,
        ;
    }
}

/// Rank law for rows: below the cell `(x, y)`, the mask of row `y` has
/// exactly `x` set bits, one per cell to the west.
pub proof fn lemma_row_mask_rank(mb: u128, w: int, h: int, col_major: bool, y: int, x: int)
    requires
        w * h <= 128,
        0 <= y < h,
        0 <= x < w,
        is_row_mask(mb, w, h, col_major, y),
    ensures
        ones_below128(mb, spec_index_of(w, h, col_major, x, y)) == x,
    decreases x,
{
    let idx = spec_index_of(w, h, col_major, x, y);
    lemma_index_of_in_range(w, h, col_major, x, y);
    if x == 0 {
        assert forall|j: int| 0 <= j < idx implies !bit128(mb, #[trigger] (j as u128)) by {
            if bit128(mb, j as u128) {
                lemma_coords_of_in_range(w, h, col_major, j);
                if spec_x_of(w, h, col_major, j) > 0 {
                    lemma_index_mono_x(w, h, col_major, y, 0, spec_x_of(w, h, col_major, j));
                }
            }
        }
        lemma_ones_below128_constant(mb, 0, idx);
    } else {
        let idxp = spec_index_of(w, h, col_major, (x - 1) as int, y);
        lemma_index_of_in_range(w, h, col_major, x - 1, y);
        lemma_row_mask_rank(mb, w, h, col_major, y, x - 1);
        lemma_index_mono_x(w, h, col_major, y, x - 1, x);
        lemma_index_coords_roundtrip(w, h, col_major, x - 1, y);
        assert(bit128(mb, idxp as u128));
        assert forall|j: int| idxp < j < idx implies !bit128(mb, #[trigger] (j as u128)) by {
            if bit128(mb, j as u128) {
                lemma_coords_of_in_range(w, h, col_major, j);
                let xj = spec_x_of(w, h, col_major, j);
                if xj <= x - 1 {
                    if xj < x - 1 {
                        lemma_index_mono_x(w, h, col_major, y, xj, x - 1);
                    }
                } else {
                    if x < xj {
                        lemma_index_mono_x(w, h, col_major, y, x, xj);
                    }
                }
            }
        }
        lemma_ones_below128_interval(mb, idxp, idx);
    }
}

/// Rank law for columns: below the cell `(x, y)`, the mask of column `x`
/// has exactly `y` set bits, one per cell to the south.
pub proof fn lemma_col_mask_rank(mb: u128, w: int, h: int, col_major: bool, x: int, y: int)
    requires
        w * h <= 128,
        0 <= x < w,
        0 <= y < h,
        is_col_mask(mb, w, h, col_major, x),
    ensures
        ones_below128(mb, spec_index_of(w, h, col_major, x, y)) == y,
    decreases y,
{
    let idx = spec_index_of(w, h, col_major, x, y);
    lemma_index_of_in_range(w, h, col_major, x, y);
    if y == 0 {
        assert forall|j: int| 0 <= j < idx implies !bit128(mb, #[trigger] (j as u128)) by {
            if bit128(mb, j as u128) {
                lemma_coords_of_in_range(w, h, col_major, j);
                if spec_y_of(w, h, col_major, j) > 0 {
                    lemma_index_mono_y(w, h, col_major, x, 0, spec_y_of(w, h, col_major, j));
                }
            }
        }
        lemma_ones_below128_constant(mb, 0, idx);
    } else {
        let idxp = spec_index_of(w, h, col_major, x, (y - 1) as int);
        lemma_index_of_in_range(w, h, col_major, x, y - 1);
        lemma_col_mask_rank(mb, w, h, col_major, x, y - 1);
        lemma_index_mono_y(w, h, col_major, x, y - 1, y);
        lemma_index_coords_roundtrip(w, h, col_major, x, y - 1);
        assert(bit128(mb, idxp as u128));
        assert forall|j: int| idxp < j < idx implies !bit128(mb, #[trigger] (j as u128)) by {
            if bit128(mb, j as u128) {
                lemma_coords_of_in_range(w, h, col_major, j);
                let yj = spec_y_of(w, h, col_major, j);
                if yj <= y - 1 {
                    if yj < y - 1 {
                        lemma_index_mono_y(w, h, col_major, x, yj, y - 1);
                    }
                } else {
                    if y < yj {
                        lemma_index_mono_y(w, h, col_major, x, y, yj);
                    }
                }
            }
        }
        lemma_ones_below128_interval(mb, idxp, idx);
    }
}

/// A row mask has exactly `w` set bits.
pub proof fn lemma_row_mask_popcount(mb: u128, w: int, h: int, col_major: bool, y: int)
    requires
        w * h <= 128,
        0 <= y < h,
        1 <= w,
        is_row_mask(mb, w, h, col_major, y),
    ensures
        popcount128(mb) == w,
{
    let last = spec_index_of(w, h, col_major, w - 1, y);
    lemma_index_of_in_range(w, h, col_major, w - 1, y);
    lemma_row_mask_rank(mb, w, h, col_major, y, w - 1);
    lemma_index_coords_roundtrip(w, h, col_major, w - 1, y);
    assert(bit128(mb, last as u128));
    assert(ones_below128(mb, last + 1) == w);
    assert forall|j: int| last + 1 <= j < 128 implies !bit128(mb, #[trigger] (j as u128)) by {
        if bit128(mb, j as u128) {
            lemma_coords_of_in_range(w, h, col_major, j);
            let xj = spec_x_of(w, h, col_major, j);
            if xj < w - 1 {
                lemma_index_mono_x(w, h, col_major, y, xj, w - 1);
            }
        }
    }
    lemma_ones_below128_constant(mb, last + 1, 128);
}

/// A column mask has exactly `h` set bits.
pub proof fn lemma_col_mask_popcount(mb: u128, w: int, h: int, col_major: bool, x: int)
    requires
        w * h <= 128,
        0 <= x < w,
        1 <= h,
        is_col_mask(mb, w, h, col_major, x),
    ensures
        popcount128(mb) == h,
{
    let last = spec_index_of(w, h, col_major, x, h - 1);
    lemma_index_of_in_range(w, h, col_major, x, h - 1);
    lemma_col_mask_rank(mb, w, h, col_major, x, h - 1);
    lemma_index_coords_roundtrip(w, h, col_major, x, h - 1);
    assert(bit128(mb, last as u128));
    assert(ones_below128(mb, last + 1) == h);
    assert forall|j: int| last + 1 <= j < 128 implies !bit128(mb, #[trigger] (j as u128)) by {
        if bit128(mb, j as u128) {
            lemma_coords_of_in_range(w, h, col_major, j);
            let yj = spec_y_of(w, h, col_major, j);
            if yj < h - 1 {
                lemma_index_mono_y(w, h, col_major, x, yj, h - 1);
            }
        }
    }
    lemma_ones_below128_constant(mb, last + 1, 128);
}

/// A row mask and a column mask cross in exactly one bit, at the linear
/// index of the crossing cell.
pub proof fn lemma_row_col_mask_single_bit(
    rm: u128,
    cm: u128,
    w: int,
    h: int,
    col_major: bool,
    x: int,
    y: int,
)
    requires
        w * h <= 128,
        0 <= x < w,
        0 <= y < h,
        is_row_mask(rm, w, h, col_major, y),
        is_col_mask(cm, w, h, col_major, x),
    ensures
        forall|i: int|
            0 <= i < 128 ==> (bit128(rm & cm, #[trigger] (i as u128)) == (i == spec_index_of(
                w,
                h,
                col_major,
                x,
                y,
            ))),
        popcount128(rm & cm) == 1,
{
    lemma_bit128_ops();
    let idx = spec_index_of(w, h, col_major, x, y);
    lemma_index_of_in_range(w, h, col_major, x, y);
    lemma_index_coords_roundtrip(w, h, col_major, x, y);
    assert forall|i: int|
        0 <= i < 128 implies (bit128(rm & cm, #[trigger] (i as u128)) == (i == idx)) by {
        assert(bit128(rm & cm, i as u128) == (bit128(rm, i as u128) && bit128(cm, i as u128)));
        if bit128(rm, i as u128) && bit128(cm, i as u128) {
            lemma_coords_of_in_range(w, h, col_major, i);
        }
    }
    assert forall|j: int| 0 <= j < idx implies !bit128(rm & cm, #[trigger] (j as u128)) by {}
    lemma_ones_below128_constant(rm & cm, 0, idx);
    assert(ones_below128(rm & cm, idx + 1) == 1);
    assert forall|j: int| idx + 1 <= j < 128 implies !bit128(rm & cm, #[trigger] (j as u128)) by {}
    lemma_ones_below128_constant(rm & cm, idx + 1, 128);
}

/// Writing a row and reading it back: extracting row `y` from a board into
/// which `row_bits` was just inserted at row `y` yields `row_bits`, masked
/// to the row's width.
pub proof fn lemma_insert_extract_row(
    v: u128,
    mb: u128,
    row_bits: u128,
    w: int,
    h: int,
    col_major: bool,
    y: int,
)
    requires
        w * h <= 128,
        0 <= y < h,
        0 <= w <= 128,
        is_row_mask(mb, w, h, col_major, y),
    ensures
        pext128((v & !mb) | pdep128(mb, row_bits), mb) == row_bits & mask128(w as u128),
{
    lemma_bit128_ops();
    lemma_bit128_mask();
    let v2 = (v & !mb) | pdep128(mb, row_bits);
    let r = pext128(v2, mb);
    assert forall|j: u128| j < 128 implies bit128(r, j) == bit128(row_bits & mask128(w as u128), j) by {
        assert(bit128(row_bits & mask128(w as u128), j) == (bit128(row_bits, j) && (j as int) < w));
        if j < w {
            let idx = spec_index_of(w, h, col_major, j as int, y);
            lemma_index_of_in_range(w, h, col_major, j as int, y);
            lemma_index_coords_roundtrip(w, h, col_major, j as int, y);
            lemma_row_mask_rank(mb, w, h, col_major, y, j as int);
            assert(bit128(mb, idx as u128));
            // the deposited board carries bit j of row_bits at the cell
            lemma_pdep128_upto_char(mb, row_bits, 128, idx as u128);
            assert(bit128(v2, idx as u128) == bit128(row_bits, j));
            // and the extract reads it back at rank j
            lemma_pext128_upto_char(v2, mb, 128, j);
            if bit128(row_bits, j) {
                assert(0 <= idx < 128 && bit128(mb, idx as u128) && bit128(v2, idx as u128)
                    && ones_below128(mb, idx) == j as int);
            } else {
                if bit128(r, j) {
                    let i2 = choose|i2: int|
                        0 <= i2 < 128 && bit128(mb, #[trigger] (i2 as u128)) && bit128(v2, i2 as u128)
                            && ones_below128(mb, i2) == j;
                    if i2 < idx {
                        lemma_ones_below128_strict(mb, i2, idx);
                    } else if i2 > idx {
                        lemma_ones_below128_strict(mb, idx, i2);
                    }
                }
            }
        } else {
            if w >= 1 {
                lemma_row_mask_popcount(mb, w, h, col_major, y);
                lemma_pext128_high_zero(v2, mb, j);
            } else {
                assert forall|i: int| 0 <= i < 128 implies !bit128(
                    mb,
                    #[trigger] (i as u128),
                ) by {
                    if bit128(mb, i as u128) {
                        lemma_coords_of_in_range(w, h, col_major, i);
                    }
                }
                lemma_ones_below128_constant(mb, 0, 128);
                lemma_pext128_high_zero(v2, mb, j);
            }
        }
    }
    lemma_bit128_ext(r, row_bits & mask128(w as u128));
}

} // verus!
