//! Bit-grid backed by a single 64-bit word: boards of up to 64 cells.

use vstd::prelude::*;

verus! {

use crate::bitops::{
    bit64,
    mask64,
    ones_below64,
    popcount64,
    pext64,
    pext64_upto,
    pdep64,
    pdep64_upto,
    lemma_bit64_ops,
    lemma_bit64_shifts,
    lemma_bit64_mask,
    lemma_bit64_ext_below,
    lemma_clear_lsb64,
    lemma_ones_below64_bound,
};
use crate::board::{Bitboard, count_bits, count_bits_below};
use crate::coords::{spec_index_of, spec_x_of, spec_y_of};
use vstd::std_specs::bits::{axiom_u64_trailing_zeros, u64_trailing_zeros};

/// A board of at most 64 cells in one `u64` word.
///
/// Bit `i` of the word is the cell at linear index `i`; the bits at indices
/// `w * h` and above are padding.
#[derive(Clone, Copy, PartialEq, Eq, Structural)]
pub struct SmallBitboard {
    w: u8,
    h: u8,
    col_major: bool,
    bits: u64,
}

impl SmallBitboard {
    /// The storage word.
    pub closed spec fn spec_bits(&self) -> u64 {
        self.bits
    }

    /// How the abstract view of the board reads its storage word.
    pub proof fn lemma_view(&self)
        ensures
            self.capacity() == 64,
            forall|i: int|
                #[trigger] self.bit_at(i) == (0 <= i < 64 && bit64(self.spec_bits(), i as u64)),
            self.inv() <==> self.spec_width() * self.spec_height() <= 64,
    {
    }

    /// Builds a board from its shape and storage word.
    pub fn new(w: u8, h: u8, col_major: bool, bits: u64) -> (r: Self)
        requires
            w as nat * h as nat <= 64,
        ensures
            r.inv(),
            r.spec_width() == w as nat,
            r.spec_height() == h as nat,
            r.spec_col_major() == col_major,
            r.spec_bits() == bits,
    {
        SmallBitboard { w, h, col_major, bits }
    }

    /// The storage word of the board.
    pub fn storage(&self) -> (r: u64)
        ensures
            r == self.spec_bits(),
    {
        self.bits
    }

    /// Number of set bits, padding included.
    pub fn count(&self) -> (r: u32)
        requires
            self.inv(),
        ensures
            r as nat == count_bits(self),
            r as nat == popcount64(self.spec_bits()),
    {
        let mut c: u32 = 0;
        let mut i: u64 = 0;
        while i < 64
            invariant
                i <= 64,
                c <= i,
                c as nat == ones_below64(self.bits, i as int),
            decreases 64 - i,
        {
            if (self.bits >> i) & 1 == 1 {
                c = c + 1;
            }
            i = i + 1;
        }
        proof {
            self.lemma_count_below(64);
        }
        c
    }

    /// The count of the per-index view below `n` is the word's count below `n`.
    proof fn lemma_count_below(&self, n: int)
        requires
            n <= 64,
        ensures
            count_bits_below(self, n) == ones_below64(self.spec_bits(), n),
        decreases n,
    {
        if n > 0 {
            self.lemma_count_below(n - 1);
        }
    }
}

impl SmallBitboard {
    /// The board with no bit set.
    pub fn empty(w: u8, h: u8, col_major: bool) -> (r: Self)
        requires
            w as nat * h as nat <= 64,
        ensures
            r.inv(),
            r.spec_width() == w as nat,
            r.spec_height() == h as nat,
            r.spec_col_major() == col_major,
            r.spec_bits() == 0u64,
            forall|i: int| !r.bit_at(i),
    {
        proof {
            lemma_bit64_ops();
        }
        SmallBitboard { w, h, col_major, bits: 0 }
    }

    /// The board with every cell bit set and every padding bit clear.
    pub fn full(w: u8, h: u8, col_major: bool) -> (r: Self)
        requires
            w as nat * h as nat <= 64,
        ensures
            r.inv(),
            r.spec_width() == w as nat,
            r.spec_height() == h as nat,
            r.spec_col_major() == col_major,
            forall|i: int| r.bit_at(i) == (0 <= i < w as int * h as int),
    {
        let n: u64 = w as u64 * h as u64;
        let mut bits: u64 = 0;
        let mut k: u64 = 0;
        proof {
            lemma_bit64_ops();
            lemma_bit64_shifts();
        }
        while k < n
            invariant
                k <= n,
                n == w as int * h as int,
                n <= 64,
                forall|i: u64| i < 64 ==> #[trigger] bit64(bits, i) == (i < k),
            decreases n - k,
        {
            proof {
                lemma_bit64_ops();
                lemma_bit64_shifts();
            }
            bits = bits | (1u64 << k);
            k = k + 1;
        }
        SmallBitboard { w, h, col_major, bits }
    }

    /// The mask of row `y`: every cell `(x, y)`, no padding bit.
    pub fn row_mask(w: u8, h: u8, col_major: bool, y: u8) -> (r: Self)
        requires
            w as nat * h as nat <= 64,
            y < h,
        ensures
            r.inv(),
            r.spec_width() == w as nat,
            r.spec_height() == h as nat,
            r.spec_col_major() == col_major,
            forall|i: int|
                r.bit_at(i) == (0 <= i < w as int * h as int && spec_y_of(
                    w as int,
                    h as int,
                    col_major,
                    i,
                ) == y as int),
    {
        let mut bits: u64 = 0;
        let mut x: u8 = 0;
        proof {
            lemma_bit64_ops();
            assert forall|i: u64| i < 64 implies #[trigger] bit64(bits, i) == ((i as int)
                < w as int * h as int && spec_y_of(w as int, h as int, col_major, i as int)
                == y as int && spec_x_of(w as int, h as int, col_major, i as int)
                < x as int) by {
                assert(!bit64(0u64, i));
                if (i as int) < w as int * h as int {
                    crate::coords::lemma_coords_of_in_range(w as int, h as int, col_major, i as int);
                }
            }
        }
        while x < w
            invariant
                x <= w,
                y < h,
                w as nat * h as nat <= 64,
                forall|i: u64|
                    i < 64 ==> #[trigger] bit64(bits, i) == ((i as int) < w as int * h as int
                        && spec_y_of(w as int, h as int, col_major, i as int) == y as int
                        && spec_x_of(w as int, h as int, col_major, i as int) < x as int),
            decreases w - x,
        {
            let idx = crate::coords::index_from_coords(w, h, col_major, x, y);
            let ghost bits0 = bits;
            bits = bits | (1u64 << (idx as u64));
            proof {
                lemma_bit64_ops();
                lemma_bit64_shifts();
                crate::coords::lemma_index_coords_roundtrip(
                    w as int,
                    h as int,
                    col_major,
                    x as int,
                    y as int,
                );
                assert forall|i: u64| i < 64 implies #[trigger] bit64(bits, i) == ((i as int)
                    < w as int * h as int && spec_y_of(w as int, h as int, col_major, i as int)
                    == y as int && spec_x_of(w as int, h as int, col_major, i as int) < x as int
                    + 1) by {
                    assert(bit64(bits, i) == (bit64(bits0, i) || i == idx as u64));
                    if i != idx as u64 && (i as int) < w as int * h as int && spec_y_of(
                        w as int,
                        h as int,
                        col_major,
                        i as int,
                    ) == y as int && spec_x_of(w as int, h as int, col_major, i as int)
                        == x as int {
                        crate::coords::lemma_coords_of_in_range(
                            w as int,
                            h as int,
                            col_major,
                            i as int,
                        );
                        assert(false);
                    }
                }
            }
            x = x + 1;
        }
        proof {
            assert forall|i: int| (0 <= i < 64 && bit64(bits, i as u64)) == (0 <= i
                && i < w as int * h as int && spec_y_of(w as int, h as int, col_major, i)
                == y as int) by {
                if 0 <= i < w as int * h as int {
                    crate::coords::lemma_coords_of_in_range(w as int, h as int, col_major, i);
                }
            }
        }
        SmallBitboard { w, h, col_major, bits }
    }

    /// The mask of column `x`: every cell `(x, y)`, no padding bit.
    pub fn col_mask(w: u8, h: u8, col_major: bool, x: u8) -> (r: Self)
        requires
            w as nat * h as nat <= 64,
            x < w,
        ensures
            r.inv(),
            r.spec_width() == w as nat,
            r.spec_height() == h as nat,
            r.spec_col_major() == col_major,
            forall|i: int|
                r.bit_at(i) == (0 <= i < w as int * h as int && spec_x_of(
                    w as int,
                    h as int,
                    col_major,
                    i,
                ) == x as int),
    {
        let mut bits: u64 = 0;
        let mut y: u8 = 0;
        proof {
            lemma_bit64_ops();
            assert forall|i: u64| i < 64 implies #[trigger] bit64(bits, i) == ((i as int)
                < w as int * h as int && spec_x_of(w as int, h as int, col_major, i as int)
                == x as int && spec_y_of(w as int, h as int, col_major, i as int)
                < y as int) by {
                assert(!bit64(0u64, i));
                if (i as int) < w as int * h as int {
                    crate::coords::lemma_coords_of_in_range(w as int, h as int, col_major, i as int);
                }
            }
        }
        while y < h
            invariant
                y <= h,
                x < w,
                w as nat * h as nat <= 64,
                forall|i: u64|
                    i < 64 ==> #[trigger] bit64(bits, i) == ((i as int) < w as int * h as int
                        && spec_x_of(w as int, h as int, col_major, i as int) == x as int
                        && spec_y_of(w as int, h as int, col_major, i as int) < y as int),
            decreases h - y,
        {
            let idx = crate::coords::index_from_coords(w, h, col_major, x, y);
            let ghost bits0 = bits;
            bits = bits | (1u64 << (idx as u64));
            proof {
                lemma_bit64_ops();
                lemma_bit64_shifts();
                crate::coords::lemma_index_coords_roundtrip(
                    w as int,
                    h as int,
                    col_major,
                    x as int,
                    y as int,
                );
                assert forall|i: u64| i < 64 implies #[trigger] bit64(bits, i) == ((i as int)
                    < w as int * h as int && spec_x_of(w as int, h as int, col_major, i as int)
                    == x as int && spec_y_of(w as int, h as int, col_major, i as int) < y as int
                    + 1) by {
                    assert(bit64(bits, i) == (bit64(bits0, i) || i == idx as u64));
                    if i != idx as u64 && (i as int) < w as int * h as int && spec_x_of(
                        w as int,
                        h as int,
                        col_major,
                        i as int,
                    ) == x as int && spec_y_of(w as int, h as int, col_major, i as int)
                        == y as int {
                        crate::coords::lemma_coords_of_in_range(
                            w as int,
                            h as int,
                            col_major,
                            i as int,
                        );
                        assert(false);
                    }
                }
            }
            y = y + 1;
        }
        proof {
            assert forall|i: int| (0 <= i < 64 && bit64(bits, i as u64)) == (0 <= i
                && i < w as int * h as int && spec_x_of(w as int, h as int, col_major, i)
                == x as int) by {
                if 0 <= i < w as int * h as int {
                    crate::coords::lemma_coords_of_in_range(w as int, h as int, col_major, i);
                }
            }
        }
        SmallBitboard { w, h, col_major, bits }
    }

    /// The west border: one bit per row, at column 0.
    pub fn west_border(w: u8, h: u8, col_major: bool) -> (r: Self)
        requires
            w as nat * h as nat <= 64,
            1 <= w,
            1 <= h,
        ensures
            r.inv(),
            r.spec_width() == w as nat,
            r.spec_height() == h as nat,
            r.spec_col_major() == col_major,
            forall|i: int|
                r.bit_at(i) == (0 <= i < w as int * h as int && spec_x_of(
                    w as int,
                    h as int,
                    col_major,
                    i,
                ) == 0),
    {
        Self::col_mask(w, h, col_major, 0)
    }

    /// The east border: one bit per row, at column `w - 1`.
    pub fn east_border(w: u8, h: u8, col_major: bool) -> (r: Self)
        requires
            w as nat * h as nat <= 64,
            1 <= w,
            1 <= h,
        ensures
            r.inv(),
            r.spec_width() == w as nat,
            r.spec_height() == h as nat,
            r.spec_col_major() == col_major,
            forall|i: int|
                r.bit_at(i) == (0 <= i < w as int * h as int && spec_x_of(
                    w as int,
                    h as int,
                    col_major,
                    i,
                ) == w as int - 1),
    {
        Self::col_mask(w, h, col_major, w - 1)
    }

    /// The south border: one bit per column, at row 0.
    pub fn south_border(w: u8, h: u8, col_major: bool) -> (r: Self)
        requires
            w as nat * h as nat <= 64,
            1 <= w,
            1 <= h,
        ensures
            r.inv(),
            r.spec_width() == w as nat,
            r.spec_height() == h as nat,
            r.spec_col_major() == col_major,
            forall|i: int|
                r.bit_at(i) == (0 <= i < w as int * h as int && spec_y_of(
                    w as int,
                    h as int,
                    col_major,
                    i,
                ) == 0),
    {
        Self::row_mask(w, h, col_major, 0)
    }

    /// The north border: one bit per column, at row `h - 1`.
    pub fn north_border(w: u8, h: u8, col_major: bool) -> (r: Self)
        requires
            w as nat * h as nat <= 64,
            1 <= w,
            1 <= h,
        ensures
            r.inv(),
            r.spec_width() == w as nat,
            r.spec_height() == h as nat,
            r.spec_col_major() == col_major,
            forall|i: int|
                r.bit_at(i) == (0 <= i < w as int * h as int && spec_y_of(
                    w as int,
                    h as int,
                    col_major,
                    i,
                ) == h as int - 1),
    {
        Self::row_mask(w, h, col_major, h - 1)
    }

    /// All four borders of the board.
    pub fn borders(w: u8, h: u8, col_major: bool) -> (r: Self)
        requires
            w as nat * h as nat <= 64,
            1 <= w,
            1 <= h,
        ensures
            r.inv(),
            r.spec_width() == w as nat,
            r.spec_height() == h as nat,
            r.spec_col_major() == col_major,
            forall|i: int|
                r.bit_at(i) == (0 <= i < w as int * h as int && (spec_x_of(
                    w as int,
                    h as int,
                    col_major,
                    i,
                ) == 0 || spec_x_of(w as int, h as int, col_major, i) == w as int - 1 || spec_y_of(
                    w as int,
                    h as int,
                    col_major,
                    i,
                ) == 0 || spec_y_of(w as int, h as int, col_major, i) == h as int - 1)),
    {
        let ww = Self::west_border(w, h, col_major);
        let ee = Self::east_border(w, h, col_major);
        let nn = Self::north_border(w, h, col_major);
        let ss = Self::south_border(w, h, col_major);
        ww.bitor(ee).bitor(nn).bitor(ss)
    }

    /// Bitwise AND of two boards; the left board's shape is kept.
    pub fn bitand(self, rhs: Self) -> (r: Self)
        ensures
            r.spec_width() == self.spec_width(),
            r.spec_height() == self.spec_height(),
            r.spec_col_major() == self.spec_col_major(),
            r.inv() == self.inv(),
            r.spec_bits() == self.spec_bits() & rhs.spec_bits(),
            forall|i: int| #[trigger] r.bit_at(i) == (self.bit_at(i) && rhs.bit_at(i)),
    {
        proof {
            lemma_bit64_ops();
        }
        SmallBitboard {
            w: self.w,
            h: self.h,
            col_major: self.col_major,
            bits: self.bits & rhs.bits,
        }
    }

    /// Bitwise OR of two boards; the left board's shape is kept.
    pub fn bitor(self, rhs: Self) -> (r: Self)
        ensures
            r.spec_width() == self.spec_width(),
            r.spec_height() == self.spec_height(),
            r.spec_col_major() == self.spec_col_major(),
            r.inv() == self.inv(),
            r.spec_bits() == self.spec_bits() | rhs.spec_bits(),
            forall|i: int| #[trigger] r.bit_at(i) == (self.bit_at(i) || rhs.bit_at(i)),
    {
        proof {
            lemma_bit64_ops();
        }
        SmallBitboard {
            w: self.w,
            h: self.h,
            col_major: self.col_major,
            bits: self.bits | rhs.bits,
        }
    }

    /// Bitwise XOR of two boards; the left board's shape is kept.
    pub fn bitxor(self, rhs: Self) -> (r: Self)
        ensures
            r.spec_width() == self.spec_width(),
            r.spec_height() == self.spec_height(),
            r.spec_col_major() == self.spec_col_major(),
            r.inv() == self.inv(),
            r.spec_bits() == self.spec_bits() ^ rhs.spec_bits(),
            forall|i: int| #[trigger] r.bit_at(i) == (self.bit_at(i) != rhs.bit_at(i)),
    {
        proof {
            lemma_bit64_ops();
        }
        SmallBitboard {
            w: self.w,
            h: self.h,
            col_major: self.col_major,
            bits: self.bits ^ rhs.bits,
        }
    }

    /// In-place bitwise AND.
    pub fn bitand_assign(&mut self, rhs: Self)
        ensures
            final(self).spec_width() == old(self).spec_width(),
            final(self).spec_height() == old(self).spec_height(),
            final(self).spec_col_major() == old(self).spec_col_major(),
            final(self).inv() == old(self).inv(),
            final(self).spec_bits() == old(self).spec_bits() & rhs.spec_bits(),
            forall|i: int|
                #[trigger] final(self).bit_at(i) == (old(self).bit_at(i) && rhs.bit_at(i)),
    {
        *self = self.bitand(rhs);
    }

    /// In-place bitwise OR.
    pub fn bitor_assign(&mut self, rhs: Self)
        ensures
            final(self).spec_width() == old(self).spec_width(),
            final(self).spec_height() == old(self).spec_height(),
            final(self).spec_col_major() == old(self).spec_col_major(),
            final(self).inv() == old(self).inv(),
            final(self).spec_bits() == old(self).spec_bits() | rhs.spec_bits(),
            forall|i: int|
                #[trigger] final(self).bit_at(i) == (old(self).bit_at(i) || rhs.bit_at(i)),
    {
        *self = self.bitor(rhs);
    }

    /// In-place bitwise XOR.
    pub fn bitxor_assign(&mut self, rhs: Self)
        ensures
            final(self).spec_width() == old(self).spec_width(),
            final(self).spec_height() == old(self).spec_height(),
            final(self).spec_col_major() == old(self).spec_col_major(),
            final(self).inv() == old(self).inv(),
            final(self).spec_bits() == old(self).spec_bits() ^ rhs.spec_bits(),
            forall|i: int|
                #[trigger] final(self).bit_at(i) == (old(self).bit_at(i) != rhs.bit_at(i)),
    {
        *self = self.bitxor(rhs);
    }

    /// Bitwise complement of the storage word, padding bits included.
    pub fn not(self) -> (r: Self)
        ensures
            r.spec_width() == self.spec_width(),
            r.spec_height() == self.spec_height(),
            r.spec_col_major() == self.spec_col_major(),
            r.inv() == self.inv(),
            r.spec_bits() == !self.spec_bits(),
            forall|i: int| 0 <= i < 64 ==> #[trigger] r.bit_at(i) == !self.bit_at(i),
    {
        proof {
            lemma_bit64_ops();
        }
        SmallBitboard { w: self.w, h: self.h, col_major: self.col_major, bits: !self.bits }
    }

    /// Logical left shift of the storage word: toward higher indices.
    pub fn shl(self, rhs: usize) -> (r: Self)
        requires
            rhs < 64,
        ensures
            r.spec_width() == self.spec_width(),
            r.spec_height() == self.spec_height(),
            r.spec_col_major() == self.spec_col_major(),
            r.inv() == self.inv(),
            r.spec_bits() == self.spec_bits() << rhs,
            forall|i: int|
                0 <= i < 64 ==> #[trigger] r.bit_at(i) == (i >= rhs && self.bit_at(i - rhs)),
    {
        proof {
            lemma_bit64_shifts();
        }
        SmallBitboard {
            w: self.w,
            h: self.h,
            col_major: self.col_major,
            bits: self.bits << (rhs as u64),
        }
    }

    /// Logical right shift of the storage word: toward lower indices.
    pub fn shr(self, rhs: usize) -> (r: Self)
        requires
            rhs < 64,
        ensures
            r.spec_width() == self.spec_width(),
            r.spec_height() == self.spec_height(),
            r.spec_col_major() == self.spec_col_major(),
            r.inv() == self.inv(),
            r.spec_bits() == self.spec_bits() >> rhs,
            forall|i: int| #[trigger] r.bit_at(i) == (0 <= i < 64 && self.bit_at(i + rhs)),
    {
        proof {
            lemma_bit64_ops();
            lemma_bit64_shifts();
        }
        SmallBitboard {
            w: self.w,
            h: self.h,
            col_major: self.col_major,
            bits: self.bits >> (rhs as u64),
        }
    }

    /// In-place logical left shift.
    pub fn shl_assign(&mut self, rhs: usize)
        requires
            rhs < 64,
        ensures
            final(self).spec_width() == old(self).spec_width(),
            final(self).spec_height() == old(self).spec_height(),
            final(self).spec_col_major() == old(self).spec_col_major(),
            final(self).inv() == old(self).inv(),
            final(self).spec_bits() == old(self).spec_bits() << rhs,
            forall|i: int|
                0 <= i < 64 ==> #[trigger] final(self).bit_at(i) == (i >= rhs && old(self).bit_at(
                    i - rhs,
                )),
    {
        *self = self.shl(rhs);
    }

    /// In-place logical right shift.
    pub fn shr_assign(&mut self, rhs: usize)
        requires
            rhs < 64,
        ensures
            final(self).spec_width() == old(self).spec_width(),
            final(self).spec_height() == old(self).spec_height(),
            final(self).spec_col_major() == old(self).spec_col_major(),
            final(self).inv() == old(self).inv(),
            final(self).spec_bits() == old(self).spec_bits() >> rhs,
            forall|i: int|
                #[trigger] final(self).bit_at(i) == (0 <= i < 64 && old(self).bit_at(i + rhs)),
    {
        *self = self.shr(rhs);
    }

    /// Parallel bit extract: packs the bits of `self` selected by `mask`
    /// densely into the low end of the result, in increasing index order.
    pub fn pext(&self, mask: &Self) -> (r: u64)
        ensures
            r == pext64(self.spec_bits(), mask.spec_bits()),
    {
        let v0 = self.bits;
        let m0 = mask.bits;
        let mut res: u64 = 0;
        let mut bit: u64 = 1;
        let mut m = m0;
        let mut v = v0;
        let ghost mut k: int = 0;
        proof {
            crate::bitops::lemma_bit64_shift_steps();
            lemma_bit64_ops();
            lemma_bit64_shifts();
            assert(m0 >> 0u64 == m0 && v0 >> 0u64 == v0 && 1u64 << 0u64 == 1u64) by (bit_vector);
        }
        while m != 0
            invariant
                0 <= k <= 64,
                m == m0 >> (k as u64),
                v == v0 >> (k as u64),
                res == pext64_upto(v0, m0, k),
                ones_below64(m0, k) < 64 ==> bit == 1u64 << (ones_below64(m0, k) as u64),
            decreases m,
        {
            proof {
                crate::bitops::lemma_bit64_shift_steps();
                lemma_bit64_ops();
                lemma_bit64_shifts();
                lemma_ones_below64_bound(m0, k);
                if k == 64 {
                    assert(m == 0);
                }
                assert(bit64(m0, k as u64) == ((m & 1) == 1));
                assert(bit64(v0, k as u64) == ((v & 1) == 1));
            }
            if m & 1 != 0 {
                if v & 1 != 0 {
                    res = res | bit;
                }
                bit = bit << 1;
            }
            m = m >> 1;
            v = v >> 1;
            proof {
                k = k + 1;
            }
        }
        proof {
            crate::bitops::lemma_bit64_high_clear(m0, k as u64);
            crate::bitops::lemma_pext64_upto_stable(v0, m0, k, 64);
        }
        res
    }

    /// Parallel bit deposit: scatters the low bits of `compressed` to the
    /// set bits of the mask `self`, in increasing index order.
    pub fn pdep(&self, compressed: u64) -> (r: Self)
        ensures
            r.spec_width() == self.spec_width(),
            r.spec_height() == self.spec_height(),
            r.spec_col_major() == self.spec_col_major(),
            r.inv() == self.inv(),
            r.spec_bits() == pdep64(self.spec_bits(), compressed),
    {
        let m0 = self.bits;
        let c0 = compressed;
        let mut res: u64 = 0;
        let mut bit: u64 = 1;
        let mut m = m0;
        let mut v = c0;
        let ghost mut k: int = 0;
        proof {
            crate::bitops::lemma_bit64_shift_steps();
            lemma_bit64_ops();
            lemma_bit64_shifts();
            crate::bitops::lemma_ones_below64_zero(0);
            assert(m0 >> 0u64 == m0 && c0 >> 0u64 == c0 && 1u64 << 0u64 == 1u64) by (bit_vector);
        }
        while m != 0
            invariant
                0 <= k <= 64,
                m == m0 >> (k as u64),
                v == c0 >> (ones_below64(m0, k) as u64),
                ones_below64(m0, k) <= k,
                res == pdep64_upto(m0, c0, k),
                k < 64 ==> bit == 1u64 << (k as u64),
            decreases m,
        {
            proof {
                crate::bitops::lemma_bit64_shift_steps();
                lemma_bit64_ops();
                lemma_bit64_shifts();
                lemma_ones_below64_bound(m0, k);
                if k == 64 {
                    assert(m == 0);
                }
                assert(bit64(m0, k as u64) == ((m & 1) == 1));
                assert(bit64(c0, ones_below64(m0, k) as u64) == ((v & 1) == 1));
            }
            if m & 1 != 0 {
                if v & 1 != 0 {
                    res = res | bit;
                }
                v = v >> 1;
            }
            bit = bit << 1;
            m = m >> 1;
            proof {
                k = k + 1;
            }
        }
        proof {
            crate::bitops::lemma_bit64_high_clear(m0, k as u64);
            crate::bitops::lemma_pdep64_upto_stable(m0, c0, k, 64);
        }
        SmallBitboard { w: self.w, h: self.h, col_major: self.col_major, bits: res }
    }

    /// Bridges the board-level row-mask characterization to the word level.
    proof fn lemma_word_row_mask(mask: &SmallBitboard, w: int, h: int, cm: bool, y: int)
        requires
            forall|i: int|
                #[trigger] mask.bit_at(i) == (0 <= i < w * h && spec_y_of(w, h, cm, i) == y),
        ensures
            crate::lanes::is_row_mask(mask.spec_bits(), w, h, cm, y),
    {
        assert forall|i: int|
            0 <= i < 64 implies (bit64(mask.spec_bits(), #[trigger] (i as u64)) == (i < w * h
            && spec_y_of(w, h, cm, i) == y)) by {
            assert(mask.bit_at(i) == (0 <= i < w * h && spec_y_of(w, h, cm, i) == y));
        }
    }

    /// Bridges the board-level column-mask characterization to the word level.
    proof fn lemma_word_col_mask(mask: &SmallBitboard, w: int, h: int, cm: bool, x: int)
        requires
            forall|i: int|
                #[trigger] mask.bit_at(i) == (0 <= i < w * h && spec_x_of(w, h, cm, i) == x),
        ensures
            crate::lanes::is_col_mask(mask.spec_bits(), w, h, cm, x),
    {
        assert forall|i: int|
            0 <= i < 64 implies (bit64(mask.spec_bits(), #[trigger] (i as u64)) == (i < w * h
            && spec_x_of(w, h, cm, i) == x)) by {
            assert(mask.bit_at(i) == (0 <= i < w * h && spec_x_of(w, h, cm, i) == x));
        }
    }

    /// Reads row `y` as a dense bitfield: bit `x` of the result is the
    /// cell `(x, y)`.
    pub fn extract_row(&self, y: u8) -> (r: u64)
        requires
            self.inv(),
            (y as nat) < self.spec_height(),
        ensures
            forall|x: int|
                0 <= x < self.spec_width() ==> (bit64(r, #[trigger] (x as u64)) == self.bit_at(
                    crate::board::cell_index(self, x, y as int),
                )),
            forall|j: u64| j >= self.spec_width() ==> !bit64(r, j),
    {
        let mask = Self::row_mask(self.w, self.h, self.col_major, y);
        let r = self.pext(&mask);
        proof {
            let w = self.spec_width() as int;
            let h = self.spec_height() as int;
            let cm = self.spec_col_major();
            let mb = mask.spec_bits();
            let v = self.spec_bits();
            lemma_bit64_ops();
            Self::lemma_word_row_mask(&mask, w, h, cm, y as int);
            assert forall|x: int| 0 <= x < w implies (bit64(r, #[trigger] (x as u64))
                == self.bit_at(spec_index_of(w, h, cm, x, y as int))) by {
                let idx = spec_index_of(w, h, cm, x, y as int);
                crate::coords::lemma_index_of_in_range(w, h, cm, x, y as int);
                crate::coords::lemma_index_coords_roundtrip(w, h, cm, x, y as int);
                crate::lanes::lemma_row_mask_rank(mb, w, h, cm, y as int, x);
                crate::bitops::lemma_pext64_upto_char(v, mb, 64, x as u64);
                if bit64(v, idx as u64) {
                    assert(0 <= idx < 64 && bit64(mb, idx as u64) && bit64(v, idx as u64)
                        && ones_below64(mb, idx) == x);
                } else {
                    if bit64(r, x as u64) {
                        let i2 = choose|i2: int|
                            0 <= i2 < 64 && bit64(mb, #[trigger] (i2 as u64)) && bit64(
                                v,
                                i2 as u64,
                            ) && ones_below64(mb, i2) == x;
                        if i2 < idx {
                            crate::bitops::lemma_ones_below64_strict(mb, i2, idx);
                        } else if i2 > idx {
                            crate::bitops::lemma_ones_below64_strict(mb, idx, i2);
                        }
                    }
                }
            }
            assert forall|j: u64| j >= w implies !bit64(r, j) by {
                if j < 64 {
                    if w >= 1 {
                        crate::lanes::lemma_row_mask_popcount(mb, w, h, cm, y as int);
                        crate::bitops::lemma_pext64_high_zero(v, mb, j);
                    } else {
                        assert forall|i: int| 0 <= i < 64 implies !bit64(
                            mb,
                            #[trigger] (i as u64),
                        ) by {
                            if bit64(mb, i as u64) {
                                crate::coords::lemma_coords_of_in_range(w, h, cm, i);
                            }
                        }
                        crate::bitops::lemma_ones_below64_constant(mb, 0, 64);
                        crate::bitops::lemma_pext64_high_zero(v, mb, j);
                    }
                }
            }
        }
        r
    }

    /// Reads column `x` as a dense bitfield: bit `y` of the result is the
    /// cell `(x, y)`.
    pub fn extract_col(&self, x: u8) -> (r: u64)
        requires
            self.inv(),
            (x as nat) < self.spec_width(),
        ensures
            forall|y: int|
                0 <= y < self.spec_height() ==> (bit64(r, #[trigger] (y as u64)) == self.bit_at(
                    crate::board::cell_index(self, x as int, y),
                )),
            forall|j: u64| j >= self.spec_height() ==> !bit64(r, j),
    {
        let mask = Self::col_mask(self.w, self.h, self.col_major, x);
        let r = self.pext(&mask);
        proof {
            let w = self.spec_width() as int;
            let h = self.spec_height() as int;
            let cm = self.spec_col_major();
            let mb = mask.spec_bits();
            let v = self.spec_bits();
            lemma_bit64_ops();
            Self::lemma_word_col_mask(&mask, w, h, cm, x as int);
            assert forall|y: int| 0 <= y < h implies (bit64(r, #[trigger] (y as u64))
                == self.bit_at(spec_index_of(w, h, cm, x as int, y))) by {
                let idx = spec_index_of(w, h, cm, x as int, y);
                crate::coords::lemma_index_of_in_range(w, h, cm, x as int, y);
                crate::coords::lemma_index_coords_roundtrip(w, h, cm, x as int, y);
                crate::lanes::lemma_col_mask_rank(mb, w, h, cm, x as int, y);
                crate::bitops::lemma_pext64_upto_char(v, mb, 64, y as u64);
                if bit64(v, idx as u64) {
                    assert(0 <= idx < 64 && bit64(mb, idx as u64) && bit64(v, idx as u64)
                        && ones_below64(mb, idx) == y);
                } else {
                    if bit64(r, y as u64) {
                        let i2 = choose|i2: int|
                            0 <= i2 < 64 && bit64(mb, #[trigger] (i2 as u64)) && bit64(
                                v,
                                i2 as u64,
                            ) && ones_below64(mb, i2) == y;
                        if i2 < idx {
                            crate::bitops::lemma_ones_below64_strict(mb, i2, idx);
                        } else if i2 > idx {
                            crate::bitops::lemma_ones_below64_strict(mb, idx, i2);
                        }
                    }
                }
            }
            assert forall|j: u64| j >= h implies !bit64(r, j) by {
                if j < 64 {
                    if h >= 1 {
                        crate::lanes::lemma_col_mask_popcount(mb, w, h, cm, x as int);
                        crate::bitops::lemma_pext64_high_zero(v, mb, j);
                    } else {
                        assert forall|i: int| 0 <= i < 64 implies !bit64(
                            mb,
                            #[trigger] (i as u64),
                        ) by {
                            if bit64(mb, i as u64) {
                                crate::coords::lemma_coords_of_in_range(w, h, cm, i);
                            }
                        }
                        crate::bitops::lemma_ones_below64_constant(mb, 0, 64);
                        crate::bitops::lemma_pext64_high_zero(v, mb, j);
                    }
                }
            }
        }
        r
    }

    /// Writes row `y` from a dense bitfield: cell `(x, y)` becomes bit `x`
    /// of `row_bits`; every other cell and every padding bit is kept.
    pub fn insert_row(&mut self, y: u8, row_bits: u64)
        requires
            old(self).inv(),
            (y as nat) < old(self).spec_height(),
        ensures
            final(self).inv(),
            final(self).spec_width() == old(self).spec_width(),
            final(self).spec_height() == old(self).spec_height(),
            final(self).spec_col_major() == old(self).spec_col_major(),
            forall|x: int|
                0 <= x < old(self).spec_width() ==> final(self).bit_at(
                    crate::board::cell_index(old(self), x, y as int),
                ) == bit64(row_bits, #[trigger] (x as u64)),
            forall|j: int|
                !(0 <= j < old(self).spec_width() * old(self).spec_height() && spec_y_of(
                    old(self).spec_width() as int,
                    old(self).spec_height() as int,
                    old(self).spec_col_major(),
                    j,
                ) == y as int) ==> #[trigger] final(self).bit_at(j) == old(self).bit_at(j),
    {
        let ghost pre = *self;
        let mask = Self::row_mask(self.w, self.h, self.col_major, y);
        let cleared = self.bitand(mask.not());
        let dep = mask.pdep(row_bits);
        *self = cleared.bitor(dep);
        proof {
            let w = pre.spec_width() as int;
            let h = pre.spec_height() as int;
            let cm = pre.spec_col_major();
            let mb = mask.spec_bits();
            lemma_bit64_ops();
            Self::lemma_word_row_mask(&mask, w, h, cm, y as int);
            assert forall|x: int| 0 <= x < w implies self.bit_at(
                crate::board::cell_index(&pre, x, y as int),
            ) == bit64(row_bits, #[trigger] (x as u64)) by {
                let idx = spec_index_of(w, h, cm, x, y as int);
                crate::coords::lemma_index_of_in_range(w, h, cm, x, y as int);
                crate::coords::lemma_index_coords_roundtrip(w, h, cm, x, y as int);
                crate::lanes::lemma_row_mask_rank(mb, w, h, cm, y as int, x);
                crate::bitops::lemma_pdep64_upto_char(mb, row_bits, 64, idx as u64);
            }
            assert forall|j: int|
                !(0 <= j < w * h && spec_y_of(w, h, cm, j) == y as int) implies #[trigger] self.bit_at(
                j,
            ) == pre.bit_at(j) by {
                if 0 <= j < 64 {
                    crate::bitops::lemma_pdep64_upto_char(mb, row_bits, 64, j as u64);
                    assert(!bit64(mb, j as u64));
                }
            }
        }
    }

    /// Writes column `x` from a dense bitfield: cell `(x, y)` becomes bit
    /// `y` of `col_bits`; every other cell and every padding bit is kept.
    pub fn insert_col(&mut self, x: u8, col_bits: u64)
        requires
            old(self).inv(),
            (x as nat) < old(self).spec_width(),
        ensures
            final(self).inv(),
            final(self).spec_width() == old(self).spec_width(),
            final(self).spec_height() == old(self).spec_height(),
            final(self).spec_col_major() == old(self).spec_col_major(),
            forall|y: int|
                0 <= y < old(self).spec_height() ==> final(self).bit_at(
                    crate::board::cell_index(old(self), x as int, y),
                ) == bit64(col_bits, #[trigger] (y as u64)),
            forall|j: int|
                !(0 <= j < old(self).spec_width() * old(self).spec_height() && spec_x_of(
                    old(self).spec_width() as int,
                    old(self).spec_height() as int,
                    old(self).spec_col_major(),
                    j,
                ) == x as int) ==> #[trigger] final(self).bit_at(j) == old(self).bit_at(j),
    {
        let ghost pre = *self;
        let mask = Self::col_mask(self.w, self.h, self.col_major, x);
        let cleared = self.bitand(mask.not());
        let dep = mask.pdep(col_bits);
        *self = cleared.bitor(dep);
        proof {
            let w = pre.spec_width() as int;
            let h = pre.spec_height() as int;
            let cm = pre.spec_col_major();
            let mb = mask.spec_bits();
            lemma_bit64_ops();
            Self::lemma_word_col_mask(&mask, w, h, cm, x as int);
            assert forall|y: int| 0 <= y < h implies self.bit_at(
                crate::board::cell_index(&pre, x as int, y),
            ) == bit64(col_bits, #[trigger] (y as u64)) by {
                let idx = spec_index_of(w, h, cm, x as int, y);
                crate::coords::lemma_index_of_in_range(w, h, cm, x as int, y);
                crate::coords::lemma_index_coords_roundtrip(w, h, cm, x as int, y);
                crate::lanes::lemma_col_mask_rank(mb, w, h, cm, x as int, y);
                crate::bitops::lemma_pdep64_upto_char(mb, col_bits, 64, idx as u64);
            }
            assert forall|j: int|
                !(0 <= j < w * h && spec_x_of(w, h, cm, j) == x as int) implies #[trigger] self.bit_at(
                j,
            ) == pre.bit_at(j) by {
                if 0 <= j < 64 {
                    crate::bitops::lemma_pdep64_upto_char(mb, col_bits, 64, j as u64);
                    assert(!bit64(mb, j as u64));
                }
            }
        }
    }

    /// All subsets of the board's bit pattern, in increasing numeric order
    /// of the storage word, starting with the empty board. Every subset
    /// appears exactly once; the board itself comes last.
    pub fn all_subsets(&self) -> (r: Vec<Self>)
        requires
            self.inv(),
        ensures
            r@.len() >= 1,
            forall|k: int|
                0 <= k < r@.len() ==> (#[trigger] r@[k]).inv() && r@[k].spec_width()
                    == self.spec_width() && r@[k].spec_height() == self.spec_height()
                    && r@[k].spec_col_major() == self.spec_col_major() && r@[k].spec_bits()
                    & self.spec_bits() == r@[k].spec_bits(),
            r@[0].spec_bits() == 0,
            forall|k1: int, k2: int|
                0 <= k1 < k2 < r@.len() ==> r@[k1].spec_bits() < r@[k2].spec_bits(),
            forall|t: u64|
                t & self.spec_bits() == t ==> exists|k: int|
                    0 <= k < r@.len() && r@[k].spec_bits() == t,
    {
        let b = self.bits;
        let mut out: Vec<Self> = Vec::new();
        let mut sub: u64 = 0;
        proof {
            assert(0u64 & b == 0u64) by (bit_vector);
        }
        loop
            invariant
                self.inv(),
                b == self.spec_bits(),
                sub & b == sub,
                forall|k: int|
                    0 <= k < out@.len() ==> (#[trigger] out@[k]).inv() && out@[k].spec_width()
                        == self.spec_width() && out@[k].spec_height() == self.spec_height()
                        && out@[k].spec_col_major() == self.spec_col_major() && out@[k].spec_bits()
                        & b == out@[k].spec_bits(),
                forall|k1: int, k2: int|
                    0 <= k1 < k2 < out@.len() ==> out@[k1].spec_bits() < out@[k2].spec_bits(),
                forall|k: int| 0 <= k < out@.len() ==> (#[trigger] out@[k]).spec_bits() < sub,
                forall|t: u64|
                    t & b == t && t < sub ==> exists|k: int|
                        0 <= k < out@.len() && out@[k].spec_bits() == t,
                out@.len() == 0 ==> sub == 0,
                out@.len() > 0 ==> out@[0].spec_bits() == 0,
            decreases 0xffff_ffff_ffff_ffffu64 - sub,
        {
            let ghost out0 = out@;
            out.push(SmallBitboard { w: self.w, h: self.h, col_major: self.col_major, bits: sub });
            proof {
                assert(forall|k: int| 0 <= k < out0.len() ==> out@[k] == out0[k]);
                assert(out@[out0.len() as int].spec_bits() == sub);
            }
            let d = if sub >= b {
                sub - b
            } else {
                sub + (0xffff_ffff_ffff_ffffu64 - b) + 1
            };
            let next = d & b;
            proof {
                crate::bitops::lemma_carry_rippler(b, sub, d);
            }
            if next == 0 {
                proof {
                    assert forall|t: u64| t & b == t implies exists|k: int|
                        0 <= k < out@.len() && out@[k].spec_bits() == t by {
                        if t < sub {
                            let k = choose|k: int|
                                0 <= k < out0.len() && out0[k].spec_bits() == t;
                            assert(out@[k].spec_bits() == t);
                        } else {
                            assert(t <= b && sub == b);
                            assert(out@[out0.len() as int].spec_bits() == t);
                        }
                    }
                }
                return out;
            }
            sub = next;
            proof {
                assert forall|t: u64| t & b == t && t < sub implies exists|k: int|
                    0 <= k < out@.len() && out@[k].spec_bits() == t by {
                    if t < out@[out0.len() as int].spec_bits() {
                        let k = choose|k: int| 0 <= k < out0.len() && out0[k].spec_bits() == t;
                        assert(out@[k].spec_bits() == t);
                    } else {
                        assert(t == out@[out0.len() as int].spec_bits());
                    }
                }
            }
        }
    }

    /// How far one step east moves the linear index.
    pub open spec fn spec_h_offset(&self) -> int {
        if self.spec_col_major() {
            self.spec_height() as int
        } else {
            1
        }
    }

    /// How far one step north moves the linear index.
    pub open spec fn spec_v_offset(&self) -> int {
        if self.spec_col_major() {
            1
        } else {
            self.spec_width() as int
        }
    }

    /// One step east moves a cell's index by the east offset.
    pub proof fn lemma_offsets(&self)
        requires
            self.inv(),
        ensures
            forall|x: int, y: int|
                0 <= x && 0 <= y ==> crate::board::cell_index(self, x + 1, y)
                    == #[trigger] crate::board::cell_index(self, x, y) + self.spec_h_offset(),
            forall|x: int, y: int|
                0 <= x && 0 <= y ==> crate::board::cell_index(self, x, y + 1)
                    == #[trigger] crate::board::cell_index(self, x, y) + self.spec_v_offset(),
    {
        assert forall|x: int, y: int| 0 <= x && 0 <= y implies crate::board::cell_index(
            self,
            x + 1,
            y,
        ) == #[trigger] crate::board::cell_index(self, x, y) + self.spec_h_offset()
            && crate::board::cell_index(self, x, y + 1) == crate::board::cell_index(self, x, y)
            + self.spec_v_offset() by {
            let w = self.spec_width() as int;
            let h = self.spec_height() as int;
            if self.spec_col_major() {
                assert((x + 1) * h == x * h + h) by (nonlinear_arith);
            } else {
                assert((y + 1) * w == y * w + w) by (nonlinear_arith);
            }
        }
    }

    /// Every cell moved one step north: the top row is dropped first so
    /// that nothing wraps, then the board is shifted up by one row offset.
    pub fn shift_n(&self) -> (r: Self)
        requires
            self.inv(),
            1 <= self.spec_width(),
            1 <= self.spec_height(),
        ensures
            r.inv(),
            crate::board::same_shape(&r, self),
            forall|i: int|
                0 <= i < 64 ==> #[trigger] r.bit_at(i) == (i - self.spec_v_offset() >= 0
                    && self.bit_at(i - self.spec_v_offset()) && !(i - self.spec_v_offset()
                    < self.spec_width() * self.spec_height() && spec_y_of(
                    self.spec_width() as int,
                    self.spec_height() as int,
                    self.spec_col_major(),
                    i - self.spec_v_offset(),
                ) == self.spec_height() - 1)),
    {
        proof {
            self.lemma_inv();
        }
        let top = Self::row_mask(self.w, self.h, self.col_major, self.h - 1);
        let v: usize = if self.col_major {
            1
        } else {
            self.w as usize
        };
        if v >= 64 {
            proof {
                lemma_bit64_ops();
            }
            return Self::empty(self.w, self.h, self.col_major);
        }
        self.bitand(top.not()).shl(v)
    }

    /// Every cell moved one step south: the bottom row is dropped first,
    /// then the board is shifted down by one row offset. Padding bits can
    /// flow into the top cells; boards whose cells fill the word have none.
    pub fn shift_s(&self) -> (r: Self)
        requires
            self.inv(),
            1 <= self.spec_width(),
            1 <= self.spec_height(),
        ensures
            r.inv(),
            crate::board::same_shape(&r, self),
            forall|i: int|
                #[trigger] r.bit_at(i) == (0 <= i < 64 && self.bit_at(i + self.spec_v_offset())
                    && !(spec_y_of(
                    self.spec_width() as int,
                    self.spec_height() as int,
                    self.spec_col_major(),
                    i + self.spec_v_offset(),
                ) == 0 && i + self.spec_v_offset() < self.spec_width() * self.spec_height())),
    {
        proof {
            self.lemma_inv();
        }
        let bottom = Self::row_mask(self.w, self.h, self.col_major, 0);
        let v: usize = if self.col_major {
            1
        } else {
            self.w as usize
        };
        if v >= 64 {
            proof {
                lemma_bit64_ops();
            }
            return Self::empty(self.w, self.h, self.col_major);
        }
        self.bitand(bottom.not()).shr(v)
    }

    /// Every cell moved one step east: the east column is dropped first,
    /// then the board is shifted by one column offset.
    pub fn shift_e(&self) -> (r: Self)
        requires
            self.inv(),
            1 <= self.spec_width(),
            1 <= self.spec_height(),
        ensures
            r.inv(),
            crate::board::same_shape(&r, self),
            forall|i: int|
                0 <= i < 64 ==> #[trigger] r.bit_at(i) == (i - self.spec_h_offset() >= 0
                    && self.bit_at(i - self.spec_h_offset()) && !(i - self.spec_h_offset()
                    < self.spec_width() * self.spec_height() && spec_x_of(
                    self.spec_width() as int,
                    self.spec_height() as int,
                    self.spec_col_major(),
                    i - self.spec_h_offset(),
                ) == self.spec_width() - 1)),
    {
        proof {
            self.lemma_inv();
        }
        let east = Self::col_mask(self.w, self.h, self.col_major, self.w - 1);
        let hh: usize = if self.col_major {
            self.h as usize
        } else {
            1
        };
        if hh >= 64 {
            proof {
                lemma_bit64_ops();
            }
            return Self::empty(self.w, self.h, self.col_major);
        }
        self.bitand(east.not()).shl(hh)
    }

    /// Every cell moved one step west: the west column is dropped first,
    /// then the board is shifted by one column offset. Padding bits can
    /// flow into the east cells; boards whose cells fill the word have none.
    pub fn shift_w(&self) -> (r: Self)
        requires
            self.inv(),
            1 <= self.spec_width(),
            1 <= self.spec_height(),
        ensures
            r.inv(),
            crate::board::same_shape(&r, self),
            forall|i: int|
                #[trigger] r.bit_at(i) == (0 <= i < 64 && self.bit_at(i + self.spec_h_offset())
                    && !(spec_x_of(
                    self.spec_width() as int,
                    self.spec_height() as int,
                    self.spec_col_major(),
                    i + self.spec_h_offset(),
                ) == 0 && i + self.spec_h_offset() < self.spec_width() * self.spec_height())),
    {
        proof {
            self.lemma_inv();
        }
        let west = Self::col_mask(self.w, self.h, self.col_major, 0);
        let hh: usize = if self.col_major {
            self.h as usize
        } else {
            1
        };
        if hh >= 64 {
            proof {
                lemma_bit64_ops();
            }
            return Self::empty(self.w, self.h, self.col_major);
        }
        self.bitand(west.not()).shr(hh)
    }

    /// Every cell moved one step north-east, with the no-wrap masks of
    /// both borders applied before the shift.
    pub fn shift_ne(&self) -> (r: Self)
        requires
            self.inv(),
            1 <= self.spec_width(),
            1 <= self.spec_height(),
        ensures
            r.inv(),
            crate::board::same_shape(&r, self),
            forall|i: int|
                0 <= i < 64 ==> #[trigger] r.bit_at(i) == (i - self.spec_v_offset()
                    - self.spec_h_offset() >= 0 && self.bit_at(
                    i - self.spec_v_offset() - self.spec_h_offset(),
                ) && !(i - self.spec_v_offset() - self.spec_h_offset() < self.spec_width()
                    * self.spec_height() && (spec_y_of(
                    self.spec_width() as int,
                    self.spec_height() as int,
                    self.spec_col_major(),
                    i - self.spec_v_offset() - self.spec_h_offset(),
                ) == self.spec_height() - 1 || spec_x_of(
                    self.spec_width() as int,
                    self.spec_height() as int,
                    self.spec_col_major(),
                    i - self.spec_v_offset() - self.spec_h_offset(),
                ) == self.spec_width() - 1))),
    {
        proof {
            self.lemma_inv();
        }
        let top = Self::row_mask(self.w, self.h, self.col_major, self.h - 1);
        let east = Self::col_mask(self.w, self.h, self.col_major, self.w - 1);
        let v: usize = if self.col_major {
            1
        } else {
            self.w as usize
        };
        let hh: usize = if self.col_major {
            self.h as usize
        } else {
            1
        };
        if v + hh >= 64 {
            proof {
                lemma_bit64_ops();
            }
            return Self::empty(self.w, self.h, self.col_major);
        }
        self.bitand(top.not()).bitand(east.not()).shl(v + hh)
    }

    /// Every cell moved one step south-west, with the no-wrap masks of
    /// both borders applied before the shift.
    pub fn shift_sw(&self) -> (r: Self)
        requires
            self.inv(),
            1 <= self.spec_width(),
            1 <= self.spec_height(),
        ensures
            r.inv(),
            crate::board::same_shape(&r, self),
            forall|i: int|
                #[trigger] r.bit_at(i) == (0 <= i < 64 && self.bit_at(
                    i + self.spec_v_offset() + self.spec_h_offset(),
                ) && !((spec_y_of(
                    self.spec_width() as int,
                    self.spec_height() as int,
                    self.spec_col_major(),
                    i + self.spec_v_offset() + self.spec_h_offset(),
                ) == 0 || spec_x_of(
                    self.spec_width() as int,
                    self.spec_height() as int,
                    self.spec_col_major(),
                    i + self.spec_v_offset() + self.spec_h_offset(),
                ) == 0) && i + self.spec_v_offset() + self.spec_h_offset() < self.spec_width()
                    * self.spec_height())),
    {
        proof {
            self.lemma_inv();
        }
        let bottom = Self::row_mask(self.w, self.h, self.col_major, 0);
        let west = Self::col_mask(self.w, self.h, self.col_major, 0);
        let v: usize = if self.col_major {
            1
        } else {
            self.w as usize
        };
        let hh: usize = if self.col_major {
            self.h as usize
        } else {
            1
        };
        if v + hh >= 64 {
            proof {
                lemma_bit64_ops();
            }
            return Self::empty(self.w, self.h, self.col_major);
        }
        self.bitand(bottom.not()).bitand(west.not()).shr(v + hh)
    }

    /// Every cell moved one step north-west, with the no-wrap masks of
    /// both borders applied before the shift.
    pub fn shift_nw(&self) -> (r: Self)
        requires
            self.inv(),
            1 <= self.spec_width(),
            1 <= self.spec_height(),
        ensures
            r.inv(),
            crate::board::same_shape(&r, self),
            forall|i: int|
                0 <= i < 64 ==> #[trigger] r.bit_at(i) == (0 <= i - self.spec_v_offset()
                    + self.spec_h_offset() && self.bit_at(
                    i - self.spec_v_offset() + self.spec_h_offset(),
                ) && !(i - self.spec_v_offset() + self.spec_h_offset() < self.spec_width()
                    * self.spec_height() && (spec_y_of(
                    self.spec_width() as int,
                    self.spec_height() as int,
                    self.spec_col_major(),
                    i - self.spec_v_offset() + self.spec_h_offset(),
                ) == self.spec_height() - 1 || spec_x_of(
                    self.spec_width() as int,
                    self.spec_height() as int,
                    self.spec_col_major(),
                    i - self.spec_v_offset() + self.spec_h_offset(),
                ) == 0))),
    {
        proof {
            self.lemma_inv();
            assert(self.spec_width() <= 64 && self.spec_height() <= 64) by (nonlinear_arith)
                requires
                    1 <= self.spec_width(),
                    1 <= self.spec_height(),
                    self.spec_width() * self.spec_height() <= 64,
            ;
        }
        let top = Self::row_mask(self.w, self.h, self.col_major, self.h - 1);
        let west = Self::col_mask(self.w, self.h, self.col_major, 0);
        let masked = self.bitand(top.not()).bitand(west.not());
        if self.col_major {
            masked.shr((self.h - 1) as usize)
        } else {
            masked.shl((self.w - 1) as usize)
        }
    }

    /// Every cell moved one step south-east, with the no-wrap masks of
    /// both borders applied before the shift.
    pub fn shift_se(&self) -> (r: Self)
        requires
            self.inv(),
            1 <= self.spec_width(),
            1 <= self.spec_height(),
        ensures
            r.inv(),
            crate::board::same_shape(&r, self),
            forall|i: int|
                0 <= i < 64 ==> #[trigger] r.bit_at(i) == (0 <= i + self.spec_v_offset()
                    - self.spec_h_offset() && self.bit_at(
                    i + self.spec_v_offset() - self.spec_h_offset(),
                ) && !(i + self.spec_v_offset() - self.spec_h_offset() < self.spec_width()
                    * self.spec_height() && (spec_y_of(
                    self.spec_width() as int,
                    self.spec_height() as int,
                    self.spec_col_major(),
                    i + self.spec_v_offset() - self.spec_h_offset(),
                ) == 0 || spec_x_of(
                    self.spec_width() as int,
                    self.spec_height() as int,
                    self.spec_col_major(),
                    i + self.spec_v_offset() - self.spec_h_offset(),
                ) == self.spec_width() - 1))),
    {
        proof {
            self.lemma_inv();
            assert(self.spec_width() <= 64 && self.spec_height() <= 64) by (nonlinear_arith)
                requires
                    1 <= self.spec_width(),
                    1 <= self.spec_height(),
                    self.spec_width() * self.spec_height() <= 64,
            ;
        }
        let bottom = Self::row_mask(self.w, self.h, self.col_major, 0);
        let east = Self::col_mask(self.w, self.h, self.col_major, self.w - 1);
        let masked = self.bitand(bottom.not()).bitand(east.not());
        if self.col_major {
            masked.shl((self.h - 1) as usize)
        } else {
            masked.shr((self.w - 1) as usize)
        }
    }

    /// Converts `(x, y)` coordinates into a linear bit index.
    pub fn index_from_coords(w: u8, h: u8, col_major: bool, x: u8, y: u8) -> (r: usize)
        requires
            x < w,
            y < h,
        ensures
            r == spec_index_of(w as int, h as int, col_major, x as int, y as int),
            r < w as int * h as int,
    {
        crate::coords::index_from_coords(w, h, col_major, x, y)
    }

    /// Gets the `(x, y)` coordinates of a linear bit index.
    pub fn coords_from_index(w: u8, h: u8, col_major: bool, i: usize) -> (r: (u8, u8))
        requires
            i < w as int * h as int,
        ensures
            r.0 == spec_x_of(w as int, h as int, col_major, i as int),
            r.1 == spec_y_of(w as int, h as int, col_major, i as int),
            r.0 < w,
            r.1 < h,
            spec_index_of(w as int, h as int, col_major, r.0 as int, r.1 as int) == i,
    {
        crate::coords::coords_from_index(w, h, col_major, i)
    }

    /// Checks that the cell `(x, y)` lies on a `w` by `h` board.
    pub fn is_in_bounds(w: u8, h: u8, x: u8, y: u8) -> (r: bool)
        ensures
            r == (x < w && y < h),
    {
        crate::coords::is_in_bounds(w, h, x, y)
    }

    /// Checks that the linear index `i` lies on a `w` by `h` board.
    pub fn is_index_in_bounds(w: u8, h: u8, i: usize) -> (r: bool)
        ensures
            r == (i < w as int * h as int),
    {
        crate::coords::is_index_in_bounds(w, h, i)
    }

    /// The empty board of this board's shape.
    pub fn empty_with_same_shape(&self) -> (r: Self)
        requires
            self.inv(),
        ensures
            r.inv(),
            crate::board::same_shape(&r, self),
            forall|i: int| !r.bit_at(i),
    {
        Self::empty(self.w, self.h, self.col_major)
    }

    /// The full board of this board's shape.
    pub fn full_with_same_shape(&self) -> (r: Self)
        requires
            self.inv(),
        ensures
            r.inv(),
            crate::board::same_shape(&r, self),
            forall|i: int|
                r.bit_at(i) == (0 <= i < self.spec_width() * self.spec_height()),
    {
        Self::full(self.w, self.h, self.col_major)
    }

    /// The west border of this board's shape.
    pub fn west_border_with_same_shape(&self) -> (r: Self)
        requires
            self.inv(),
            1 <= self.spec_width(),
            1 <= self.spec_height(),
        ensures
            r.inv(),
            crate::board::same_shape(&r, self),
            forall|i: int|
                r.bit_at(i) == (0 <= i < self.spec_width() * self.spec_height() && spec_x_of(
                    self.spec_width() as int,
                    self.spec_height() as int,
                    self.spec_col_major(),
                    i,
                ) == 0),
    {
        Self::west_border(self.w, self.h, self.col_major)
    }

    /// The east border of this board's shape.
    pub fn east_border_with_same_shape(&self) -> (r: Self)
        requires
            self.inv(),
            1 <= self.spec_width(),
            1 <= self.spec_height(),
        ensures
            r.inv(),
            crate::board::same_shape(&r, self),
            forall|i: int|
                r.bit_at(i) == (0 <= i < self.spec_width() * self.spec_height() && spec_x_of(
                    self.spec_width() as int,
                    self.spec_height() as int,
                    self.spec_col_major(),
                    i,
                ) == self.spec_width() - 1),
    {
        Self::east_border(self.w, self.h, self.col_major)
    }

    /// The south border of this board's shape.
    pub fn south_border_with_same_shape(&self) -> (r: Self)
        requires
            self.inv(),
            1 <= self.spec_width(),
            1 <= self.spec_height(),
        ensures
            r.inv(),
            crate::board::same_shape(&r, self),
            forall|i: int|
                r.bit_at(i) == (0 <= i < self.spec_width() * self.spec_height() && spec_y_of(
                    self.spec_width() as int,
                    self.spec_height() as int,
                    self.spec_col_major(),
                    i,
                ) == 0),
    {
        Self::south_border(self.w, self.h, self.col_major)
    }

    /// The north border of this board's shape.
    pub fn north_border_with_same_shape(&self) -> (r: Self)
        requires
            self.inv(),
            1 <= self.spec_width(),
            1 <= self.spec_height(),
        ensures
            r.inv(),
            crate::board::same_shape(&r, self),
            forall|i: int|
                r.bit_at(i) == (0 <= i < self.spec_width() * self.spec_height() && spec_y_of(
                    self.spec_width() as int,
                    self.spec_height() as int,
                    self.spec_col_major(),
                    i,
                ) == self.spec_height() - 1),
    {
        Self::north_border(self.w, self.h, self.col_major)
    }

    /// All four borders of this board's shape.
    pub fn borders_with_same_shape(&self) -> (r: Self)
        requires
            self.inv(),
            1 <= self.spec_width(),
            1 <= self.spec_height(),
        ensures
            r.inv(),
            crate::board::same_shape(&r, self),
            forall|i: int|
                r.bit_at(i) == (0 <= i < self.spec_width() * self.spec_height() && (spec_x_of(
                    self.spec_width() as int,
                    self.spec_height() as int,
                    self.spec_col_major(),
                    i,
                ) == 0 || spec_x_of(
                    self.spec_width() as int,
                    self.spec_height() as int,
                    self.spec_col_major(),
                    i,
                ) == self.spec_width() - 1 || spec_y_of(
                    self.spec_width() as int,
                    self.spec_height() as int,
                    self.spec_col_major(),
                    i,
                ) == 0 || spec_y_of(
                    self.spec_width() as int,
                    self.spec_height() as int,
                    self.spec_col_major(),
                    i,
                ) == self.spec_height() - 1)),
    {
        Self::borders(self.w, self.h, self.col_major)
    }

    /// The mask of row `y` of this board's shape.
    pub fn row_mask_with_same_shape(&self, y: u8) -> (r: Self)
        requires
            self.inv(),
            (y as nat) < self.spec_height(),
        ensures
            r.inv(),
            crate::board::same_shape(&r, self),
            forall|i: int|
                r.bit_at(i) == (0 <= i < self.spec_width() * self.spec_height() && spec_y_of(
                    self.spec_width() as int,
                    self.spec_height() as int,
                    self.spec_col_major(),
                    i,
                ) == y as int),
    {
        Self::row_mask(self.w, self.h, self.col_major, y)
    }

    /// The mask of column `x` of this board's shape.
    pub fn col_mask_with_same_shape(&self, x: u8) -> (r: Self)
        requires
            self.inv(),
            (x as nat) < self.spec_width(),
        ensures
            r.inv(),
            crate::board::same_shape(&r, self),
            forall|i: int|
                r.bit_at(i) == (0 <= i < self.spec_width() * self.spec_height() && spec_x_of(
                    self.spec_width() as int,
                    self.spec_height() as int,
                    self.spec_col_major(),
                    i,
                ) == x as int),
    {
        Self::col_mask(self.w, self.h, self.col_major, x)
    }

    /// Converts `(x, y)` into a linear index for this board's shape.
    pub fn index_from_coords_with_same_shape(&self, x: u8, y: u8) -> (r: usize)
        requires
            (x as nat) < self.spec_width(),
            (y as nat) < self.spec_height(),
        ensures
            r == crate::board::cell_index(self, x as int, y as int),
            r < self.spec_width() * self.spec_height(),
    {
        crate::coords::index_from_coords(self.w, self.h, self.col_major, x, y)
    }

    /// Gets the `(x, y)` coordinates of a linear index for this board's shape.
    pub fn coords_from_index_with_same_shape(&self, i: usize) -> (r: (u8, u8))
        requires
            i < self.spec_width() * self.spec_height(),
        ensures
            r.0 as int == spec_x_of(
                self.spec_width() as int,
                self.spec_height() as int,
                self.spec_col_major(),
                i as int,
            ),
            r.1 as int == spec_y_of(
                self.spec_width() as int,
                self.spec_height() as int,
                self.spec_col_major(),
                i as int,
            ),
            (r.0 as nat) < self.spec_width(),
            (r.1 as nat) < self.spec_height(),
            crate::board::cell_index(self, r.0 as int, r.1 as int) == i,
    {
        crate::coords::coords_from_index(self.w, self.h, self.col_major, i)
    }

    /// Checks that the cell `(x, y)` lies on this board.
    pub fn is_in_bounds_with_same_shape(&self, x: u8, y: u8) -> (r: bool)
        ensures
            r == ((x as nat) < self.spec_width() && (y as nat) < self.spec_height()),
    {
        crate::coords::is_in_bounds(self.w, self.h, x, y)
    }

    /// Checks that the linear index `i` lies on this board.
    pub fn is_index_in_bounds_with_same_shape(&self, i: usize) -> (r: bool)
        ensures
            r == (i < self.spec_width() * self.spec_height()),
    {
        crate::coords::is_index_in_bounds(self.w, self.h, i)
    }
}

impl Default for SmallBitboard {
    /// The empty 8 by 8 row-major board.
    fn default() -> (r: Self)
        ensures
            r.inv(),
            r.spec_width() == 8,
            r.spec_height() == 8,
            !r.spec_col_major(),
            r.spec_bits() == 0u64,
    {
        SmallBitboard { w: 8, h: 8, col_major: false, bits: 0 }
    }
}

impl Bitboard for SmallBitboard {
    closed spec fn spec_width(&self) -> nat {
        self.w as nat
    }

    closed spec fn spec_height(&self) -> nat {
        self.h as nat
    }

    closed spec fn spec_col_major(&self) -> bool {
        self.col_major
    }

    open spec fn capacity(&self) -> nat {
        64
    }

    open spec fn bit_at(&self, i: int) -> bool {
        0 <= i < 64 && bit64(self.spec_bits(), i as u64)
    }

    closed spec fn inv(&self) -> bool {
        self.w as nat * self.h as nat <= 64
    }

    proof fn lemma_inv(&self) {
    }

    fn width(&self) -> u8 {
        self.w
    }

    fn height(&self) -> u8 {
        self.h
    }

    fn col_major(&self) -> bool {
        self.col_major
    }

    fn is_empty(&self) -> bool {
        proof {
            lemma_bit64_ops();
            if self.bits != 0 {
                axiom_u64_trailing_zeros(self.bits);
                let t = u64_trailing_zeros(self.bits) as int;
                assert(self.bit_at(t));
            }
        }
        self.bits == 0
    }

    fn any(&self) -> bool {
        proof {
            lemma_bit64_ops();
            if self.bits != 0 {
                axiom_u64_trailing_zeros(self.bits);
                let t = u64_trailing_zeros(self.bits) as int;
                assert(self.bit_at(t));
            }
        }
        self.bits != 0
    }

    fn intersects(&self, other: &Self) -> bool {
        proof {
            lemma_bit64_ops();
            let both = self.bits & other.bits;
            if both != 0 {
                axiom_u64_trailing_zeros(both);
                let t = u64_trailing_zeros(both) as int;
                assert(bit64(both, t as u64));
                assert(self.bit_at(t) && other.bit_at(t));
            } else {
                assert forall|i: int| 0 <= i < 64 implies !(self.bit_at(i) && other.bit_at(i)) by {
                    assert(bit64(both, i as u64) == (bit64(self.bits, i as u64) && bit64(
                        other.bits,
                        i as u64,
                    )));
                }
            }
        }
        self.bits & other.bits != 0
    }

    fn get_at_index(&self, idx: usize) -> bool {
        (self.bits >> (idx as u64)) & 1 == 1
    }

    fn set_value_at_index(&mut self, idx: usize, val: bool) {
        if val {
            self.set_at_index(idx);
        } else {
            self.reset_at_index(idx);
        }
    }

    fn set_at_index(&mut self, idx: usize) {
        proof {
            lemma_bit64_ops();
            lemma_bit64_shifts();
        }
        self.bits = self.bits | (1u64 << (idx as u64));
    }

    fn reset_at_index(&mut self, idx: usize) {
        proof {
            lemma_bit64_ops();
            lemma_bit64_shifts();
        }
        self.bits = self.bits & !(1u64 << (idx as u64));
    }

    fn toggle_at_index(&mut self, idx: usize) {
        proof {
            lemma_bit64_ops();
            lemma_bit64_shifts();
        }
        self.bits = self.bits ^ (1u64 << (idx as u64));
    }

    fn get(&self, x: u8, y: u8) -> bool {
        let idx = crate::coords::index_from_coords(self.w, self.h, self.col_major, x, y);
        self.get_at_index(idx)
    }

    fn set_value(&mut self, x: u8, y: u8, val: bool) {
        let idx = crate::coords::index_from_coords(self.w, self.h, self.col_major, x, y);
        self.set_value_at_index(idx, val);
    }

    fn set(&mut self, x: u8, y: u8) {
        let idx = crate::coords::index_from_coords(self.w, self.h, self.col_major, x, y);
        self.set_at_index(idx);
    }

    fn reset(&mut self, x: u8, y: u8) {
        let idx = crate::coords::index_from_coords(self.w, self.h, self.col_major, x, y);
        self.reset_at_index(idx);
    }

    fn flipped(&self) -> Self {
        proof {
            lemma_bit64_ops();
        }
        SmallBitboard { w: self.w, h: self.h, col_major: self.col_major, bits: !self.bits }
    }

    fn lsb(&self) -> u32 {
        proof {
            lemma_bit64_ops();
            axiom_u64_trailing_zeros(self.bits);
            if self.bits != 0 {
                let t = u64_trailing_zeros(self.bits) as int;
                assert(self.bit_at(t));
            }
        }
        self.bits.trailing_zeros()
    }

    fn pop_lsb(&mut self) -> u32 {
        let t = self.bits.trailing_zeros();
        proof {
            lemma_bit64_ops();
            lemma_bit64_mask();
            axiom_u64_trailing_zeros(self.bits);
            if self.bits == 0 {
                assert(forall|i: int| !self.bit_at(i));
                assert(false);
            }
            assert(t < 64 && bit64(self.bits, t as u64));
            assert(forall|j: u64| j < t as u64 ==> !bit64(self.bits, j));
            lemma_bit64_ext_below(self.bits, 0u64, t as u64);
            assert(self.bits & mask64(t as u64) == 0u64 & mask64(t as u64));
            lemma_clear_lsb64(self.bits, t as u64);
        }
        self.bits = self.bits & (self.bits - 1);
        t
    }
}

} // verus!
