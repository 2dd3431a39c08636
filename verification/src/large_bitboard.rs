//! Bit-grid backed by an array of 64-bit words: boards of any shape up to
//! 255 by 255 cells. Linear index `i` lives in bit `i % 64` of word
//! `i / 64`.

use vstd::prelude::*;

verus! {

use crate::bitops::{
    bit64,
    mask64,
    lemma_bit64_ops,
    lemma_bit64_shifts,
    lemma_bit64_mask,
    lemma_bit64_ext_below,
    lemma_clear_lsb64,
};
use crate::board::{Bitboard, count_bits, count_bits_below};
use crate::coords::{spec_index_of, spec_x_of, spec_y_of};
use vstd::std_specs::bits::{axiom_u64_trailing_zeros, u64_trailing_zeros};

/// Bit `i` of a sequence of 64-bit words, low word first.
pub open spec fn bits_in_words(s: Seq<u64>, i: int) -> bool {
    0 <= i < 64 * s.len() && bit64(s[i / 64], (i % 64) as u64)
}

/// Splitting an index into its word and bit offset.
proof fn lemma_word_split(i: int)
    requires
        0 <= i,
    ensures
        64 * (i / 64) + i % 64 == i,
        0 <= i % 64 < 64,
        0 <= i / 64,
{
    assert(64 * (i / 64) + i % 64 == i && 0 <= i % 64 < 64 && 0 <= i / 64) by (nonlinear_arith)
        requires
            0 <= i,
    ;
}

/// Rebuilding an index from its word and bit offset.
proof fn lemma_word_join(wi: int, b: int)
    requires
        0 <= wi,
        0 <= b < 64,
    ensures
        (wi * 64 + b) / 64 == wi,
        (wi * 64 + b) % 64 == b,
        0 <= wi * 64 + b,
{
    assert((wi * 64 + b) / 64 == wi && (wi * 64 + b) % 64 == b && 0 <= wi * 64 + b)
        by (nonlinear_arith)
        requires
            0 <= wi,
            0 <= b < 64,
    ;
}

/// An index below the capacity of `n` words lies in a word below `n`.
proof fn lemma_word_of_index(i: int, n: int)
    requires
        0 <= i < 64 * n,
    ensures
        0 <= i / 64 < n,
        0 <= i % 64 < 64,
        64 * (i / 64) + i % 64 == i,
{
    lemma_word_split(i);
    assert(i / 64 < n) by (nonlinear_arith)
        requires
            0 <= i < 64 * n,
            64 * (i / 64) + i % 64 == i,
            0 <= i % 64 < 64,
    ;
}

/// Numeric value of the first `n` storage words, low word first: the
/// word array read as one big unsigned integer.
pub open spec fn words_val(s: Seq<u64>, n: int) -> int
    decreases n,
{
    if n <= 0 {
        0
    } else {
        words_val(s, n - 1) + s[n - 1] * vstd::arithmetic::power2::pow2((64 * (n - 1)) as nat)
    }
}

/// Word arrays that agree from `m` on differ only by their prefix values.
proof fn lemma_words_val_suffix(s1: Seq<u64>, s2: Seq<u64>, m: int, n: int)
    requires
        0 <= m <= n,
        forall|k: int| m <= k < n ==> s1[k] == s2[k],
    ensures
        words_val(s1, n) - words_val(s1, m) == words_val(s2, n) - words_val(s2, m),
    decreases n - m,
{
    if m < n {
        lemma_words_val_suffix(s1, s2, m, n - 1);
    }
}

/// The value of `n` words is below `2 ^ (64 n)`.
proof fn lemma_words_val_bound(s: Seq<u64>, n: int)
    requires
        0 <= n,
        n <= s.len(),
    ensures
        0 <= words_val(s, n) < vstd::arithmetic::power2::pow2((64 * n) as nat),
    decreases n,
{
    vstd::arithmetic::power2::lemma_pow2_pos((64 * n) as nat);
    if n > 0 {
        lemma_words_val_bound(s, n - 1);
        vstd::arithmetic::power2::lemma_pow2_adds((64 * (n - 1)) as nat, 64);
        vstd::arithmetic::power2::lemma_pow2_pos((64 * (n - 1)) as nat);
        let p = vstd::arithmetic::power2::pow2((64 * (n - 1)) as nat) as int;
        vstd::arithmetic::power2::lemma2_to64_rest();
        assert(words_val(s, n - 1) + s[n - 1] * p < p * 0x1_0000_0000_0000_0000)
            by (nonlinear_arith)
            requires
                0 <= words_val(s, n - 1) < p,
                0 <= s[n - 1] < 0x1_0000_0000_0000_0000,
                p > 0,
        ;
    }
}

/// A board of up to 255 by 255 cells in `ceil(w * h / 64)` words of 64
/// bits. The bits at indices `w * h` and above are padding.
#[derive(Clone, PartialEq, Eq)]
pub struct LargeBitboard {
    w: u8,
    h: u8,
    col_major: bool,
    bits: Vec<u64>,
}

impl LargeBitboard {
    /// The storage words, low word first.
    pub closed spec fn spec_words(&self) -> Seq<u64> {
        self.bits@
    }

    /// How the abstract view of the board reads its storage words.
    pub proof fn lemma_view(&self)
        ensures
            self.capacity() == 64 * self.spec_words().len(),
            forall|i: int| #[trigger] self.bit_at(i) == bits_in_words(self.spec_words(), i),
            self.inv() <==> self.spec_words().len() == (self.spec_width() * self.spec_height()
                + 63) / 64,
    {
    }

    /// Builds a board from its shape and storage words. The word count
    /// must match the shape: one word per 64 cells, rounded up.
    pub fn new(w: u8, h: u8, col_major: bool, bits: Vec<u64>) -> (r: Self)
        requires
            bits@.len() == (w as int * h as int + 63) / 64,
        ensures
            r.inv(),
            r.spec_width() == w as nat,
            r.spec_height() == h as nat,
            r.spec_col_major() == col_major,
            r.spec_words() == bits@,
    {
        LargeBitboard { w, h, col_major, bits }
    }

    /// A reference to the storage words of the board.
    pub fn storage(&self) -> (r: &Vec<u64>)
        ensures
            r@ == self.spec_words(),
    {
        &self.bits
    }

    /// The number of storage words a `w` by `h` board needs.
    pub fn nb_words(w: u8, h: u8) -> (r: usize)
        ensures
            r == (w as int * h as int + 63) / 64,
    {
        proof {
            assert((w as int) * (h as int) < 65536) by (nonlinear_arith)
                requires
                    w < 256,
                    h < 256,
            ;
        }
        (w as usize * h as usize + 63) / 64
    }

    /// The board with no bit set.
    pub fn empty(w: u8, h: u8, col_major: bool) -> (r: Self)
        ensures
            r.inv(),
            r.spec_width() == w as nat,
            r.spec_height() == h as nat,
            r.spec_col_major() == col_major,
            forall|i: int| !r.bit_at(i),
    {
        let n = Self::nb_words(w, h);
        let mut bits: Vec<u64> = Vec::new();
        let mut k: usize = 0;
        while k < n
            invariant
                k <= n,
                bits@.len() == k,
                forall|t: int| 0 <= t < k ==> bits@[t] == 0u64,
            decreases n - k,
        {
            bits.push(0);
            k = k + 1;
        }
        let r = LargeBitboard { w, h, col_major, bits };
        proof {
            lemma_bit64_ops();
            assert forall|i: int| !r.bit_at(i) by {
                if 0 <= i < 64 * r.spec_words().len() {
                    lemma_word_of_index(i, r.spec_words().len() as int);
                    assert(r.spec_words()[i / 64] == 0u64);
                }
            }
        }
        r
    }

    /// The board with every cell bit set and every padding bit clear.
    pub fn full(w: u8, h: u8, col_major: bool) -> (r: Self)
        ensures
            r.inv(),
            r.spec_width() == w as nat,
            r.spec_height() == h as nat,
            r.spec_col_major() == col_major,
            forall|i: int| r.bit_at(i) == (0 <= i < w as int * h as int),
    {
        let mut r = Self::empty(w, h, col_major);
        proof {
            assert((w as int) * (h as int) < 65536) by (nonlinear_arith)
                requires
                    w < 256,
                    h < 256,
            ;
            r.lemma_inv();
        }
        let n: usize = w as usize * h as usize;
        let mut k: usize = 0;
        while k < n
            invariant
                k <= n,
                n == w as int * h as int,
                r.inv(),
                r.spec_width() == w as nat,
                r.spec_height() == h as nat,
                r.spec_col_major() == col_major,
                n <= r.capacity(),
                forall|i: int| #[trigger] r.bit_at(i) == (0 <= i < k),
            decreases n - k,
        {
            r.set_at_index(k);
            k = k + 1;
        }
        r
    }

    /// Bitwise AND of two boards of one shape, word by word.
    pub fn bitand(self, rhs: &Self) -> (r: Self)
        requires
            self.inv(),
            rhs.inv(),
            crate::board::same_shape(&self, rhs),
        ensures
            r.inv(),
            crate::board::same_shape(&r, &self),
            forall|i: int| #[trigger] r.bit_at(i) == (self.bit_at(i) && rhs.bit_at(i)),
    {
        let mut out = self;
        out.bitand_assign(rhs);
        out
    }

    /// Bitwise OR of two boards of one shape, word by word.
    pub fn bitor(self, rhs: &Self) -> (r: Self)
        requires
            self.inv(),
            rhs.inv(),
            crate::board::same_shape(&self, rhs),
        ensures
            r.inv(),
            crate::board::same_shape(&r, &self),
            forall|i: int| #[trigger] r.bit_at(i) == (self.bit_at(i) || rhs.bit_at(i)),
    {
        let mut out = self;
        out.bitor_assign(rhs);
        out
    }

    /// Bitwise XOR of two boards of one shape, word by word.
    pub fn bitxor(self, rhs: &Self) -> (r: Self)
        requires
            self.inv(),
            rhs.inv(),
            crate::board::same_shape(&self, rhs),
        ensures
            r.inv(),
            crate::board::same_shape(&r, &self),
            forall|i: int| #[trigger] r.bit_at(i) == (self.bit_at(i) != rhs.bit_at(i)),
    {
        let mut out = self;
        out.bitxor_assign(rhs);
        out
    }

    /// In-place bitwise AND, word by word.
    pub fn bitand_assign(&mut self, rhs: &Self)
        requires
            old(self).inv(),
            rhs.inv(),
            crate::board::same_shape(old(self), rhs),
        ensures
            final(self).inv(),
            crate::board::same_shape(final(self), old(self)),
            forall|i: int|
                #[trigger] final(self).bit_at(i) == (old(self).bit_at(i) && rhs.bit_at(i)),
    {
        let n = self.bits.len();
        let mut wi: usize = 0;
        while wi < n
            invariant
                self.inv(),
                rhs.inv(),
                wi <= n,
                n == self.spec_words().len(),
                n == rhs.spec_words().len(),
                self.spec_width() == old(self).spec_width(),
                self.spec_height() == old(self).spec_height(),
                self.spec_col_major() == old(self).spec_col_major(),
                forall|t: int|
                    0 <= t < wi ==> self.spec_words()[t] == (old(self).spec_words()[t]
                        & rhs.spec_words()[t]),
                forall|t: int| wi <= t < n ==> self.spec_words()[t] == old(self).spec_words()[t],
            decreases n - wi,
        {
            self.bits[wi] = self.bits[wi] & rhs.bits[wi];
            wi = wi + 1;
        }
        proof {
            lemma_bit64_ops();
            assert forall|i: int|
                #[trigger] self.bit_at(i) == (old(self).bit_at(i) && rhs.bit_at(i)) by {
                if 0 <= i < 64 * n {
                    lemma_word_of_index(i, n as int);
                }
            }
        }
    }

    /// In-place bitwise OR, word by word.
    pub fn bitor_assign(&mut self, rhs: &Self)
        requires
            old(self).inv(),
            rhs.inv(),
            crate::board::same_shape(old(self), rhs),
        ensures
            final(self).inv(),
            crate::board::same_shape(final(self), old(self)),
            forall|i: int|
                #[trigger] final(self).bit_at(i) == (old(self).bit_at(i) || rhs.bit_at(i)),
    {
        let n = self.bits.len();
        let mut wi: usize = 0;
        while wi < n
            invariant
                self.inv(),
                rhs.inv(),
                wi <= n,
                n == self.spec_words().len(),
                n == rhs.spec_words().len(),
                self.spec_width() == old(self).spec_width(),
                self.spec_height() == old(self).spec_height(),
                self.spec_col_major() == old(self).spec_col_major(),
                forall|t: int|
                    0 <= t < wi ==> self.spec_words()[t] == (old(self).spec_words()[t]
                        | rhs.spec_words()[t]),
                forall|t: int| wi <= t < n ==> self.spec_words()[t] == old(self).spec_words()[t],
            decreases n - wi,
        {
            self.bits[wi] = self.bits[wi] | rhs.bits[wi];
            wi = wi + 1;
        }
        proof {
            lemma_bit64_ops();
            assert forall|i: int|
                #[trigger] self.bit_at(i) == (old(self).bit_at(i) || rhs.bit_at(i)) by {
                if 0 <= i < 64 * n {
                    lemma_word_of_index(i, n as int);
                }
            }
        }
    }

    /// In-place bitwise XOR, word by word.
    pub fn bitxor_assign(&mut self, rhs: &Self)
        requires
            old(self).inv(),
            rhs.inv(),
            crate::board::same_shape(old(self), rhs),
        ensures
            final(self).inv(),
            crate::board::same_shape(final(self), old(self)),
            forall|i: int|
                #[trigger] final(self).bit_at(i) == (old(self).bit_at(i) != rhs.bit_at(i)),
    {
        let n = self.bits.len();
        let mut wi: usize = 0;
        while wi < n
            invariant
                self.inv(),
                rhs.inv(),
                wi <= n,
                n == self.spec_words().len(),
                n == rhs.spec_words().len(),
                self.spec_width() == old(self).spec_width(),
                self.spec_height() == old(self).spec_height(),
                self.spec_col_major() == old(self).spec_col_major(),
                forall|t: int|
                    0 <= t < wi ==> self.spec_words()[t] == (old(self).spec_words()[t]
                        ^ rhs.spec_words()[t]),
                forall|t: int| wi <= t < n ==> self.spec_words()[t] == old(self).spec_words()[t],
            decreases n - wi,
        {
            self.bits[wi] = self.bits[wi] ^ rhs.bits[wi];
            wi = wi + 1;
        }
        proof {
            lemma_bit64_ops();
            assert forall|i: int|
                #[trigger] self.bit_at(i) == (old(self).bit_at(i) != rhs.bit_at(i)) by {
                if 0 <= i < 64 * n {
                    lemma_word_of_index(i, n as int);
                }
            }
        }
    }

    /// Bitwise complement of every storage word, padding bits included.
    pub fn not(self) -> (r: Self)
        requires
            self.inv(),
        ensures
            r.inv(),
            crate::board::same_shape(&r, &self),
            forall|i: int| 0 <= i < self.capacity() ==> #[trigger] r.bit_at(i) == !self.bit_at(i),
    {
        self.flipped()
    }

    /// The mask of row `y`: every cell `(x, y)`, no padding bit.
    pub fn row_mask(w: u8, h: u8, col_major: bool, y: u8) -> (r: Self)
        requires
            y < h,
        ensures
            r.inv(),
            r.spec_width() == w as nat,
            r.spec_height() == h as nat,
            r.spec_col_major() == col_major,
            forall|i: int|
                #[trigger] r.bit_at(i) == (0 <= i < w as int * h as int && spec_y_of(
                    w as int,
                    h as int,
                    col_major,
                    i,
                ) == y as int),
    {
        let mut r = Self::empty(w, h, col_major);
        proof {
            r.lemma_inv();
        }
        let mut x: u8 = 0;
        while x < w
            invariant
                x <= w,
                y < h,
                r.inv(),
                r.spec_width() == w as nat,
                r.spec_height() == h as nat,
                r.spec_col_major() == col_major,
                w as int * h as int <= r.capacity(),
                forall|i: int|
                    #[trigger] r.bit_at(i) == (0 <= i < w as int * h as int && spec_y_of(
                        w as int,
                        h as int,
                        col_major,
                        i,
                    ) == y as int && spec_x_of(w as int, h as int, col_major, i) < x as int),
            decreases w - x,
        {
            let ghost pre = r;
            r.set(x, y);
            proof {
                let wi = w as int;
                let hi = h as int;
                crate::coords::lemma_index_of_in_range(wi, hi, col_major, x as int, y as int);
                crate::coords::lemma_index_coords_roundtrip(wi, hi, col_major, x as int, y as int);
                let idx = spec_index_of(wi, hi, col_major, x as int, y as int);
                assert forall|i: int| #[trigger] r.bit_at(i) == (0 <= i < wi * hi && spec_y_of(
                    wi,
                    hi,
                    col_major,
                    i,
                ) == y as int && spec_x_of(wi, hi, col_major, i) < x as int + 1) by {
                    if i != idx && 0 <= i < wi * hi && spec_y_of(wi, hi, col_major, i) == y as int
                        && spec_x_of(wi, hi, col_major, i) == x as int {
                        crate::coords::lemma_coords_of_in_range(wi, hi, col_major, i);
                        assert(false);
                    }
                }
            }
            x = x + 1;
        }
        proof {
            assert forall|i: int| #[trigger] r.bit_at(i) == (0 <= i < w as int * h as int
                && spec_y_of(w as int, h as int, col_major, i) == y as int) by {
                if 0 <= i < w as int * h as int {
                    crate::coords::lemma_coords_of_in_range(w as int, h as int, col_major, i);
                }
            }
        }
        r
    }

    /// The mask of column `x`: every cell `(x, y)`, no padding bit.
    pub fn col_mask(w: u8, h: u8, col_major: bool, x: u8) -> (r: Self)
        requires
            x < w,
        ensures
            r.inv(),
            r.spec_width() == w as nat,
            r.spec_height() == h as nat,
            r.spec_col_major() == col_major,
            forall|i: int|
                #[trigger] r.bit_at(i) == (0 <= i < w as int * h as int && spec_x_of(
                    w as int,
                    h as int,
                    col_major,
                    i,
                ) == x as int),
    {
        let mut r = Self::empty(w, h, col_major);
        proof {
            r.lemma_inv();
        }
        let mut y: u8 = 0;
        while y < h
            invariant
                y <= h,
                x < w,
                r.inv(),
                r.spec_width() == w as nat,
                r.spec_height() == h as nat,
                r.spec_col_major() == col_major,
                w as int * h as int <= r.capacity(),
                forall|i: int|
                    #[trigger] r.bit_at(i) == (0 <= i < w as int * h as int && spec_x_of(
                        w as int,
                        h as int,
                        col_major,
                        i,
                    ) == x as int && spec_y_of(w as int, h as int, col_major, i) < y as int),
            decreases h - y,
        {
            let ghost pre = r;
            r.set(x, y);
            proof {
                let wi = w as int;
                let hi = h as int;
                crate::coords::lemma_index_of_in_range(wi, hi, col_major, x as int, y as int);
                crate::coords::lemma_index_coords_roundtrip(wi, hi, col_major, x as int, y as int);
                let idx = spec_index_of(wi, hi, col_major, x as int, y as int);
                assert forall|i: int| #[trigger] r.bit_at(i) == (0 <= i < wi * hi && spec_x_of(
                    wi,
                    hi,
                    col_major,
                    i,
                ) == x as int && spec_y_of(wi, hi, col_major, i) < y as int + 1) by {
                    if i != idx && 0 <= i < wi * hi && spec_x_of(wi, hi, col_major, i) == x as int
                        && spec_y_of(wi, hi, col_major, i) == y as int {
                        crate::coords::lemma_coords_of_in_range(wi, hi, col_major, i);
                        assert(false);
                    }
                }
            }
            y = y + 1;
        }
        proof {
            assert forall|i: int| #[trigger] r.bit_at(i) == (0 <= i < w as int * h as int
                && spec_x_of(w as int, h as int, col_major, i) == x as int) by {
                if 0 <= i < w as int * h as int {
                    crate::coords::lemma_coords_of_in_range(w as int, h as int, col_major, i);
                }
            }
        }
        r
    }

    /// The west border: one bit per row, at column 0.
    pub fn west_border(w: u8, h: u8, col_major: bool) -> (r: Self)
        requires
            1 <= w,
            1 <= h,
        ensures
            r.inv(),
            r.spec_width() == w as nat,
            r.spec_height() == h as nat,
            r.spec_col_major() == col_major,
            forall|i: int|
                #[trigger] r.bit_at(i) == (0 <= i < w as int * h as int && spec_x_of(
                    w as int,
                    h as int,
                    col_major,
                    i,
                ) == 0),
    {
        Self::col_mask(w, h, col_major, 0)
    }

    /// The east border: one bit per row, at column `w - 1`.
    pub fn east_border(w: u8, h: u8, col_major: bool) -> (r: Self)
        requires
            1 <= w,
            1 <= h,
        ensures
            r.inv(),
            r.spec_width() == w as nat,
            r.spec_height() == h as nat,
            r.spec_col_major() == col_major,
            forall|i: int|
                #[trigger] r.bit_at(i) == (0 <= i < w as int * h as int && spec_x_of(
                    w as int,
                    h as int,
                    col_major,
                    i,
                ) == w as int - 1),
    {
        Self::col_mask(w, h, col_major, w - 1)
    }

    /// The south border: one bit per column, at row 0.
    pub fn south_border(w: u8, h: u8, col_major: bool) -> (r: Self)
        requires
            1 <= w,
            1 <= h,
        ensures
            r.inv(),
            r.spec_width() == w as nat,
            r.spec_height() == h as nat,
            r.spec_col_major() == col_major,
            forall|i: int|
                #[trigger] r.bit_at(i) == (0 <= i < w as int * h as int && spec_y_of(
                    w as int,
                    h as int,
                    col_major,
                    i,
                ) == 0),
    {
        Self::row_mask(w, h, col_major, 0)
    }

    /// The north border: one bit per column, at row `h - 1`.
    pub fn north_border(w: u8, h: u8, col_major: bool) -> (r: Self)
        requires
            1 <= w,
            1 <= h,
        ensures
            r.inv(),
            r.spec_width() == w as nat,
            r.spec_height() == h as nat,
            r.spec_col_major() == col_major,
            forall|i: int|
                #[trigger] r.bit_at(i) == (0 <= i < w as int * h as int && spec_y_of(
                    w as int,
                    h as int,
                    col_major,
                    i,
                ) == h as int - 1),
    {
        Self::row_mask(w, h, col_major, h - 1)
    }

    /// All four borders of the board.
    pub fn borders(w: u8, h: u8, col_major: bool) -> (r: Self)
        requires
            1 <= w,
            1 <= h,
        ensures
            r.inv(),
            r.spec_width() == w as nat,
            r.spec_height() == h as nat,
            r.spec_col_major() == col_major,
            forall|i: int|
                #[trigger] r.bit_at(i) == (0 <= i < w as int * h as int && (spec_x_of(
                    w as int,
                    h as int,
                    col_major,
                    i,
                ) == 0 || spec_x_of(w as int, h as int, col_major, i) == w as int - 1 || spec_y_of(
                    w as int,
                    h as int,
                    col_major,
                    i,
                ) == 0 || spec_y_of(w as int, h as int, col_major, i) == h as int - 1)),
    {
        let ww = Self::west_border(w, h, col_major);
        let ee = Self::east_border(w, h, col_major);
        let nn = Self::north_border(w, h, col_major);
        let ss = Self::south_border(w, h, col_major);
        ww.bitor(&ee).bitor(&nn).bitor(&ss)
    }

    /// In-place logical left shift by `rhs` bit positions: toward higher
    /// indices, zero-filling from below, with carries across word borders.
    pub fn shl_assign(&mut self, rhs: usize)
        requires
            old(self).inv(),
        ensures
            final(self).inv(),
            crate::board::same_shape(final(self), old(self)),
            forall|j: int|
                #[trigger] final(self).bit_at(j) == (0 <= j < old(self).capacity() && j - rhs >= 0
                    && old(self).bit_at(j - rhs)),
    {
        let word_shift = rhs / 64;
        let bit_shift = (rhs % 64) as u64;
        let len = self.bits.len();
        let ghost pre = *self;
        proof {
            lemma_word_split(rhs as int);
        }
        if word_shift >= len {
            let mut t: usize = 0;
            while t < len
                invariant
                    t <= len,
                    self.spec_words().len() == len,
                    self.spec_width() == pre.spec_width(),
                    self.spec_height() == pre.spec_height(),
                    self.spec_col_major() == pre.spec_col_major(),
                    self.inv() == pre.inv(),
                    forall|k: int| 0 <= k < t ==> self.spec_words()[k] == 0u64,
                decreases len - t,
            {
                self.bits[t] = 0;
                t = t + 1;
            }
            proof {
                lemma_bit64_ops();
                assert forall|j: int|
                    #[trigger] self.bit_at(j) == (0 <= j < pre.capacity() && j - rhs >= 0
                        && pre.bit_at(j - rhs)) by {
                    if 0 <= j < 64 * len {
                        lemma_word_of_index(j, len as int);
                        if j - rhs >= 0 {
                            assert(j - rhs < 0) by (nonlinear_arith)
                                requires
                                    j < 64 * len,
                                    rhs >= 64 * (word_shift as int),
                                    word_shift as int >= len,
                            ;
                        }
                    }
                }
            }
            return ;
        }
        // move whole words, top first, zero-filling from below
        if word_shift > 0 {
            let mut i: usize = len;
            while i > word_shift
                invariant
                    word_shift < len,
                    word_shift <= i <= len,
                    self.spec_words().len() == len,
                    self.spec_width() == pre.spec_width(),
                    self.spec_height() == pre.spec_height(),
                    self.spec_col_major() == pre.spec_col_major(),
                    self.inv() == pre.inv(),
                    forall|k: int| 0 <= k < i ==> self.spec_words()[k] == pre.spec_words()[k],
                    forall|k: int|
                        i <= k < len ==> self.spec_words()[k] == pre.spec_words()[k
                            - word_shift as int],
                decreases i,
            {
                i = i - 1;
                self.bits[i] = self.bits[i - word_shift];
            }
            let mut t: usize = 0;
            while t < word_shift
                invariant
                    word_shift < len,
                    t <= word_shift,
                    self.spec_words().len() == len,
                    self.spec_width() == pre.spec_width(),
                    self.spec_height() == pre.spec_height(),
                    self.spec_col_major() == pre.spec_col_major(),
                    self.inv() == pre.inv(),
                    forall|k: int| 0 <= k < t ==> self.spec_words()[k] == 0u64,
                    forall|k: int|
                        word_shift as int <= k < len ==> self.spec_words()[k]
                            == pre.spec_words()[k - word_shift as int],
                decreases word_shift - t,
            {
                self.bits[t] = 0;
                t = t + 1;
            }
        }
        let ghost mid = *self;
        proof {
            lemma_bit64_ops();
            assert forall|j: int|
                #[trigger] mid.bit_at(j) == (0 <= j < 64 * len && j - 64 * (word_shift as int) >= 0
                    && pre.bit_at(j - 64 * (word_shift as int))) by {
                if 0 <= j < 64 * len {
                    lemma_word_of_index(j, len as int);
                    if j / 64 >= word_shift as int {
                        let j2 = j - 64 * (word_shift as int);
                        assert(j2 / 64 == j / 64 - word_shift as int && j2 % 64 == j % 64 && j2
                            >= 0) by (nonlinear_arith)
                            requires
                                j2 == j - 64 * (word_shift as int),
                                j / 64 >= word_shift as int,
                                64 * (j / 64) + j % 64 == j,
                                0 <= j % 64 < 64,
                        ;
                        assert(mid.spec_words()[j / 64] == pre.spec_words()[j2 / 64]);
                    } else {
                        assert(mid.spec_words()[j / 64] == 0u64);
                        assert(j - 64 * (word_shift as int) < 0) by (nonlinear_arith)
                            requires
                                j / 64 < word_shift as int,
                                64 * (j / 64) + j % 64 == j,
                                0 <= j % 64 < 64,
                        ;
                    }
                }
            }
        }
        // shift within words, top first, pulling carries from below
        if bit_shift > 0 {
            let mut i: usize = len;
            while i > 1
                invariant
                    1 <= len,
                    0 < bit_shift < 64,
                    1 <= i <= len,
                    self.spec_words().len() == len,
                    self.spec_width() == pre.spec_width(),
                    self.spec_height() == pre.spec_height(),
                    self.spec_col_major() == pre.spec_col_major(),
                    self.inv() == pre.inv(),
                    forall|k: int| 0 <= k < i ==> self.spec_words()[k] == mid.spec_words()[k],
                    forall|k: int|
                        i <= k < len ==> self.spec_words()[k] == ((mid.spec_words()[k]
                            << bit_shift) | (mid.spec_words()[k - 1] >> ((64 - bit_shift) as u64))),
                decreases i,
            {
                i = i - 1;
                self.bits[i] = (self.bits[i] << bit_shift) | (self.bits[i - 1] >> (
                64 - bit_shift));
            }
            let w0 = self.bits[0];
            self.bits[0] = w0 << bit_shift;
            proof {
                lemma_bit64_ops();
                lemma_bit64_shifts();
                assert forall|j: int|
                    #[trigger] self.bit_at(j) == (0 <= j < 64 * len && j - bit_shift >= 0
                        && mid.bit_at(j - bit_shift)) by {
                    if 0 <= j < 64 * len {
                        lemma_word_of_index(j, len as int);
                        let b = j % 64;
                        if j / 64 == 0 {
                            assert(self.spec_words()[0] == (mid.spec_words()[0] << bit_shift));
                            if b >= bit_shift {
                                assert(j - bit_shift == 64 * (j / 64) + (b - bit_shift));
                                lemma_word_join(j / 64, b - bit_shift as int);
                            }
                        } else {
                            assert(self.spec_words()[j / 64] == ((mid.spec_words()[j / 64]
                                << bit_shift) | (mid.spec_words()[j / 64 - 1] >> ((64 - bit_shift)
                                as u64))));
                            if b >= bit_shift {
                                assert(!bit64(
                                    mid.spec_words()[j / 64 - 1] >> ((64 - bit_shift) as u64),
                                    b as u64,
                                ));
                                assert(j - bit_shift == 64 * (j / 64) + (b - bit_shift));
                                lemma_word_join(j / 64, b - bit_shift as int);
                            } else {
                                assert(!bit64(mid.spec_words()[j / 64] << bit_shift, b as u64));
                                assert(bit64(
                                    mid.spec_words()[j / 64 - 1] >> ((64 - bit_shift) as u64),
                                    b as u64,
                                ) == bit64(
                                    mid.spec_words()[j / 64 - 1],
                                    (b + 64 - bit_shift) as u64,
                                ));
                                assert(j - bit_shift == 64 * (j / 64 - 1) + (b + 64
                                    - bit_shift)) by (nonlinear_arith)
                                    requires
                                        64 * (j / 64) + j % 64 == j,
                                        b == j % 64,
                                        b < bit_shift < 64,
                                ;
                                lemma_word_join(j / 64 - 1, b + 64 - bit_shift as int);
                            }
                        }
                    }
                }
            }
        }
        proof {
            lemma_bit64_ops();
            assert forall|j: int|
                #[trigger] self.bit_at(j) == (0 <= j < pre.capacity() && j - rhs >= 0 && pre.bit_at(
                    j - rhs,
                )) by {
                assert(rhs as int == 64 * (word_shift as int) + bit_shift);
            }
        }
    }

    /// In-place logical right shift by `rhs` bit positions: toward lower
    /// indices, zero-filling from above, with carries across word borders.
    pub fn shr_assign(&mut self, rhs: usize)
        requires
            old(self).inv(),
        ensures
            final(self).inv(),
            crate::board::same_shape(final(self), old(self)),
            forall|j: int|
                #[trigger] final(self).bit_at(j) == (0 <= j < old(self).capacity() && old(
                    self,
                ).bit_at(j + rhs)),
    {
        let word_shift = rhs / 64;
        let bit_shift = (rhs % 64) as u64;
        let len = self.bits.len();
        let ghost pre = *self;
        proof {
            lemma_word_split(rhs as int);
            pre.lemma_inv();
        }
        if word_shift >= len {
            let mut t: usize = 0;
            while t < len
                invariant
                    t <= len,
                    self.spec_words().len() == len,
                    self.spec_width() == pre.spec_width(),
                    self.spec_height() == pre.spec_height(),
                    self.spec_col_major() == pre.spec_col_major(),
                    self.inv() == pre.inv(),
                    forall|k: int| 0 <= k < t ==> self.spec_words()[k] == 0u64,
                decreases len - t,
            {
                self.bits[t] = 0;
                t = t + 1;
            }
            proof {
                lemma_bit64_ops();
                assert forall|j: int|
                    #[trigger] self.bit_at(j) == (0 <= j < pre.capacity() && pre.bit_at(
                        j + rhs,
                    )) by {
                    if 0 <= j < 64 * len {
                        lemma_word_of_index(j, len as int);
                        assert(j + rhs >= 64 * len) by (nonlinear_arith)
                            requires
                                j >= 0,
                                rhs >= 64 * (word_shift as int),
                                word_shift as int >= len,
                        ;
                    }
                }
            }
            return ;
        }
        // move whole words, bottom first, zero-filling from above
        if word_shift > 0 {
            let mut i: usize = 0;
            while i < len - word_shift
                invariant
                    word_shift < len,
                    0 <= i <= len - word_shift,
                    self.spec_words().len() == len,
                    self.spec_width() == pre.spec_width(),
                    self.spec_height() == pre.spec_height(),
                    self.spec_col_major() == pre.spec_col_major(),
                    self.inv() == pre.inv(),
                    forall|k: int|
                        0 <= k < i ==> self.spec_words()[k] == pre.spec_words()[k
                            + word_shift as int],
                    forall|k: int| i <= k < len ==> self.spec_words()[k] == pre.spec_words()[k],
                decreases len - word_shift - i,
            {
                self.bits[i] = self.bits[i + word_shift];
                i = i + 1;
            }
            let mut t: usize = len - word_shift;
            while t < len
                invariant
                    word_shift < len,
                    len - word_shift as int <= t <= len,
                    self.spec_words().len() == len,
                    self.spec_width() == pre.spec_width(),
                    self.spec_height() == pre.spec_height(),
                    self.spec_col_major() == pre.spec_col_major(),
                    self.inv() == pre.inv(),
                    forall|k: int|
                        0 <= k < len - word_shift as int ==> self.spec_words()[k]
                            == pre.spec_words()[k + word_shift as int],
                    forall|k: int|
                        len - word_shift as int <= k < t ==> self.spec_words()[k] == 0u64,
                decreases len - t,
            {
                self.bits[t] = 0;
                t = t + 1;
            }
        }
        let ghost mid = *self;
        proof {
            lemma_bit64_ops();
            assert forall|j: int|
                #[trigger] mid.bit_at(j) == (0 <= j < 64 * len && pre.bit_at(j + 64 * (
                word_shift as int))) by {
                if 0 <= j < 64 * len {
                    lemma_word_of_index(j, len as int);
                    let j2 = j + 64 * (word_shift as int);
                    assert(j2 / 64 == j / 64 + word_shift as int && j2 % 64 == j % 64)
                        by (nonlinear_arith)
                        requires
                            j2 == j + 64 * (word_shift as int),
                            word_shift as int >= 0,
                            64 * (j / 64) + j % 64 == j,
                            0 <= j % 64 < 64,
                    ;
                    if j / 64 < len - word_shift as int {
                        assert(mid.spec_words()[j / 64] == pre.spec_words()[j2 / 64]);
                    } else {
                        assert(mid.spec_words()[j / 64] == 0u64);
                        assert(j2 >= 64 * len) by (nonlinear_arith)
                            requires
                                j2 / 64 == j / 64 + word_shift as int,
                                j / 64 >= len - word_shift as int,
                                64 * (j2 / 64) + j2 % 64 == j2,
                                0 <= j2 % 64 < 64,
                                j2 == j + 64 * (word_shift as int),
                        ;
                    }
                }
            }
        }
        // shift within words, bottom first, pulling carries from above
        if bit_shift > 0 {
            let mut i: usize = 0;
            while i < len - 1
                invariant
                    1 <= len,
                    0 < bit_shift < 64,
                    0 <= i <= len - 1,
                    self.spec_words().len() == len,
                    self.spec_width() == pre.spec_width(),
                    self.spec_height() == pre.spec_height(),
                    self.spec_col_major() == pre.spec_col_major(),
                    self.inv() == pre.inv(),
                    forall|k: int|
                        0 <= k < i ==> self.spec_words()[k] == ((mid.spec_words()[k] >> bit_shift)
                            | (mid.spec_words()[k + 1] << ((64 - bit_shift) as u64))),
                    forall|k: int| i <= k < len ==> self.spec_words()[k] == mid.spec_words()[k],
                decreases len - i,
            {
                self.bits[i] = (self.bits[i] >> bit_shift) | (self.bits[i + 1] << (
                64 - bit_shift));
                i = i + 1;
            }
            let wl = self.bits[len - 1];
            self.bits[len - 1] = wl >> bit_shift;
            proof {
                lemma_bit64_ops();
                lemma_bit64_shifts();
                assert forall|j: int|
                    #[trigger] self.bit_at(j) == (0 <= j < 64 * len && mid.bit_at(
                        j + bit_shift,
                    )) by {
                    if 0 <= j < 64 * len {
                        lemma_word_of_index(j, len as int);
                        let b = j % 64;
                        if j / 64 == len - 1 {
                            assert(self.spec_words()[len - 1] == (mid.spec_words()[len - 1]
                                >> bit_shift));
                            assert(bit64(mid.spec_words()[len - 1] >> bit_shift, b as u64)
                                == bit64(mid.spec_words()[len - 1], (b + bit_shift) as u64));
                            if b + bit_shift < 64 {
                                assert(j + bit_shift == 64 * (j / 64) + (b + bit_shift));
                                lemma_word_join(j / 64, b + bit_shift as int);
                            } else {
                                assert(j + bit_shift >= 64 * len) by (nonlinear_arith)
                                    requires
                                        j / 64 == len - 1,
                                        64 * (j / 64) + j % 64 == j,
                                        b == j % 64,
                                        b + bit_shift >= 64,
                                ;
                            }
                        } else {
                            assert(self.spec_words()[j / 64] == ((mid.spec_words()[j / 64]
                                >> bit_shift) | (mid.spec_words()[j / 64 + 1] << ((64 - bit_shift)
                                as u64))));
                            if b + bit_shift < 64 {
                                assert(!bit64(
                                    mid.spec_words()[j / 64 + 1] << ((64 - bit_shift) as u64),
                                    b as u64,
                                ));
                                assert(bit64(mid.spec_words()[j / 64] >> bit_shift, b as u64)
                                    == bit64(mid.spec_words()[j / 64], (b + bit_shift) as u64));
                                assert(j + bit_shift == 64 * (j / 64) + (b + bit_shift));
                                lemma_word_join(j / 64, b + bit_shift as int);
                            } else {
                                assert(bit64(mid.spec_words()[j / 64] >> bit_shift, b as u64)
                                    == bit64(mid.spec_words()[j / 64], (b + bit_shift) as u64));
                                assert(!bit64(
                                    mid.spec_words()[j / 64],
                                    (b + bit_shift) as u64,
                                ));
                                assert(bit64(
                                    mid.spec_words()[j / 64 + 1] << ((64 - bit_shift) as u64),
                                    b as u64,
                                ) == bit64(
                                    mid.spec_words()[j / 64 + 1],
                                    (b + bit_shift - 64) as u64,
                                ));
                                assert(j + bit_shift == 64 * (j / 64 + 1) + (b + bit_shift
                                    - 64)) by (nonlinear_arith)
                                    requires
                                        64 * (j / 64) + j % 64 == j,
                                        b == j % 64,
                                        b + bit_shift >= 64,
                                ;
                                lemma_word_join(j / 64 + 1, b + bit_shift as int - 64);
                            }
                        }
                    }
                }
            }
        }
        proof {
            lemma_bit64_ops();
            assert forall|j: int|
                #[trigger] self.bit_at(j) == (0 <= j < pre.capacity() && pre.bit_at(
                    j + rhs,
                )) by {
                assert(rhs as int == 64 * (word_shift as int) + bit_shift);
            }
        }
    }

    /// In-place subtraction of a small unsigned integer from the board's
    /// storage read as one big integer, rippling the borrow from the
    /// lowest word upward. When the value is large enough the new value
    /// is exactly the old value minus `rhs`.
    pub fn sub_assign(&mut self, rhs: usize)
        requires
            old(self).inv(),
        ensures
            final(self).inv(),
            crate::board::same_shape(final(self), old(self)),
            rhs <= words_val(old(self).spec_words(), old(self).spec_words().len() as int)
                ==> words_val(final(self).spec_words(), final(self).spec_words().len() as int)
                == words_val(old(self).spec_words(), old(self).spec_words().len() as int) - rhs,
    {
        broadcast use vstd::arithmetic::mul::group_mul_basics;

        let n = self.bits.len();
        let ghost pre = *self;
        let mut carry: u64 = rhs as u64;
        let mut wi: usize = 0;
        proof {
            vstd::arithmetic::power2::lemma2_to64();
        }
        while wi < n && carry != 0
            invariant
                self.inv(),
                wi <= n,
                n == self.spec_words().len(),
                self.spec_width() == pre.spec_width(),
                self.spec_height() == pre.spec_height(),
                self.spec_col_major() == pre.spec_col_major(),
                n == pre.spec_words().len(),
                forall|k: int| wi <= k < n ==> self.spec_words()[k] == pre.spec_words()[k],
                words_val(self.spec_words(), wi as int) + rhs == words_val(
                    pre.spec_words(),
                    wi as int,
                ) + carry * vstd::arithmetic::power2::pow2((64 * wi as int) as nat),
            decreases n - wi,
        {
            let word = self.bits[wi];
            let ghost sp = self.spec_words();
            let ghost cin = carry as int;
            if word >= carry {
                self.bits[wi] = word - carry;
                carry = 0;
            } else {
                self.bits[wi] = (0xffff_ffff_ffff_ffffu64 - carry) + 1 + word;
                carry = 1;
            }
            proof {
                broadcast use vstd::arithmetic::mul::group_mul_basics;

                let p = vstd::arithmetic::power2::pow2((64 * wi as int) as nat) as int;
                vstd::arithmetic::power2::lemma_pow2_adds((64 * wi as int) as nat, 64);
                vstd::arithmetic::power2::lemma_pow2_pos((64 * wi as int) as nat);
                vstd::arithmetic::power2::lemma2_to64_rest();
                assert(words_val(self.spec_words(), wi as int) == words_val(sp, wi as int)) by {
                    lemma_words_val_suffix(self.spec_words(), sp, 0, wi as int);
                }
                assert(words_val(self.spec_words(), wi as int + 1) == words_val(sp, wi as int)
                    + self.spec_words()[wi as int] * p);
                assert(words_val(pre.spec_words(), wi as int + 1) == words_val(
                    pre.spec_words(),
                    wi as int,
                ) + word * p);
                if word as int >= cin {
                    assert((word - cin) * p == word * p - cin * p) by (nonlinear_arith);
                } else {
                    assert((word - cin + 0x1_0000_0000_0000_0000) * p + (p
                        * 0x1_0000_0000_0000_0000) == word * p - cin * p + 2 * (p
                        * 0x1_0000_0000_0000_0000)) by (nonlinear_arith);
                    assert((word - cin + 0x1_0000_0000_0000_0000) * p == word * p - cin * p + (p
                        * 0x1_0000_0000_0000_0000)) by (nonlinear_arith);
                }
            }
            wi = wi + 1;
        }
        proof {
            if carry == 0 {
                lemma_words_val_suffix(self.spec_words(), pre.spec_words(), wi as int, n as int);
            } else {
                // the borrow survived every word: the value was too small
                lemma_words_val_bound(self.spec_words(), n as int);
                let pn = vstd::arithmetic::power2::pow2((64 * n as int) as nat) as int;
                assert(carry as int * pn >= pn) by (nonlinear_arith)
                    requires
                        carry >= 1,
                        pn > 0,
                ;
                assert(words_val(pre.spec_words(), n as int) < rhs);
            }
        }
    }

    /// Subtraction of a small unsigned integer, as a value.
    pub fn sub(self, rhs: usize) -> (r: Self)
        requires
            self.inv(),
        ensures
            r.inv(),
            crate::board::same_shape(&r, &self),
            rhs <= words_val(self.spec_words(), self.spec_words().len() as int) ==> words_val(
                r.spec_words(),
                r.spec_words().len() as int,
            ) == words_val(self.spec_words(), self.spec_words().len() as int) - rhs,
    {
        let mut out = self;
        out.sub_assign(rhs);
        out
    }

    /// Number of set bits, padding included, summed word by word.
    pub fn count(&self) -> (r: u32)
        requires
            self.inv(),
        ensures
            r as nat == count_bits(self),
    {
        proof {
            self.lemma_inv();
        }
        let mut c: u32 = 0;
        let mut wi: usize = 0;
        let n = self.bits.len();
        while wi < n
            invariant
                self.inv(),
                wi <= n,
                n == self.spec_words().len(),
                c as nat == count_bits_below(self, 64 * wi as int),
                c as nat <= 64 * wi as nat,
                64 * n < 0x1_0000_0000,
            decreases n - wi,
        {
            let word = self.bits[wi];
            let mut b: u64 = 0;
            while b < 64
                invariant
                    self.inv(),
                    wi < n,
                    n == self.spec_words().len(),
                    word == self.spec_words()[wi as int],
                    b <= 64,
                    c as nat == count_bits_below(self, 64 * wi as int + b as int),
                    c as nat <= 64 * wi as nat + b as nat,
                    64 * n < 0x1_0000_0000,
                decreases 64 - b,
            {
                proof {
                    lemma_word_join(wi as int, b as int);
                    assert(self.bit_at(64 * wi as int + b as int) == bit64(word, b));
                }
                if (word >> b) & 1 == 1 {
                    c = c + 1;
                }
                b = b + 1;
            }
            wi = wi + 1;
            proof {
                assert(64 * (wi - 1) as int + 64 == 64 * wi as int) by (nonlinear_arith);
            }
        }
        c
    }
}

impl LargeBitboard {
    /// The capacity of a well-formed board is at most 1017 words.
    proof fn lemma_capacity_bound(&self)
        requires
            self.inv(),
        ensures
            self.capacity() <= 65088,
    {
        assert((self.w as int) * (self.h as int) <= 65025) by (nonlinear_arith)
            requires
                self.w < 256,
                self.h < 256,
        ;
        assert((self.spec_width() * self.spec_height() + 63) / 64 <= 1017) by (nonlinear_arith)
            requires
                self.spec_width() * self.spec_height() <= 65025,
        ;
    }

    /// Reads bit `idx` of a word array.
    fn get_bit_in_words(v: &Vec<u64>, idx: usize) -> (r: bool)
        requires
            idx < 64 * v@.len(),
        ensures
            r == bits_in_words(v@, idx as int),
    {
        proof {
            lemma_word_of_index(idx as int, v@.len() as int);
        }
        (v[idx / 64] >> ((idx % 64) as u64)) & 1 == 1
    }

    /// Sets bit `idx` of a word array to one.
    fn set_bit_in_words(v: &mut Vec<u64>, idx: usize)
        requires
            idx < 64 * old(v)@.len(),
        ensures
            final(v)@.len() == old(v)@.len(),
            forall|j: int|
                #[trigger] bits_in_words(final(v)@, j) == if j == idx as int {
                    true
                } else {
                    bits_in_words(old(v)@, j)
                },
    {
        proof {
            lemma_bit64_ops();
            lemma_bit64_shifts();
            lemma_word_of_index(idx as int, v@.len() as int);
        }
        let wi = idx / 64;
        let b = (idx % 64) as u64;
        let ghost pre = v@;
        v[wi] = v[wi] | (1u64 << b);
        proof {
            assert forall|j: int|
                #[trigger] bits_in_words(v@, j) == if j == idx as int {
                    true
                } else {
                    bits_in_words(pre, j)
                } by {
                if 0 <= j < 64 * pre.len() {
                    lemma_word_of_index(j, pre.len() as int);
                    if j / 64 != wi as int {
                        assert(v@[j / 64] == pre[j / 64]);
                    } else if j != idx as int {
                        assert(j % 64 != b as int);
                    }
                }
            }
        }
    }

    /// A zeroed word array of `n` words.
    fn zero_words(n: usize) -> (r: Vec<u64>)
        ensures
            r@.len() == n,
            forall|t: int| 0 <= t < n ==> r@[t] == 0u64,
            forall|j: int| !bits_in_words(r@, j),
    {
        let mut bits: Vec<u64> = Vec::new();
        let mut k: usize = 0;
        while k < n
            invariant
                k <= n,
                bits@.len() == k,
                forall|t: int| 0 <= t < k ==> bits@[t] == 0u64,
            decreases n - k,
        {
            bits.push(0);
            k = k + 1;
        }
        proof {
            lemma_bit64_ops();
            assert forall|j: int| !bits_in_words(bits@, j) by {
                if 0 <= j < 64 * bits@.len() {
                    lemma_word_of_index(j, bits@.len() as int);
                }
            }
        }
        bits
    }

    /// Parallel bit extract over the word array: the bits of `self`
    /// selected by `mask`, packed densely from bit 0 of the first output
    /// word upward, scanning mask bits in increasing index order. The bit
    /// of `self` at the `k`-th set bit of the mask lands at bit `k`.
    pub fn pext(&self, mask: &Self) -> (r: Vec<u64>)
        requires
            self.inv(),
            mask.inv(),
            crate::board::same_shape(self, mask),
        ensures
            r@.len() == (count_bits(mask) + 63) / 64,
            forall|i: int|
                0 <= i < mask.capacity() && #[trigger] mask.bit_at(i) ==> bits_in_words(
                    r@,
                    count_bits_below(mask, i) as int,
                ) == self.bit_at(i),
            forall|k: int| count_bits(mask) <= k ==> !bits_in_words(r@, k),
    {
        proof {
            self.lemma_inv();
            mask.lemma_capacity_bound();
            crate::board::lemma_count_bits_below_bound(mask, mask.capacity() as int);
        }
        let total = mask.count();
        let outwords = (total as usize + 63) / 64;
        let mut out = Self::zero_words(outwords);
        let ghost outn = outwords as int;
        let mut pos: u32 = 0;
        let n = self.bits.len();
        let cap: usize = 64 * n;
        let mut i: usize = 0;
        proof {
            assert(64 * outn >= total as int) by (nonlinear_arith)
                requires
                    outn == (total as int + 63) / 64,
                    total as int >= 0,
            ;
        }
        while i < cap
            invariant
                self.inv(),
                mask.inv(),
                crate::board::same_shape(self, mask),
                i <= cap,
                cap == 64 * n,
                n == self.spec_words().len(),
                cap == mask.capacity(),
                total as nat == count_bits(mask),
                pos as nat == count_bits_below(mask, i as int),
                out@.len() == outn,
                64 * outn >= total as int,
                forall|ii: int|
                    0 <= ii < i && #[trigger] mask.bit_at(ii) ==> bits_in_words(
                        out@,
                        count_bits_below(mask, ii) as int,
                    ) == self.bit_at(ii),
                forall|k: int| pos as int <= k ==> !bits_in_words(out@, k),
            decreases cap - i,
        {
            proof {
                if pos as int >= total as int {
                    if mask.bit_at(i as int) {
                        crate::board::lemma_count_bits_below_strict(
                            mask,
                            i as int,
                            mask.capacity() as int,
                        );
                    }
                }
            }
            if mask.get_at_index(i) {
                proof {
                    crate::board::lemma_count_bits_below_strict(
                        mask,
                        i as int,
                        mask.capacity() as int,
                    );
                }
                let ghost out0 = out@;
                if self.get_at_index(i) {
                    Self::set_bit_in_words(&mut out, pos as usize);
                }
                proof {
                    assert forall|ii: int|
                        0 <= ii < i + 1 && #[trigger] mask.bit_at(ii) implies bits_in_words(
                        out@,
                        count_bits_below(mask, ii) as int,
                    ) == self.bit_at(ii) by {
                        if ii < i {
                            crate::board::lemma_count_bits_below_strict(mask, ii, i as int);
                            assert(count_bits_below(mask, ii) < pos as nat);
                        }
                    }
                }
                pos = pos + 1;
            }
            i = i + 1;
        }
        out
    }

    /// Parallel bit deposit over the word array: the low bits of
    /// `compressed`, taken from bit 0 upward, scattered to the set bits of
    /// the mask `self` in increasing index order; zero elsewhere. The
    /// packed value must carry at least one bit per set mask bit.
    pub fn pdep(&self, compressed: &Vec<u64>) -> (r: Self)
        requires
            self.inv(),
            count_bits(self) <= 64 * compressed@.len(),
        ensures
            r.inv(),
            crate::board::same_shape(&r, self),
            forall|i: int|
                0 <= i < self.capacity() ==> #[trigger] r.bit_at(i) == (self.bit_at(i)
                    && bits_in_words(compressed@, count_bits_below(self, i) as int)),
    {
        proof {
            self.lemma_inv();
        }
        let mut r = Self::empty(self.width(), self.height(), self.col_major());
        proof {
            r.lemma_inv();
            self.lemma_capacity_bound();
            assert(r.capacity() == self.capacity());
        }
        let mut pos: u32 = 0;
        let n = self.bits.len();
        let cap: usize = 64 * n;
        let mut i: usize = 0;
        while i < cap
            invariant
                self.inv(),
                r.inv(),
                crate::board::same_shape(&r, self),
                count_bits(self) <= 64 * compressed@.len(),
                i <= cap,
                cap == 64 * n,
                n == self.spec_words().len(),
                cap == self.capacity(),
                pos as nat == count_bits_below(self, i as int),
                cap <= 65088,
                forall|ii: int|
                    0 <= ii < i ==> #[trigger] r.bit_at(ii) == (self.bit_at(ii) && bits_in_words(
                        compressed@,
                        count_bits_below(self, ii) as int,
                    )),
                forall|ii: int| i <= ii ==> !r.bit_at(ii),
            decreases cap - i,
        {
            let ghost rpre = r;
            if self.get_at_index(i) {
                proof {
                    crate::board::lemma_count_bits_below_strict(
                        self,
                        i as int,
                        self.capacity() as int,
                    );
                }
                if Self::get_bit_in_words(compressed, pos as usize) {
                    r.set_at_index(i);
                }
                proof {
                    crate::board::lemma_count_bits_below_bound(self, i as int);
                }
                pos = pos + 1;
            }
            proof {
                assert forall|ii: int|
                    0 <= ii < i + 1 implies #[trigger] r.bit_at(ii) == (self.bit_at(ii)
                    && bits_in_words(compressed@, count_bits_below(self, ii) as int)) by {
                    if ii < i {
                        assert(r.bit_at(ii) == rpre.bit_at(ii));
                    }
                }
            }
            i = i + 1;
        }
        r
    }

    /// Reads row `y` as a dense word-array bitfield: bit `x` is the cell
    /// `(x, y)`.
    pub fn extract_row(&self, y: u8) -> (r: Vec<u64>)
        requires
            self.inv(),
            (y as nat) < self.spec_height(),
        ensures
            r@.len() == (self.spec_width() + 63) / 64,
            forall|x: int|
                0 <= x < self.spec_width() ==> #[trigger] bits_in_words(r@, x) == self.bit_at(
                    crate::board::cell_index(self, x, y as int),
                ),
            forall|j: int| self.spec_width() <= j ==> !bits_in_words(r@, j),
    {
        proof {
            self.lemma_inv();
        }
        let w = self.w;
        let outwords = (w as usize + 63) / 64;
        let mut out = Self::zero_words(outwords);
        let mut x: u8 = 0;
        while x < w
            invariant
                self.inv(),
                w == self.spec_width(),
                (y as nat) < self.spec_height(),
                x <= w,
                out@.len() == (w as int + 63) / 64,
                64 * out@.len() >= w as int,
                forall|xx: int|
                    0 <= xx < x as int ==> #[trigger] bits_in_words(out@, xx) == self.bit_at(
                        crate::board::cell_index(self, xx, y as int),
                    ),
                forall|j: int| x as int <= j ==> !bits_in_words(out@, j),
            decreases w - x,
        {
            let ghost out0 = out@;
            if self.get(x, y) {
                Self::set_bit_in_words(&mut out, x as usize);
            }
            x = x + 1;
        }
        out
    }

    /// Reads column `x` as a dense word-array bitfield: bit `y` is the
    /// cell `(x, y)`.
    pub fn extract_col(&self, x: u8) -> (r: Vec<u64>)
        requires
            self.inv(),
            (x as nat) < self.spec_width(),
        ensures
            r@.len() == (self.spec_height() + 63) / 64,
            forall|y: int|
                0 <= y < self.spec_height() ==> #[trigger] bits_in_words(r@, y) == self.bit_at(
                    crate::board::cell_index(self, x as int, y),
                ),
            forall|j: int| self.spec_height() <= j ==> !bits_in_words(r@, j),
    {
        proof {
            self.lemma_inv();
        }
        let h = self.h;
        let outwords = (h as usize + 63) / 64;
        let mut out = Self::zero_words(outwords);
        let mut y: u8 = 0;
        while y < h
            invariant
                self.inv(),
                h == self.spec_height(),
                (x as nat) < self.spec_width(),
                y <= h,
                out@.len() == (h as int + 63) / 64,
                64 * out@.len() >= h as int,
                forall|yy: int|
                    0 <= yy < y as int ==> #[trigger] bits_in_words(out@, yy) == self.bit_at(
                        crate::board::cell_index(self, x as int, yy),
                    ),
                forall|j: int| y as int <= j ==> !bits_in_words(out@, j),
            decreases h - y,
        {
            if self.get(x, y) {
                Self::set_bit_in_words(&mut out, y as usize);
            }
            y = y + 1;
        }
        out
    }

    /// Writes row `y` from a dense word-array bitfield: cell `(x, y)`
    /// becomes bit `x`; every other cell and every padding bit is kept.
    pub fn insert_row(&mut self, y: u8, row_bits: &Vec<u64>)
        requires
            old(self).inv(),
            (y as nat) < old(self).spec_height(),
            64 * row_bits@.len() >= old(self).spec_width(),
        ensures
            final(self).inv(),
            crate::board::same_shape(final(self), old(self)),
            forall|x: int|
                0 <= x < old(self).spec_width() ==> #[trigger] final(self).bit_at(
                    crate::board::cell_index(old(self), x, y as int),
                ) == bits_in_words(row_bits@, x),
            forall|j: int|
                !(0 <= j < old(self).spec_width() * old(self).spec_height() && spec_y_of(
                    old(self).spec_width() as int,
                    old(self).spec_height() as int,
                    old(self).spec_col_major(),
                    j,
                ) == y as int) ==> #[trigger] final(self).bit_at(j) == old(self).bit_at(j),
    {
        proof {
            old(self).lemma_inv();
        }
        let ghost pre = *self;
        let ghost wi = pre.spec_width() as int;
        let ghost hi = pre.spec_height() as int;
        let ghost cm = pre.spec_col_major();
        let w = self.w;
        let mut x: u8 = 0;
        while x < w
            invariant
                self.inv(),
                crate::board::same_shape(&*self, &pre),
                pre.inv(),
                wi == pre.spec_width() as int,
                hi == pre.spec_height() as int,
                cm == pre.spec_col_major(),
                w == pre.spec_width(),
                (y as nat) < pre.spec_height(),
                64 * row_bits@.len() >= w as int,
                x <= w,
                forall|xx: int|
                    0 <= xx < x as int ==> #[trigger] self.bit_at(
                        crate::board::cell_index(&pre, xx, y as int),
                    ) == bits_in_words(row_bits@, xx),
                forall|j: int|
                    !(0 <= j < wi * hi && spec_y_of(wi, hi, cm, j) == y as int && spec_x_of(
                        wi,
                        hi,
                        cm,
                        j,
                    ) < x as int) ==> #[trigger] self.bit_at(j) == pre.bit_at(j),
            decreases w - x,
        {
            let ghost sp = *self;
            let v = Self::get_bit_in_words(row_bits, x as usize);
            self.set_value(x, y, v);
            proof {
                crate::coords::lemma_index_of_in_range(wi, hi, cm, x as int, y as int);
                crate::coords::lemma_index_coords_roundtrip(wi, hi, cm, x as int, y as int);
                let idx = spec_index_of(wi, hi, cm, x as int, y as int);
                assert forall|xx: int|
                    0 <= xx < x as int + 1 implies #[trigger] self.bit_at(
                    crate::board::cell_index(&pre, xx, y as int),
                ) == bits_in_words(row_bits@, xx) by {
                    if xx < x as int {
                        crate::coords::lemma_index_of_in_range(wi, hi, cm, xx, y as int);
                        crate::coords::lemma_index_coords_roundtrip(wi, hi, cm, xx, y as int);
                        assert(spec_index_of(wi, hi, cm, xx, y as int) != idx);
                    }
                }
                assert forall|j: int|
                    !(0 <= j < wi * hi && spec_y_of(wi, hi, cm, j) == y as int && spec_x_of(
                        wi,
                        hi,
                        cm,
                        j,
                    ) < x as int + 1) implies #[trigger] self.bit_at(j) == pre.bit_at(j) by {
                    if j != idx {
                        assert(self.bit_at(j) == sp.bit_at(j));
                    }
                }
            }
            x = x + 1;
        }
        proof {
            assert forall|j: int|
                !(0 <= j < wi * hi && spec_y_of(wi, hi, cm, j) == y as int) implies #[trigger] self
                .bit_at(j) == pre.bit_at(j) by {
                if 0 <= j < wi * hi {
                    crate::coords::lemma_coords_of_in_range(wi, hi, cm, j);
                }
            }
        }
    }

    /// Writes column `x` from a dense word-array bitfield: cell `(x, y)`
    /// becomes bit `y`; every other cell and every padding bit is kept.
    pub fn insert_col(&mut self, x: u8, col_bits: &Vec<u64>)
        requires
            old(self).inv(),
            (x as nat) < old(self).spec_width(),
            64 * col_bits@.len() >= old(self).spec_height(),
        ensures
            final(self).inv(),
            crate::board::same_shape(final(self), old(self)),
            forall|y: int|
                0 <= y < old(self).spec_height() ==> #[trigger] final(self).bit_at(
                    crate::board::cell_index(old(self), x as int, y),
                ) == bits_in_words(col_bits@, y),
            forall|j: int|
                !(0 <= j < old(self).spec_width() * old(self).spec_height() && spec_x_of(
                    old(self).spec_width() as int,
                    old(self).spec_height() as int,
                    old(self).spec_col_major(),
                    j,
                ) == x as int) ==> #[trigger] final(self).bit_at(j) == old(self).bit_at(j),
    {
        proof {
            old(self).lemma_inv();
        }
        let ghost pre = *self;
        let ghost wi = pre.spec_width() as int;
        let ghost hi = pre.spec_height() as int;
        let ghost cm = pre.spec_col_major();
        let h = self.h;
        let mut y: u8 = 0;
        while y < h
            invariant
                self.inv(),
                crate::board::same_shape(&*self, &pre),
                pre.inv(),
                wi == pre.spec_width() as int,
                hi == pre.spec_height() as int,
                cm == pre.spec_col_major(),
                h == pre.spec_height(),
                (x as nat) < pre.spec_width(),
                64 * col_bits@.len() >= h as int,
                y <= h,
                forall|yy: int|
                    0 <= yy < y as int ==> #[trigger] self.bit_at(
                        crate::board::cell_index(&pre, x as int, yy),
                    ) == bits_in_words(col_bits@, yy),
                forall|j: int|
                    !(0 <= j < wi * hi && spec_x_of(wi, hi, cm, j) == x as int && spec_y_of(
                        wi,
                        hi,
                        cm,
                        j,
                    ) < y as int) ==> #[trigger] self.bit_at(j) == pre.bit_at(j),
            decreases h - y,
        {
            let ghost sp = *self;
            let v = Self::get_bit_in_words(col_bits, y as usize);
            self.set_value(x, y, v);
            proof {
                crate::coords::lemma_index_of_in_range(wi, hi, cm, x as int, y as int);
                crate::coords::lemma_index_coords_roundtrip(wi, hi, cm, x as int, y as int);
                let idx = spec_index_of(wi, hi, cm, x as int, y as int);
                assert forall|yy: int|
                    0 <= yy < y as int + 1 implies #[trigger] self.bit_at(
                    crate::board::cell_index(&pre, x as int, yy),
                ) == bits_in_words(col_bits@, yy) by {
                    if yy < y as int {
                        crate::coords::lemma_index_of_in_range(wi, hi, cm, x as int, yy);
                        crate::coords::lemma_index_coords_roundtrip(wi, hi, cm, x as int, yy);
                        assert(spec_index_of(wi, hi, cm, x as int, yy) != idx);
                    }
                }
                assert forall|j: int|
                    !(0 <= j < wi * hi && spec_x_of(wi, hi, cm, j) == x as int && spec_y_of(
                        wi,
                        hi,
                        cm,
                        j,
                    ) < y as int + 1) implies #[trigger] self.bit_at(j) == pre.bit_at(j) by {
                    if j != idx {
                        assert(self.bit_at(j) == sp.bit_at(j));
                    }
                }
            }
            y = y + 1;
        }
        proof {
            assert forall|j: int|
                !(0 <= j < wi * hi && spec_x_of(wi, hi, cm, j) == x as int) implies #[trigger] self
                .bit_at(j) == pre.bit_at(j) by {
                if 0 <= j < wi * hi {
                    crate::coords::lemma_coords_of_in_range(wi, hi, cm, j);
                }
            }
        }
    }

    /// Logical left shift, as a value.
    pub fn shl(self, rhs: usize) -> (r: Self)
        requires
            self.inv(),
        ensures
            r.inv(),
            crate::board::same_shape(&r, &self),
            forall|j: int|
                #[trigger] r.bit_at(j) == (0 <= j < self.capacity() && j - rhs >= 0 && self.bit_at(
                    j - rhs,
                )),
    {
        let mut out = self;
        out.shl_assign(rhs);
        out
    }

    /// Logical right shift, as a value.
    pub fn shr(self, rhs: usize) -> (r: Self)
        requires
            self.inv(),
        ensures
            r.inv(),
            crate::board::same_shape(&r, &self),
            forall|j: int|
                #[trigger] r.bit_at(j) == (0 <= j < self.capacity() && self.bit_at(j + rhs)),
    {
        let mut out = self;
        out.shr_assign(rhs);
        out
    }

    /// The empty board of this board's shape.
    pub fn empty_with_same_shape(&self) -> (r: Self)
        requires
            self.inv(),
        ensures
            r.inv(),
            crate::board::same_shape(&r, self),
            forall|i: int| !r.bit_at(i),
    {
        Self::empty(self.w, self.h, self.col_major)
    }

    /// The full board of this board's shape.
    pub fn full_with_same_shape(&self) -> (r: Self)
        requires
            self.inv(),
        ensures
            r.inv(),
            crate::board::same_shape(&r, self),
            forall|i: int|
                #[trigger] r.bit_at(i) == (0 <= i < self.spec_width() * self.spec_height()),
    {
        Self::full(self.w, self.h, self.col_major)
    }

    /// The west border of this board's shape.
    pub fn west_border_with_same_shape(&self) -> (r: Self)
        requires
            self.inv(),
            1 <= self.spec_width(),
            1 <= self.spec_height(),
        ensures
            r.inv(),
            crate::board::same_shape(&r, self),
            forall|i: int|
                #[trigger] r.bit_at(i) == (0 <= i < self.spec_width() * self.spec_height()
                    && spec_x_of(
                    self.spec_width() as int,
                    self.spec_height() as int,
                    self.spec_col_major(),
                    i,
                ) == 0),
    {
        Self::west_border(self.w, self.h, self.col_major)
    }

    /// The east border of this board's shape.
    pub fn east_border_with_same_shape(&self) -> (r: Self)
        requires
            self.inv(),
            1 <= self.spec_width(),
            1 <= self.spec_height(),
        ensures
            r.inv(),
            crate::board::same_shape(&r, self),
            forall|i: int|
                #[trigger] r.bit_at(i) == (0 <= i < self.spec_width() * self.spec_height()
                    && spec_x_of(
                    self.spec_width() as int,
                    self.spec_height() as int,
                    self.spec_col_major(),
                    i,
                ) == self.spec_width() - 1),
    {
        Self::east_border(self.w, self.h, self.col_major)
    }

    /// The south border of this board's shape.
    pub fn south_border_with_same_shape(&self) -> (r: Self)
        requires
            self.inv(),
            1 <= self.spec_width(),
            1 <= self.spec_height(),
        ensures
            r.inv(),
            crate::board::same_shape(&r, self),
            forall|i: int|
                #[trigger] r.bit_at(i) == (0 <= i < self.spec_width() * self.spec_height()
                    && spec_y_of(
                    self.spec_width() as int,
                    self.spec_height() as int,
                    self.spec_col_major(),
                    i,
                ) == 0),
    {
        Self::south_border(self.w, self.h, self.col_major)
    }

    /// The north border of this board's shape.
    pub fn north_border_with_same_shape(&self) -> (r: Self)
        requires
            self.inv(),
            1 <= self.spec_width(),
            1 <= self.spec_height(),
        ensures
            r.inv(),
            crate::board::same_shape(&r, self),
            forall|i: int|
                #[trigger] r.bit_at(i) == (0 <= i < self.spec_width() * self.spec_height()
                    && spec_y_of(
                    self.spec_width() as int,
                    self.spec_height() as int,
                    self.spec_col_major(),
                    i,
                ) == self.spec_height() - 1),
    {
        Self::north_border(self.w, self.h, self.col_major)
    }

    /// The mask of row `y` of this board's shape.
    pub fn row_mask_with_same_shape(&self, y: u8) -> (r: Self)
        requires
            self.inv(),
            (y as nat) < self.spec_height(),
        ensures
            r.inv(),
            crate::board::same_shape(&r, self),
            forall|i: int|
                #[trigger] r.bit_at(i) == (0 <= i < self.spec_width() * self.spec_height()
                    && spec_y_of(
                    self.spec_width() as int,
                    self.spec_height() as int,
                    self.spec_col_major(),
                    i,
                ) == y as int),
    {
        Self::row_mask(self.w, self.h, self.col_major, y)
    }

    /// The mask of column `x` of this board's shape.
    pub fn col_mask_with_same_shape(&self, x: u8) -> (r: Self)
        requires
            self.inv(),
            (x as nat) < self.spec_width(),
        ensures
            r.inv(),
            crate::board::same_shape(&r, self),
            forall|i: int|
                #[trigger] r.bit_at(i) == (0 <= i < self.spec_width() * self.spec_height()
                    && spec_x_of(
                    self.spec_width() as int,
                    self.spec_height() as int,
                    self.spec_col_major(),
                    i,
                ) == x as int),
    {
        Self::col_mask(self.w, self.h, self.col_major, x)
    }

    /// Converts `(x, y)` coordinates into a linear bit index.
    pub fn index_from_coords(w: u8, h: u8, col_major: bool, x: u8, y: u8) -> (r: usize)
        requires
            x < w,
            y < h,
        ensures
            r == spec_index_of(w as int, h as int, col_major, x as int, y as int),
            r < w as int * h as int,
    {
        crate::coords::index_from_coords(w, h, col_major, x, y)
    }

    /// Gets the `(x, y)` coordinates of a linear bit index.
    pub fn coords_from_index(w: u8, h: u8, col_major: bool, i: usize) -> (r: (u8, u8))
        requires
            i < w as int * h as int,
        ensures
            r.0 == spec_x_of(w as int, h as int, col_major, i as int),
            r.1 == spec_y_of(w as int, h as int, col_major, i as int),
            r.0 < w,
            r.1 < h,
            spec_index_of(w as int, h as int, col_major, r.0 as int, r.1 as int) == i,
    {
        crate::coords::coords_from_index(w, h, col_major, i)
    }

    /// Checks that the cell `(x, y)` lies on a `w` by `h` board.
    pub fn is_in_bounds(w: u8, h: u8, x: u8, y: u8) -> (r: bool)
        ensures
            r == (x < w && y < h),
    {
        crate::coords::is_in_bounds(w, h, x, y)
    }

    /// Checks that the linear index `i` lies on a `w` by `h` board.
    pub fn is_index_in_bounds(w: u8, h: u8, i: usize) -> (r: bool)
        ensures
            r == (i < w as int * h as int),
    {
        crate::coords::is_index_in_bounds(w, h, i)
    }

    /// Converts `(x, y)` into a linear index for this board's shape.
    pub fn index_from_coords_with_same_shape(&self, x: u8, y: u8) -> (r: usize)
        requires
            (x as nat) < self.spec_width(),
            (y as nat) < self.spec_height(),
        ensures
            r == crate::board::cell_index(self, x as int, y as int),
            r < self.spec_width() * self.spec_height(),
    {
        crate::coords::index_from_coords(self.w, self.h, self.col_major, x, y)
    }

    /// Gets the `(x, y)` coordinates of a linear index for this board's shape.
    pub fn coords_from_index_with_same_shape(&self, i: usize) -> (r: (u8, u8))
        requires
            i < self.spec_width() * self.spec_height(),
        ensures
            (r.0 as nat) < self.spec_width(),
            (r.1 as nat) < self.spec_height(),
            crate::board::cell_index(self, r.0 as int, r.1 as int) == i,
    {
        crate::coords::coords_from_index(self.w, self.h, self.col_major, i)
    }

    /// Checks that the cell `(x, y)` lies on this board.
    pub fn is_in_bounds_with_same_shape(&self, x: u8, y: u8) -> (r: bool)
        ensures
            r == ((x as nat) < self.spec_width() && (y as nat) < self.spec_height()),
    {
        crate::coords::is_in_bounds(self.w, self.h, x, y)
    }

    /// Checks that the linear index `i` lies on this board.
    pub fn is_index_in_bounds_with_same_shape(&self, i: usize) -> (r: bool)
        ensures
            r == (i < self.spec_width() * self.spec_height()),
    {
        crate::coords::is_index_in_bounds(self.w, self.h, i)
    }
}

impl Bitboard for LargeBitboard {
    closed spec fn spec_width(&self) -> nat {
        self.w as nat
    }

    closed spec fn spec_height(&self) -> nat {
        self.h as nat
    }

    closed spec fn spec_col_major(&self) -> bool {
        self.col_major
    }

    open spec fn capacity(&self) -> nat {
        64 * self.spec_words().len()
    }

    open spec fn bit_at(&self, i: int) -> bool {
        bits_in_words(self.spec_words(), i)
    }

    closed spec fn inv(&self) -> bool {
        self.bits@.len() == (self.w as int * self.h as int + 63) / 64
    }

    proof fn lemma_inv(&self) {
        assert((self.w as int) * (self.h as int) <= 65025) by (nonlinear_arith)
            requires
                self.w < 256,
                self.h < 256,
        ;
        assert(self.spec_width() * self.spec_height() <= 64 * ((self.spec_width()
            * self.spec_height() + 63) / 64) && (self.spec_width() * self.spec_height() + 63) / 64
            <= 1017) by (nonlinear_arith)
            requires
                self.spec_width() * self.spec_height() <= 65025,
        ;
    }

    fn width(&self) -> u8 {
        self.w
    }

    fn height(&self) -> u8 {
        self.h
    }

    fn col_major(&self) -> bool {
        self.col_major
    }

    fn is_empty(&self) -> bool {
        proof {
            lemma_bit64_ops();
        }
        let n = self.bits.len();
        let mut wi: usize = 0;
        while wi < n
            invariant
                self.inv(),
                wi <= n,
                n == self.spec_words().len(),
                forall|j: int| 0 <= j < 64 * wi as int ==> !self.bit_at(j),
            decreases n - wi,
        {
            if self.bits[wi] != 0 {
                proof {
                    lemma_bit64_ops();
                    let word = self.spec_words()[wi as int];
                    axiom_u64_trailing_zeros(word);
                    let t = u64_trailing_zeros(word) as int;
                    lemma_word_join(wi as int, t);
                    assert(self.bit_at((wi as int) * 64 + t)) by {
                        assert((wi as int * 64 + t) / 64 == wi as int);
                        assert(wi as int * 64 + t < 64 * n) by (nonlinear_arith)
                            requires
                                0 <= (wi as int) && (wi as int) < n,
                                0 <= t < 64,
                        ;
                        assert(64 * ((wi as int * 64 + t) / 64) + (wi as int * 64 + t) % 64
                            == wi as int * 64 + t);
                    }
                }
                return false;
            }
            wi = wi + 1;
            proof {
                lemma_bit64_ops();
                assert forall|j: int| 0 <= j < 64 * wi as int implies !self.bit_at(j) by {
                    if j >= 64 * (wi - 1) as int {
                        lemma_word_of_index(j, n as int);
                        assert(j / 64 == wi - 1) by (nonlinear_arith)
                            requires
                                64 * ((wi - 1) as int) <= j && j < 64 * (wi as int),
                                64 * (j / 64) + j % 64 == j,
                                0 <= j % 64 < 64,
                        ;
                    }
                }
            }
        }
        proof {
            assert forall|j: int| 0 <= j < self.capacity() implies !self.bit_at(j) by {}
        }
        true
    }

    fn any(&self) -> bool {
        let e = self.is_empty();
        !e
    }

    fn intersects(&self, other: &Self) -> bool {
        proof {
            lemma_bit64_ops();
        }
        let n = self.bits.len();
        let mut wi: usize = 0;
        while wi < n
            invariant
                self.inv(),
                other.inv(),
                self.capacity() == other.capacity(),
                wi <= n,
                n == self.spec_words().len(),
                n == other.spec_words().len(),
                forall|j: int| 0 <= j < 64 * wi as int ==> !(self.bit_at(j) && other.bit_at(j)),
            decreases n - wi,
        {
            let both = self.bits[wi] & other.bits[wi];
            if both != 0 {
                proof {
                    lemma_bit64_ops();
                    axiom_u64_trailing_zeros(both);
                    let t = u64_trailing_zeros(both) as int;
                    lemma_word_join(wi as int, t);
                    assert(bit64(both, t as u64));
                    let j = (wi as int) * 64 + t;
                    assert(j < 64 * n) by (nonlinear_arith)
                        requires
                            0 <= (wi as int) && (wi as int) < n,
                            0 <= t < 64,
                            j == (wi as int) * 64 + t,
                    ;
                    assert(bit64(self.spec_words()[wi as int], t as u64) && bit64(
                        other.spec_words()[wi as int],
                        t as u64,
                    ));
                    assert(self.bit_at(j) && other.bit_at(j));
                }
                return true;
            }
            wi = wi + 1;
            proof {
                lemma_bit64_ops();
                assert forall|j: int|
                    0 <= j < 64 * wi as int implies !(self.bit_at(j) && other.bit_at(j)) by {
                    if j >= 64 * (wi - 1) as int {
                        lemma_word_of_index(j, n as int);
                        assert(j / 64 == wi - 1) by (nonlinear_arith)
                            requires
                                64 * ((wi - 1) as int) <= j && j < 64 * (wi as int),
                                64 * (j / 64) + j % 64 == j,
                                0 <= j % 64 < 64,
                        ;
                        let word = self.spec_words()[wi - 1];
                        let oword = other.spec_words()[wi - 1];
                        assert(bit64(word & oword, (j % 64) as u64) == (bit64(word, (j % 64) as u64)
                            && bit64(oword, (j % 64) as u64)));
                    }
                }
            }
        }
        false
    }

    fn get_at_index(&self, idx: usize) -> bool {
        proof {
            lemma_word_of_index(idx as int, self.spec_words().len() as int);
        }
        let wi = idx / 64;
        let b = (idx % 64) as u64;
        (self.bits[wi] >> b) & 1 == 1
    }

    fn set_value_at_index(&mut self, idx: usize, val: bool) {
        if val {
            self.set_at_index(idx);
        } else {
            self.reset_at_index(idx);
        }
    }

    fn set_at_index(&mut self, idx: usize) {
        proof {
            lemma_bit64_ops();
            lemma_bit64_shifts();
            lemma_word_of_index(idx as int, self.spec_words().len() as int);
        }
        let wi = idx / 64;
        let b = (idx % 64) as u64;
        let ghost pre = *self;
        self.bits[wi] = self.bits[wi] | (1u64 << b);
        proof {
            assert forall|j: int|
                #[trigger] self.bit_at(j) == if j == idx as int {
                    true
                } else {
                    pre.bit_at(j)
                } by {
                if 0 <= j < 64 * self.spec_words().len() {
                    lemma_word_of_index(j, self.spec_words().len() as int);
                    if j / 64 != wi as int {
                        assert(self.spec_words()[j / 64] == pre.spec_words()[j / 64]);
                    } else if j != idx as int {
                        assert(j % 64 != b as int);
                    }
                }
            }
        }
    }

    fn reset_at_index(&mut self, idx: usize) {
        proof {
            lemma_bit64_ops();
            lemma_bit64_shifts();
            lemma_word_of_index(idx as int, self.spec_words().len() as int);
        }
        let wi = idx / 64;
        let b = (idx % 64) as u64;
        let ghost pre = *self;
        self.bits[wi] = self.bits[wi] & !(1u64 << b);
        proof {
            assert forall|j: int|
                #[trigger] self.bit_at(j) == if j == idx as int {
                    false
                } else {
                    pre.bit_at(j)
                } by {
                if 0 <= j < 64 * self.spec_words().len() {
                    lemma_word_of_index(j, self.spec_words().len() as int);
                    if j / 64 != wi as int {
                        assert(self.spec_words()[j / 64] == pre.spec_words()[j / 64]);
                    } else if j != idx as int {
                        assert(j % 64 != b as int);
                    }
                }
            }
        }
    }

    fn toggle_at_index(&mut self, idx: usize) {
        proof {
            lemma_bit64_ops();
            lemma_bit64_shifts();
            lemma_word_of_index(idx as int, self.spec_words().len() as int);
        }
        let wi = idx / 64;
        let b = (idx % 64) as u64;
        let ghost pre = *self;
        self.bits[wi] = self.bits[wi] ^ (1u64 << b);
        proof {
            assert forall|j: int|
                #[trigger] self.bit_at(j) == if j == idx as int {
                    !pre.bit_at(idx as int)
                } else {
                    pre.bit_at(j)
                } by {
                if 0 <= j < 64 * self.spec_words().len() {
                    lemma_word_of_index(j, self.spec_words().len() as int);
                    if j / 64 != wi as int {
                        assert(self.spec_words()[j / 64] == pre.spec_words()[j / 64]);
                    } else if j != idx as int {
                        assert(j % 64 != b as int);
                    }
                }
            }
        }
    }

    fn get(&self, x: u8, y: u8) -> bool {
        proof {
            self.lemma_inv();
            crate::coords::lemma_index_of_in_range(
                self.spec_width() as int,
                self.spec_height() as int,
                self.spec_col_major(),
                x as int,
                y as int,
            );
        }
        let idx = crate::coords::index_from_coords(self.w, self.h, self.col_major, x, y);
        self.get_at_index(idx)
    }

    fn set_value(&mut self, x: u8, y: u8, val: bool) {
        proof {
            self.lemma_inv();
        }
        let idx = crate::coords::index_from_coords(self.w, self.h, self.col_major, x, y);
        self.set_value_at_index(idx, val);
    }

    fn set(&mut self, x: u8, y: u8) {
        proof {
            self.lemma_inv();
        }
        let idx = crate::coords::index_from_coords(self.w, self.h, self.col_major, x, y);
        self.set_at_index(idx);
    }

    fn reset(&mut self, x: u8, y: u8) {
        proof {
            self.lemma_inv();
        }
        let idx = crate::coords::index_from_coords(self.w, self.h, self.col_major, x, y);
        self.reset_at_index(idx);
    }

    fn flipped(&self) -> Self {
        proof {
            lemma_bit64_ops();
        }
        let n = self.bits.len();
        let mut out: Vec<u64> = Vec::new();
        let mut wi: usize = 0;
        while wi < n
            invariant
                wi <= n,
                n == self.spec_words().len(),
                out@.len() == wi,
                forall|t: int| 0 <= t < wi ==> out@[t] == !self.spec_words()[t],
            decreases n - wi,
        {
            out.push(!self.bits[wi]);
            wi = wi + 1;
        }
        let r = LargeBitboard { w: self.w, h: self.h, col_major: self.col_major, bits: out };
        proof {
            lemma_bit64_ops();
            assert forall|i: int| 0 <= i < self.capacity() implies r.bit_at(i) == !self.bit_at(
                i,
            ) by {
                lemma_word_of_index(i, n as int);
                assert(r.spec_words()[i / 64] == !self.spec_words()[i / 64]);
            }
        }
        r
    }

    fn lsb(&self) -> u32 {
        proof {
            lemma_bit64_ops();
            self.lemma_inv();
        }
        let n = self.bits.len();
        let mut wi: usize = 0;
        while wi < n
            invariant
                self.inv(),
                wi <= n,
                n == self.spec_words().len(),
                64 * n < 0x1_0000_0000,
                forall|j: int| 0 <= j < 64 * wi as int ==> !self.bit_at(j),
            decreases n - wi,
        {
            let word = self.bits[wi];
            if word != 0 {
                let t = word.trailing_zeros();
                proof {
                    lemma_bit64_ops();
                    axiom_u64_trailing_zeros(word);
                    lemma_word_join(wi as int, t as int);
                    assert((wi as int) * 64 + (t as int) < 64 * n) by (nonlinear_arith)
                        requires
                            0 <= (wi as int) && (wi as int) < n,
                            0 <= (t as int) && (t as int) < 64,
                    ;
                    assert(self.bit_at((wi as int) * 64 + (t as int)));
                    assert forall|j: int|
                        0 <= j < (wi as int) * 64 + (t as int) implies !self.bit_at(j) by {
                        if j >= 64 * wi as int {
                            lemma_word_of_index(j, n as int);
                            assert(j / 64 == wi as int) by (nonlinear_arith)
                                requires
                                    64 * (wi as int) <= j && j < (wi as int) * 64 + (t as int),
                                    (t as int) < 64,
                                    64 * (j / 64) + j % 64 == j,
                                    0 <= j % 64 < 64,
                            ;
                            assert(j % 64 < (t as int)) by (nonlinear_arith)
                                requires
                                    j < (wi as int) * 64 + (t as int),
                                    j / 64 == wi as int,
                                    64 * (j / 64) + j % 64 == j,
                            ;
                            assert(!bit64(word, (j % 64) as u64));
                        }
                    }
                    assert((wi as int) * 64 + (t as int) < 0x1_0000_0000);
                }
                return (wi as u32) * 64 + t;
            }
            wi = wi + 1;
            proof {
                lemma_bit64_ops();
                assert forall|j: int| 0 <= j < 64 * wi as int implies !self.bit_at(j) by {
                    if j >= 64 * (wi - 1) as int {
                        lemma_word_of_index(j, n as int);
                        assert(j / 64 == wi - 1) by (nonlinear_arith)
                            requires
                                64 * ((wi - 1) as int) <= j && j < 64 * (wi as int),
                                64 * (j / 64) + j % 64 == j,
                                0 <= j % 64 < 64,
                        ;
                    }
                }
            }
        }
        u32::MAX
    }

    fn pop_lsb(&mut self) -> u32 {
        proof {
            lemma_bit64_ops();
            lemma_bit64_mask();
            old(self).lemma_inv();
        }
        let n = self.bits.len();
        let mut wi: usize = 0;
        while wi < n
            invariant
                self.inv(),
                *self == *old(self),
                exists|i: int| 0 <= i < old(self).capacity() && old(self).bit_at(i),
                wi <= n,
                n == self.spec_words().len(),
                64 * n < 0x1_0000_0000,
                forall|j: int| 0 <= j < 64 * wi as int ==> !self.bit_at(j),
            decreases n - wi,
        {
            let word = self.bits[wi];
            if word != 0 {
                let t = word.trailing_zeros();
                let ghost pre = *self;
                let ghost idx = (wi as int) * 64 + (t as int);
                proof {
                    lemma_bit64_ops();
                    lemma_bit64_mask();
                    axiom_u64_trailing_zeros(word);
                    lemma_word_join(wi as int, t as int);
                    assert(idx < 64 * n) by (nonlinear_arith)
                        requires
                            0 <= (wi as int) && (wi as int) < n,
                            0 <= (t as int) && (t as int) < 64,
                            idx == (wi as int) * 64 + (t as int),
                    ;
                    assert(pre.bit_at(idx));
                    assert forall|j: int| 0 <= j < idx implies !pre.bit_at(j) by {
                        if j >= 64 * wi as int {
                            lemma_word_of_index(j, n as int);
                            assert(j / 64 == wi as int) by (nonlinear_arith)
                                requires
                                    64 * (wi as int) <= j && j < idx,
                                    idx == (wi as int) * 64 + (t as int),
                                    (t as int) < 64,
                                    64 * (j / 64) + j % 64 == j,
                                    0 <= j % 64 < 64,
                            ;
                            assert(j % 64 < (t as int)) by (nonlinear_arith)
                                requires
                                    j < idx,
                                    idx == (wi as int) * 64 + (t as int),
                                    j / 64 == wi as int,
                                    64 * (j / 64) + j % 64 == j,
                            ;
                            assert(!bit64(word, (j % 64) as u64));
                        }
                    }
                    assert forall|bb: u64| bb < t as u64 implies !bit64(word, bb) by {}
                    lemma_bit64_ext_below(word, 0u64, t as u64);
                    assert(word & mask64(t as u64) == 0u64 & mask64(t as u64));
                    lemma_clear_lsb64(word, t as u64);
                }
                self.bits[wi] = word & (word - 1);
                proof {
                    lemma_bit64_ops();
                    assert forall|j: int|
                        #[trigger] self.bit_at(j) == if j == idx {
                            false
                        } else {
                            pre.bit_at(j)
                        } by {
                        if 0 <= j < 64 * n {
                            lemma_word_of_index(j, n as int);
                            if j / 64 != wi as int {
                                assert(self.spec_words()[j / 64] == pre.spec_words()[j / 64]);
                            } else {
                                assert(bit64(word & ((word - 1) as u64), (j % 64) as u64) == (bit64(
                                    word,
                                    (j % 64) as u64,
                                ) && (j % 64) as u64 != t as u64));
                                if j == idx {
                                    assert((j % 64) as u64 == t as u64);
                                } else {
                                    assert(j % 64 != t as int);
                                }
                            }
                        }
                    }
                    assert(idx < 0x1_0000_0000);
                }
                return (wi as u32) * 64 + t;
            }
            wi = wi + 1;
            proof {
                lemma_bit64_ops();
                assert forall|j: int| 0 <= j < 64 * wi as int implies !self.bit_at(j) by {
                    if j >= 64 * (wi - 1) as int {
                        lemma_word_of_index(j, n as int);
                        assert(j / 64 == wi - 1) by (nonlinear_arith)
                            requires
                                64 * ((wi - 1) as int) <= j && j < 64 * (wi as int),
                                64 * (j / 64) + j % 64 == j,
                                0 <= j % 64 < 64,
                        ;
                    }
                }
            }
        }
        proof {
            let i = choose|i: int| 0 <= i < old(self).capacity() && old(self).bit_at(i);
            assert(false);
        }
        u32::MAX
    }
}

} // verus!
