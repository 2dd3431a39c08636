//! Bit-level model of a 128-bit double-word storage.
//!
//! `bit128` reads one bit of a word; `ones_below128` counts the set bits below
//! a position; `pext128` and `pdep128` give the mathematical meaning of the
//! parallel bit extract and deposit primitives. The lemmas connect the word
//! operators of the executable code to this per-bit model.

use vstd::prelude::*;

verus! {

/// Bit `i` of the double word `v` (false for `i >= 128`).
pub open spec fn bit128(v: u128, i: u128) -> bool {
    (v >> i) & 1u128 == 1u128
}

/// The word whose bits below `n` are set and whose other bits are clear.
pub open spec fn mask128(n: u128) -> u128 {
    if n >= 128 {
        0xffff_ffff_ffff_ffff_ffff_ffff_ffff_ffffu128
    } else {
        ((1u128 << n) - 1) as u128
    }
}

/// How many bits of `v` at positions below `n` are set.
pub open spec fn ones_below128(v: u128, n: int) -> nat
    decreases n,
{
    if n <= 0 {
        0
    } else {
        ones_below128(v, n - 1) + (if bit128(v, (n - 1) as u128) {
            1nat
        } else {
            0nat
        })
    }
}

/// The number of set bits of `v`.
pub open spec fn popcount128(v: u128) -> nat {
    ones_below128(v, 128)
}

/// Parallel bit extract restricted to the mask bits below `n`:
/// the bits of `v` selected by `m`, packed densely from bit 0 up.
pub open spec fn pext128_upto(v: u128, m: u128, n: int) -> u128
    decreases n,
{
    if n <= 0 {
        0u128
    } else {
        let r = pext128_upto(v, m, n - 1);
        if bit128(m, (n - 1) as u128) && bit128(v, (n - 1) as u128) {
            r | (1u128 << (ones_below128(m, n - 1) as u128))
        } else {
            r
        }
    }
}

/// Parallel bit extract: bit `k` of the result is the bit of `v` at the
/// position of the `k`-th set bit of `m`, counted from bit 0.
pub open spec fn pext128(v: u128, m: u128) -> u128 {
    pext128_upto(v, m, 128)
}

/// Parallel bit deposit restricted to the mask bits below `n`:
/// the bits of `c`, taken from bit 0 up, scattered to the set bits of `m`.
pub open spec fn pdep128_upto(m: u128, c: u128, n: int) -> u128
    decreases n,
{
    if n <= 0 {
        0u128
    } else {
        let r = pdep128_upto(m, c, n - 1);
        if bit128(m, (n - 1) as u128) && bit128(c, ones_below128(m, n - 1) as u128) {
            r | (1u128 << ((n - 1) as u128))
        } else {
            r
        }
    }
}

/// Parallel bit deposit: the bit of the result at the position of the
/// `k`-th set bit of `m` is bit `k` of `c`; all other bits are clear.
pub open spec fn pdep128(m: u128, c: u128) -> u128 {
    pdep128_upto(m, c, 128)
}

/// How the boolean operators of a word act on single bits.
pub proof fn lemma_bit128_ops()
    by (bit_vector)
    ensures
        forall|a: u128, b: u128, i: u128|
            i < 128 ==> #[trigger] bit128(a & b, i) == (bit128(a, i) && bit128(b, i)),
        forall|a: u128, b: u128, i: u128|
            i < 128 ==> #[trigger] bit128(a | b, i) == (bit128(a, i) || bit128(b, i)),
        forall|a: u128, b: u128, i: u128|
            i < 128 ==> #[trigger] bit128(a ^ b, i) == (bit128(a, i) != bit128(b, i)),
        forall|a: u128, i: u128| i < 128 ==> #[trigger] bit128(!a, i) == !bit128(a, i),
        forall|i: u128| !#[trigger] bit128(0u128, i),
        forall|a: u128, i: u128| i >= 128 ==> !#[trigger] bit128(a, i),
        forall|a: u128, i: u128| i < 128 ==> (#[trigger] (a & (1u128 << i)) != 0) == bit128(a, i),
{
}

/// How the shift operators of a word act on single bits.
pub proof fn lemma_bit128_shifts()
    by (bit_vector)
    ensures
        forall|a: u128, s: u128, i: u128|
            s < 128 && i < 128 && i >= s ==> #[trigger] bit128(a << s, i) == bit128(a, (i - s) as u128),
        forall|a: u128, s: u128, i: u128| s < 128 && i < s ==> !(#[trigger] bit128(a << s, i)),
        forall|a: u128, s: u128, i: u128|
            s < 128 && i < 128 ==> #[trigger] bit128(a >> s, i) == bit128(a, (i + s) as u128),
        forall|k: u128, i: u128| k < 128 && i < 128 ==> #[trigger] bit128(1u128 << k, i) == (i == k),
{
}

/// Shift steps taken by the word-scanning loops: composing single-bit
/// shifts, shifting a word empty, and the strict descent of a right shift.
pub proof fn lemma_bit128_shift_steps()
    by (bit_vector)
    ensures
        forall|a: u128, s: u128| s < 128 ==> #[trigger] ((a >> s) >> 1u128) == a >> ((s + 1) as u128),
        forall|s: u128| s < 127 ==> #[trigger] ((1u128 << s) << 1u128) == 1u128 << ((s + 1) as u128),
        forall|a: u128, s: u128| s >= 128 ==> #[trigger] (a >> s) == 0u128,
        forall|a: u128| a != 0 ==> #[trigger] (a >> 1u128) < a,
        forall|a: u128| (#[trigger] (a & 1u128)) == 0u128 || (a & 1) == 1u128,
        forall|a: u128| ((#[trigger] (a & 1u128)) == 1u128) == bit128(a, 0u128),
{
}

/// Which bits the mask of the positions below `n` has set.
pub proof fn lemma_bit128_mask()
    by (bit_vector)
    ensures
        forall|n: u128, i: u128| n <= 128 && i < 128 ==> #[trigger] bit128(mask128(n), i) == (i < n),
        forall|n: u128| 0u128 & #[trigger] mask128(n) == 0u128,
{
}

/// Two words that agree on every bit below `n` agree masked to `n` bits.
pub proof fn lemma_bit128_ext_below(a: u128, b: u128, n: u128)
    requires
        n <= 128,
        forall|i: u128| i < n ==> bit128(a, i) == bit128(b, i),
    ensures
        a & mask128(n) == b & mask128(n),
    decreases n,
{
    if n == 0 {
        assert(a & mask128(0) == b & mask128(0)) by (bit_vector);
    } else {
        lemma_bit128_ext_below(a, b, (n - 1) as u128);
        assert(a & mask128(n) == b & mask128(n)) by (bit_vector)
            requires
                1 <= n <= 128,
                a & mask128((n - 1) as u128) == b & mask128((n - 1) as u128),
                bit128(a, (n - 1) as u128) == bit128(b, (n - 1) as u128),
        ;
    }
}

/// Two words that agree on all 128 bits are equal.
pub proof fn lemma_bit128_ext(a: u128, b: u128)
    requires
        forall|i: u128| i < 128 ==> bit128(a, i) == bit128(b, i),
    ensures
        a == b,
{
    lemma_bit128_ext_below(a, b, 128);
    assert(a & mask128(128) == a && b & mask128(128) == b) by (bit_vector);
}

/// Counting set bits below a position never exceeds the position.
pub proof fn lemma_ones_below128_bound(v: u128, n: int)
    requires
        0 <= n,
    ensures
        ones_below128(v, n) <= n,
    decreases n,
{
    if n > 0 {
        lemma_ones_below128_bound(v, n - 1);
    }
}

/// Counting set bits below a position grows with the position.
pub proof fn lemma_ones_below128_mono(v: u128, m: int, n: int)
    requires
        m <= n,
    ensures
        ones_below128(v, m) <= ones_below128(v, n),
    decreases n - m,
{
    if m < n {
        lemma_ones_below128_mono(v, m, n - 1);
    }
}

/// Distinct set bits are counted at distinct ranks, in position order.
pub proof fn lemma_ones_below128_strict(v: u128, i: int, j: int)
    requires
        0 <= i < j,
        bit128(v, i as u128),
    ensures
        ones_below128(v, i) < ones_below128(v, j),
{
    assert(ones_below128(v, i + 1) == ones_below128(v, i) + 1);
    lemma_ones_below128_mono(v, i + 1, j);
}

/// Which bit of `v` an extract places at each rank, for mask bits below `n`.
pub proof fn lemma_pext128_upto_char(v: u128, m: u128, n: int, j: u128)
    requires
        0 <= n <= 128,
        j < 128,
    ensures
        bit128(pext128_upto(v, m, n), j) == exists|i: int|
            0 <= i < n && bit128(m, #[trigger] (i as u128)) && bit128(v, i as u128) && ones_below128(
                m,
                i,
            ) == j,
    decreases n,
{
    lemma_bit128_ops();
    lemma_bit128_shifts();
    if n > 0 {
        lemma_pext128_upto_char(v, m, n - 1, j);
        let r = pext128_upto(v, m, n - 1);
        if bit128(m, (n - 1) as u128) && bit128(v, (n - 1) as u128) {
            let k = ones_below128(m, n - 1) as u128;
            lemma_ones_below128_bound(m, n - 1);
            assert(bit128(r | (1u128 << k), j) == (bit128(r, j) || j == k));
            if j == k {
                assert(0 <= n - 1 < n && bit128(m, (n - 1) as u128) && bit128(v, (n - 1) as u128)
                    && ones_below128(m, n - 1) == j);
            } else {
                assert forall|i: int|
                    0 <= i < n && bit128(m, #[trigger] (i as u128)) && bit128(v, i as u128)
                        && ones_below128(m, i) == j implies 0 <= i < n - 1 by {
                    if i == n - 1 {
                        assert(ones_below128(m, i) == k);
                    }
                }
            }
        } else {
            assert forall|i: int|
                0 <= i < n && bit128(m, #[trigger] (i as u128)) && bit128(v, i as u128)
                    && ones_below128(m, i) == j implies 0 <= i < n - 1 by {}
        }
    }
}

/// Where a deposit places each bit of the packed value, for mask bits below `n`.
pub proof fn lemma_pdep128_upto_char(m: u128, c: u128, n: int, j: u128)
    requires
        0 <= n <= 128,
        j < 128,
    ensures
        bit128(pdep128_upto(m, c, n), j) == (j < n && bit128(m, j) && bit128(
            c,
            ones_below128(m, j as int) as u128,
        )),
    decreases n,
{
    lemma_bit128_ops();
    lemma_bit128_shifts();
    if n > 0 {
        lemma_pdep128_upto_char(m, c, n - 1, j);
    }
}

/// Depositing what was extracted through the same mask restores every
/// mask-selected bit: the round trip is the identity inside the mask.
pub proof fn lemma_pext128_pdep128_roundtrip(v: u128, m: u128)
    ensures
        pdep128(m, pext128(v, m)) & m == v & m,
{
    lemma_bit128_ops();
    let c = pext128(v, m);
    let d = pdep128(m, c);
    assert forall|i: u128| i < 128 implies bit128(d & m, i) == bit128(v & m, i) by {
        lemma_pdep128_upto_char(m, c, 128, i);
        if bit128(m, i) {
            let k = ones_below128(m, i as int) as u128;
            lemma_ones_below128_bound(m, i as int);
            lemma_pext128_upto_char(v, m, 128, k);
            if bit128(v, i) {
                assert(0 <= (i as int) && (i as int) < 128 && bit128(m, (i as int) as u128) && bit128(
                    v,
                    (i as int) as u128,
                ) && ones_below128(m, i as int) == k);
            } else {
                if bit128(c, k) {
                    let i2 = choose|i2: int|
                        0 <= i2 < 128 && bit128(m, #[trigger] (i2 as u128)) && bit128(v, i2 as u128)
                            && ones_below128(m, i2) == k;
                    if i2 < i as int {
                        lemma_ones_below128_strict(m, i2, i as int);
                    } else if i2 > i as int {
                        lemma_ones_below128_strict(m, i as int, i2);
                    }
                }
            }
        }
    }
    lemma_bit128_ext(d & m, v & m);
}

/// The rank of a set bit stays below the total count of set bits.
pub proof fn lemma_ones_below128_lt_popcount(m: u128, i: int)
    requires
        0 <= i < 128,
        bit128(m, i as u128),
    ensures
        ones_below128(m, i) < popcount128(m),
{
    lemma_ones_below128_strict(m, i, 128);
    lemma_ones_below128_mono(m, i + 1, 128);
}

/// An extract leaves every bit at or above the mask's count clear.
pub proof fn lemma_pext128_high_zero(v: u128, m: u128, j: u128)
    requires
        j < 128,
        popcount128(m) <= j,
    ensures
        !bit128(pext128(v, m), j),
{
    lemma_pext128_upto_char(v, m, 128, j);
    if bit128(pext128(v, m), j) {
        let i = choose|i: int|
            0 <= i < 128 && bit128(m, #[trigger] (i as u128)) && bit128(v, i as u128) && ones_below128(
                m,
                i,
            ) == j;
        lemma_ones_below128_lt_popcount(m, i);
    }
}

/// Clearing the lowest set bit: `x & (x - 1)` keeps every other set bit.
/// `t` is the index of the lowest set bit, handed in through the facts that
/// bit `t` is set and that the bits below `t` are all zero.
pub proof fn lemma_clear_lsb128(x: u128, t: u128)
    by (bit_vector)
    requires
        x != 0,
        t < 128,
        bit128(x, t),
        x & mask128(t) == 0,
    ensures
        forall|j: u128| j < 128 ==> #[trigger] bit128(x & ((x - 1) as u128), j) == (bit128(x, j) && j
            != t),
        forall|j: u128| j < t ==> !#[trigger] bit128(x, j),
{
}

/// Once the mask holds no further set bits, the extract is complete.
pub proof fn lemma_pext128_upto_stable(v: u128, m: u128, k: int, n: int)
    requires
        0 <= k <= n <= 128,
        forall|j: u128| j < 128 && k <= j ==> !bit128(m, j),
    ensures
        pext128_upto(v, m, n) == pext128_upto(v, m, k),
    decreases n - k,
{
    if k < n {
        lemma_pext128_upto_stable(v, m, k, n - 1);
    }
}

/// Once the mask holds no further set bits, the deposit is complete.
pub proof fn lemma_pdep128_upto_stable(m: u128, c: u128, k: int, n: int)
    requires
        0 <= k <= n <= 128,
        forall|j: u128| j < 128 && k <= j ==> !bit128(m, j),
    ensures
        pdep128_upto(m, c, n) == pdep128_upto(m, c, k),
    decreases n - k,
{
    if k < n {
        lemma_pdep128_upto_stable(m, c, k, n - 1);
    }
}

/// A word whose suffix from `k` on is shifted away has no set bits there.
pub proof fn lemma_bit128_high_clear(m: u128, k: u128)
    by (bit_vector)
    requires
        m >> k == 0,
    ensures
        forall|j: u128| j >= k ==> !(#[trigger] bit128(m, j)),
{
}

/// The empty word counts zero everywhere.
pub proof fn lemma_ones_below128_zero(n: int)
    ensures
        ones_below128(0u128, n) == 0,
    decreases n,
{
    lemma_bit128_ops();
    if n > 0 {
        lemma_ones_below128_zero(n - 1);
    }
}

/// A stretch without set bits does not change the count.
pub proof fn lemma_ones_below128_constant(m: u128, a: int, b: int)
    requires
        a <= b,
        forall|j: int| a <= j < b ==> !bit128(m, #[trigger] (j as u128)),
    ensures
        ones_below128(m, b) == ones_below128(m, a),
    decreases b - a,
{
    if a < b {
        lemma_ones_below128_constant(m, a, b - 1);
    }
}

/// A single set bit at `a` with nothing after it until `b` counts one.
pub proof fn lemma_ones_below128_interval(m: u128, a: int, b: int)
    requires
        0 <= a < b,
        bit128(m, a as u128),
        forall|j: int| a < j < b ==> !bit128(m, #[trigger] (j as u128)),
    ensures
        ones_below128(m, b) == ones_below128(m, a) + 1,
{
    assert(ones_below128(m, a + 1) == ones_below128(m, a) + 1);
    lemma_ones_below128_constant(m, a + 1, b);
}

/// One step of the carry-rippler walk over the subsets of `b`: from the
/// subset `s`, the value `d & b` — where `d` is `s - b` wrapped to a word —
/// is the numerically smallest subset of `b` above `s`, and it is zero
/// exactly when `s` was the last subset, `b` itself.
pub proof fn lemma_carry_rippler128(b: u128, s: u128, d: u128)
    by (bit_vector)
    requires
        s & b == s,
        s >= b ==> d == (s - b) as u128,
        s < b ==> d == (s + (0xffff_ffff_ffff_ffff_ffff_ffff_ffff_ffffu128 - b) + 1) as u128,
    ensures
        s <= b,
        forall|t: u128| t & b == t ==> t <= b,
        (d & b) & b == d & b,
        d & b == 0 ==> s == b,
        d & b != 0 ==> d & b > s,
        forall|t: u128| t & b == t && t > s ==> t >= d & b,
{
}

/// Words that agree on the bits below `n` have the same count below `n`.
pub proof fn lemma_ones_below128_agree(v: u128, w: u128, n: int)
    requires
        n <= 128,
        forall|i: u128| i < n ==> bit128(v, i) == bit128(w, i),
    ensures
        ones_below128(v, n) == ones_below128(w, n),
    decreases n,
{
    if n > 0 {
        lemma_ones_below128_agree(v, w, n - 1);
    }
}

/// How the bits of a double word split into its two 64-bit halves.
pub proof fn lemma_bit128_halves()
    by (bit_vector)
    ensures
        forall|v: u128, i: u128|
            i < 64 ==> #[trigger] bit128(v, i) == crate::bitops::bit64(v as u64, i as u64),
        forall|v: u128, i: u128|
            64 <= i < 128 ==> #[trigger] bit128(v, i) == crate::bitops::bit64(
                (v >> 64u128) as u64,
                (i - 64) as u64,
            ),
        forall|v: u128| v != 0 && v as u64 == 0 ==> (v >> 64u128) as u64 != 0,
{
}

/// A nonzero double word has a set bit.
pub proof fn lemma_u128_nonzero_witness(v: u128)
    requires
        v != 0,
    ensures
        exists|i: u128| i < 128 && #[trigger] bit128(v, i),
{
    lemma_bit128_halves();
    let low = v as u64;
    if low != 0 {
        vstd::std_specs::bits::axiom_u64_trailing_zeros(low);
        let t = vstd::std_specs::bits::u64_trailing_zeros(low) as u128;
        assert(crate::bitops::bit64(low, vstd::std_specs::bits::u64_trailing_zeros(low) as u64));
        assert(t < 128 && bit128(v, t));
    } else {
        let high = (v >> 64u128) as u64;
        vstd::std_specs::bits::axiom_u64_trailing_zeros(high);
        let t = (vstd::std_specs::bits::u64_trailing_zeros(high) + 64) as u128;
        assert(crate::bitops::bit64(high, vstd::std_specs::bits::u64_trailing_zeros(high) as u64));
        assert(t < 128 && bit128(v, t));
    }
}

} // verus!
