//! Bit-level model of a 64-bit storage word.
//!
//! `bit64` reads one bit of a word; `ones_below64` counts the set bits below
//! a position; `pext64` and `pdep64` give the mathematical meaning of the
//! parallel bit extract and deposit primitives. The lemmas connect the word
//! operators of the executable code to this per-bit model.

use vstd::prelude::*;

verus! {

/// Bit `i` of the word `v` (false for `i >= 64`).
pub open spec fn bit64(v: u64, i: u64) -> bool {
    (v >> i) & 1u64 == 1u64
}

/// The word whose bits below `n` are set and whose other bits are clear.
pub open spec fn mask64(n: u64) -> u64 {
    if n >= 64 {
        0xffff_ffff_ffff_ffffu64
    } else {
        ((1u64 << n) - 1) as u64
    }
}

/// How many bits of `v` at positions below `n` are set.
pub open spec fn ones_below64(v: u64, n: int) -> nat
    decreases n,
{
    if n <= 0 {
        0
    } else {
        ones_below64(v, n - 1) + (if bit64(v, (n - 1) as u64) {
            1nat
        } else {
            0nat
        })
    }
}

/// The number of set bits of `v`.
pub open spec fn popcount64(v: u64) -> nat {
    ones_below64(v, 64)
}

/// Parallel bit extract restricted to the mask bits below `n`:
/// the bits of `v` selected by `m`, packed densely from bit 0 up.
pub open spec fn pext64_upto(v: u64, m: u64, n: int) -> u64
    decreases n,
{
    if n <= 0 {
        0u64
    } else {
        let r = pext64_upto(v, m, n - 1);
        if bit64(m, (n - 1) as u64) && bit64(v, (n - 1) as u64) {
            r | (1u64 << (ones_below64(m, n - 1) as u64))
        } else {
            r
        }
    }
}

/// Parallel bit extract: bit `k` of the result is the bit of `v` at the
/// position of the `k`-th set bit of `m`, counted from bit 0.
pub open spec fn pext64(v: u64, m: u64) -> u64 {
    pext64_upto(v, m, 64)
}

/// Parallel bit deposit restricted to the mask bits below `n`:
/// the bits of `c`, taken from bit 0 up, scattered to the set bits of `m`.
pub open spec fn pdep64_upto(m: u64, c: u64, n: int) -> u64
    decreases n,
{
    if n <= 0 {
        0u64
    } else {
        let r = pdep64_upto(m, c, n - 1);
        if bit64(m, (n - 1) as u64) && bit64(c, ones_below64(m, n - 1) as u64) {
            r | (1u64 << ((n - 1) as u64))
        } else {
            r
        }
    }
}

/// Parallel bit deposit: the bit of the result at the position of the
/// `k`-th set bit of `m` is bit `k` of `c`; all other bits are clear.
pub open spec fn pdep64(m: u64, c: u64) -> u64 {
    pdep64_upto(m, c, 64)
}

/// How the boolean operators of a word act on single bits.
pub proof fn lemma_bit64_ops()
    by (bit_vector)
    ensures
        forall|a: u64, b: u64, i: u64|
            i < 64 ==> #[trigger] bit64(a & b, i) == (bit64(a, i) && bit64(b, i)),
        forall|a: u64, b: u64, i: u64|
            i < 64 ==> #[trigger] bit64(a | b, i) == (bit64(a, i) || bit64(b, i)),
        forall|a: u64, b: u64, i: u64|
            i < 64 ==> #[trigger] bit64(a ^ b, i) == (bit64(a, i) != bit64(b, i)),
        forall|a: u64, i: u64| i < 64 ==> #[trigger] bit64(!a, i) == !bit64(a, i),
        forall|i: u64| !#[trigger] bit64(0u64, i),
        forall|a: u64, i: u64| i >= 64 ==> !#[trigger] bit64(a, i),
        forall|a: u64, i: u64| i < 64 ==> (#[trigger] (a & (1u64 << i)) != 0) == bit64(a, i),
{
}

/// How the shift operators of a word act on single bits.
pub proof fn lemma_bit64_shifts()
    by (bit_vector)
    ensures
        forall|a: u64, s: u64, i: u64|
            s < 64 && i < 64 && i >= s ==> #[trigger] bit64(a << s, i) == bit64(a, (i - s) as u64),
        forall|a: u64, s: u64, i: u64| s < 64 && i < s ==> !(#[trigger] bit64(a << s, i)),
        forall|a: u64, s: u64, i: u64|
            s < 64 && i < 64 ==> #[trigger] bit64(a >> s, i) == bit64(a, (i + s) as u64),
        forall|k: u64, i: u64| k < 64 && i < 64 ==> #[trigger] bit64(1u64 << k, i) == (i == k),
{
}

/// Shift steps taken by the word-scanning loops: composing single-bit
/// shifts, shifting a word empty, and the strict descent of a right shift.
pub proof fn lemma_bit64_shift_steps()
    by (bit_vector)
    ensures
        forall|a: u64, s: u64| s < 64 ==> #[trigger] ((a >> s) >> 1u64) == a >> ((s + 1) as u64),
        forall|s: u64| s < 63 ==> #[trigger] ((1u64 << s) << 1u64) == 1u64 << ((s + 1) as u64),
        forall|a: u64, s: u64| s >= 64 ==> #[trigger] (a >> s) == 0u64,
        forall|a: u64| a != 0 ==> #[trigger] (a >> 1u64) < a,
        forall|a: u64| (#[trigger] (a & 1u64)) == 0u64 || (a & 1) == 1u64,
        forall|a: u64| ((#[trigger] (a & 1u64)) == 1u64) == bit64(a, 0u64),
{
}

/// Which bits the mask of the positions below `n` has set.
pub proof fn lemma_bit64_mask()
    by (bit_vector)
    ensures
        forall|n: u64, i: u64| n <= 64 && i < 64 ==> #[trigger] bit64(mask64(n), i) == (i < n),
        forall|n: u64| 0u64 & #[trigger] mask64(n) == 0u64,
{
}

/// Two words that agree on every bit below `n` agree masked to `n` bits.
pub proof fn lemma_bit64_ext_below(a: u64, b: u64, n: u64)
    requires
        n <= 64,
        forall|i: u64| i < n ==> bit64(a, i) == bit64(b, i),
    ensures
        a & mask64(n) == b & mask64(n),
    decreases n,
{
    if n == 0 {
        assert(a & mask64(0) == b & mask64(0)) by (bit_vector);
    } else {
        lemma_bit64_ext_below(a, b, (n - 1) as u64);
        assert(a & mask64(n) == b & mask64(n)) by (bit_vector)
            requires
                1 <= n <= 64,
                a & mask64((n - 1) as u64) == b & mask64((n - 1) as u64),
                bit64(a, (n - 1) as u64) == bit64(b, (n - 1) as u64),
        ;
    }
}

/// Two words that agree on all 64 bits are equal.
pub proof fn lemma_bit64_ext(a: u64, b: u64)
    requires
        forall|i: u64| i < 64 ==> bit64(a, i) == bit64(b, i),
    ensures
        a == b,
{
    lemma_bit64_ext_below(a, b, 64);
    assert(a & mask64(64) == a && b & mask64(64) == b) by (bit_vector);
}

/// Counting set bits below a position never exceeds the position.
pub proof fn lemma_ones_below64_bound(v: u64, n: int)
    requires
        0 <= n,
    ensures
        ones_below64(v, n) <= n,
    decreases n,
{
    if n > 0 {
        lemma_ones_below64_bound(v, n - 1);
    }
}

/// Counting set bits below a position grows with the position.
pub proof fn lemma_ones_below64_mono(v: u64, m: int, n: int)
    requires
        m <= n,
    ensures
        ones_below64(v, m) <= ones_below64(v, n),
    decreases n - m,
{
    if m < n {
        lemma_ones_below64_mono(v, m, n - 1);
    }
}

/// Distinct set bits are counted at distinct ranks, in position order.
pub proof fn lemma_ones_below64_strict(v: u64, i: int, j: int)
    requires
        0 <= i < j,
        bit64(v, i as u64),
    ensures
        ones_below64(v, i) < ones_below64(v, j),
{
    assert(ones_below64(v, i + 1) == ones_below64(v, i) + 1);
    lemma_ones_below64_mono(v, i + 1, j);
}

/// Which bit of `v` an extract places at each rank, for mask bits below `n`.
pub proof fn lemma_pext64_upto_char(v: u64, m: u64, n: int, j: u64)
    requires
        0 <= n <= 64,
        j < 64,
    ensures
        bit64(pext64_upto(v, m, n), j) == exists|i: int|
            0 <= i < n && bit64(m, #[trigger] (i as u64)) && bit64(v, i as u64) && ones_below64(
                m,
                i,
            ) == j,
    decreases n,
{
    lemma_bit64_ops();
    lemma_bit64_shifts();
    if n > 0 {
        lemma_pext64_upto_char(v, m, n - 1, j);
        let r = pext64_upto(v, m, n - 1);
        if bit64(m, (n - 1) as u64) && bit64(v, (n - 1) as u64) {
            let k = ones_below64(m, n - 1) as u64;
            lemma_ones_below64_bound(m, n - 1);
            assert(bit64(r | (1u64 << k), j) == (bit64(r, j) || j == k));
            if j == k {
                assert(0 <= n - 1 < n && bit64(m, (n - 1) as u64) && bit64(v, (n - 1) as u64)
                    && ones_below64(m, n - 1) == j);
            } else {
                assert forall|i: int|
                    0 <= i < n && bit64(m, #[trigger] (i as u64)) && bit64(v, i as u64)
                        && ones_below64(m, i) == j implies 0 <= i < n - 1 by {
                    if i == n - 1 {
                        assert(ones_below64(m, i) == k);
                    }
                }
            }
        } else {
            assert forall|i: int|
                0 <= i < n && bit64(m, #[trigger] (i as u64)) && bit64(v, i as u64)
                    && ones_below64(m, i) == j implies 0 <= i < n - 1 by {}
        }
    }
}

/// Where a deposit places each bit of the packed value, for mask bits below `n`.
pub proof fn lemma_pdep64_upto_char(m: u64, c: u64, n: int, j: u64)
    requires
        0 <= n <= 64,
        j < 64,
    ensures
        bit64(pdep64_upto(m, c, n), j) == (j < n && bit64(m, j) && bit64(
            c,
            ones_below64(m, j as int) as u64,
        )),
    decreases n,
{
    lemma_bit64_ops();
    lemma_bit64_shifts();
    if n > 0 {
        lemma_pdep64_upto_char(m, c, n - 1, j);
    }
}

/// Depositing what was extracted through the same mask restores every
/// mask-selected bit: the round trip is the identity inside the mask.
pub proof fn lemma_pext64_pdep64_roundtrip(v: u64, m: u64)
    ensures
        pdep64(m, pext64(v, m)) & m == v & m,
{
    lemma_bit64_ops();
    let c = pext64(v, m);
    let d = pdep64(m, c);
    assert forall|i: u64| i < 64 implies bit64(d & m, i) == bit64(v & m, i) by {
        lemma_pdep64_upto_char(m, c, 64, i);
        if bit64(m, i) {
            let k = ones_below64(m, i as int) as u64;
            lemma_ones_below64_bound(m, i as int);
            lemma_pext64_upto_char(v, m, 64, k);
            if bit64(v, i) {
                assert(0 <= (i as int) && (i as int) < 64 && bit64(m, (i as int) as u64) && bit64(
                    v,
                    (i as int) as u64,
                ) && ones_below64(m, i as int) == k);
            } else {
                if bit64(c, k) {
                    let i2 = choose|i2: int|
                        0 <= i2 < 64 && bit64(m, #[trigger] (i2 as u64)) && bit64(v, i2 as u64)
                            && ones_below64(m, i2) == k;
                    if i2 < i as int {
                        lemma_ones_below64_strict(m, i2, i as int);
                    } else if i2 > i as int {
                        lemma_ones_below64_strict(m, i as int, i2);
                    }
                }
            }
        }
    }
    lemma_bit64_ext(d & m, v & m);
}

/// The rank of a set bit stays below the total count of set bits.
pub proof fn lemma_ones_below64_lt_popcount(m: u64, i: int)
    requires
        0 <= i < 64,
        bit64(m, i as u64),
    ensures
        ones_below64(m, i) < popcount64(m),
{
    lemma_ones_below64_strict(m, i, 64);
    lemma_ones_below64_mono(m, i + 1, 64);
}

/// An extract leaves every bit at or above the mask's count clear.
pub proof fn lemma_pext64_high_zero(v: u64, m: u64, j: u64)
    requires
        j < 64,
        popcount64(m) <= j,
    ensures
        !bit64(pext64(v, m), j),
{
    lemma_pext64_upto_char(v, m, 64, j);
    if bit64(pext64(v, m), j) {
        let i = choose|i: int|
            0 <= i < 64 && bit64(m, #[trigger] (i as u64)) && bit64(v, i as u64) && ones_below64(
                m,
                i,
            ) == j;
        lemma_ones_below64_lt_popcount(m, i);
    }
}

/// Clearing the lowest set bit: `x & (x - 1)` keeps every other set bit.
/// `t` is the index of the lowest set bit, handed in through the facts that
/// bit `t` is set and that the bits below `t` are all zero.
pub proof fn lemma_clear_lsb64(x: u64, t: u64)
    by (bit_vector)
    requires
        x != 0,
        t < 64,
        bit64(x, t),
        x & mask64(t) == 0,
    ensures
        forall|j: u64| j < 64 ==> #[trigger] bit64(x & ((x - 1) as u64), j) == (bit64(x, j) && j
            != t),
        forall|j: u64| j < t ==> !#[trigger] bit64(x, j),
{
}

/// Once the mask holds no further set bits, the extract is complete.
pub proof fn lemma_pext64_upto_stable(v: u64, m: u64, k: int, n: int)
    requires
        0 <= k <= n <= 64,
        forall|j: u64| j < 64 && k <= j ==> !bit64(m, j),
    ensures
        pext64_upto(v, m, n) == pext64_upto(v, m, k),
    decreases n - k,
{
    if k < n {
        lemma_pext64_upto_stable(v, m, k, n - 1);
    }
}

/// Once the mask holds no further set bits, the deposit is complete.
pub proof fn lemma_pdep64_upto_stable(m: u64, c: u64, k: int, n: int)
    requires
        0 <= k <= n <= 64,
        forall|j: u64| j < 64 && k <= j ==> !bit64(m, j),
    ensures
        pdep64_upto(m, c, n) == pdep64_upto(m, c, k),
    decreases n - k,
{
    if k < n {
        lemma_pdep64_upto_stable(m, c, k, n - 1);
    }
}

/// A word whose suffix from `k` on is shifted away has no set bits there.
pub proof fn lemma_bit64_high_clear(m: u64, k: u64)
    by (bit_vector)
    requires
        m >> k == 0,
    ensures
        forall|j: u64| j >= k ==> !(#[trigger] bit64(m, j)),
{
}

/// The empty word counts zero everywhere.
pub proof fn lemma_ones_below64_zero(n: int)
    ensures
        ones_below64(0u64, n) == 0,
    decreases n,
{
    lemma_bit64_ops();
    if n > 0 {
        lemma_ones_below64_zero(n - 1);
    }
}

/// A stretch without set bits does not change the count.
pub proof fn lemma_ones_below64_constant(m: u64, a: int, b: int)
    requires
        a <= b,
        forall|j: int| a <= j < b ==> !bit64(m, #[trigger] (j as u64)),
    ensures
        ones_below64(m, b) == ones_below64(m, a),
    decreases b - a,
{
    if a < b {
        lemma_ones_below64_constant(m, a, b - 1);
    }
}

/// A single set bit at `a` with nothing after it until `b` counts one.
pub proof fn lemma_ones_below64_interval(m: u64, a: int, b: int)
    requires
        0 <= a < b,
        bit64(m, a as u64),
        forall|j: int| a < j < b ==> !bit64(m, #[trigger] (j as u64)),
    ensures
        ones_below64(m, b) == ones_below64(m, a) + 1,
{
    assert(ones_below64(m, a + 1) == ones_below64(m, a) + 1);
    lemma_ones_below64_constant(m, a + 1, b);
}

/// One step of the carry-rippler walk over the subsets of `b`: from the
/// subset `s`, the value `d & b` — where `d` is `s - b` wrapped to a word —
/// is the numerically smallest subset of `b` above `s`, and it is zero
/// exactly when `s` was the last subset, `b` itself.
pub proof fn lemma_carry_rippler(b: u64, s: u64, d: u64)
    by (bit_vector)
    requires
        s & b == s,
        s >= b ==> d == (s - b) as u64,
        s < b ==> d == (s + (0xffff_ffff_ffff_ffffu64 - b) + 1) as u64,
    ensures
        s <= b,
        forall|t: u64| t & b == t ==> t <= b,
        (d & b) & b == d & b,
        d & b == 0 ==> s == b,
        d & b != 0 ==> d & b > s,
        forall|t: u64| t & b == t && t > s ==> t >= d & b,
{
}

/// Words that agree on the bits below `n` have the same count below `n`.
pub proof fn lemma_ones_below64_agree(v: u64, w: u64, n: int)
    requires
        n <= 64,
        forall|i: u64| i < n ==> bit64(v, i) == bit64(w, i),
    ensures
        ones_below64(v, n) == ones_below64(w, n),
    decreases n,
{
    if n > 0 {
        lemma_ones_below64_agree(v, w, n - 1);
    }
}

} // verus!
