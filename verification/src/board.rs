//! The uniform bit-grid contract shared by the three storage backings.
//!
//! A board is a `w` by `h` grid of cells, one bit per cell, stored in a fixed
//! number of storage bits (its capacity). The trait exposes the board through
//! a per-bit view: `bit_at` reads one storage bit, `capacity` bounds the
//! meaningful indices, and every operation says what it does to that view.

use vstd::prelude::*;

verus! {

use crate::coords::spec_index_of;

/// A rectangular grid of cells, one bit per cell.
///
/// Cells are addressed by 0-based `(x, y)` coordinates with the origin at the
/// bottom-left, or by the linear bit index of the coordinate mapper. Storage
/// bits at indices of `w * h` and above are padding: the grid operations
/// never set them unless the caller addresses them directly.
pub trait Bitboard: Sized {
    /// Width of the grid in cells.
    spec fn spec_width(&self) -> nat;

    /// Height of the grid in cells.
    spec fn spec_height(&self) -> nat;

    /// Whether the linear index advances fastest along y instead of x.
    spec fn spec_col_major(&self) -> bool;

    /// Number of storage bits.
    spec fn capacity(&self) -> nat;

    /// The storage bit at linear index `i`; false outside the storage.
    spec fn bit_at(&self, i: int) -> bool;

    /// Well-formedness: the cells fit the storage.
    spec fn inv(&self) -> bool;

    /// A well-formed board has room for all its cells, a bounded capacity,
    /// and no bits outside the storage.
    proof fn lemma_inv(&self)
        requires
            self.inv(),
        ensures
            self.spec_width() * self.spec_height() <= self.capacity(),
            self.capacity() < 0x1_0000_0000,
            forall|i: int| !(0 <= i < self.capacity()) ==> !self.bit_at(i),
    ;

    /// Width of the grid in cells.
    fn width(&self) -> (r: u8)
        ensures
            r as nat == self.spec_width(),
    ;

    /// Height of the grid in cells.
    fn height(&self) -> (r: u8)
        ensures
            r as nat == self.spec_height(),
    ;

    /// Whether the board is stored in column-major order.
    fn col_major(&self) -> (r: bool)
        ensures
            r == self.spec_col_major(),
    ;

    /// Is every bit of the board zero?
    fn is_empty(&self) -> (r: bool)
        requires
            self.inv(),
        ensures
            r == !(exists|i: int| 0 <= i < self.capacity() && self.bit_at(i)),
    ;

    /// Is any bit of the board set?
    fn any(&self) -> (r: bool)
        requires
            self.inv(),
        ensures
            r == exists|i: int| 0 <= i < self.capacity() && self.bit_at(i),
    ;

    /// Does some bit position carry a one in both boards?
    fn intersects(&self, other: &Self) -> (r: bool)
        requires
            self.inv(),
            other.inv(),
            self.capacity() == other.capacity(),
        ensures
            r == exists|i: int| 0 <= i < self.capacity() && self.bit_at(i) && other.bit_at(i),
    ;

    /// The bit at the given linear index.
    fn get_at_index(&self, idx: usize) -> (r: bool)
        requires
            self.inv(),
            idx < self.capacity(),
        ensures
            r == self.bit_at(idx as int),
    ;

    /// Sets the bit at the given linear index to `val`.
    fn set_value_at_index(&mut self, idx: usize, val: bool)
        requires
            old(self).inv(),
            idx < old(self).capacity(),
        ensures
            final(self).inv(),
            final(self).spec_width() == old(self).spec_width(),
            final(self).spec_height() == old(self).spec_height(),
            final(self).spec_col_major() == old(self).spec_col_major(),
            final(self).capacity() == old(self).capacity(),
            forall|j: int|
                #[trigger] final(self).bit_at(j) == if j == idx as int {
                    val
                } else {
                    old(self).bit_at(j)
                },
    ;

    /// Sets the bit at the given linear index to one.
    fn set_at_index(&mut self, idx: usize)
        requires
            old(self).inv(),
            idx < old(self).capacity(),
        ensures
            final(self).inv(),
            final(self).spec_width() == old(self).spec_width(),
            final(self).spec_height() == old(self).spec_height(),
            final(self).spec_col_major() == old(self).spec_col_major(),
            final(self).capacity() == old(self).capacity(),
            forall|j: int|
                #[trigger] final(self).bit_at(j) == if j == idx as int {
                    true
                } else {
                    old(self).bit_at(j)
                },
    ;

    /// Sets the bit at the given linear index to zero.
    fn reset_at_index(&mut self, idx: usize)
        requires
            old(self).inv(),
            idx < old(self).capacity(),
        ensures
            final(self).inv(),
            final(self).spec_width() == old(self).spec_width(),
            final(self).spec_height() == old(self).spec_height(),
            final(self).spec_col_major() == old(self).spec_col_major(),
            final(self).capacity() == old(self).capacity(),
            forall|j: int|
                #[trigger] final(self).bit_at(j) == if j == idx as int {
                    false
                } else {
                    old(self).bit_at(j)
                },
    ;

    /// Toggles the bit at the given linear index.
    fn toggle_at_index(&mut self, idx: usize)
        requires
            old(self).inv(),
            idx < old(self).capacity(),
        ensures
            final(self).inv(),
            final(self).spec_width() == old(self).spec_width(),
            final(self).spec_height() == old(self).spec_height(),
            final(self).spec_col_major() == old(self).spec_col_major(),
            final(self).capacity() == old(self).capacity(),
            forall|j: int|
                #[trigger] final(self).bit_at(j) == if j == idx as int {
                    !old(self).bit_at(idx as int)
                } else {
                    old(self).bit_at(j)
                },
    ;

    /// The bit of the cell `(x, y)`.
    fn get(&self, x: u8, y: u8) -> (r: bool)
        requires
            self.inv(),
            (x as nat) < self.spec_width(),
            (y as nat) < self.spec_height(),
        ensures
            r == self.bit_at(
                spec_index_of(
                    self.spec_width() as int,
                    self.spec_height() as int,
                    self.spec_col_major(),
                    x as int,
                    y as int,
                ),
            ),
    ;

    /// Sets the bit of the cell `(x, y)` to `val`.
    fn set_value(&mut self, x: u8, y: u8, val: bool)
        requires
            old(self).inv(),
            (x as nat) < old(self).spec_width(),
            (y as nat) < old(self).spec_height(),
        ensures
            final(self).inv(),
            final(self).spec_width() == old(self).spec_width(),
            final(self).spec_height() == old(self).spec_height(),
            final(self).spec_col_major() == old(self).spec_col_major(),
            final(self).capacity() == old(self).capacity(),
            forall|j: int|
                #[trigger] final(self).bit_at(j) == if j == spec_index_of(
                    old(self).spec_width() as int,
                    old(self).spec_height() as int,
                    old(self).spec_col_major(),
                    x as int,
                    y as int,
                ) {
                    val
                } else {
                    old(self).bit_at(j)
                },
    ;

    /// Sets the bit of the cell `(x, y)` to one.
    fn set(&mut self, x: u8, y: u8)
        requires
            old(self).inv(),
            (x as nat) < old(self).spec_width(),
            (y as nat) < old(self).spec_height(),
        ensures
            final(self).inv(),
            final(self).spec_width() == old(self).spec_width(),
            final(self).spec_height() == old(self).spec_height(),
            final(self).spec_col_major() == old(self).spec_col_major(),
            final(self).capacity() == old(self).capacity(),
            forall|j: int|
                #[trigger] final(self).bit_at(j) == if j == spec_index_of(
                    old(self).spec_width() as int,
                    old(self).spec_height() as int,
                    old(self).spec_col_major(),
                    x as int,
                    y as int,
                ) {
                    true
                } else {
                    old(self).bit_at(j)
                },
    ;

    /// Sets the bit of the cell `(x, y)` to zero.
    fn reset(&mut self, x: u8, y: u8)
        requires
            old(self).inv(),
            (x as nat) < old(self).spec_width(),
            (y as nat) < old(self).spec_height(),
        ensures
            final(self).inv(),
            final(self).spec_width() == old(self).spec_width(),
            final(self).spec_height() == old(self).spec_height(),
            final(self).spec_col_major() == old(self).spec_col_major(),
            final(self).capacity() == old(self).capacity(),
            forall|j: int|
                #[trigger] final(self).bit_at(j) == if j == spec_index_of(
                    old(self).spec_width() as int,
                    old(self).spec_height() as int,
                    old(self).spec_col_major(),
                    x as int,
                    y as int,
                ) {
                    false
                } else {
                    old(self).bit_at(j)
                },
    ;

    /// The board with every storage bit complemented, padding included.
    /// A caller that wants the complement of the cells alone masks the
    /// result against the full board.
    fn flipped(&self) -> (r: Self)
        requires
            self.inv(),
        ensures
            r.inv(),
            r.spec_width() == self.spec_width(),
            r.spec_height() == self.spec_height(),
            r.spec_col_major() == self.spec_col_major(),
            r.capacity() == self.capacity(),
            forall|i: int| 0 <= i < self.capacity() ==> r.bit_at(i) == !self.bit_at(i),
    ;

    /// Index of the lowest set bit; at least the capacity when no bit is set.
    fn lsb(&self) -> (r: u32)
        requires
            self.inv(),
        ensures
            (exists|i: int| 0 <= i < self.capacity() && self.bit_at(i)) ==> self.bit_at(r as int)
                && (forall|j: int| 0 <= j < r as int ==> !self.bit_at(j)),
            !(exists|i: int| 0 <= i < self.capacity() && self.bit_at(i)) ==> (r as nat)
                >= self.capacity(),
    ;

    /// Clears the lowest set bit and returns its index.
    fn pop_lsb(&mut self) -> (r: u32)
        requires
            old(self).inv(),
            exists|i: int| 0 <= i < old(self).capacity() && old(self).bit_at(i),
        ensures
            final(self).inv(),
            final(self).spec_width() == old(self).spec_width(),
            final(self).spec_height() == old(self).spec_height(),
            final(self).spec_col_major() == old(self).spec_col_major(),
            final(self).capacity() == old(self).capacity(),
            old(self).bit_at(r as int),
            forall|j: int| 0 <= j < r as int ==> !old(self).bit_at(j),
            forall|j: int|
                #[trigger] final(self).bit_at(j) == if j == r as int {
                    false
                } else {
                    old(self).bit_at(j)
                },
    ;
}

/// Linear index of the cell `(x, y)` of the board `b`.
pub open spec fn cell_index<B: Bitboard>(b: &B, x: int, y: int) -> int {
    spec_index_of(b.spec_width() as int, b.spec_height() as int, b.spec_col_major(), x, y)
}

/// Some bit of the board is set.
pub open spec fn has_set_bit<B: Bitboard>(b: &B) -> bool {
    exists|i: int| 0 <= i < b.capacity() && b.bit_at(i)
}

/// Both boards describe a grid of the same width, height, layout and storage.
pub open spec fn same_shape<B: Bitboard>(a: &B, b: &B) -> bool {
    &&& a.spec_width() == b.spec_width()
    &&& a.spec_height() == b.spec_height()
    &&& a.spec_col_major() == b.spec_col_major()
    &&& a.capacity() == b.capacity()
}

/// Number of set bits at indices below `n`.
pub open spec fn count_bits_below<B: Bitboard>(b: &B, n: int) -> nat
    decreases n,
{
    if n <= 0 {
        0
    } else {
        count_bits_below(b, n - 1) + (if b.bit_at(n - 1) {
            1nat
        } else {
            0nat
        })
    }
}

/// Number of set bits of the board.
pub open spec fn count_bits<B: Bitboard>(b: &B) -> nat {
    count_bits_below(b, b.capacity() as int)
}

/// Boards that agree on the bits below `n` count the same below `n`.
pub proof fn lemma_count_bits_below_agree<B: Bitboard>(a: &B, b: &B, n: int)
    requires
        forall|i: int| 0 <= i < n ==> a.bit_at(i) == b.bit_at(i),
    ensures
        count_bits_below(a, n) == count_bits_below(b, n),
    decreases n,
{
    if n > 0 {
        lemma_count_bits_below_agree(a, b, n - 1);
    }
}

/// Clearing a set bit lowers the count below `n` by one.
pub proof fn lemma_count_bits_below_clear<B: Bitboard>(post: &B, pre: &B, idx: int, n: int)
    requires
        forall|j: int|
            #[trigger] post.bit_at(j) == if j == idx {
                false
            } else {
                pre.bit_at(j)
            },
        pre.bit_at(idx),
        0 <= idx < n,
    ensures
        count_bits_below(post, n) + 1 == count_bits_below(pre, n),
    decreases n,
{
    if idx == n - 1 {
        lemma_count_bits_below_agree(post, pre, n - 1);
    } else {
        lemma_count_bits_below_clear(post, pre, idx, n - 1);
    }
}

/// A positive count below `n` names a set bit below `n`.
pub proof fn lemma_count_bits_below_not_empty<B: Bitboard>(b: &B, n: int)
    requires
        count_bits_below(b, n) > 0,
    ensures
        exists|j: int| 0 <= j < n && b.bit_at(j),
    decreases n,
{
    if n > 0 && !b.bit_at(n - 1) {
        lemma_count_bits_below_not_empty(b, n - 1);
    }
}

/// The count below a bound never exceeds the bound.
pub proof fn lemma_count_bits_below_bound<B: Bitboard>(b: &B, n: int)
    requires
        0 <= n,
    ensures
        count_bits_below(b, n) <= n,
    decreases n,
{
    if n > 0 {
        lemma_count_bits_below_bound(b, n - 1);
    }
}

/// The count below a bound grows with the bound.
pub proof fn lemma_count_bits_below_mono<B: Bitboard>(b: &B, m: int, n: int)
    requires
        m <= n,
    ensures
        count_bits_below(b, m) <= count_bits_below(b, n),
    decreases n - m,
{
    if m < n {
        lemma_count_bits_below_mono(b, m, n - 1);
    }
}

/// A set bit below the bound is counted: the count above it is larger.
pub proof fn lemma_count_bits_below_strict<B: Bitboard>(b: &B, i: int, n: int)
    requires
        0 <= i < n,
        b.bit_at(i),
    ensures
        count_bits_below(b, i) < count_bits_below(b, n),
{
    assert(count_bits_below(b, i + 1) == count_bits_below(b, i) + 1);
    lemma_count_bits_below_mono(b, i + 1, n);
}

/// A board with no set bit below `n` counts zero below `n`.
pub proof fn lemma_count_bits_below_empty<B: Bitboard>(b: &B, n: int)
    requires
        forall|j: int| 0 <= j < n ==> !b.bit_at(j),
    ensures
        count_bits_below(b, n) == 0,
    decreases n,
{
    if n > 0 {
        lemma_count_bits_below_empty(b, n - 1);
    }
}

/// Lazy, exhaustive, one-shot traversal of the set bit indices of a board,
/// in ascending order. It consumes the board it iterates: each step pops
/// the lowest set bit.
pub struct BitIterator<B: Bitboard> {
    bb: B,
}

impl<B: Bitboard> BitIterator<B> {
    /// The board still to be traversed.
    pub closed spec fn spec_board(&self) -> B {
        self.bb
    }

    /// The next lowest set bit index, or `None` once the board is empty.
    pub fn next(&mut self) -> (r: Option<u32>)
        requires
            old(self).spec_board().inv(),
        ensures
            final(self).spec_board().inv(),
            same_shape(&final(self).spec_board(), &old(self).spec_board()),
            match r {
                Some(i) => {
                    &&& has_set_bit(&old(self).spec_board())
                    &&& old(self).spec_board().bit_at(i as int)
                    &&& forall|j: int| 0 <= j < i as int ==> !old(self).spec_board().bit_at(j)
                    &&& forall|j: int|
                        #[trigger] final(self).spec_board().bit_at(j) == if j == i as int {
                            false
                        } else {
                            old(self).spec_board().bit_at(j)
                        }
                },
                None => {
                    &&& !has_set_bit(&old(self).spec_board())
                    &&& final(self).spec_board() == old(self).spec_board()
                },
            },
    {
        if self.bb.any() {
            Some(self.bb.pop_lsb())
        } else {
            None
        }
    }

    /// Drains the iterator: the indices of all set bits, in ascending order,
    /// each exactly once. Afterwards the consumed board is empty.
    pub fn collect_indices(self) -> (r: Vec<u32>)
        requires
            self.spec_board().inv(),
        ensures
            r@.len() == count_bits(&self.spec_board()),
            forall|k: int| 0 <= k < r@.len() ==> self.spec_board().bit_at(#[trigger] r@[k] as int),
            forall|k1: int, k2: int| 0 <= k1 < k2 < r@.len() ==> r@[k1] < r@[k2],
            forall|j: int|
                0 <= j < self.spec_board().capacity() && self.spec_board().bit_at(j) ==> exists|
                    k: int,
                | 0 <= k < r@.len() && r@[k] as int == j,
    {
        let mut it = self;
        let ghost b0 = it.spec_board();
        let mut out: Vec<u32> = Vec::new();
        proof {
            b0.lemma_inv();
        }
        loop
            invariant
                b0 == self.spec_board(),
                it.spec_board().inv(),
                same_shape(&it.spec_board(), &b0),
                // what is left was set at the start
                forall|j: int| #[trigger] it.spec_board().bit_at(j) ==> b0.bit_at(j),
                // reported indices were set and are strictly ascending
                forall|k: int| 0 <= k < out@.len() ==> b0.bit_at(#[trigger] out@[k] as int),
                forall|k1: int, k2: int| 0 <= k1 < k2 < out@.len() ==> out@[k1] < out@[k2],
                // an index set at the start is reported or still to come
                forall|j: int|
                    #[trigger] b0.bit_at(j) ==> it.spec_board().bit_at(j) || exists|k: int|
                        0 <= k < out@.len() && out@[k] as int == j,
                // what is left lies past every reported index
                forall|k: int, j: int|
                    0 <= k < out@.len() && #[trigger] it.spec_board().bit_at(j) ==> (
                    #[trigger] out@[k] as int) < j,
                out@.len() + count_bits(&it.spec_board()) == count_bits(&b0),
            decreases count_bits(&it.spec_board()),
        {
            let ghost pre = it.spec_board();
            let ghost out0 = out@;
            match it.next() {
                Some(i) => {
                    proof {
                        lemma_count_bits_below_clear(
                            &it.spec_board(),
                            &pre,
                            i as int,
                            pre.capacity() as int,
                        );
                    }
                    out.push(i);
                    proof {
                        assert(forall|k: int| 0 <= k < out0.len() ==> out@[k] == out0[k]);
                        assert(out@[out0.len() as int] == i);
                        assert forall|j: int| #[trigger] b0.bit_at(j) implies it.spec_board()
                            .bit_at(j) || exists|k: int|
                            0 <= k < out@.len() && out@[k] as int == j by {
                            if j == i as int {
                                assert(out@[out0.len() as int] as int == j);
                            } else if !it.spec_board().bit_at(j) {
                                assert(!pre.bit_at(j));
                                let k = choose|k: int|
                                    0 <= k < out0.len() && out0[k] as int == j;
                                assert(out@[k] as int == j);
                            }
                        }
                        pre.lemma_inv();
                        assert forall|k: int, j: int|
                            0 <= k < out@.len() && #[trigger] it.spec_board().bit_at(
                                j,
                            ) implies (#[trigger] out@[k] as int) < j by {
                            assert(j != i as int && pre.bit_at(j));
                            assert(0 <= j);
                            if k < out0.len() {
                                assert(out@[k] == out0[k]);
                            } else {
                                assert(out@[k] == i);
                                assert(!(j < i as int));
                            }
                        }
                    }
                },
                None => {
                    proof {
                        assert(!has_set_bit(&it.spec_board()));
                        assert forall|j: int|
                            0 <= j < it.spec_board().capacity() as int implies !it.spec_board()
                            .bit_at(j) by {}
                        lemma_count_bits_below_empty(
                            &it.spec_board(),
                            it.spec_board().capacity() as int,
                        );
                        assert(count_bits(&it.spec_board()) == 0);
                        assert(out@.len() == count_bits(&b0));
                    }
                    return out;
                },
            }
        }
    }
}

/// Wraps a board for set-bit traversal.
pub trait BitIter: Bitboard {
    /// Hands the board to a `BitIterator`, consuming it.
    fn iter_bits(self) -> (r: BitIterator<Self>)
        ensures
            r.spec_board() == self,
    ;
}

impl<B: Bitboard> BitIter for B {
    fn iter_bits(self) -> (r: BitIterator<B>) {
        BitIterator { bb: self }
    }
}

} // verus!
