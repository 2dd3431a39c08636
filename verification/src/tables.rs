//! Movement table generators: jump attacks, sliding attacks along
//! direction offsets, ray tables, diagonal tables and neighborhood tables.
//!
//! All tables are pure functions of the board shape and the offsets: a
//! `Vec` with one board per square, indexed by the square's linear index.

use vstd::prelude::*;

verus! {

use crate::bitops::bit64;
use crate::board::Bitboard;
use crate::coords::{spec_index_of, spec_x_of, spec_y_of};
use crate::small_bitboard::SmallBitboard;

/// The cell one jump away from square `sq` along the offset `offs[k]`
/// lands in bounds at linear index `i`, for some `k < n`.
pub open spec fn spec_jump_attack_upto(
    offs: Seq<(i8, i8)>,
    w: int,
    h: int,
    cm: bool,
    sq: int,
    i: int,
    n: int,
) -> bool {
    exists|k: int|
        0 <= k < n && {
            let x = spec_x_of(w, h, cm, sq) + (#[trigger] offs[k]).0 as int;
            let y = spec_y_of(w, h, cm, sq) + offs[k].1 as int;
            0 <= x < w && 0 <= y < h && i == spec_index_of(w, h, cm, x, y)
        }
}

/// Bit `i` of the jump-attack set of square `sq`: some offset lands there.
pub open spec fn spec_jump_attack(
    offs: Seq<(i8, i8)>,
    w: int,
    h: int,
    cm: bool,
    sq: int,
    i: int,
) -> bool {
    spec_jump_attack_upto(offs, w, h, cm, sq, i, offs.len() as int)
}

/// Some positive number of steps along `(dx, dy)` from `(x0, y0)`, fewer
/// than `tmax`, lands in bounds at linear index `i`.
pub open spec fn spec_ray_hit(
    w: int,
    h: int,
    cm: bool,
    x0: int,
    y0: int,
    dx: int,
    dy: int,
    i: int,
    tmax: int,
) -> bool {
    exists|t: int|
        1 <= t < tmax && 0 <= x0 + t * dx < w && 0 <= y0 + t * dy < h && i == spec_index_of(
            w,
            h,
            cm,
            x0 + #[trigger] (t * dx),
            y0 + t * dy,
        )
}

/// Bit `i` of the sliding-attack set of square `sq`, using the offsets
/// below `n`: some whole number of steps along one offset lands there.
/// The base table is blocker-free: every cell out to the border is reached.
pub open spec fn spec_sliding_attack_upto(
    offs: Seq<(i8, i8)>,
    w: int,
    h: int,
    cm: bool,
    sq: int,
    i: int,
    n: int,
) -> bool {
    exists|k: int|
        0 <= k < n && spec_ray_hit(
            w,
            h,
            cm,
            spec_x_of(w, h, cm, sq),
            spec_y_of(w, h, cm, sq),
            ((#[trigger] offs[k]).0) as int,
            (offs[k].1) as int,
            i,
            w * h + 1,
        )
}

/// Bit `i` of the sliding-attack set of square `sq` over all offsets.
pub open spec fn spec_sliding_attack(
    offs: Seq<(i8, i8)>,
    w: int,
    h: int,
    cm: bool,
    sq: int,
    i: int,
) -> bool {
    spec_sliding_attack_upto(offs, w, h, cm, sq, i, offs.len() as int)
}

/// On a one-row board the index of a cell is its x coordinate.
proof fn lemma_line_index(wi: int, xv: int, tv: int)
    ensures
        spec_index_of(wi, 1, false, xv, 0 + tv * 0) == xv,
        spec_index_of(wi, 1, false, xv, 0) == xv,
{
    assert(tv * 0 == 0) by (nonlinear_arith);
    assert((0 + tv * 0) * wi + xv == xv) by (nonlinear_arith)
        requires
            tv * 0 == 0,
    ;
    assert(0 * wi + xv == xv) by (nonlinear_arith);
}

/// Remaining steps of a ray walk before it must leave the board, clamped
/// at zero: the walk's termination measure.
pub open spec fn ray_measure(wi: int, hi: int, dxi: int, dyi: int, nxi: int, nyi: int) -> int {
    (if dxi > 0 {
        if nxi <= wi {
            wi - nxi
        } else {
            0int
        }
    } else if dxi < 0 {
        if nxi >= -1 {
            nxi + 1
        } else {
            0int
        }
    } else {
        0int
    }) + (if dyi > 0 {
        if nyi <= hi {
            hi - nyi
        } else {
            0int
        }
    } else if dyi < 0 {
        if nyi >= -1 {
            nyi + 1
        } else {
            0int
        }
    } else {
        0int
    })
}

/// Once the walk along an offset has left the board, it never returns.
proof fn lemma_ray_leaves(
    w: int,
    h: int,
    x0: int,
    y0: int,
    dx: int,
    dy: int,
    t: int,
    t2: int,
)
    requires
        0 <= x0 < w,
        0 <= y0 < h,
        1 <= t <= t2,
        !(0 <= x0 + t * dx < w && 0 <= y0 + t * dy < h),
    ensures
        !(0 <= x0 + t2 * dx < w && 0 <= y0 + t2 * dy < h),
{
    if x0 + t * dx < 0 {
        assert(dx < 0) by (nonlinear_arith)
            requires
                0 <= x0,
                1 <= t,
                x0 + t * dx < 0,
        ;
        assert(t2 * dx <= t * dx) by (nonlinear_arith)
            requires
                dx < 0,
                t <= t2,
        ;
    } else if x0 + t * dx >= w {
        assert(dx > 0) by (nonlinear_arith)
            requires
                x0 < w,
                1 <= t,
                x0 + t * dx >= w,
        ;
        assert(t2 * dx >= t * dx) by (nonlinear_arith)
            requires
                dx > 0,
                t <= t2,
        ;
    } else if y0 + t * dy < 0 {
        assert(dy < 0) by (nonlinear_arith)
            requires
                0 <= y0,
                1 <= t,
                y0 + t * dy < 0,
        ;
        assert(t2 * dy <= t * dy) by (nonlinear_arith)
            requires
                dy < 0,
                t <= t2,
        ;
    } else {
        assert(dy > 0) by (nonlinear_arith)
            requires
                y0 < h,
                1 <= t,
                y0 + t * dy >= h,
        ;
        assert(t2 * dy >= t * dy) by (nonlinear_arith)
            requires
                dy > 0,
                t <= t2,
        ;
    }
}

/// A hit within the board is found after at most `w * h` steps: the walk
/// strictly advances in some direction, so step numbers past `w * h`
/// are already off the board.
proof fn lemma_ray_hit_bound(
    w: int,
    h: int,
    cm: bool,
    x0: int,
    y0: int,
    dx: int,
    dy: int,
    i: int,
    t: int,
)
    requires
        0 <= x0 < w,
        0 <= y0 < h,
        !(dx == 0 && dy == 0),
        1 <= t,
        0 <= x0 + t * dx < w,
        0 <= y0 + t * dy < h,
        i == spec_index_of(w, h, cm, x0 + t * dx, y0 + t * dy),
    ensures
        spec_ray_hit(w, h, cm, x0, y0, dx, dy, i, w * h + 1),
{
    if t <= w * h {
        assert(1 <= t < w * h + 1);
    } else {
        if dx != 0 {
            assert(!(0 <= x0 + t * dx < w)) by (nonlinear_arith)
                requires
                    dx != 0,
                    t > w * h,
                    0 <= x0 < w,
                    0 <= y0 < h,
            ;
        } else {
            assert(!(0 <= y0 + t * dy < h)) by (nonlinear_arith)
                requires
                    dy != 0,
                    t > w * h,
                    0 <= x0 < w,
                    0 <= y0 < h,
            ;
        }
    }
}

impl SmallBitboard {
    /// For each square, the set of squares reached by one jump along any
    /// of the offsets, indexed by the square's linear index.
    pub fn generate_jump_moves(offsets: &[(i8, i8)], w: u8, h: u8, col_major: bool) -> (r: Vec<
        SmallBitboard,
    >)
        requires
            w as nat * h as nat <= 64,
        ensures
            r@.len() == w as int * h as int,
            forall|sq: int|
                0 <= sq < r@.len() ==> (#[trigger] r@[sq]).inv() && r@[sq].spec_width() == w as nat
                    && r@[sq].spec_height() == h as nat && r@[sq].spec_col_major() == col_major,
            forall|sq: int, i: int|
                0 <= sq < r@.len() ==> #[trigger] r@[sq].bit_at(i) == spec_jump_attack(
                    offsets@,
                    w as int,
                    h as int,
                    col_major,
                    sq,
                    i,
                ),
    {
        let n: usize = w as usize * h as usize;
        let mut moves: Vec<SmallBitboard> = Vec::new();
        let mut sq: usize = 0;
        while sq < n
            invariant
                n == w as int * h as int,
                w as nat * h as nat <= 64,
                sq <= n,
                moves@.len() == sq,
                forall|s: int|
                    0 <= s < sq ==> (#[trigger] moves@[s]).inv() && moves@[s].spec_width()
                        == w as nat && moves@[s].spec_height() == h as nat
                        && moves@[s].spec_col_major() == col_major,
                forall|s: int, i: int|
                    0 <= s < sq ==> #[trigger] moves@[s].bit_at(i) == spec_jump_attack(
                        offsets@,
                        w as int,
                        h as int,
                        col_major,
                        s,
                        i,
                    ),
            decreases n - sq,
        {
            let (x, y) = crate::coords::coords_from_index(w, h, col_major, sq);
            let mut bb = SmallBitboard::empty(w, h, col_major);
            let mut k: usize = 0;
            while k < offsets.len()
                invariant
                    w as nat * h as nat <= 64,
                    x < w,
                    y < h,
                    x as int == spec_x_of(w as int, h as int, col_major, sq as int),
                    y as int == spec_y_of(w as int, h as int, col_major, sq as int),
                    k <= offsets@.len(),
                    bb.inv(),
                    bb.spec_width() == w as nat,
                    bb.spec_height() == h as nat,
                    bb.spec_col_major() == col_major,
                    forall|i: int|
                        #[trigger] bb.bit_at(i) == spec_jump_attack_upto(
                            offsets@,
                            w as int,
                            h as int,
                            col_major,
                            sq as int,
                            i,
                            k as int,
                        ),
                decreases offsets@.len() - k,
            {
                let (dx, dy) = offsets[k];
                let nx: i16 = x as i16 + dx as i16;
                let ny: i16 = y as i16 + dy as i16;
                let ghost bb0 = bb;
                if nx >= 0 && ny >= 0 && nx < w as i16 && ny < h as i16 {
                    bb.set(nx as u8, ny as u8);
                    proof {
                        let idx = spec_index_of(
                            w as int,
                            h as int,
                            col_major,
                            nx as int,
                            ny as int,
                        );
                        assert forall|i: int| #[trigger] bb.bit_at(i) == spec_jump_attack_upto(
                            offsets@,
                            w as int,
                            h as int,
                            col_major,
                            sq as int,
                            i,
                            k as int + 1,
                        ) by {
                            if i == idx {
                                let xx = spec_x_of(w as int, h as int, col_major, sq as int) + (
                                offsets@[k as int]).0 as int;
                                let yy = spec_y_of(w as int, h as int, col_major, sq as int) + (
                                offsets@[k as int]).1 as int;
                                assert(xx == nx as int && yy == ny as int);
                                assert(0 <= xx < w as int && 0 <= yy < h as int && i
                                    == spec_index_of(w as int, h as int, col_major, xx, yy));
                            } else {
                                if spec_jump_attack_upto(
                                    offsets@,
                                    w as int,
                                    h as int,
                                    col_major,
                                    sq as int,
                                    i,
                                    k as int + 1,
                                ) && !spec_jump_attack_upto(
                                    offsets@,
                                    w as int,
                                    h as int,
                                    col_major,
                                    sq as int,
                                    i,
                                    k as int,
                                ) {
                                    let kk = choose|kk: int|
                                        0 <= kk < k as int + 1 && {
                                            let xx = spec_x_of(
                                                w as int,
                                                h as int,
                                                col_major,
                                                sq as int,
                                            ) + (#[trigger] offsets@[kk]).0 as int;
                                            let yy = spec_y_of(
                                                w as int,
                                                h as int,
                                                col_major,
                                                sq as int,
                                            ) + offsets@[kk].1 as int;
                                            0 <= xx < w as int && 0 <= yy < h as int && i
                                                == spec_index_of(
                                                w as int,
                                                h as int,
                                                col_major,
                                                xx,
                                                yy,
                                            )
                                        };
                                    assert(kk == k as int);
                                    assert(i == idx);
                                }
                            }
                        }
                    }
                } else {
                    proof {
                        assert forall|i: int| #[trigger] bb.bit_at(i) == spec_jump_attack_upto(
                            offsets@,
                            w as int,
                            h as int,
                            col_major,
                            sq as int,
                            i,
                            k as int + 1,
                        ) by {
                            if spec_jump_attack_upto(
                                offsets@,
                                w as int,
                                h as int,
                                col_major,
                                sq as int,
                                i,
                                k as int + 1,
                            ) && !spec_jump_attack_upto(
                                offsets@,
                                w as int,
                                h as int,
                                col_major,
                                sq as int,
                                i,
                                k as int,
                            ) {
                                let kk = choose|kk: int|
                                    0 <= kk < k as int + 1 && {
                                        let xx = spec_x_of(w as int, h as int, col_major, sq as int)
                                            + (#[trigger] offsets@[kk]).0 as int;
                                        let yy = spec_y_of(w as int, h as int, col_major, sq as int)
                                            + offsets@[kk].1 as int;
                                        0 <= xx < w as int && 0 <= yy < h as int && i
                                            == spec_index_of(w as int, h as int, col_major, xx, yy)
                                    };
                                assert(kk == k as int);
                                assert(false);
                            }
                        }
                    }
                }
                k = k + 1;
            }
            moves.push(bb);
            sq = sq + 1;
        }
        moves
    }

    /// For each square, the set of squares reached by sliding along any of
    /// the offsets out to the border, indexed by the square's linear index.
    /// The table is blocker-free: every cell on a ray is reached.
    pub fn generate_sliding_moves(offsets: &[(i8, i8)], w: u8, h: u8, col_major: bool) -> (r: Vec<
        SmallBitboard,
    >)
        requires
            w as nat * h as nat <= 64,
            forall|k: int|
                0 <= k < offsets@.len() ==> !((#[trigger] offsets@[k]).0 == 0 && offsets@[k].1
                    == 0),
        ensures
            r@.len() == w as int * h as int,
            forall|sq: int|
                0 <= sq < r@.len() ==> (#[trigger] r@[sq]).inv() && r@[sq].spec_width() == w as nat
                    && r@[sq].spec_height() == h as nat && r@[sq].spec_col_major() == col_major,
            forall|sq: int, i: int|
                0 <= sq < r@.len() ==> #[trigger] r@[sq].bit_at(i) == spec_sliding_attack(
                    offsets@,
                    w as int,
                    h as int,
                    col_major,
                    sq,
                    i,
                ),
    {
        let n: usize = w as usize * h as usize;
        let mut moves: Vec<SmallBitboard> = Vec::new();
        let mut sq: usize = 0;
        while sq < n
            invariant
                n == w as int * h as int,
                w as nat * h as nat <= 64,
                sq <= n,
                moves@.len() == sq,
                forall|k: int|
                    0 <= k < offsets@.len() ==> !((#[trigger] offsets@[k]).0 == 0 && offsets@[k].1
                        == 0),
                forall|s: int|
                    0 <= s < sq ==> (#[trigger] moves@[s]).inv() && moves@[s].spec_width()
                        == w as nat && moves@[s].spec_height() == h as nat
                        && moves@[s].spec_col_major() == col_major,
                forall|s: int, i: int|
                    0 <= s < sq ==> #[trigger] moves@[s].bit_at(i) == spec_sliding_attack(
                        offsets@,
                        w as int,
                        h as int,
                        col_major,
                        s,
                        i,
                    ),
            decreases n - sq,
        {
            let (x, y) = crate::coords::coords_from_index(w, h, col_major, sq);
            let bb = Self::sliding_attacks_from(offsets, w, h, col_major, x, y, sq);
            moves.push(bb);
            sq = sq + 1;
        }
        moves
    }

    /// The sliding-attack set of the single square `sq` at `(x, y)`.
    fn sliding_attacks_from(
        offsets: &[(i8, i8)],
        w: u8,
        h: u8,
        col_major: bool,
        x: u8,
        y: u8,
        sq: usize,
    ) -> (bb: SmallBitboard)
        requires
            w as nat * h as nat <= 64,
            x < w,
            y < h,
            x as int == spec_x_of(w as int, h as int, col_major, sq as int),
            y as int == spec_y_of(w as int, h as int, col_major, sq as int),
            forall|k: int|
                0 <= k < offsets@.len() ==> !((#[trigger] offsets@[k]).0 == 0 && offsets@[k].1
                    == 0),
        ensures
            bb.inv(),
            bb.spec_width() == w as nat,
            bb.spec_height() == h as nat,
            bb.spec_col_major() == col_major,
            forall|i: int|
                #[trigger] bb.bit_at(i) == spec_sliding_attack(
                    offsets@,
                    w as int,
                    h as int,
                    col_major,
                    sq as int,
                    i,
                ),
    {
        let mut bb = SmallBitboard::empty(w, h, col_major);
        let mut k: usize = 0;
        while k < offsets.len()
            invariant
                w as nat * h as nat <= 64,
                x < w,
                y < h,
                x as int == spec_x_of(w as int, h as int, col_major, sq as int),
                y as int == spec_y_of(w as int, h as int, col_major, sq as int),
                forall|kk: int|
                    0 <= kk < offsets@.len() ==> !((#[trigger] offsets@[kk]).0 == 0
                        && offsets@[kk].1 == 0),
                k <= offsets@.len(),
                bb.inv(),
                bb.spec_width() == w as nat,
                bb.spec_height() == h as nat,
                bb.spec_col_major() == col_major,
                forall|i: int|
                    #[trigger] bb.bit_at(i) == spec_sliding_attack_upto(
                        offsets@,
                        w as int,
                        h as int,
                        col_major,
                        sq as int,
                        i,
                        k as int,
                    ),
            decreases offsets@.len() - k,
        {
            let (dx, dy) = offsets[k];
            bb = Self::slide_one_direction(bb, w, h, col_major, x, y, dx, dy);
            proof {
                let wi = w as int;
                let hi = h as int;
                let x0 = x as int;
                let y0 = y as int;
                assert forall|i: int| #[trigger] bb.bit_at(i) == spec_sliding_attack_upto(
                    offsets@,
                    wi,
                    hi,
                    col_major,
                    sq as int,
                    i,
                    k as int + 1,
                ) by {
                    assert(offsets@[k as int] == (dx, dy));
                    if bb.bit_at(i) {
                        // either an earlier offset reached i, or this one did
                        if !spec_sliding_attack_upto(
                            offsets@,
                            wi,
                            hi,
                            col_major,
                            sq as int,
                            i,
                            k as int,
                        ) {
                            assert(spec_ray_hit(
                                wi,
                                hi,
                                col_major,
                                x0,
                                y0,
                                dx as int,
                                dy as int,
                                i,
                                wi * hi + 1,
                            ));
                        }
                    } else {
                        if spec_sliding_attack_upto(
                            offsets@,
                            wi,
                            hi,
                            col_major,
                            sq as int,
                            i,
                            k as int + 1,
                        ) {
                            let kk = choose|kk: int|
                                0 <= kk < k as int + 1 && spec_ray_hit(
                                    wi,
                                    hi,
                                    col_major,
                                    x0,
                                    y0,
                                    ((#[trigger] offsets@[kk]).0) as int,
                                    (offsets@[kk].1) as int,
                                    i,
                                    wi * hi + 1,
                                );
                            assert(kk == k as int);
                            assert(false);
                        }
                    }
                }
            }
            k = k + 1;
        }
        bb
    }

    /// Marks every cell reachable from `(x, y)` along `(dx, dy)`.
    fn slide_one_direction(
        bb0: SmallBitboard,
        w: u8,
        h: u8,
        col_major: bool,
        x: u8,
        y: u8,
        dx: i8,
        dy: i8,
    ) -> (bb: SmallBitboard)
        requires
            w as nat * h as nat <= 64,
            x < w,
            y < h,
            !(dx == 0 && dy == 0),
            bb0.inv(),
            bb0.spec_width() == w as nat,
            bb0.spec_height() == h as nat,
            bb0.spec_col_major() == col_major,
        ensures
            bb.inv(),
            bb.spec_width() == w as nat,
            bb.spec_height() == h as nat,
            bb.spec_col_major() == col_major,
            forall|i: int|
                #[trigger] bb.bit_at(i) == (bb0.bit_at(i) || spec_ray_hit(
                    w as int,
                    h as int,
                    col_major,
                    x as int,
                    y as int,
                    dx as int,
                    dy as int,
                    i,
                    w as int * h as int + 1,
                )),
    {
        let wi16 = w as i16;
        let hi16 = h as i16;
        let mut bb = bb0;
        let mut nx: i16 = x as i16 + dx as i16;
        let mut ny: i16 = y as i16 + dy as i16;
        let ghost mut t: int = 1;
        let ghost wi = w as int;
        let ghost hi = h as int;
        let ghost x0 = x as int;
        let ghost y0 = y as int;
        let ghost dxi = dx as int;
        let ghost dyi = dy as int;
        while nx >= 0 && ny >= 0 && nx < wi16 && ny < hi16
            invariant
                w as nat * h as nat <= 64,
                wi16 == w as int,
                hi16 == h as int,
                wi == w as int,
                hi == h as int,
                x0 == x as int,
                y0 == y as int,
                dxi == dx as int,
                dyi == dy as int,
                0 <= x0 < wi,
                0 <= y0 < hi,
                !(dxi == 0 && dyi == 0),
                1 <= t,
                nx as int == x0 + t * dxi,
                ny as int == y0 + t * dyi,
                -128 <= nx as int <= wi + 127,
                -128 <= ny as int <= hi + 127,
                bb.inv(),
                bb.spec_width() == w as nat,
                bb.spec_height() == h as nat,
                bb.spec_col_major() == col_major,
                forall|i: int|
                    #[trigger] bb.bit_at(i) == (bb0.bit_at(i) || spec_ray_hit(
                        wi,
                        hi,
                        col_major,
                        x0,
                        y0,
                        dxi,
                        dyi,
                        i,
                        t,
                    )),
            decreases ray_measure(wi, hi, dxi, dyi, nx as int, ny as int),
        {
            let ghost bbp = bb;
            bb.set(nx as u8, ny as u8);
            proof {
                let idx = spec_index_of(wi, hi, col_major, nx as int, ny as int);
                assert forall|i: int| #[trigger] bb.bit_at(i) == (bb0.bit_at(i) || spec_ray_hit(
                    wi,
                    hi,
                    col_major,
                    x0,
                    y0,
                    dxi,
                    dyi,
                    i,
                    t + 1,
                )) by {
                    assert(x0 + t * dxi == nx as int && y0 + t * dyi == ny as int);
                    if i == idx {
                        assert(1 <= t < t + 1 && 0 <= x0 + t * dxi < wi && 0 <= y0 + t * dyi < hi
                            && i == spec_index_of(wi, hi, col_major, x0 + t * dxi, y0 + t * dyi));
                    } else {
                        if spec_ray_hit(wi, hi, col_major, x0, y0, dxi, dyi, i, t + 1)
                            && !spec_ray_hit(wi, hi, col_major, x0, y0, dxi, dyi, i, t) {
                            let t2 = choose|t2: int|
                                1 <= t2 < t + 1 && 0 <= x0 + t2 * dxi < wi && 0 <= y0 + t2 * dyi
                                    < hi && i == spec_index_of(
                                    wi,
                                    hi,
                                    col_major,
                                    x0 + #[trigger] (t2 * dxi),
                                    y0 + t2 * dyi,
                                );
                            assert(t2 == t);
                            assert(false);
                        }
                    }
                }
            }
            nx = nx + dx as i16;
            ny = ny + dy as i16;
            proof {
                assert((t + 1) * dxi == t * dxi + dxi && (t + 1) * dyi == t * dyi + dyi)
                    by (nonlinear_arith);
                t = t + 1;
            }
        }
        proof {
            assert forall|i: int|
                spec_ray_hit(wi, hi, col_major, x0, y0, dxi, dyi, i, wi * hi + 1)
                    == spec_ray_hit(wi, hi, col_major, x0, y0, dxi, dyi, i, t) by {
                if spec_ray_hit(wi, hi, col_major, x0, y0, dxi, dyi, i, wi * hi + 1) {
                    let t2 = choose|t2: int|
                        1 <= t2 < wi * hi + 1 && 0 <= x0 + t2 * dxi < wi && 0 <= y0 + t2 * dyi < hi
                            && i == spec_index_of(
                            wi,
                            hi,
                            col_major,
                            x0 + #[trigger] (t2 * dxi),
                            y0 + t2 * dyi,
                        );
                    if t2 >= t {
                        lemma_ray_leaves(wi, hi, x0, y0, dxi, dyi, t, t2);
                        assert(false);
                    }
                }
                if spec_ray_hit(wi, hi, col_major, x0, y0, dxi, dyi, i, t) {
                    let t2 = choose|t2: int|
                        1 <= t2 < t && 0 <= x0 + t2 * dxi < wi && 0 <= y0 + t2 * dyi < hi && i
                            == spec_index_of(
                            wi,
                            hi,
                            col_major,
                            x0 + #[trigger] (t2 * dxi),
                            y0 + t2 * dyi,
                        );
                    lemma_ray_hit_bound(wi, hi, col_major, x0, y0, dxi, dyi, i, t2);
                }
            }
        }
        bb
    }

    /// Marks the cells reachable from `(x, y)` along the horizontal offset
    /// `(dx, 0)`, working on the extracted row instead of cell by cell.
    fn slide_row_direction(
        bb0: SmallBitboard,
        w: u8,
        h: u8,
        col_major: bool,
        x: u8,
        y: u8,
        dx: i8,
    ) -> (bb: SmallBitboard)
        requires
            w as nat * h as nat <= 64,
            x < w,
            y < h,
            dx != 0,
            bb0.inv(),
            bb0.spec_width() == w as nat,
            bb0.spec_height() == h as nat,
            bb0.spec_col_major() == col_major,
        ensures
            bb.inv(),
            bb.spec_width() == w as nat,
            bb.spec_height() == h as nat,
            bb.spec_col_major() == col_major,
            forall|i: int|
                #[trigger] bb.bit_at(i) == (bb0.bit_at(i) || spec_ray_hit(
                    w as int,
                    h as int,
                    col_major,
                    x as int,
                    y as int,
                    dx as int,
                    0,
                    i,
                    w as int * h as int + 1,
                )),
    {
        broadcast use vstd::arithmetic::mul::group_mul_basics;

        let ghost wi = w as int;
        let ghost hi = h as int;
        let ghost x0 = x as int;
        let ghost y0 = y as int;
        let ghost dxi = dx as int;
        let mut bb = bb0;
        let row0 = bb.extract_row(y);
        let mut row = row0;
        let mut cx: i16 = x as i16 + dx as i16;
        let ghost mut t: int = 1;
        proof {
            assert(wi <= 64) by (nonlinear_arith)
                requires
                    wi * (h as int) <= 64,
                    h as int >= 1,
                    wi >= 1,
            ;
        }
        while cx >= 0 && cx < w as i16
            invariant
                w as nat * h as nat <= 64,
                wi == w as int,
                wi <= 64,
                0 <= x0 < wi,
                dxi == dx as int,
                dxi != 0,
                1 <= t,
                cx as int == x0 + t * dxi,
                -128 <= cx as int <= wi + 127,
                forall|j: u64|
                    #[trigger] bit64(row, j) == (bit64(row0, j) || (j < 64 && spec_ray_hit(
                        wi,
                        1,
                        false,
                        x0,
                        0,
                        dxi,
                        0,
                        j as int,
                        t,
                    ))),
            decreases ray_measure(wi, 1, dxi, 0, cx as int, 0),
        {
            let ghost rowp = row;
            row = row | (1u64 << (cx as u64));
            proof {
                crate::bitops::lemma_bit64_ops();
                crate::bitops::lemma_bit64_shifts();
                assert forall|j: u64| #[trigger] bit64(row, j) == (bit64(row0, j) || (j < 64
                    && spec_ray_hit(wi, 1, false, x0, 0, dxi, 0, j as int, t + 1))) by {
                    assert(bit64(row, j) == (bit64(rowp, j) || j == cx as u64));
                    if j == cx as u64 {
                        lemma_line_index(wi, x0 + t * dxi, t);
                        assert(1 <= t < t + 1 && 0 <= x0 + t * dxi < wi && 0 <= 0 + t * 0 < 1
                            && j as int == spec_index_of(wi, 1, false, x0 + t * dxi, 0 + t * 0));
                    } else {
                        if spec_ray_hit(wi, 1, false, x0, 0, dxi, 0, j as int, t + 1)
                            && !spec_ray_hit(wi, 1, false, x0, 0, dxi, 0, j as int, t) {
                            let t2 = choose|t2: int|
                                1 <= t2 < t + 1 && 0 <= x0 + t2 * dxi < wi && 0 <= 0 + t2 * 0 < 1
                                    && j as int == spec_index_of(
                                    wi,
                                    1,
                                    false,
                                    x0 + #[trigger] (t2 * dxi),
                                    0 + t2 * 0,
                                );
                            assert(t2 == t);
                            lemma_line_index(wi, x0 + t2 * dxi, t2);
                            assert(j as int == cx as int);
                            assert(false);
                        }
                    }
                }
            }
            cx = cx + dx as i16;
            proof {
                assert((t + 1) * dxi == t * dxi + dxi) by (nonlinear_arith);
                t = t + 1;
            }
        }
        proof {
            // the one-dimensional walk is complete
            assert forall|j: u64|
                spec_ray_hit(wi, 1, false, x0, 0, dxi, 0, j as int, wi * hi + 1) == spec_ray_hit(
                    wi,
                    1,
                    false,
                    x0,
                    0,
                    dxi,
                    0,
                    j as int,
                    t,
                ) by {
                if spec_ray_hit(wi, 1, false, x0, 0, dxi, 0, j as int, wi * hi + 1) {
                    let t2 = choose|t2: int|
                        1 <= t2 < wi * hi + 1 && 0 <= x0 + t2 * dxi < wi && 0 <= 0 + t2 * 0 < 1
                            && j as int == spec_index_of(
                            wi,
                            1,
                            false,
                            x0 + #[trigger] (t2 * dxi),
                            0 + t2 * 0,
                        );
                    lemma_line_index(wi, x0 + t2 * dxi, t2);
                    if t2 >= t {
                        lemma_ray_leaves(wi, 1, x0, 0, dxi, 0, t, t2);
                        assert(false);
                    }
                }
                if spec_ray_hit(wi, 1, false, x0, 0, dxi, 0, j as int, t) {
                    let t2 = choose|t2: int|
                        1 <= t2 < t && 0 <= x0 + t2 * dxi < wi && 0 <= 0 + t2 * 0 < 1 && j as int
                            == spec_index_of(wi, 1, false, x0 + #[trigger] (t2 * dxi), 0 + t2 * 0);
                    lemma_line_index(wi, x0 + t2 * dxi, t2);
                    assert(wi * hi >= wi * 1) by (nonlinear_arith)
                        requires
                            hi >= 1,
                            wi >= 0,
                    ;
                    lemma_ray_hit_bound(wi, 1, false, x0, 0, dxi, 0, j as int, t2);
                    let t3 = choose|t3: int|
                        1 <= t3 < wi * 1 + 1 && 0 <= x0 + t3 * dxi < wi && 0 <= 0 + t3 * 0 < 1
                            && j as int == spec_index_of(
                            wi,
                            1,
                            false,
                            x0 + #[trigger] (t3 * dxi),
                            0 + t3 * 0,
                        );
                    lemma_line_index(wi, x0 + t3 * dxi, t3);
                    assert(1 <= t3 < wi * hi + 1);
                }
            }
        }
        let ghost pre = bb;
        bb.insert_row(y, row);
        proof {
            crate::coords::lemma_index_of_in_range(wi, hi, col_major, x0, y0);
            assert forall|i: int| #[trigger] bb.bit_at(i) == (bb0.bit_at(i) || spec_ray_hit(
                wi,
                hi,
                col_major,
                x0,
                y0,
                dxi,
                0,
                i,
                wi * hi + 1,
            )) by {
                if 0 <= i < wi * hi && spec_y_of(wi, hi, col_major, i) == y0 {
                    crate::coords::lemma_coords_of_in_range(wi, hi, col_major, i);
                    let xi = spec_x_of(wi, hi, col_major, i);
                    // the cell was rewritten from bit xi of the new row
                    assert(bb.bit_at(i) == bit64(row, xi as u64));
                    assert(bit64(row0, xi as u64) == bb0.bit_at(i));
                    // the one-dimensional hit is the two-dimensional hit
                    assert(spec_ray_hit(wi, 1, false, x0, 0, dxi, 0, xi, wi * hi + 1)
                        == spec_ray_hit(wi, hi, col_major, x0, y0, dxi, 0, i, wi * hi + 1)) by {
                        if spec_ray_hit(wi, 1, false, x0, 0, dxi, 0, xi, wi * hi + 1) {
                            let t2 = choose|t2: int|
                                1 <= t2 < wi * hi + 1 && 0 <= x0 + t2 * dxi < wi && 0 <= 0 + t2 * 0
                                    < 1 && xi == spec_index_of(
                                    wi,
                                    1,
                                    false,
                                    x0 + #[trigger] (t2 * dxi),
                                    0 + t2 * 0,
                                );
                            lemma_line_index(wi, x0 + t2 * dxi, t2);
                            assert(xi == x0 + t2 * dxi);
                            assert(i == spec_index_of(wi, hi, col_major, x0 + t2 * dxi, y0 + t2 * 0));
                        }
                        if spec_ray_hit(wi, hi, col_major, x0, y0, dxi, 0, i, wi * hi + 1) {
                            let t2 = choose|t2: int|
                                1 <= t2 < wi * hi + 1 && 0 <= x0 + t2 * dxi < wi && 0 <= y0 + t2
                                    * 0 < hi && i == spec_index_of(
                                    wi,
                                    hi,
                                    col_major,
                                    x0 + #[trigger] (t2 * dxi),
                                    y0 + t2 * 0,
                                );
                            assert(y0 + t2 * 0 == y0);
                            crate::coords::lemma_index_coords_roundtrip(
                                wi,
                                hi,
                                col_major,
                                x0 + t2 * dxi,
                                y0,
                            );
                            assert(xi == x0 + t2 * dxi);
                            lemma_line_index(wi, x0 + t2 * dxi, t2);
                            assert(xi == spec_index_of(wi, 1, false, x0 + t2 * dxi, 0 + t2 * 0));
                        }
                    }
                } else {
                    // outside row y the board is unchanged, and no hit lands there
                    assert(bb.bit_at(i) == pre.bit_at(i));
                    if spec_ray_hit(wi, hi, col_major, x0, y0, dxi, 0, i, wi * hi + 1) {
                        let t2 = choose|t2: int|
                            1 <= t2 < wi * hi + 1 && 0 <= x0 + t2 * dxi < wi && 0 <= y0 + t2 * 0
                                < hi && i == spec_index_of(
                                wi,
                                hi,
                                col_major,
                                x0 + #[trigger] (t2 * dxi),
                                y0 + t2 * 0,
                            );
                        crate::coords::lemma_index_of_in_range(wi, hi, col_major, x0 + t2 * dxi, y0);
                        crate::coords::lemma_index_coords_roundtrip(
                            wi,
                            hi,
                            col_major,
                            x0 + t2 * dxi,
                            y0,
                        );
                        assert(false);
                    }
                }
            }
        }
        bb
    }

    /// Marks the cells reachable from `(x, y)` along the vertical offset
    /// `(0, dy)`, working on the extracted column instead of cell by cell.
    fn slide_col_direction(
        bb0: SmallBitboard,
        w: u8,
        h: u8,
        col_major: bool,
        x: u8,
        y: u8,
        dy: i8,
    ) -> (bb: SmallBitboard)
        requires
            w as nat * h as nat <= 64,
            x < w,
            y < h,
            dy != 0,
            bb0.inv(),
            bb0.spec_width() == w as nat,
            bb0.spec_height() == h as nat,
            bb0.spec_col_major() == col_major,
        ensures
            bb.inv(),
            bb.spec_width() == w as nat,
            bb.spec_height() == h as nat,
            bb.spec_col_major() == col_major,
            forall|i: int|
                #[trigger] bb.bit_at(i) == (bb0.bit_at(i) || spec_ray_hit(
                    w as int,
                    h as int,
                    col_major,
                    x as int,
                    y as int,
                    0,
                    dy as int,
                    i,
                    w as int * h as int + 1,
                )),
    {
        broadcast use vstd::arithmetic::mul::group_mul_basics;

        let ghost wi = w as int;
        let ghost hi = h as int;
        let ghost x0 = x as int;
        let ghost y0 = y as int;
        let ghost dyi = dy as int;
        let mut bb = bb0;
        let col0 = bb.extract_col(x);
        let mut col = col0;
        let mut cy: i16 = y as i16 + dy as i16;
        let ghost mut t: int = 1;
        proof {
            assert(hi <= 64) by (nonlinear_arith)
                requires
                    (w as int) * hi <= 64,
                    w as int >= 1,
                    hi >= 1,
            ;
        }
        while cy >= 0 && cy < h as i16
            invariant
                w as nat * h as nat <= 64,
                hi == h as int,
                hi <= 64,
                0 <= y0 < hi,
                dyi == dy as int,
                dyi != 0,
                1 <= t,
                cy as int == y0 + t * dyi,
                -128 <= cy as int <= hi + 127,
                forall|j: u64|
                    #[trigger] bit64(col, j) == (bit64(col0, j) || (j < 64 && spec_ray_hit(
                        hi,
                        1,
                        false,
                        y0,
                        0,
                        dyi,
                        0,
                        j as int,
                        t,
                    ))),
            decreases ray_measure(hi, 1, dyi, 0, cy as int, 0),
        {
            let ghost colp = col;
            col = col | (1u64 << (cy as u64));
            proof {
                crate::bitops::lemma_bit64_ops();
                crate::bitops::lemma_bit64_shifts();
                assert forall|j: u64| #[trigger] bit64(col, j) == (bit64(col0, j) || (j < 64
                    && spec_ray_hit(hi, 1, false, y0, 0, dyi, 0, j as int, t + 1))) by {
                    assert(bit64(col, j) == (bit64(colp, j) || j == cy as u64));
                    if j == cy as u64 {
                        lemma_line_index(hi, y0 + t * dyi, t);
                        assert(1 <= t < t + 1 && 0 <= y0 + t * dyi < hi && 0 <= 0 + t * 0 < 1
                            && j as int == spec_index_of(hi, 1, false, y0 + t * dyi, 0 + t * 0));
                    } else {
                        if spec_ray_hit(hi, 1, false, y0, 0, dyi, 0, j as int, t + 1)
                            && !spec_ray_hit(hi, 1, false, y0, 0, dyi, 0, j as int, t) {
                            let t2 = choose|t2: int|
                                1 <= t2 < t + 1 && 0 <= y0 + t2 * dyi < hi && 0 <= 0 + t2 * 0 < 1
                                    && j as int == spec_index_of(
                                    hi,
                                    1,
                                    false,
                                    y0 + #[trigger] (t2 * dyi),
                                    0 + t2 * 0,
                                );
                            assert(t2 == t);
                            lemma_line_index(hi, y0 + t2 * dyi, t2);
                            assert(j as int == cy as int);
                            assert(false);
                        }
                    }
                }
            }
            cy = cy + dy as i16;
            proof {
                assert((t + 1) * dyi == t * dyi + dyi) by (nonlinear_arith);
                t = t + 1;
            }
        }
        proof {
            // the one-dimensional walk is complete
            assert forall|j: u64|
                spec_ray_hit(hi, 1, false, y0, 0, dyi, 0, j as int, wi * hi + 1) == spec_ray_hit(
                    hi,
                    1,
                    false,
                    y0,
                    0,
                    dyi,
                    0,
                    j as int,
                    t,
                ) by {
                if spec_ray_hit(hi, 1, false, y0, 0, dyi, 0, j as int, wi * hi + 1) {
                    let t2 = choose|t2: int|
                        1 <= t2 < wi * hi + 1 && 0 <= y0 + t2 * dyi < hi && 0 <= 0 + t2 * 0 < 1
                            && j as int == spec_index_of(
                            hi,
                            1,
                            false,
                            y0 + #[trigger] (t2 * dyi),
                            0 + t2 * 0,
                        );
                    lemma_line_index(hi, y0 + t2 * dyi, t2);
                    if t2 >= t {
                        lemma_ray_leaves(hi, 1, y0, 0, dyi, 0, t, t2);
                        assert(false);
                    }
                }
                if spec_ray_hit(hi, 1, false, y0, 0, dyi, 0, j as int, t) {
                    let t2 = choose|t2: int|
                        1 <= t2 < t && 0 <= y0 + t2 * dyi < hi && 0 <= 0 + t2 * 0 < 1 && j as int
                            == spec_index_of(hi, 1, false, y0 + #[trigger] (t2 * dyi), 0 + t2 * 0);
                    lemma_line_index(hi, y0 + t2 * dyi, t2);
                    assert(wi * hi >= 1 * hi) by (nonlinear_arith)
                        requires
                            wi >= 1,
                            hi >= 0,
                    ;
                    lemma_ray_hit_bound(hi, 1, false, y0, 0, dyi, 0, j as int, t2);
                    let t3 = choose|t3: int|
                        1 <= t3 < hi * 1 + 1 && 0 <= y0 + t3 * dyi < hi && 0 <= 0 + t3 * 0 < 1
                            && j as int == spec_index_of(
                            hi,
                            1,
                            false,
                            y0 + #[trigger] (t3 * dyi),
                            0 + t3 * 0,
                        );
                    lemma_line_index(hi, y0 + t3 * dyi, t3);
                    assert(1 * hi <= wi * hi) by (nonlinear_arith)
                        requires
                            wi >= 1,
                            hi >= 0,
                    ;
                    assert(1 <= t3 < wi * hi + 1);
                }
            }
        }
        let ghost pre = bb;
        bb.insert_col(x, col);
        proof {
            crate::coords::lemma_index_of_in_range(wi, hi, col_major, x0, y0);
            assert forall|i: int| #[trigger] bb.bit_at(i) == (bb0.bit_at(i) || spec_ray_hit(
                wi,
                hi,
                col_major,
                x0,
                y0,
                0,
                dyi,
                i,
                wi * hi + 1,
            )) by {
                if 0 <= i < wi * hi && spec_x_of(wi, hi, col_major, i) == x0 {
                    crate::coords::lemma_coords_of_in_range(wi, hi, col_major, i);
                    let yi = spec_y_of(wi, hi, col_major, i);
                    // the cell was rewritten from bit yi of the new column
                    assert(bb.bit_at(i) == bit64(col, yi as u64));
                    assert(bit64(col0, yi as u64) == bb0.bit_at(i));
                    // the one-dimensional hit is the two-dimensional hit
                    assert(spec_ray_hit(hi, 1, false, y0, 0, dyi, 0, yi, wi * hi + 1)
                        == spec_ray_hit(wi, hi, col_major, x0, y0, 0, dyi, i, wi * hi + 1)) by {
                        if spec_ray_hit(hi, 1, false, y0, 0, dyi, 0, yi, wi * hi + 1) {
                            let t2 = choose|t2: int|
                                1 <= t2 < wi * hi + 1 && 0 <= y0 + t2 * dyi < hi && 0 <= 0 + t2 * 0
                                    < 1 && yi == spec_index_of(
                                    hi,
                                    1,
                                    false,
                                    y0 + #[trigger] (t2 * dyi),
                                    0 + t2 * 0,
                                );
                            lemma_line_index(hi, y0 + t2 * dyi, t2);
                            assert(yi == y0 + t2 * dyi);
                            assert(i == spec_index_of(wi, hi, col_major, x0 + t2 * 0, y0 + t2 * dyi));
                        }
                        if spec_ray_hit(wi, hi, col_major, x0, y0, 0, dyi, i, wi * hi + 1) {
                            let t2 = choose|t2: int|
                                1 <= t2 < wi * hi + 1 && 0 <= x0 + t2 * 0 < wi && 0 <= y0 + t2
                                    * dyi < hi && i == spec_index_of(
                                    wi,
                                    hi,
                                    col_major,
                                    x0 + #[trigger] (t2 * 0),
                                    y0 + t2 * dyi,
                                );
                            assert(x0 + t2 * 0 == x0);
                            crate::coords::lemma_index_coords_roundtrip(
                                wi,
                                hi,
                                col_major,
                                x0,
                                y0 + t2 * dyi,
                            );
                            assert(yi == y0 + t2 * dyi);
                            lemma_line_index(hi, y0 + t2 * dyi, t2);
                            assert(yi == spec_index_of(hi, 1, false, y0 + t2 * dyi, 0 + t2 * 0));
                        }
                    }
                } else {
                    // outside column x the board is unchanged, and no hit lands there
                    assert(bb.bit_at(i) == pre.bit_at(i));
                    if spec_ray_hit(wi, hi, col_major, x0, y0, 0, dyi, i, wi * hi + 1) {
                        let t2 = choose|t2: int|
                            1 <= t2 < wi * hi + 1 && 0 <= x0 + t2 * 0 < wi && 0 <= y0 + t2 * dyi
                                < hi && i == spec_index_of(
                                wi,
                                hi,
                                col_major,
                                x0 + #[trigger] (t2 * 0),
                                y0 + t2 * dyi,
                            );
                        assert(x0 + t2 * 0 == x0);
                        crate::coords::lemma_index_of_in_range(wi, hi, col_major, x0, y0 + t2 * dyi);
                        crate::coords::lemma_index_coords_roundtrip(
                            wi,
                            hi,
                            col_major,
                            x0,
                            y0 + t2 * dyi,
                        );
                        assert(false);
                    }
                }
            }
        }
        bb
    }

    /// For each square, the sliding-attack set built row- and
    /// column-accelerated: for an axis-aligned offset the whole lane is
    /// read, marked and written back at once; diagonal offsets step cell
    /// by cell. The result is the same table as `generate_sliding_moves`.
    pub fn generate_sliding_moves2(offsets: &[(i8, i8)], w: u8, h: u8, col_major: bool) -> (r: Vec<
        SmallBitboard,
    >)
        requires
            w as nat * h as nat <= 64,
            forall|k: int|
                0 <= k < offsets@.len() ==> !((#[trigger] offsets@[k]).0 == 0 && offsets@[k].1
                    == 0),
        ensures
            r@.len() == w as int * h as int,
            forall|sq: int|
                0 <= sq < r@.len() ==> (#[trigger] r@[sq]).inv() && r@[sq].spec_width() == w as nat
                    && r@[sq].spec_height() == h as nat && r@[sq].spec_col_major() == col_major,
            forall|sq: int, i: int|
                0 <= sq < r@.len() ==> #[trigger] r@[sq].bit_at(i) == spec_sliding_attack(
                    offsets@,
                    w as int,
                    h as int,
                    col_major,
                    sq,
                    i,
                ),
    {
        let n: usize = w as usize * h as usize;
        let mut moves: Vec<SmallBitboard> = Vec::new();
        let mut sq: usize = 0;
        while sq < n
            invariant
                n == w as int * h as int,
                w as nat * h as nat <= 64,
                sq <= n,
                moves@.len() == sq,
                forall|k: int|
                    0 <= k < offsets@.len() ==> !((#[trigger] offsets@[k]).0 == 0 && offsets@[k].1
                        == 0),
                forall|s: int|
                    0 <= s < sq ==> (#[trigger] moves@[s]).inv() && moves@[s].spec_width()
                        == w as nat && moves@[s].spec_height() == h as nat
                        && moves@[s].spec_col_major() == col_major,
                forall|s: int, i: int|
                    0 <= s < sq ==> #[trigger] moves@[s].bit_at(i) == spec_sliding_attack(
                        offsets@,
                        w as int,
                        h as int,
                        col_major,
                        s,
                        i,
                    ),
            decreases n - sq,
        {
            let (x, y) = crate::coords::coords_from_index(w, h, col_major, sq);
            let mut bb = SmallBitboard::empty(w, h, col_major);
            let mut k: usize = 0;
            while k < offsets.len()
                invariant
                    w as nat * h as nat <= 64,
                    x < w,
                    y < h,
                    x as int == spec_x_of(w as int, h as int, col_major, sq as int),
                    y as int == spec_y_of(w as int, h as int, col_major, sq as int),
                    forall|kk: int|
                        0 <= kk < offsets@.len() ==> !((#[trigger] offsets@[kk]).0 == 0
                            && offsets@[kk].1 == 0),
                    k <= offsets@.len(),
                    bb.inv(),
                    bb.spec_width() == w as nat,
                    bb.spec_height() == h as nat,
                    bb.spec_col_major() == col_major,
                    forall|i: int|
                        #[trigger] bb.bit_at(i) == spec_sliding_attack_upto(
                            offsets@,
                            w as int,
                            h as int,
                            col_major,
                            sq as int,
                            i,
                            k as int,
                        ),
                decreases offsets@.len() - k,
            {
                let (dx, dy) = offsets[k];
                if dy == 0 {
                    bb = Self::slide_row_direction(bb, w, h, col_major, x, y, dx);
                } else if dx == 0 {
                    bb = Self::slide_col_direction(bb, w, h, col_major, x, y, dy);
                } else {
                    bb = Self::slide_one_direction(bb, w, h, col_major, x, y, dx, dy);
                }
                proof {
                    let wi = w as int;
                    let hi = h as int;
                    let x0 = x as int;
                    let y0 = y as int;
                    assert forall|i: int| #[trigger] bb.bit_at(i) == spec_sliding_attack_upto(
                        offsets@,
                        wi,
                        hi,
                        col_major,
                        sq as int,
                        i,
                        k as int + 1,
                    ) by {
                        assert(offsets@[k as int] == (dx, dy));
                        if bb.bit_at(i) {
                            if !spec_sliding_attack_upto(
                                offsets@,
                                wi,
                                hi,
                                col_major,
                                sq as int,
                                i,
                                k as int,
                            ) {
                                assert(spec_ray_hit(
                                    wi,
                                    hi,
                                    col_major,
                                    x0,
                                    y0,
                                    dx as int,
                                    dy as int,
                                    i,
                                    wi * hi + 1,
                                ));
                            }
                        } else {
                            if spec_sliding_attack_upto(
                                offsets@,
                                wi,
                                hi,
                                col_major,
                                sq as int,
                                i,
                                k as int + 1,
                            ) {
                                let kk = choose|kk: int|
                                    0 <= kk < k as int + 1 && spec_ray_hit(
                                        wi,
                                        hi,
                                        col_major,
                                        x0,
                                        y0,
                                        ((#[trigger] offsets@[kk]).0) as int,
                                        (offsets@[kk].1) as int,
                                        i,
                                        wi * hi + 1,
                                    );
                                assert(kk == k as int);
                                assert(false);
                            }
                        }
                    }
                }
                k = k + 1;
            }
            moves.push(bb);
            sq = sq + 1;
        }
        moves
    }

    /// For each square, the ray of squares strictly in the direction
    /// `(dx, dy)`, out to the border, indexed by the square's linear index.
    pub fn generate_ray_table(w: u8, h: u8, col_major: bool, dx: i8, dy: i8) -> (r: Vec<
        SmallBitboard,
    >)
        requires
            w as nat * h as nat <= 64,
            !(dx == 0 && dy == 0),
        ensures
            r@.len() == w as int * h as int,
            forall|sq: int|
                0 <= sq < r@.len() ==> (#[trigger] r@[sq]).inv() && r@[sq].spec_width() == w as nat
                    && r@[sq].spec_height() == h as nat && r@[sq].spec_col_major() == col_major,
            forall|sq: int, i: int|
                0 <= sq < r@.len() ==> #[trigger] r@[sq].bit_at(i) == spec_ray_hit(
                    w as int,
                    h as int,
                    col_major,
                    spec_x_of(w as int, h as int, col_major, sq),
                    spec_y_of(w as int, h as int, col_major, sq),
                    dx as int,
                    dy as int,
                    i,
                    w as int * h as int + 1,
                ),
    {
        let n: usize = w as usize * h as usize;
        let mut rays: Vec<SmallBitboard> = Vec::new();
        let mut sq: usize = 0;
        while sq < n
            invariant
                n == w as int * h as int,
                w as nat * h as nat <= 64,
                !(dx == 0 && dy == 0),
                sq <= n,
                rays@.len() == sq,
                forall|s: int|
                    0 <= s < sq ==> (#[trigger] rays@[s]).inv() && rays@[s].spec_width()
                        == w as nat && rays@[s].spec_height() == h as nat
                        && rays@[s].spec_col_major() == col_major,
                forall|s: int, i: int|
                    0 <= s < sq ==> #[trigger] rays@[s].bit_at(i) == spec_ray_hit(
                        w as int,
                        h as int,
                        col_major,
                        spec_x_of(w as int, h as int, col_major, s),
                        spec_y_of(w as int, h as int, col_major, s),
                        dx as int,
                        dy as int,
                        i,
                        w as int * h as int + 1,
                    ),
            decreases n - sq,
        {
            let (x, y) = crate::coords::coords_from_index(w, h, col_major, sq);
            let empty = SmallBitboard::empty(w, h, col_major);
            let bb = Self::slide_one_direction(empty, w, h, col_major, x, y, dx, dy);
            rays.push(bb);
            sq = sq + 1;
        }
        rays
    }

    /// For each square, the ray of squares strictly to the north, out to
    /// the border, indexed by the square's linear index.
    pub fn generate_ray_n_table(w: u8, h: u8, col_major: bool) -> (r: Vec<SmallBitboard>)
        requires
            w as nat * h as nat <= 64,
        ensures
            r@.len() == w as int * h as int,
            forall|sq: int|
                0 <= sq < r@.len() ==> (#[trigger] r@[sq]).inv() && r@[sq].spec_width() == w as nat
                    && r@[sq].spec_height() == h as nat && r@[sq].spec_col_major() == col_major,
            forall|sq: int, i: int|
                0 <= sq < r@.len() ==> #[trigger] r@[sq].bit_at(i) == spec_ray_hit(
                    w as int,
                    h as int,
                    col_major,
                    spec_x_of(w as int, h as int, col_major, sq),
                    spec_y_of(w as int, h as int, col_major, sq),
                    0,
                    1,
                    i,
                    w as int * h as int + 1,
                ),
    {
        Self::generate_ray_table(w, h, col_major, 0, 1)
    }

    /// For each square, the ray of squares strictly to the south, out to
    /// the border, indexed by the square's linear index.
    pub fn generate_ray_s_table(w: u8, h: u8, col_major: bool) -> (r: Vec<SmallBitboard>)
        requires
            w as nat * h as nat <= 64,
        ensures
            r@.len() == w as int * h as int,
            forall|sq: int|
                0 <= sq < r@.len() ==> (#[trigger] r@[sq]).inv() && r@[sq].spec_width() == w as nat
                    && r@[sq].spec_height() == h as nat && r@[sq].spec_col_major() == col_major,
            forall|sq: int, i: int|
                0 <= sq < r@.len() ==> #[trigger] r@[sq].bit_at(i) == spec_ray_hit(
                    w as int,
                    h as int,
                    col_major,
                    spec_x_of(w as int, h as int, col_major, sq),
                    spec_y_of(w as int, h as int, col_major, sq),
                    0,
                    -1,
                    i,
                    w as int * h as int + 1,
                ),
    {
        Self::generate_ray_table(w, h, col_major, 0, -1)
    }

    /// For each square, the ray of squares strictly to the east, out to
    /// the border, indexed by the square's linear index.
    pub fn generate_ray_e_table(w: u8, h: u8, col_major: bool) -> (r: Vec<SmallBitboard>)
        requires
            w as nat * h as nat <= 64,
        ensures
            r@.len() == w as int * h as int,
            forall|sq: int|
                0 <= sq < r@.len() ==> (#[trigger] r@[sq]).inv() && r@[sq].spec_width() == w as nat
                    && r@[sq].spec_height() == h as nat && r@[sq].spec_col_major() == col_major,
            forall|sq: int, i: int|
                0 <= sq < r@.len() ==> #[trigger] r@[sq].bit_at(i) == spec_ray_hit(
                    w as int,
                    h as int,
                    col_major,
                    spec_x_of(w as int, h as int, col_major, sq),
                    spec_y_of(w as int, h as int, col_major, sq),
                    1,
                    0,
                    i,
                    w as int * h as int + 1,
                ),
    {
        Self::generate_ray_table(w, h, col_major, 1, 0)
    }

    /// For each square, the ray of squares strictly to the west, out to
    /// the border, indexed by the square's linear index.
    pub fn generate_ray_w_table(w: u8, h: u8, col_major: bool) -> (r: Vec<SmallBitboard>)
        requires
            w as nat * h as nat <= 64,
        ensures
            r@.len() == w as int * h as int,
            forall|sq: int|
                0 <= sq < r@.len() ==> (#[trigger] r@[sq]).inv() && r@[sq].spec_width() == w as nat
                    && r@[sq].spec_height() == h as nat && r@[sq].spec_col_major() == col_major,
            forall|sq: int, i: int|
                0 <= sq < r@.len() ==> #[trigger] r@[sq].bit_at(i) == spec_ray_hit(
                    w as int,
                    h as int,
                    col_major,
                    spec_x_of(w as int, h as int, col_major, sq),
                    spec_y_of(w as int, h as int, col_major, sq),
                    -1,
                    0,
                    i,
                    w as int * h as int + 1,
                ),
    {
        Self::generate_ray_table(w, h, col_major, -1, 0)
    }

    /// For each square, the ray of squares strictly to the north-east, out to
    /// the border, indexed by the square's linear index.
    pub fn generate_ray_ne_table(w: u8, h: u8, col_major: bool) -> (r: Vec<SmallBitboard>)
        requires
            w as nat * h as nat <= 64,
        ensures
            r@.len() == w as int * h as int,
            forall|sq: int|
                0 <= sq < r@.len() ==> (#[trigger] r@[sq]).inv() && r@[sq].spec_width() == w as nat
                    && r@[sq].spec_height() == h as nat && r@[sq].spec_col_major() == col_major,
            forall|sq: int, i: int|
                0 <= sq < r@.len() ==> #[trigger] r@[sq].bit_at(i) == spec_ray_hit(
                    w as int,
                    h as int,
                    col_major,
                    spec_x_of(w as int, h as int, col_major, sq),
                    spec_y_of(w as int, h as int, col_major, sq),
                    1,
                    1,
                    i,
                    w as int * h as int + 1,
                ),
    {
        Self::generate_ray_table(w, h, col_major, 1, 1)
    }

    /// For each square, the ray of squares strictly to the north-west, out to
    /// the border, indexed by the square's linear index.
    pub fn generate_ray_nw_table(w: u8, h: u8, col_major: bool) -> (r: Vec<SmallBitboard>)
        requires
            w as nat * h as nat <= 64,
        ensures
            r@.len() == w as int * h as int,
            forall|sq: int|
                0 <= sq < r@.len() ==> (#[trigger] r@[sq]).inv() && r@[sq].spec_width() == w as nat
                    && r@[sq].spec_height() == h as nat && r@[sq].spec_col_major() == col_major,
            forall|sq: int, i: int|
                0 <= sq < r@.len() ==> #[trigger] r@[sq].bit_at(i) == spec_ray_hit(
                    w as int,
                    h as int,
                    col_major,
                    spec_x_of(w as int, h as int, col_major, sq),
                    spec_y_of(w as int, h as int, col_major, sq),
                    -1,
                    1,
                    i,
                    w as int * h as int + 1,
                ),
    {
        Self::generate_ray_table(w, h, col_major, -1, 1)
    }

    /// For each square, the ray of squares strictly to the south-east, out to
    /// the border, indexed by the square's linear index.
    pub fn generate_ray_se_table(w: u8, h: u8, col_major: bool) -> (r: Vec<SmallBitboard>)
        requires
            w as nat * h as nat <= 64,
        ensures
            r@.len() == w as int * h as int,
            forall|sq: int|
                0 <= sq < r@.len() ==> (#[trigger] r@[sq]).inv() && r@[sq].spec_width() == w as nat
                    && r@[sq].spec_height() == h as nat && r@[sq].spec_col_major() == col_major,
            forall|sq: int, i: int|
                0 <= sq < r@.len() ==> #[trigger] r@[sq].bit_at(i) == spec_ray_hit(
                    w as int,
                    h as int,
                    col_major,
                    spec_x_of(w as int, h as int, col_major, sq),
                    spec_y_of(w as int, h as int, col_major, sq),
                    1,
                    -1,
                    i,
                    w as int * h as int + 1,
                ),
    {
        Self::generate_ray_table(w, h, col_major, 1, -1)
    }

    /// For each square, the ray of squares strictly to the south-west, out to
    /// the border, indexed by the square's linear index.
    pub fn generate_ray_sw_table(w: u8, h: u8, col_major: bool) -> (r: Vec<SmallBitboard>)
        requires
            w as nat * h as nat <= 64,
        ensures
            r@.len() == w as int * h as int,
            forall|sq: int|
                0 <= sq < r@.len() ==> (#[trigger] r@[sq]).inv() && r@[sq].spec_width() == w as nat
                    && r@[sq].spec_height() == h as nat && r@[sq].spec_col_major() == col_major,
            forall|sq: int, i: int|
                0 <= sq < r@.len() ==> #[trigger] r@[sq].bit_at(i) == spec_ray_hit(
                    w as int,
                    h as int,
                    col_major,
                    spec_x_of(w as int, h as int, col_major, sq),
                    spec_y_of(w as int, h as int, col_major, sq),
                    -1,
                    -1,
                    i,
                    w as int * h as int + 1,
                ),
    {
        Self::generate_ray_table(w, h, col_major, -1, -1)
    }

    /// For each square, its orthogonal (4-way) neighbors.
    pub fn generate_neighbors_ortho_table(w: u8, h: u8, col_major: bool) -> (r: Vec<SmallBitboard>)
        requires
            w as nat * h as nat <= 64,
        ensures
            r@.len() == w as int * h as int,
            forall|sq: int|
                0 <= sq < r@.len() ==> (#[trigger] r@[sq]).inv() && r@[sq].spec_width() == w as nat
                    && r@[sq].spec_height() == h as nat && r@[sq].spec_col_major() == col_major,
            forall|sq: int, i: int|
                0 <= sq < r@.len() ==> #[trigger] r@[sq].bit_at(i) == spec_jump_attack(
                    seq![(1i8, 0i8), (-1i8, 0i8), (0i8, 1i8), (0i8, -1i8)],
                    w as int,
                    h as int,
                    col_major,
                    sq,
                    i,
                ),
    {
        let mut offs: Vec<(i8, i8)> = Vec::new();
        offs.push((1, 0));
        offs.push((-1, 0));
        offs.push((0, 1));
        offs.push((0, -1));
        proof {
            assert(offs@ =~= seq![(1i8, 0i8), (-1i8, 0i8), (0i8, 1i8), (0i8, -1i8)]);
        }
        Self::generate_jump_moves(offs.as_slice(), w, h, col_major)
    }

    /// For each square, its diagonal (4-way) neighbors.
    pub fn generate_neighbors_diag_table(w: u8, h: u8, col_major: bool) -> (r: Vec<SmallBitboard>)
        requires
            w as nat * h as nat <= 64,
        ensures
            r@.len() == w as int * h as int,
            forall|sq: int|
                0 <= sq < r@.len() ==> (#[trigger] r@[sq]).inv() && r@[sq].spec_width() == w as nat
                    && r@[sq].spec_height() == h as nat && r@[sq].spec_col_major() == col_major,
            forall|sq: int, i: int|
                0 <= sq < r@.len() ==> #[trigger] r@[sq].bit_at(i) == spec_jump_attack(
                    seq![(1i8, 1i8), (1i8, -1i8), (-1i8, 1i8), (-1i8, -1i8)],
                    w as int,
                    h as int,
                    col_major,
                    sq,
                    i,
                ),
    {
        let mut offs: Vec<(i8, i8)> = Vec::new();
        offs.push((1, 1));
        offs.push((1, -1));
        offs.push((-1, 1));
        offs.push((-1, -1));
        proof {
            assert(offs@ =~= seq![(1i8, 1i8), (1i8, -1i8), (-1i8, 1i8), (-1i8, -1i8)]);
        }
        Self::generate_jump_moves(offs.as_slice(), w, h, col_major)
    }

    /// For each square, all eight surrounding neighbors.
    pub fn generate_neighbors_8_table(w: u8, h: u8, col_major: bool) -> (r: Vec<SmallBitboard>)
        requires
            w as nat * h as nat <= 64,
        ensures
            r@.len() == w as int * h as int,
            forall|sq: int|
                0 <= sq < r@.len() ==> (#[trigger] r@[sq]).inv() && r@[sq].spec_width() == w as nat
                    && r@[sq].spec_height() == h as nat && r@[sq].spec_col_major() == col_major,
            forall|sq: int, i: int|
                0 <= sq < r@.len() ==> #[trigger] r@[sq].bit_at(i) == spec_jump_attack(
                    seq![
                        (1i8, 0i8),
                        (-1i8, 0i8),
                        (0i8, 1i8),
                        (0i8, -1i8),
                        (1i8, 1i8),
                        (1i8, -1i8),
                        (-1i8, 1i8),
                        (-1i8, -1i8),
                    ],
                    w as int,
                    h as int,
                    col_major,
                    sq,
                    i,
                ),
    {
        let mut offs: Vec<(i8, i8)> = Vec::new();
        offs.push((1, 0));
        offs.push((-1, 0));
        offs.push((0, 1));
        offs.push((0, -1));
        offs.push((1, 1));
        offs.push((1, -1));
        offs.push((-1, 1));
        offs.push((-1, -1));
        proof {
            assert(offs@ =~= seq![
                (1i8, 0i8),
                (-1i8, 0i8),
                (0i8, 1i8),
                (0i8, -1i8),
                (1i8, 1i8),
                (1i8, -1i8),
                (-1i8, 1i8),
                (-1i8, -1i8),
            ]);
        }
        Self::generate_jump_moves(offs.as_slice(), w, h, col_major)
    }

    /// The increasing diagonal through `(x, y)`: every cell with the same
    /// `x - y`.
    fn diag_inc_mask_from(w: u8, h: u8, col_major: bool, x: u8, y: u8) -> (bb: SmallBitboard)
        requires
            w as nat * h as nat <= 64,
            x < w,
            y < h,
        ensures
            bb.inv(),
            bb.spec_width() == w as nat,
            bb.spec_height() == h as nat,
            bb.spec_col_major() == col_major,
            forall|i: int|
                #[trigger] bb.bit_at(i) == (0 <= i < w as int * h as int && spec_x_of(
                    w as int,
                    h as int,
                    col_major,
                    i,
                ) - spec_y_of(w as int, h as int, col_major, i) == x as int - y as int),
    {
        let ghost wi = w as int;
        let ghost hi = h as int;
        let ghost d = x as int - y as int;
        let mut bb = SmallBitboard::empty(w, h, col_major);
        let mut xx: u8 = 0;
        while xx < w
            invariant
                w as nat * h as nat <= 64,
                wi == w as int,
                hi == h as int,
                d == x as int - y as int,
                xx <= w,
                bb.inv(),
                bb.spec_width() == w as nat,
                bb.spec_height() == h as nat,
                bb.spec_col_major() == col_major,
                forall|i: int|
                    #[trigger] bb.bit_at(i) == (0 <= i < wi * hi && spec_x_of(wi, hi, col_major, i)
                        - spec_y_of(wi, hi, col_major, i) == d && spec_x_of(wi, hi, col_major, i)
                        < xx as int),
            decreases w - xx,
        {
            let yy: i16 = xx as i16 - x as i16 + y as i16;
            if yy >= 0 && yy < h as i16 {
                bb.set(xx, yy as u8);
                proof {
                    crate::coords::lemma_index_of_in_range(wi, hi, col_major, xx as int, yy as int);
                    crate::coords::lemma_index_coords_roundtrip(
                        wi,
                        hi,
                        col_major,
                        xx as int,
                        yy as int,
                    );
                    let idx = spec_index_of(wi, hi, col_major, xx as int, yy as int);
                    assert forall|i: int| #[trigger] bb.bit_at(i) == (0 <= i < wi * hi && spec_x_of(
                        wi,
                        hi,
                        col_major,
                        i,
                    ) - spec_y_of(wi, hi, col_major, i) == d && spec_x_of(wi, hi, col_major, i)
                        < xx as int + 1) by {
                        if i != idx && 0 <= i < wi * hi && spec_x_of(wi, hi, col_major, i)
                            - spec_y_of(wi, hi, col_major, i) == d && spec_x_of(
                            wi,
                            hi,
                            col_major,
                            i,
                        ) == xx as int {
                            crate::coords::lemma_coords_of_in_range(wi, hi, col_major, i);
                            assert(false);
                        }
                    }
                }
            } else {
                proof {
                    assert forall|i: int| #[trigger] bb.bit_at(i) == (0 <= i < wi * hi && spec_x_of(
                        wi,
                        hi,
                        col_major,
                        i,
                    ) - spec_y_of(wi, hi, col_major, i) == d && spec_x_of(wi, hi, col_major, i)
                        < xx as int + 1) by {
                        if 0 <= i < wi * hi && spec_x_of(wi, hi, col_major, i) - spec_y_of(
                            wi,
                            hi,
                            col_major,
                            i,
                        ) == d && spec_x_of(wi, hi, col_major, i) == xx as int {
                            crate::coords::lemma_coords_of_in_range(wi, hi, col_major, i);
                            assert(false);
                        }
                    }
                }
            }
            xx = xx + 1;
        }
        proof {
            assert forall|i: int| #[trigger] bb.bit_at(i) == (0 <= i < wi * hi && spec_x_of(
                wi,
                hi,
                col_major,
                i,
            ) - spec_y_of(wi, hi, col_major, i) == d) by {
                if 0 <= i < wi * hi {
                    crate::coords::lemma_coords_of_in_range(wi, hi, col_major, i);
                }
            }
        }
        bb
    }

    /// The decreasing diagonal through `(x, y)`: every cell with the same
    /// `x + y`.
    fn diag_dec_mask_from(w: u8, h: u8, col_major: bool, x: u8, y: u8) -> (bb: SmallBitboard)
        requires
            w as nat * h as nat <= 64,
            x < w,
            y < h,
        ensures
            bb.inv(),
            bb.spec_width() == w as nat,
            bb.spec_height() == h as nat,
            bb.spec_col_major() == col_major,
            forall|i: int|
                #[trigger] bb.bit_at(i) == (0 <= i < w as int * h as int && spec_x_of(
                    w as int,
                    h as int,
                    col_major,
                    i,
                ) + spec_y_of(w as int, h as int, col_major, i) == x as int + y as int),
    {
        let ghost wi = w as int;
        let ghost hi = h as int;
        let ghost d = x as int + y as int;
        let mut bb = SmallBitboard::empty(w, h, col_major);
        let mut xx: u8 = 0;
        while xx < w
            invariant
                w as nat * h as nat <= 64,
                wi == w as int,
                hi == h as int,
                d == x as int + y as int,
                xx <= w,
                bb.inv(),
                bb.spec_width() == w as nat,
                bb.spec_height() == h as nat,
                bb.spec_col_major() == col_major,
                forall|i: int|
                    #[trigger] bb.bit_at(i) == (0 <= i < wi * hi && spec_x_of(wi, hi, col_major, i)
                        + spec_y_of(wi, hi, col_major, i) == d && spec_x_of(wi, hi, col_major, i)
                        < xx as int),
            decreases w - xx,
        {
            let yy: i16 = x as i16 + y as i16 - xx as i16;
            if yy >= 0 && yy < h as i16 {
                bb.set(xx, yy as u8);
                proof {
                    crate::coords::lemma_index_of_in_range(wi, hi, col_major, xx as int, yy as int);
                    crate::coords::lemma_index_coords_roundtrip(
                        wi,
                        hi,
                        col_major,
                        xx as int,
                        yy as int,
                    );
                    let idx = spec_index_of(wi, hi, col_major, xx as int, yy as int);
                    assert forall|i: int| #[trigger] bb.bit_at(i) == (0 <= i < wi * hi && spec_x_of(
                        wi,
                        hi,
                        col_major,
                        i,
                    ) + spec_y_of(wi, hi, col_major, i) == d && spec_x_of(wi, hi, col_major, i)
                        < xx as int + 1) by {
                        if i != idx && 0 <= i < wi * hi && spec_x_of(wi, hi, col_major, i)
                            + spec_y_of(wi, hi, col_major, i) == d && spec_x_of(
                            wi,
                            hi,
                            col_major,
                            i,
                        ) == xx as int {
                            crate::coords::lemma_coords_of_in_range(wi, hi, col_major, i);
                            assert(false);
                        }
                    }
                }
            } else {
                proof {
                    assert forall|i: int| #[trigger] bb.bit_at(i) == (0 <= i < wi * hi && spec_x_of(
                        wi,
                        hi,
                        col_major,
                        i,
                    ) + spec_y_of(wi, hi, col_major, i) == d && spec_x_of(wi, hi, col_major, i)
                        < xx as int + 1) by {
                        if 0 <= i < wi * hi && spec_x_of(wi, hi, col_major, i) + spec_y_of(
                            wi,
                            hi,
                            col_major,
                            i,
                        ) == d && spec_x_of(wi, hi, col_major, i) == xx as int {
                            crate::coords::lemma_coords_of_in_range(wi, hi, col_major, i);
                            assert(false);
                        }
                    }
                }
            }
            xx = xx + 1;
        }
        proof {
            assert forall|i: int| #[trigger] bb.bit_at(i) == (0 <= i < wi * hi && spec_x_of(
                wi,
                hi,
                col_major,
                i,
            ) + spec_y_of(wi, hi, col_major, i) == d) by {
                if 0 <= i < wi * hi {
                    crate::coords::lemma_coords_of_in_range(wi, hi, col_major, i);
                }
            }
        }
        bb
    }

    /// For each square, the increasing diagonal through it: every cell
    /// sharing its `x - y`.
    pub fn generate_diag_inc_table(w: u8, h: u8, col_major: bool) -> (r: Vec<SmallBitboard>)
        requires
            w as nat * h as nat <= 64,
        ensures
            r@.len() == w as int * h as int,
            forall|sq: int|
                0 <= sq < r@.len() ==> (#[trigger] r@[sq]).inv() && r@[sq].spec_width() == w as nat
                    && r@[sq].spec_height() == h as nat && r@[sq].spec_col_major() == col_major,
            forall|sq: int, i: int|
                0 <= sq < r@.len() ==> #[trigger] r@[sq].bit_at(i) == (0 <= i < w as int * h as int
                    && spec_x_of(w as int, h as int, col_major, i) - spec_y_of(
                    w as int,
                    h as int,
                    col_major,
                    i,
                ) == spec_x_of(w as int, h as int, col_major, sq) - spec_y_of(
                    w as int,
                    h as int,
                    col_major,
                    sq,
                )),
    {
        let n: usize = w as usize * h as usize;
        let mut table: Vec<SmallBitboard> = Vec::new();
        let mut sq: usize = 0;
        while sq < n
            invariant
                n == w as int * h as int,
                w as nat * h as nat <= 64,
                sq <= n,
                table@.len() == sq,
                forall|s: int|
                    0 <= s < sq ==> (#[trigger] table@[s]).inv() && table@[s].spec_width()
                        == w as nat && table@[s].spec_height() == h as nat
                        && table@[s].spec_col_major() == col_major,
                forall|s: int, i: int|
                    0 <= s < sq ==> #[trigger] table@[s].bit_at(i) == (0 <= i < w as int * h as int
                        && spec_x_of(w as int, h as int, col_major, i) - spec_y_of(
                        w as int,
                        h as int,
                        col_major,
                        i,
                    ) == spec_x_of(w as int, h as int, col_major, s) - spec_y_of(
                        w as int,
                        h as int,
                        col_major,
                        s,
                    )),
            decreases n - sq,
        {
            let (x, y) = crate::coords::coords_from_index(w, h, col_major, sq);
            let bb = Self::diag_inc_mask_from(w, h, col_major, x, y);
            table.push(bb);
            sq = sq + 1;
        }
        table
    }

    /// For each square, the decreasing diagonal through it: every cell
    /// sharing its `x + y`.
    pub fn generate_diag_dec_table(w: u8, h: u8, col_major: bool) -> (r: Vec<SmallBitboard>)
        requires
            w as nat * h as nat <= 64,
        ensures
            r@.len() == w as int * h as int,
            forall|sq: int|
                0 <= sq < r@.len() ==> (#[trigger] r@[sq]).inv() && r@[sq].spec_width() == w as nat
                    && r@[sq].spec_height() == h as nat && r@[sq].spec_col_major() == col_major,
            forall|sq: int, i: int|
                0 <= sq < r@.len() ==> #[trigger] r@[sq].bit_at(i) == (0 <= i < w as int * h as int
                    && spec_x_of(w as int, h as int, col_major, i) + spec_y_of(
                    w as int,
                    h as int,
                    col_major,
                    i,
                ) == spec_x_of(w as int, h as int, col_major, sq) + spec_y_of(
                    w as int,
                    h as int,
                    col_major,
                    sq,
                )),
    {
        let n: usize = w as usize * h as usize;
        let mut table: Vec<SmallBitboard> = Vec::new();
        let mut sq: usize = 0;
        while sq < n
            invariant
                n == w as int * h as int,
                w as nat * h as nat <= 64,
                sq <= n,
                table@.len() == sq,
                forall|s: int|
                    0 <= s < sq ==> (#[trigger] table@[s]).inv() && table@[s].spec_width()
                        == w as nat && table@[s].spec_height() == h as nat
                        && table@[s].spec_col_major() == col_major,
                forall|s: int, i: int|
                    0 <= s < sq ==> #[trigger] table@[s].bit_at(i) == (0 <= i < w as int * h as int
                        && spec_x_of(w as int, h as int, col_major, i) + spec_y_of(
                        w as int,
                        h as int,
                        col_major,
                        i,
                    ) == spec_x_of(w as int, h as int, col_major, s) + spec_y_of(
                        w as int,
                        h as int,
                        col_major,
                        s,
                    )),
            decreases n - sq,
        {
            let (x, y) = crate::coords::coords_from_index(w, h, col_major, sq);
            let bb = Self::diag_dec_mask_from(w, h, col_major, x, y);
            table.push(bb);
            sq = sq + 1;
        }
        table
    }

    /// The open interval of squares strictly between `from` and `to`, when
    /// the two share a rank, file or diagonal; the empty board otherwise.
    pub fn ray_between_mask(w: u8, h: u8, col_major: bool, from: usize, to: usize) -> (bb:
        SmallBitboard)
        requires
            w as nat * h as nat <= 64,
            from < w as int * h as int,
            to < w as int * h as int,
        ensures
            bb.inv(),
            bb.spec_width() == w as nat,
            bb.spec_height() == h as nat,
            bb.spec_col_major() == col_major,
            !spec_between_aligned(w as int, h as int, col_major, from as int, to as int)
                ==> forall|i: int| !bb.bit_at(i),
            spec_between_aligned(w as int, h as int, col_major, from as int, to as int)
                ==> forall|i: int|
                #[trigger] bb.bit_at(i) == spec_between_hit(
                    w as int,
                    h as int,
                    col_major,
                    from as int,
                    to as int,
                    i,
                ),
    {
        let ghost wi = w as int;
        let ghost hi = h as int;
        let (fx, fy) = crate::coords::coords_from_index(w, h, col_major, from);
        let (tx, ty) = crate::coords::coords_from_index(w, h, col_major, to);
        let mut bb = SmallBitboard::empty(w, h, col_major);
        let same_file = fx == tx;
        let same_rank = fy == ty;
        let same_diag = fx as i16 - fy as i16 == tx as i16 - ty as i16;
        let same_anti = fx as i16 + fy as i16 == tx as i16 + ty as i16;
        if !(same_file || same_rank || same_diag || same_anti) {
            return bb;
        }
        let sx: i16 = if tx > fx {
            1
        } else if tx < fx {
            -1
        } else {
            0
        };
        let sy: i16 = if ty > fy {
            1
        } else if ty < fy {
            -1
        } else {
            0
        };
        let steps: i16 = if fx != tx {
            if tx > fx {
                tx as i16 - fx as i16
            } else {
                fx as i16 - tx as i16
            }
        } else {
            if ty > fy {
                ty as i16 - fy as i16
            } else {
                fy as i16 - ty as i16
            }
        };
        let ghost fxi = fx as int;
        let ghost fyi = fy as int;
        let ghost txi = tx as int;
        let ghost tyi = ty as int;
        let ghost sxi = sx as int;
        let ghost syi = sy as int;
        let ghost stepsi = steps as int;
        proof {
            assert(stepsi * sxi == txi - fxi && stepsi * syi == tyi - fyi) by (nonlinear_arith)
                requires
                    sxi == (if txi > fxi { 1int } else if txi < fxi { -1int } else { 0int }),
                    syi == (if tyi > fyi { 1int } else if tyi < fyi { -1int } else { 0int }),
                    stepsi == (if fxi != txi {
                        if txi > fxi { txi - fxi } else { fxi - txi }
                    } else {
                        if tyi > fyi { tyi - fyi } else { fyi - tyi }
                    }),
                    fxi == txi || fyi == tyi || txi - fxi == tyi - fyi || txi - fxi == fyi - tyi,
            ;
        }
        let mut cx: i16 = fx as i16 + sx;
        let mut cy: i16 = fy as i16 + sy;
        let ghost mut t: int = 1;
        while cx != tx as i16 || cy != ty as i16
            invariant
                w as nat * h as nat <= 64,
                wi == w as int,
                hi == h as int,
                0 <= fxi < wi,
                0 <= fyi < hi,
                0 <= txi < wi,
                0 <= tyi < hi,
                fxi == fx as int,
                fyi == fy as int,
                txi == tx as int,
                tyi == ty as int,
                sxi == sx as int,
                syi == sy as int,
                sxi == (if txi > fxi { 1int } else if txi < fxi { -1int } else { 0int }),
                syi == (if tyi > fyi { 1int } else if tyi < fyi { -1int } else { 0int }),
                stepsi * sxi == txi - fxi,
                stepsi * syi == tyi - fyi,
                stepsi >= 0,
                1 <= t <= stepsi || (t == 1 && stepsi == 0),
                cx as int == fxi + t * sxi,
                cy as int == fyi + t * syi,
                bb.inv(),
                bb.spec_width() == w as nat,
                bb.spec_height() == h as nat,
                bb.spec_col_major() == col_major,
                forall|i: int|
                    #[trigger] bb.bit_at(i) == (exists|tt: int|
                        1 <= tt < t && i == spec_index_of(
                            wi,
                            hi,
                            col_major,
                            fxi + #[trigger] (tt * sxi),
                            fyi + tt * syi,
                        )),
            decreases stepsi - t,
        {
            proof {
                // not yet arrived, so this step is strictly inside the walk
                if t >= stepsi {
                    assert(t == stepsi || (t == 1 && stepsi == 0));
                    assert(cx as int == fxi + stepsi * sxi || stepsi == 0);
                    assert(false);
                }
                // the walk stays between its two in-bounds endpoints
                assert(0 <= (cx as int) && (cx as int) < wi && 0 <= (cy as int) && (cy as int) < hi) by (nonlinear_arith)
                    requires
                        cx as int == fxi + t * sxi,
                        cy as int == fyi + t * syi,
                        0 < t < stepsi,
                        stepsi * sxi == txi - fxi,
                        stepsi * syi == tyi - fyi,
                        sxi == -1 || sxi == 0 || sxi == 1,
                        syi == -1 || syi == 0 || syi == 1,
                        0 <= fxi < wi,
                        0 <= fyi < hi,
                        0 <= txi < wi,
                        0 <= tyi < hi,
                ;
            }
            bb.set(cx as u8, cy as u8);
            proof {
                crate::coords::lemma_index_of_in_range(wi, hi, col_major, cx as int, cy as int);
                let idx = spec_index_of(wi, hi, col_major, cx as int, cy as int);
                assert forall|i: int| #[trigger] bb.bit_at(i) == (exists|tt: int|
                    1 <= tt < t + 1 && i == spec_index_of(
                        wi,
                        hi,
                        col_major,
                        fxi + #[trigger] (tt * sxi),
                        fyi + tt * syi,
                    )) by {
                    if i == idx {
                        assert(fxi + t * sxi == cx as int && fyi + t * syi == cy as int);
                        assert(1 <= t < t + 1 && i == spec_index_of(
                            wi,
                            hi,
                            col_major,
                            fxi + t * sxi,
                            fyi + t * syi,
                        ));
                    } else {
                        if (exists|tt: int|
                            1 <= tt < t + 1 && i == spec_index_of(
                                wi,
                                hi,
                                col_major,
                                fxi + #[trigger] (tt * sxi),
                                fyi + tt * syi,
                            )) && !(exists|tt: int|
                            1 <= tt < t && i == spec_index_of(
                                wi,
                                hi,
                                col_major,
                                fxi + #[trigger] (tt * sxi),
                                fyi + tt * syi,
                            )) {
                            let tt = choose|tt: int|
                                1 <= tt < t + 1 && i == spec_index_of(
                                    wi,
                                    hi,
                                    col_major,
                                    fxi + #[trigger] (tt * sxi),
                                    fyi + tt * syi,
                                );
                            assert(tt == t);
                            assert(false);
                        }
                    }
                }
            }
            cx = cx + sx;
            cy = cy + sy;
            proof {
                assert((t + 1) * sxi == t * sxi + sxi && (t + 1) * syi == t * syi + syi)
                    by (nonlinear_arith);
                t = t + 1;
            }
        }
        proof {
            // arrived: the walk has visited exactly the strictly-between squares
            assert(t == stepsi || (t == 1 && stepsi == 0)) by {
                if t < stepsi {
                    assert(cx as int == fxi + t * sxi && cy as int == fyi + t * syi);
                    assert(!(cx as int == txi && cy as int == tyi)) by (nonlinear_arith)
                        requires
                            cx as int == fxi + t * sxi,
                            cy as int == fyi + t * syi,
                            0 < t < stepsi,
                            stepsi * sxi == txi - fxi,
                            stepsi * syi == tyi - fyi,
                            !(sxi == 0 && syi == 0),
                            sxi == -1 || sxi == 0 || sxi == 1,
                            syi == -1 || syi == 0 || syi == 1,
                    ;
                }
            }
            assert forall|i: int| #[trigger] bb.bit_at(i) == spec_between_hit(
                wi,
                hi,
                col_major,
                from as int,
                to as int,
                i,
            ) by {
                assert(fxi == spec_x_of(wi, hi, col_major, from as int));
                assert(fyi == spec_y_of(wi, hi, col_major, from as int));
                assert(txi == spec_x_of(wi, hi, col_major, to as int));
                assert(tyi == spec_y_of(wi, hi, col_major, to as int));
                assert(sxi == spec_sign(txi - fxi));
                assert(syi == spec_sign(tyi - fyi));
                assert(stepsi == spec_between_steps(wi, hi, col_major, from as int, to as int));
                if bb.bit_at(i) {
                    let tt = choose|tt: int|
                        1 <= tt < t && i == spec_index_of(
                            wi,
                            hi,
                            col_major,
                            fxi + #[trigger] (tt * sxi),
                            fyi + tt * syi,
                        );
                    assert(1 <= tt < stepsi);
                } else {
                    if spec_between_hit(wi, hi, col_major, from as int, to as int, i) {
                        let tt = choose|tt: int|
                            1 <= tt < spec_between_steps(wi, hi, col_major, from as int, to as int)
                                && i == spec_index_of(
                                wi,
                                hi,
                                col_major,
                                fxi + #[trigger] (tt * sxi),
                                fyi + tt * syi,
                            );
                        assert(1 <= tt < t);
                        assert(false);
                    }
                }
            }
        }
        bb
    }
}

/// The two squares share a rank, file or diagonal.
pub open spec fn spec_between_aligned(w: int, h: int, cm: bool, from: int, to: int) -> bool {
    let fx = spec_x_of(w, h, cm, from);
    let fy = spec_y_of(w, h, cm, from);
    let tx = spec_x_of(w, h, cm, to);
    let ty = spec_y_of(w, h, cm, to);
    fx == tx || fy == ty || tx - fx == ty - fy || tx - fx == fy - ty
}

/// The signum of a coordinate difference.
pub open spec fn spec_sign(d: int) -> int {
    if d > 0 {
        1
    } else if d < 0 {
        -1
    } else {
        0
    }
}

/// How many single steps separate two aligned squares.
pub open spec fn spec_between_steps(w: int, h: int, cm: bool, from: int, to: int) -> int {
    let fx = spec_x_of(w, h, cm, from);
    let fy = spec_y_of(w, h, cm, from);
    let tx = spec_x_of(w, h, cm, to);
    let ty = spec_y_of(w, h, cm, to);
    if fx != tx {
        if tx > fx {
            tx - fx
        } else {
            fx - tx
        }
    } else {
        if ty > fy {
            ty - fy
        } else {
            fy - ty
        }
    }
}

/// Index `i` lies strictly between two aligned squares: a positive number
/// of signum steps short of the full distance lands there.
pub open spec fn spec_between_hit(w: int, h: int, cm: bool, from: int, to: int, i: int) -> bool {
    let fx = spec_x_of(w, h, cm, from);
    let fy = spec_y_of(w, h, cm, from);
    let tx = spec_x_of(w, h, cm, to);
    let ty = spec_y_of(w, h, cm, to);
    let sx = spec_sign(tx - fx);
    let sy = spec_sign(ty - fy);
    exists|t: int|
        1 <= t < spec_between_steps(w, h, cm, from, to) && i == spec_index_of(
            w,
            h,
            cm,
            fx + #[trigger] (t * sx),
            fy + t * sy,
        )
}

} // verus!
