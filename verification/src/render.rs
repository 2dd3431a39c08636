//! Text rendering of a board: the human-readable grid listing and the
//! grouped binary debug form. Both are pure functions of the board view;
//! their contracts state the produced character sequence exactly.

use vstd::prelude::*;

verus! {

use crate::board::{Bitboard, cell_index};

/// The display clips the listing to this many rows and columns.
pub const MAX_DISPLAY: u8 = 70;

/// The character of a decimal digit.
pub open spec fn digit_char(d: int) -> char {
    if d == 0 {
        '0'
    } else if d == 1 {
        '1'
    } else if d == 2 {
        '2'
    } else if d == 3 {
        '3'
    } else if d == 4 {
        '4'
    } else if d == 5 {
        '5'
    } else if d == 6 {
        '6'
    } else if d == 7 {
        '7'
    } else if d == 8 {
        '8'
    } else {
        '9'
    }
}

/// The decimal digits of `n`, most significant first.
pub open spec fn spec_decimal(n: int) -> Seq<char>
    decreases n,
{
    if n <= 9 {
        seq![digit_char(n)]
    } else {
        spec_decimal(n / 10) + seq![digit_char(n % 10)]
    }
}

/// `k` spaces.
pub open spec fn spec_spaces(k: int) -> Seq<char> {
    Seq::new(if k >= 0 {
        k as nat
    } else {
        0nat
    }, |i: int| ' ')
}

/// How many digits the decimal form of a byte value has.
pub open spec fn spec_decimal_len(n: int) -> int {
    if n <= 9 {
        1
    } else if n <= 99 {
        2
    } else {
        3
    }
}

/// The width of the row-label column: the label of the top row, at least 2.
pub open spec fn spec_label_width(h: int) -> int {
    if spec_decimal_len(h - 1) >= 2 {
        spec_decimal_len(h - 1)
    } else {
        2
    }
}

/// The cells of row `y`, west to east, `#` for a set cell, `.` for a
/// clear one, clipped to `n` columns.
pub open spec fn spec_cells<B: Bitboard>(b: &B, y: int, n: int) -> Seq<char> {
    Seq::new(if n >= 0 {
        n as nat
    } else {
        0nat
    }, |x: int| if b.bit_at(cell_index(b, x, y)) {
        '#'
    } else {
        '.'
    })
}

/// One rendered row: the right-aligned row label, a separator, the cells,
/// an overflow mark if the board is wider than the listing, and a newline.
pub open spec fn spec_row<B: Bitboard>(b: &B, y: int, lw: int, wclip: int) -> Seq<char> {
    spec_spaces(lw - spec_decimal_len(y)) + spec_decimal(y) + seq![' ', '|', ' '] + spec_cells(
        b,
        y,
        wclip,
    ) + (if b.spec_width() > MAX_DISPLAY as nat {
        seq!['.', '.', '.']
    } else {
        Seq::<char>::empty()
    }) + seq!['\n']
}

/// The rows from `rows - 1` down to row 0, each rendered by `spec_row`.
pub open spec fn spec_rows<B: Bitboard>(b: &B, rows: int, lw: int, wclip: int) -> Seq<char>
    decreases rows,
{
    if rows <= 0 {
        Seq::empty()
    } else {
        spec_row(b, rows - 1, lw, wclip) + spec_rows(b, rows - 1, lw, wclip)
    }
}

/// The first footer line: the ones digit of single-digit column numbers,
/// the tens digit of larger ones.
pub open spec fn spec_footer1(wclip: int) -> Seq<char> {
    Seq::new(if wclip >= 0 {
        wclip as nat
    } else {
        0nat
    }, |x: int| if x >= 10 {
        digit_char((x / 10) % 10)
    } else {
        digit_char(x)
    })
}

/// The second footer line: blanks under single-digit column numbers, the
/// ones digit of larger ones.
pub open spec fn spec_footer2(wclip: int) -> Seq<char> {
    Seq::new(if wclip >= 0 {
        wclip as nat
    } else {
        0nat
    }, |x: int| if x < 10 {
        ' '
    } else {
        digit_char(x % 10)
    })
}

/// The overflow mark of a clipped dimension.
pub open spec fn spec_overflow(clipped: bool) -> Seq<char> {
    if clipped {
        seq!['.', '.', '.']
    } else {
        Seq::empty()
    }
}

/// The whole grid listing: an overflow line if the board is taller than
/// the listing, the rows from the top down, and the column-number footer.
pub open spec fn spec_display<B: Bitboard>(b: &B) -> Seq<char> {
    let w = b.spec_width() as int;
    let h = b.spec_height() as int;
    let wclip = if w > MAX_DISPLAY as int {
        MAX_DISPLAY as int
    } else {
        w
    };
    let hclip = if h > MAX_DISPLAY as int {
        MAX_DISPLAY as int
    } else {
        h
    };
    let lw = spec_label_width(h);
    (if h > MAX_DISPLAY as int {
        spec_spaces(lw) + seq![' ', ' ', ' ', '.', '.', '.', '\n']
    } else {
        Seq::empty()
    }) + spec_rows(b, hclip, lw, wclip) + spec_spaces(lw + 3) + spec_footer1(wclip)
        + spec_overflow(w > MAX_DISPLAY as int) + seq!['\n'] + (if w >= 10 {
        spec_spaces(lw + 3) + spec_footer2(wclip) + spec_overflow(w > MAX_DISPLAY as int)
            + seq!['\n']
    } else {
        Seq::empty()
    })
}

/// A decimal digit as a one-character string.
fn digit_str(d: u8) -> (r: &'static str)
    requires
        d < 10,
    ensures
        r@ == seq![digit_char(d as int)],
{
    proof {
        reveal_strlit("0");
        reveal_strlit("1");
        reveal_strlit("2");
        reveal_strlit("3");
        reveal_strlit("4");
        reveal_strlit("5");
        reveal_strlit("6");
        reveal_strlit("7");
        reveal_strlit("8");
        reveal_strlit("9");
    }
    if d == 0 {
        "0"
    } else if d == 1 {
        "1"
    } else if d == 2 {
        "2"
    } else if d == 3 {
        "3"
    } else if d == 4 {
        "4"
    } else if d == 5 {
        "5"
    } else if d == 6 {
        "6"
    } else if d == 7 {
        "7"
    } else if d == 8 {
        "8"
    } else {
        "9"
    }
}

/// Appends the decimal form of `n` to `out`.
fn append_decimal(out: &mut String, n: u8)
    ensures
        final(out)@ == old(out)@ + spec_decimal(n as int),
{
    if n <= 9 {
        out.append(digit_str(n));
        proof {
            assert(final(out)@ =~= old(out)@ + spec_decimal(n as int));
        }
    } else if n <= 99 {
        out.append(digit_str(n / 10));
        out.append(digit_str(n % 10));
        proof {
            assert(spec_decimal(n as int) == spec_decimal(n as int / 10) + seq![
                digit_char(n as int % 10),
            ]);
            assert(out@ =~= old(out)@ + spec_decimal(n as int));
        }
    } else {
        out.append(digit_str(n / 100));
        out.append(digit_str((n / 10) % 10));
        out.append(digit_str(n % 10));
        proof {
            assert(n as int / 10 / 10 == n as int / 100 && (n as int / 10) % 10 == (n as int / 10)
                % 10 && n as int / 10 > 9) by (nonlinear_arith)
                requires
                    100 <= n as int <= 255,
            ;
            assert(spec_decimal(n as int) == spec_decimal(n as int / 10) + seq![
                digit_char(n as int % 10),
            ]);
            assert(spec_decimal(n as int / 10) == spec_decimal(n as int / 10 / 10) + seq![
                digit_char((n as int / 10) % 10),
            ]);
            assert(out@ =~= old(out)@ + spec_decimal(n as int));
        }
    }
}

/// Appends `k` spaces to `out`.
fn append_spaces(out: &mut String, k: u8)
    ensures
        final(out)@ == old(out)@ + spec_spaces(k as int),
{
    proof {
        reveal_strlit(" ");
    }
    let mut t: u8 = 0;
    while t < k
        invariant
            t <= k,
            out@ == old(out)@ + spec_spaces(t as int),
        decreases k - t,
    {
        out.append(" ");
        proof {
            reveal_strlit(" ");
            assert(out@ =~= old(out)@ + spec_spaces(t as int + 1));
        }
        t = t + 1;
    }
}

/// The number of digits of the decimal form of `n`.
fn decimal_len(n: u8) -> (r: u8)
    ensures
        r as int == spec_decimal_len(n as int),
{
    if n <= 9 {
        1
    } else if n <= 99 {
        2
    } else {
        3
    }
}

/// Renders a board as a bottom-up grid listing with axis labels: one line
/// per row, `#` for a set cell and `.` for a clear one, clipped to 70
/// rows and columns, with column numbers underneath.
#[verifier::rlimit(60)]
pub fn fmt_bitboard_display<B: Bitboard>(b: &B) -> (r: String)
    requires
        b.inv(),
        1 <= b.spec_width(),
        1 <= b.spec_height(),
    ensures
        r@ == spec_display(b),
{
    proof {
        reveal_strlit(" | ");
        reveal_strlit("...");
        reveal_strlit("   ...\n");
        reveal_strlit("\n");
        reveal_strlit("#");
        reveal_strlit(".");
        b.lemma_inv();
    }
    let w = b.width();
    let h = b.height();
    let wclip: u8 = if w > MAX_DISPLAY {
        MAX_DISPLAY
    } else {
        w
    };
    let hclip: u8 = if h > MAX_DISPLAY {
        MAX_DISPLAY
    } else {
        h
    };
    let lw: u8 = {
        let dl = decimal_len(h - 1);
        if dl >= 2 {
            dl
        } else {
            2
        }
    };
    let ghost lwi = lw as int;
    let ghost wclipi = wclip as int;
    let mut out = String::new();
    if h > MAX_DISPLAY {
        append_spaces(&mut out, lw);
        out.append("   ...\n");
        proof {
            reveal_strlit("   ...\n");
            assert(out@ =~= spec_spaces(lwi) + seq![' ', ' ', ' ', '.', '.', '.', '\n']);
        }
    }
    let ghost head = out@;
    let mut yy: u8 = hclip;
    while yy > 0
        invariant
            b.inv(),
            w as nat == b.spec_width(),
            h as nat == b.spec_height(),
            1 <= w,
            1 <= h,
            yy <= hclip,
            hclip <= h,
            wclip <= w,
            wclipi == wclip as int,
            lwi == lw as int,
            lwi == spec_label_width(h as int),
            wclip as int == (if w as int > MAX_DISPLAY as int {
                MAX_DISPLAY as int
            } else {
                w as int
            }),
            out@ == head + spec_rows(b, hclip as int, lwi, wclipi).take(
                spec_rows(b, hclip as int, lwi, wclipi).len() - spec_rows(
                    b,
                    yy as int,
                    lwi,
                    wclipi,
                ).len(),
            ),
            spec_rows(b, yy as int, lwi, wclipi).len() <= spec_rows(
                b,
                hclip as int,
                lwi,
                wclipi,
            ).len(),
        decreases yy,
    {
        yy = yy - 1;
        let ghost before = out@;
        // label
        let dl = decimal_len(yy);
        proof {
            assert(spec_decimal_len(yy as int) <= spec_decimal_len(h as int - 1));
            assert(spec_decimal_len(yy as int) <= lwi);
        }
        append_spaces(&mut out, lw - dl);
        append_decimal(&mut out, yy);
        out.append(" | ");
        // cells
        let ghost cells_start = out@;
        let mut x: u8 = 0;
        while x < wclip
            invariant
                b.inv(),
                w as nat == b.spec_width(),
                h as nat == b.spec_height(),
                yy < h,
                x <= wclip,
                wclip <= w,
                out@ == cells_start + spec_cells(b, yy as int, x as int),
            decreases wclip - x,
        {
            proof {
                b.lemma_inv();
                crate::coords::lemma_index_of_in_range(
                    b.spec_width() as int,
                    b.spec_height() as int,
                    b.spec_col_major(),
                    x as int,
                    yy as int,
                );
            }
            if b.get(x, yy) {
                out.append("#");
            } else {
                out.append(".");
            }
            proof {
                reveal_strlit("#");
                reveal_strlit(".");
                assert(out@ =~= cells_start + spec_cells(b, yy as int, x as int + 1));
            }
            x = x + 1;
        }
        if w > MAX_DISPLAY {
            out.append("...");
        }
        out.append("\n");
        proof {
            reveal_strlit(" | ");
            reveal_strlit("...");
            reveal_strlit("\n");
            assert(out@ =~= before + spec_row(b, yy as int, lwi, wclipi));
            assert(spec_rows(b, yy as int + 1, lwi, wclipi) == spec_row(b, yy as int, lwi, wclipi)
                + spec_rows(b, yy as int, lwi, wclipi));
            lemma_rows_prefix(b, hclip as int, yy as int + 1, lwi, wclipi);
            lemma_rows_prefix(b, hclip as int, yy as int, lwi, wclipi);
            let big = spec_rows(b, hclip as int, lwi, wclipi);
            let srow = spec_row(b, yy as int, lwi, wclipi);
            let s1 = spec_rows(b, yy as int + 1, lwi, wclipi);
            let s0 = spec_rows(b, yy as int, lwi, wclipi);
            let a = big.len() - s1.len();
            assert(big.take(big.len() - s0.len()) =~= big.take(a as int) + srow) by {
                assert(s1.len() == srow.len() + s0.len());
                assert forall|k: int|
                    0 <= k < a + srow.len() implies big.take(big.len() - s0.len())[k] == (big.take(
                    a as int,
                ) + srow)[k] by {
                    if k >= a {
                        assert(big[k] == big.skip(a as int)[k - a]);
                        assert(big.skip(a as int) =~= s1);
                        assert(s1[k - a] == srow[k - a]);
                    }
                }
            }
            assert(out@ =~= head + big.take(big.len() - s0.len()));
        }
    }
    proof {
        assert(out@ =~= head + spec_rows(b, hclip as int, lwi, wclipi));
    }
    let ghost rows_done = out@;
    append_spaces(&mut out, lw + 3);
    proof {
        assert(spec_spaces(lwi + 3) =~= spec_spaces(lwi) + seq![' ', ' ', ' ']);
    }
    // first footer line
    let ghost f1_start = out@;
    let mut x: u8 = 0;
    while x < wclip
        invariant
            x <= wclip,
            out@ == f1_start + spec_footer1(x as int),
        decreases wclip - x,
    {
        if x >= 10 {
            out.append(digit_str((x / 10) % 10));
        } else {
            out.append(digit_str(x));
        }
        proof {
            assert(out@ =~= f1_start + spec_footer1(x as int + 1));
        }
        x = x + 1;
    }
    if w > MAX_DISPLAY {
        out.append("...");
    }
    out.append("\n");
    // second footer line for two-digit column numbers
    if w >= 10 {
        proof {
            reveal_strlit("...");
            reveal_strlit("\n");
        }
        append_spaces(&mut out, lw + 3);
        let ghost f2_start = out@;
        let mut x2: u8 = 0;
        while x2 < wclip
            invariant
                x2 <= wclip,
                out@ == f2_start + spec_footer2(x2 as int),
            decreases wclip - x2,
        {
            if x2 < 10 {
                out.append(" ");
            } else {
                out.append(digit_str(x2 % 10));
            }
            proof {
                reveal_strlit(" ");
                assert(out@ =~= f2_start + spec_footer2(x2 as int + 1));
            }
            x2 = x2 + 1;
        }
        if w > MAX_DISPLAY {
            out.append("...");
        }
        out.append("\n");
    }
    proof {
        reveal_strlit("...");
        reveal_strlit("\n");
        assert(out@ =~= spec_display(b));
    }
    out
}

/// The binary character of one bit.
pub open spec fn bit_char(bv: bool) -> char {
    if bv {
        '1'
    } else {
        '0'
    }
}

/// The bits at indices `hi - 1` down to `lo`, most significant first.
pub open spec fn spec_bits_desc<B: Bitboard>(b: &B, hi: int, lo: int) -> Seq<char> {
    Seq::new(if hi >= lo {
        (hi - lo) as nat
    } else {
        0nat
    }, |k: int| bit_char(b.bit_at(hi - 1 - k)))
}

/// The `r` remaining lane groups of `g` bits each, highest group first,
/// separated by underscores.
pub open spec fn spec_groups<B: Bitboard>(b: &B, r: int, g: int) -> Seq<char>
    decreases r,
{
    if r <= 0 {
        Seq::empty()
    } else {
        spec_bits_desc(b, r * g, (r - 1) * g) + (if r > 1 {
            seq!['_']
        } else {
            Seq::<char>::empty()
        }) + spec_groups(b, r - 1, g)
    }
}

/// The whole debug form: a binary literal of the cell bits, most
/// significant first, grouped lane by lane, preceded by the padding bits
/// in parentheses when any of them is set.
pub open spec fn spec_debug<B: Bitboard>(b: &B, storage_bits: int) -> Seq<char> {
    let total = b.spec_width() * b.spec_height();
    let g = if b.spec_col_major() {
        b.spec_height() as int
    } else {
        b.spec_width() as int
    };
    seq!['0', 'b'] + (if exists|j: int| total <= j < storage_bits && #[trigger] b.bit_at(j) {
        seq!['('] + spec_bits_desc(b, storage_bits, total as int) + seq![')']
    } else {
        Seq::<char>::empty()
    }) + spec_groups(b, total as int / g, g)
}

/// Appends the bits at indices `hi - 1` down to `lo`, most significant
/// first.
fn append_bits_desc<B: Bitboard>(out: &mut String, b: &B, hi: usize, lo: usize)
    requires
        b.inv(),
        lo <= hi,
        hi <= b.capacity(),
    ensures
        final(out)@ == old(out)@ + spec_bits_desc(b, hi as int, lo as int),
{
    let mut k: usize = hi;
    while k > lo
        invariant
            b.inv(),
            lo <= k <= hi,
            hi <= b.capacity(),
            out@ == old(out)@ + spec_bits_desc(b, hi as int, k as int),
        decreases k,
    {
        k = k - 1;
        if b.get_at_index(k) {
            out.append("1");
        } else {
            out.append("0");
        }
        proof {
            reveal_strlit("0");
            reveal_strlit("1");
            assert(out@ =~= old(out)@ + spec_bits_desc(b, hi as int, k as int));
        }
    }
}

/// Renders a board as a grouped binary literal: the cell bits from the
/// most significant down, one underscore-separated group per lane, with
/// any nonzero padding bits set off in parentheses.
#[verifier::rlimit(60)]
pub fn fmt_bitboard_debug<B: Bitboard>(b: &B, storage_bits: usize) -> (r: String)
    requires
        b.inv(),
        1 <= b.spec_width(),
        1 <= b.spec_height(),
        b.spec_width() * b.spec_height() <= storage_bits <= b.capacity(),
    ensures
        r@ == spec_debug(b, storage_bits as int),
{
    proof {
        reveal_strlit("0b");
        reveal_strlit("(");
        reveal_strlit(")");
        reveal_strlit("_");
        b.lemma_inv();
    }
    let w = b.width();
    let h = b.height();
    let total: usize = w as usize * h as usize;
    let g: usize = if b.col_major() {
        h as usize
    } else {
        w as usize
    };
    let ghost gi = g as int;
    let mut has_pad = false;
    let mut j: usize = total;
    while j < storage_bits
        invariant
            b.inv(),
            total <= j <= storage_bits,
            storage_bits <= b.capacity(),
            has_pad == exists|t: int| total <= t < j && #[trigger] b.bit_at(t),
        decreases storage_bits - j,
    {
        if b.get_at_index(j) {
            has_pad = true;
        }
        j = j + 1;
    }
    let mut out = String::from_str("0b");
    if has_pad {
        out.append("(");
        append_bits_desc(&mut out, b, storage_bits, total);
        out.append(")");
    }
    let ghost head = out@;
    proof {
        assert(head =~= seq!['0', 'b'] + (if exists|t: int|
            total <= t < storage_bits && #[trigger] b.bit_at(t) {
            seq!['('] + spec_bits_desc(b, storage_bits as int, total as int) + seq![')']
        } else {
            Seq::<char>::empty()
        }));
        assert(total as int / gi * gi == total && total as int / gi >= 0) by (nonlinear_arith)
            requires
                gi >= 1,
                total == b.spec_width() * b.spec_height(),
                gi == b.spec_width() || gi == b.spec_height(),
        ;
    }
    let ngroups: usize = total / g;
    let mut rg: usize = ngroups;
    while rg > 0
        invariant
            b.inv(),
            gi == g as int,
            g >= 1,
            rg <= ngroups,
            ngroups == total as int / gi,
            total as int == ngroups * gi,
            total <= b.capacity(),
            out@ == head + spec_groups(b, ngroups as int, gi).take(
                spec_groups(b, ngroups as int, gi).len() - spec_groups(b, rg as int, gi).len(),
            ),
            spec_groups(b, rg as int, gi).len() <= spec_groups(b, ngroups as int, gi).len(),
        decreases rg,
    {
        let ghost before = out@;
        proof {
            assert(((rg - 1) as int) * gi >= 0 && ((rg - 1) as int) * gi <= (rg as int) * gi && (
            rg as int) * gi <= (ngroups as int) * gi) by (nonlinear_arith)
                requires
                    1 <= rg as int,
                    rg as int <= ngroups as int,
                    gi >= 1,
            ;
            assert((rg as int) * gi <= total as int);
        }
        append_bits_desc(&mut out, b, rg * g, (rg - 1) * g);
        if rg > 1 {
            out.append("_");
        }
        proof {
            reveal_strlit("_");
            assert(out@ =~= before + (spec_bits_desc(b, rg as int * gi, (rg - 1) as int * gi) + (
            if rg as int > 1 {
                seq!['_']
            } else {
                Seq::<char>::empty()
            })));
            lemma_groups_prefix(b, ngroups as int, rg as int, gi);
            lemma_groups_prefix(b, ngroups as int, rg as int - 1, gi);
            let big = spec_groups(b, ngroups as int, gi);
            let piece = spec_bits_desc(b, rg as int * gi, (rg - 1) as int * gi) + (if rg as int
                > 1 {
                seq!['_']
            } else {
                Seq::<char>::empty()
            });
            let s1 = spec_groups(b, rg as int, gi);
            let s0 = spec_groups(b, rg as int - 1, gi);
            let a = big.len() - s1.len();
            assert(s1 == piece + s0);
            assert(big.take(big.len() - s0.len()) =~= big.take(a as int) + piece) by {
                assert(s1.len() == piece.len() + s0.len());
                assert forall|k: int|
                    0 <= k < a + piece.len() implies big.take(big.len() - s0.len())[k] == (
                big.take(a as int) + piece)[k] by {
                    if k >= a {
                        assert(big[k] == big.skip(a as int)[k - a]);
                        assert(big.skip(a as int) =~= s1);
                        assert(s1[k - a] == piece[k - a]);
                    }
                }
            }
            assert(out@ =~= head + big.take(big.len() - s0.len()));
        }
        rg = rg - 1;
    }
    proof {
        assert(out@ =~= head + spec_groups(b, ngroups as int, gi));
        assert(out@ =~= spec_debug(b, storage_bits as int));
    }
    out
}

/// A shorter run of groups is a suffix of a longer one.
proof fn lemma_groups_prefix<B: Bitboard>(b: &B, rows: int, part: int, g: int)
    requires
        0 <= part <= rows,
    ensures
        spec_groups(b, part, g).len() <= spec_groups(b, rows, g).len(),
        spec_groups(b, rows, g).skip(
            spec_groups(b, rows, g).len() - spec_groups(b, part, g).len(),
        ) =~= spec_groups(b, part, g),
    decreases rows,
{
    if part < rows {
        lemma_groups_prefix(b, rows - 1, part, g);
        assert(spec_groups(b, rows, g).skip(
            spec_groups(b, rows, g).len() - spec_groups(b, part, g).len(),
        ) =~= spec_groups(b, rows - 1, g).skip(
            spec_groups(b, rows - 1, g).len() - spec_groups(b, part, g).len(),
        ));
    }
}

/// A shorter run of rows is a suffix of a longer one.
proof fn lemma_rows_prefix<B: Bitboard>(b: &B, rows: int, part: int, lw: int, wclip: int)
    requires
        0 <= part <= rows,
    ensures
        spec_rows(b, part, lw, wclip).len() <= spec_rows(b, rows, lw, wclip).len(),
        spec_rows(b, rows, lw, wclip).skip(
            spec_rows(b, rows, lw, wclip).len() - spec_rows(b, part, lw, wclip).len(),
        ) =~= spec_rows(b, part, lw, wclip),
    decreases rows,
{
    if part < rows {
        lemma_rows_prefix(b, rows - 1, part, lw, wclip);
        assert(spec_rows(b, rows, lw, wclip) == spec_row(b, rows - 1, lw, wclip) + spec_rows(
            b,
            rows - 1,
            lw,
            wclip,
        ));
        assert(spec_rows(b, rows, lw, wclip).skip(
            spec_rows(b, rows, lw, wclip).len() - spec_rows(b, part, lw, wclip).len(),
        ) =~= spec_rows(b, rows - 1, lw, wclip).skip(
            spec_rows(b, rows - 1, lw, wclip).len() - spec_rows(b, part, lw, wclip).len(),
        ));
    }
}

} // verus!
