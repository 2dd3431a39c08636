//! Scenario tests: the coordinate round trip, the extract/deposit round
//! trip, the pop-lowest-bit traversal, mask crossings, lane round trips,
//! the border formulas, the ray union, and the array-backed full board.

use bitboard::board::{BitIter, Bitboard};
use bitboard::large_bitboard::LargeBitboard;
use bitboard::medium_bitboard::MediumBitboard;
use bitboard::render::{fmt_bitboard_debug, fmt_bitboard_display};
use bitboard::small_bitboard::SmallBitboard;

#[test]
fn coords_roundtrip() {
    for cm in [false, true] {
        for i in 0..(7usize * 9) {
            let (x, y) = SmallBitboard::coords_from_index(7, 9, cm, i);
            assert_eq!(SmallBitboard::index_from_coords(7, 9, cm, x, y), i);
        }
    }
    assert_eq!(SmallBitboard::index_from_coords(8, 8, false, 3, 3), 27);
    assert_eq!(SmallBitboard::coords_from_index(8, 8, false, 27), (3, 3));
    assert_eq!(SmallBitboard::index_from_coords(8, 8, true, 3, 3), 27);
    assert!(SmallBitboard::is_in_bounds(8, 8, 7, 7));
    assert!(!SmallBitboard::is_in_bounds(8, 8, 8, 0));
    assert!(SmallBitboard::is_index_in_bounds(8, 8, 63));
    assert!(!SmallBitboard::is_index_in_bounds(8, 8, 64));
}

#[test]
fn pext_pdep_roundtrip_small() {
    let g = SmallBitboard::new(8, 8, false, 0x0123_4567_89AB_CDEF);
    let m = SmallBitboard::new(8, 8, false, 0xFF00_F0F0_CCCC_AAAA);
    let packed = g.pext(&m);
    let back = m.pdep(packed);
    assert_eq!(back.storage() & m.storage(), g.storage() & m.storage());
    // a full mask packs the board unchanged
    let full = SmallBitboard::full(8, 8, false);
    assert_eq!(g.pext(&full), g.storage());
}

#[test]
fn pext_pdep_roundtrip_medium() {
    let g = MediumBitboard::new(10, 10, false, 0x0123_4567_89AB_CDEF_1122_3344_5566_7788);
    let m = MediumBitboard::new(10, 10, false, 0x00FF_F0F0_CCCC_AAAA_0F0F_1111_2222_3333);
    let packed = g.pext(&m);
    let back = m.pdep(packed);
    assert_eq!(back.storage() & m.storage(), g.storage() & m.storage());
}

#[test]
fn pext_pdep_roundtrip_large() {
    let mut g = LargeBitboard::empty(19, 19, false);
    let mut m = LargeBitboard::empty(19, 19, false);
    for i in 0..361 {
        if i % 3 == 0 {
            g.set_at_index(i);
        }
        if i % 2 == 0 {
            m.set_at_index(i);
        }
    }
    let packed = g.pext(&m);
    let back = m.pdep(&packed);
    for i in 0..361 {
        assert_eq!(
            back.get_at_index(i) && m.get_at_index(i),
            g.get_at_index(i) && m.get_at_index(i)
        );
    }
}

#[test]
fn pop_lsb_visits_ascending() {
    let board = SmallBitboard::new(7, 8, false, 0b1011000);
    let indices = board.iter_bits().collect_indices();
    assert_eq!(indices, vec![3, 4, 6]);

    let mut board = SmallBitboard::new(8, 8, false, 0x8000_0000_0000_0001);
    assert_eq!(board.lsb(), 0);
    assert_eq!(board.pop_lsb(), 0);
    assert_eq!(board.pop_lsb(), 63);
    assert!(board.is_empty());

    let board = MediumBitboard::new(10, 10, false, (1u128 << 99) | (1u128 << 2));
    let indices = board.iter_bits().collect_indices();
    assert_eq!(indices, vec![2, 99]);

    let mut board = LargeBitboard::empty(19, 19, false);
    board.set_at_index(0);
    board.set_at_index(70);
    board.set_at_index(360);
    let indices = board.iter_bits().collect_indices();
    assert_eq!(indices, vec![0, 70, 360]);
}

#[test]
fn row_col_mask_cross() {
    for cm in [false, true] {
        for x in 0..7u8 {
            for y in 0..9u8 {
                let rm = SmallBitboard::row_mask(7, 9, cm, y);
                let ck = SmallBitboard::col_mask(7, 9, cm, x);
                let cross = rm.bitand(ck);
                assert_eq!(cross.count(), 1);
                let idx = SmallBitboard::index_from_coords(7, 9, cm, x, y);
                assert_eq!(cross.storage(), 1u64 << idx);
            }
        }
    }
}

#[test]
fn insert_extract_row_roundtrip() {
    let mut b = SmallBitboard::new(8, 8, false, 0x1234_5678_9ABC_DEF0);
    b.insert_row(3, 0x1AB);
    assert_eq!(b.extract_row(3), 0xAB);

    let mut b = MediumBitboard::new(13, 9, false, 0x1234_5678_9ABC_DEF0);
    b.insert_row(2, 0x3FFFF);
    assert_eq!(b.extract_row(2), 0x1FFF);

    let mut b = SmallBitboard::new(8, 8, true, 0x1234_5678_9ABC_DEF0);
    b.insert_col(5, 0xC3);
    assert_eq!(b.extract_col(5), 0xC3);
}

#[test]
fn borders_8x8() {
    let row0 = SmallBitboard::row_mask(8, 8, false, 0);
    assert_eq!(row0.storage(), 0xFF);
    let col0 = SmallBitboard::col_mask(8, 8, false, 0);
    assert_eq!(col0.storage(), 0x0101_0101_0101_0101);
    let south = SmallBitboard::south_border(8, 8, false);
    assert_eq!(south.storage(), row0.storage());
    let north = SmallBitboard::north_border(8, 8, false);
    let row7 = SmallBitboard::row_mask(8, 8, false, 7);
    assert_eq!(north.storage(), row7.storage());
}

#[test]
fn rook_slides_are_ray_unions() {
    let rook_dirs = vec![(1, 0), (0, -1), (-1, 0), (0, 1)];
    let moves = SmallBitboard::generate_sliding_moves(&rook_dirs, 8, 8, false);
    let n = SmallBitboard::generate_ray_n_table(8, 8, false);
    let s = SmallBitboard::generate_ray_s_table(8, 8, false);
    let e = SmallBitboard::generate_ray_e_table(8, 8, false);
    let w = SmallBitboard::generate_ray_w_table(8, 8, false);
    let union = n[27].bitor(s[27]).bitor(e[27]).bitor(w[27]);
    assert_eq!(moves[27].storage(), union.storage());
    // the lane-accelerated generator agrees
    let moves2 = SmallBitboard::generate_sliding_moves2(&rook_dirs, 8, 8, false);
    assert_eq!(moves[27].storage(), moves2[27].storage());
    for sq in 0..64 {
        assert_eq!(moves[sq].storage(), moves2[sq].storage());
    }
}

#[test]
fn full_19x19_board() {
    let full = LargeBitboard::full(19, 19, false);
    assert_eq!(full.storage().len(), 6);
    assert_eq!(full.count(), 361);
    for i in 0..361 {
        assert!(full.get_at_index(i));
    }
    for i in 361..384 {
        assert!(!full.get_at_index(i));
    }
}

#[test]
fn all_subsets_enumerates() {
    let b = SmallBitboard::new(8, 8, false, 0b101);
    let subsets = b.all_subsets();
    let values: Vec<u64> = subsets.iter().map(|s| s.storage()).collect();
    assert_eq!(values, vec![0b000, 0b001, 0b100, 0b101]);

    let b = MediumBitboard::new(10, 10, false, 0b1100);
    let subsets = b.all_subsets();
    let values: Vec<u128> = subsets.iter().map(|s| s.storage()).collect();
    assert_eq!(values, vec![0b0000, 0b0100, 0b1000, 0b1100]);
}

#[test]
fn jump_moves_knight_center() {
    const KNIGHT_OFFSETS: &[(i8, i8)] = &[
        (1, 2),
        (2, 1),
        (2, -1),
        (1, -2),
        (-1, -2),
        (-2, -1),
        (-2, 1),
        (-1, 2),
    ];
    let moves = SmallBitboard::generate_jump_moves(KNIGHT_OFFSETS, 8, 8, false);
    // from d4 (x=3, y=3) a knight reaches eight squares
    assert_eq!(moves[27].count(), 8);
    assert!(moves[27].get(4, 5));
    assert!(moves[27].get(5, 4));
    assert!(moves[27].get(1, 2));
    assert!(!moves[27].get(3, 3));
    // from a corner it reaches two
    assert_eq!(moves[0].count(), 2);
    assert!(moves[0].get(1, 2));
    assert!(moves[0].get(2, 1));
}

#[test]
fn word_boundary_shifts() {
    let mut b = LargeBitboard::empty(19, 19, false);
    b.set_at_index(60);
    let shifted = b.clone().shl(10);
    assert!(shifted.get_at_index(70));
    assert_eq!(shifted.count(), 1);
    let back = shifted.shr(10);
    assert!(back.get_at_index(60));
    assert_eq!(back.count(), 1);
    // shifting everything out empties the board
    let gone = b.shl(384);
    assert!(gone.is_empty());

    let s = SmallBitboard::new(8, 8, false, 0xFF);
    assert_eq!(s.shl(8).storage(), 0xFF00);
    assert_eq!(s.shr(4).storage(), 0x0F);
}

#[test]
fn algebra_and_state() {
    let a = SmallBitboard::new(8, 8, false, 0b1100);
    let b = SmallBitboard::new(8, 8, false, 0b1010);
    assert_eq!(a.bitand(b).storage(), 0b1000);
    assert_eq!(a.bitor(b).storage(), 0b1110);
    assert_eq!(a.bitxor(b).storage(), 0b0110);
    assert_eq!(a.not().storage(), !0b1100u64);
    assert!(a.intersects(&b));
    assert!(!a.intersects(&SmallBitboard::new(8, 8, false, 0b0011)));
    assert!(a.any());
    assert!(!a.is_empty());
    assert!(SmallBitboard::empty(8, 8, false).is_empty());
    assert_eq!(a.count(), 2);
    assert_eq!(a.flipped().count(), 62);

    let mut c = SmallBitboard::empty(8, 8, false);
    c.set(3, 3);
    assert!(c.get(3, 3));
    assert_eq!(c.storage(), 1 << 27);
    c.toggle_at_index(27);
    assert!(c.is_empty());
    c.set_value_at_index(5, true);
    assert!(c.get_at_index(5));
    c.reset_at_index(5);
    assert!(c.is_empty());
    assert_eq!(c.width(), 8);
    assert_eq!(c.height(), 8);
    assert!(!c.col_major());
    let d = SmallBitboard::default();
    assert_eq!(d.storage(), 0);
    assert_eq!(d.width(), 8);
}

#[test]
fn rendering_small_grid() {
    let mut b = SmallBitboard::new(2, 2, false, 0);
    b.set(0, 0);
    let shown = fmt_bitboard_display(&b);
    assert_eq!(shown, " 1 | ..\n 0 | #.\n     01\n");
    let dbg = fmt_bitboard_debug(&b, 8);
    assert_eq!(dbg, "0b00_01");
    // a set padding bit appears in parentheses
    let mut p = SmallBitboard::new(2, 2, false, 0);
    p.set_at_index(0);
    p.set_at_index(3);
    p.set_at_index(5);
    let dbg = fmt_bitboard_debug(&p, 8);
    assert_eq!(dbg, "0b(0010)10_01");
}

#[test]
fn column_major_layout() {
    // on a 3x2 column-major board the index runs down each column first
    assert_eq!(SmallBitboard::index_from_coords(3, 2, true, 0, 0), 0);
    assert_eq!(SmallBitboard::index_from_coords(3, 2, true, 0, 1), 1);
    assert_eq!(SmallBitboard::index_from_coords(3, 2, true, 1, 0), 2);
    assert_eq!(SmallBitboard::index_from_coords(3, 2, true, 2, 1), 5);
    let rm = SmallBitboard::row_mask(3, 2, true, 0);
    assert_eq!(rm.storage(), 0b010101);
    let cm = SmallBitboard::col_mask(3, 2, true, 1);
    assert_eq!(cm.storage(), 0b001100);
    let west = SmallBitboard::west_border(3, 2, true);
    assert_eq!(west.storage(), 0b000011);
    let south = SmallBitboard::south_border(3, 2, true);
    assert_eq!(south.storage(), 0b010101);
}

#[test]
fn diagonal_tables() {
    let inc = SmallBitboard::generate_diag_inc_table(8, 8, false);
    // through d4 (x=3, y=3): the long a1-h8 diagonal
    assert_eq!(inc[27].storage(), 0x8040_2010_0804_0201);
    let dec = SmallBitboard::generate_diag_dec_table(8, 8, false);
    // through a1: the single corner square
    assert_eq!(dec[0].storage(), 0x1);
    // through b1 (x=1, y=0): b1 and a2
    assert_eq!(dec[1].storage(), (1 << 1) | (1 << 8));
}

#[test]
fn ray_between_squares() {
    // a1 to d4: the two diagonal squares strictly between
    let b = SmallBitboard::ray_between_mask(8, 8, false, 0, 27);
    assert_eq!(b.storage(), (1u64 << 9) | (1u64 << 18));
    // a1 to d1: the two squares of the first rank strictly between
    let b = SmallBitboard::ray_between_mask(8, 8, false, 0, 3);
    assert_eq!(b.storage(), (1u64 << 1) | (1u64 << 2));
    // the interval is symmetric
    let b = SmallBitboard::ray_between_mask(8, 8, false, 3, 0);
    assert_eq!(b.storage(), (1u64 << 1) | (1u64 << 2));
    // adjacent squares have nothing between them
    let b = SmallBitboard::ray_between_mask(8, 8, false, 0, 1);
    assert_eq!(b.storage(), 0);
    // unaligned squares give the empty set
    let b = SmallBitboard::ray_between_mask(8, 8, false, 0, 10);
    assert_eq!(b.storage(), 0);
}

#[test]
fn array_subtract_borrows() {
    // set bit 64 alone, subtract 1: the low word becomes all ones
    let mut b = LargeBitboard::empty(19, 19, false);
    b.set_at_index(64);
    b.sub_assign(1);
    assert_eq!(b.storage()[0], u64::MAX);
    assert_eq!(b.storage()[1], 0);
    // subtracting from a small value rebuilds a low mask
    let mut c = LargeBitboard::empty(19, 19, false);
    c.set_at_index(19);
    let c = c.sub(1);
    assert_eq!(c.storage()[0], (1u64 << 19) - 1);
}

#[test]
fn no_wrap_shifts() {
    let mut b = SmallBitboard::empty(8, 8, false);
    b.set(3, 3);
    assert_eq!(b.shift_n().storage(), 1u64 << (4 * 8 + 3));
    assert_eq!(b.shift_s().storage(), 1u64 << (2 * 8 + 3));
    assert_eq!(b.shift_e().storage(), 1u64 << (3 * 8 + 4));
    assert_eq!(b.shift_w().storage(), 1u64 << (3 * 8 + 2));
    assert_eq!(b.shift_ne().storage(), 1u64 << (4 * 8 + 4));
    assert_eq!(b.shift_nw().storage(), 1u64 << (4 * 8 + 2));
    assert_eq!(b.shift_se().storage(), 1u64 << (2 * 8 + 4));
    assert_eq!(b.shift_sw().storage(), 1u64 << (2 * 8 + 2));
    // the borders do not wrap
    let mut top_right = SmallBitboard::empty(8, 8, false);
    top_right.set(7, 7);
    assert!(top_right.shift_n().is_empty());
    assert!(top_right.shift_e().is_empty());
    assert!(top_right.shift_ne().is_empty());
    let mut origin = SmallBitboard::empty(8, 8, false);
    origin.set(0, 0);
    assert!(origin.shift_s().is_empty());
    assert!(origin.shift_w().is_empty());
    assert!(origin.shift_sw().is_empty());
}

#[test]
fn medium_and_large_state_ops() {
    let mut m = MediumBitboard::empty(13, 9, false);
    m.set(12, 8);
    assert!(m.get(12, 8));
    assert_eq!(m.count(), 1);
    assert!(m.any());
    assert_eq!(m.lsb(), 8 * 13 + 12);
    assert_eq!(m.flipped().count(), 127);
    m.toggle_at_index(0);
    assert_eq!(m.count(), 2);
    assert_eq!(m.pop_lsb(), 0);
    assert_eq!(m.pop_lsb(), 8 * 13 + 12);
    assert!(m.is_empty());
    assert!(!MediumBitboard::new(13, 9, false, 1).intersects(&MediumBitboard::new(13, 9, false, 2)));
    assert!(MediumBitboard::new(13, 9, false, 3).intersects(&MediumBitboard::new(13, 9, false, 2)));

    let mut g = LargeBitboard::empty(19, 19, false);
    g.set(18, 18);
    assert!(g.get(18, 18));
    assert_eq!(g.count(), 1);
    assert_eq!(g.lsb(), 360);
    let mut h = LargeBitboard::empty(19, 19, false);
    h.set(18, 18);
    assert!(g.intersects(&h));
    h.reset(18, 18);
    assert!(!g.intersects(&h));
    assert_eq!(g.flipped().count(), 383);
    let packed = g.extract_row(18);
    assert_eq!(packed[0], 1 << 18);
    let mut filled = LargeBitboard::empty(19, 19, false);
    let ones = vec![u64::MAX];
    filled.insert_row(3, &ones);
    assert_eq!(filled.count(), 19);
    assert_eq!(filled.extract_row(3)[0], (1 << 19) - 1);
    assert_eq!(filled.extract_col(5)[0], 1 << 3);
}

#[test]
fn column_major_rendering() {
    // on a 2x3 column-major board the debug groups are the columns
    let mut b = SmallBitboard::empty(2, 3, true);
    b.set(0, 0);
    b.set(1, 2);
    assert_eq!(b.storage(), 0b100001);
    assert_eq!(fmt_bitboard_debug(&b, 8), "0b100_001");
    let shown = fmt_bitboard_display(&b);
    assert_eq!(shown, " 2 | .#\n 1 | ..\n 0 | #.\n     01\n");
}

#[test]
fn lowest_bit_sentinels() {
    // on an empty board the lowest-bit index is past every storage bit
    assert_eq!(SmallBitboard::empty(8, 8, false).lsb(), 64);
    assert_eq!(MediumBitboard::empty(10, 10, false).lsb(), 128);
    assert_eq!(LargeBitboard::empty(19, 19, false).lsb(), u32::MAX);
}
