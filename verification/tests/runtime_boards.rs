//! The runtime boards exercised across the three storage backings.

use bitboard::board::{BitIter, Bitboard};
use bitboard::large_bitboard::LargeBitboard;
use bitboard::medium_bitboard::MediumBitboard;
use bitboard::render::{fmt_bitboard_debug, fmt_bitboard_display};
use bitboard::small_bitboard::SmallBitboard;

#[test]
fn small_bitboard_test() {
    let mut board = SmallBitboard::new(7, 8, false, 0);
    println!("{}", fmt_bitboard_display(&board));
    println!("{}", fmt_bitboard_display(&board.east_border_with_same_shape()));
    println!("{}", fmt_bitboard_display(&board.north_border_with_same_shape()));
    println!("{}", fmt_bitboard_display(&board.south_border_with_same_shape()));
    println!("{}", fmt_bitboard_display(&board.west_border_with_same_shape()));
    println!("{}", fmt_bitboard_debug(&board.full_with_same_shape(), 64));
    println!("{}", fmt_bitboard_display(&board.row_mask_with_same_shape(4)));
    println!("{}", fmt_bitboard_display(&board.col_mask_with_same_shape(3)));
    board.bitor_assign(SmallBitboard::new(7, 8, false, 0x0D));
    let mut it = board.iter_bits();
    while let Some(i) = it.next() {
        println!("{}", i);
    }
}

#[test]
fn medium_bitboard_test() {
    let board = MediumBitboard::new(13, 9, false, 0);
    println!("{}", fmt_bitboard_display(&board));
    println!("{}", fmt_bitboard_display(&board.east_border_with_same_shape()));
    println!("{}", fmt_bitboard_display(&board.north_border_with_same_shape()));
    println!("{}", fmt_bitboard_display(&board.south_border_with_same_shape()));
    println!("{}", fmt_bitboard_display(&board.west_border_with_same_shape()));
    println!("{}", fmt_bitboard_debug(&board.full_with_same_shape(), 128));
    println!("{}", fmt_bitboard_display(&board.row_mask_with_same_shape(4)));
    println!("{}", fmt_bitboard_display(&board.col_mask_with_same_shape(3)));
}

#[test]
fn large_bitboard_test() {
    let board = LargeBitboard::empty(19, 19, false);
    println!("{}", fmt_bitboard_display(&board));
    println!("{}", fmt_bitboard_display(&board.east_border_with_same_shape()));
    println!("{}", fmt_bitboard_display(&board.north_border_with_same_shape()));
    println!("{}", fmt_bitboard_display(&board.south_border_with_same_shape()));
    println!("{}", fmt_bitboard_display(&board.west_border_with_same_shape()));
    println!("{}", fmt_bitboard_debug(&board.full_with_same_shape(), 384));
    println!("{}", fmt_bitboard_display(&board.row_mask_with_same_shape(4)));
    println!("{}", fmt_bitboard_display(&board.col_mask_with_same_shape(13)));
}

#[test]
fn test_moves() {
    const KNIGHT_OFFSETS: &[(i8, i8)] = &[
        (1, 2),
        (2, 1),
        (2, -1),
        (1, -2),
        (-1, -2),
        (-2, -1),
        (-2, 1),
        (-1, 2),
    ];
    let moves = SmallBitboard::generate_jump_moves(KNIGHT_OFFSETS, 8, 8, false);
    println!("{}", fmt_bitboard_display(&moves[27]));
    let bishop_dirs = vec![(1, 1), (1, -1), (-1, 1), (-1, -1)];
    let moves = SmallBitboard::generate_sliding_moves(&bishop_dirs, 8, 8, false);
    println!("{}", fmt_bitboard_display(&moves[27]));
    let rook_dirs = vec![(1, 0), (0, -1), (-1, 0), (0, 1)];
    let moves = SmallBitboard::generate_sliding_moves(&rook_dirs, 8, 8, false);
    println!("{}", fmt_bitboard_display(&moves[27]));
    let moves = SmallBitboard::generate_sliding_moves(KNIGHT_OFFSETS, 8, 8, false);
    println!("{}", fmt_bitboard_display(&moves[27]));
    let moves = SmallBitboard::generate_jump_moves(&[(1, 1), (-1, 1)], 8, 8, false);
    println!("{}", fmt_bitboard_display(&moves[27]));
    let moves = SmallBitboard::generate_jump_moves(&[(1, -1), (-1, -1)], 8, 8, false);
    println!("{}", fmt_bitboard_display(&moves[27]));
}
