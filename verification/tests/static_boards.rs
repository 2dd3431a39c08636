//! Fixed board shapes exercised through the runtime boards: an 8 by 8 and
//! a 7 by 7 single-word board, and a 10 by 10 double-word board.

use bitboard::board::{BitIter, Bitboard};
use bitboard::large_bitboard::LargeBitboard;
use bitboard::medium_bitboard::MediumBitboard;
use bitboard::render::{fmt_bitboard_debug, fmt_bitboard_display};
use bitboard::small_bitboard::SmallBitboard;

#[test]
fn test_display() {
    let test = SmallBitboard::new(5, 2, false, 0);
    println!("{}", fmt_bitboard_display(&test));
    println!("{}", fmt_bitboard_debug(&test, 16));
    let idx = SmallBitboard::index_from_coords(5, 2, false, 0, 1);
    let test = SmallBitboard::new(5, 2, false, 1u64 << idx);
    println!("{}", fmt_bitboard_display(&test));
    println!("{}", fmt_bitboard_debug(&test, 16));
    let test = LargeBitboard::empty(15, 80, true);
    println!("{}", fmt_bitboard_display(&test));
    let test = SmallBitboard::borders(8, 8, false);
    println!("{}", fmt_bitboard_display(&test));
    let test = SmallBitboard::west_border(8, 8, false);
    println!("{}", fmt_bitboard_display(&test));
    let test = SmallBitboard::east_border(8, 8, false);
    println!("{}", fmt_bitboard_display(&test));
    let test = SmallBitboard::south_border(8, 8, false);
    println!("{}", fmt_bitboard_display(&test));
    println!("{}", fmt_bitboard_debug(&test, 64));
    let test = SmallBitboard::north_border(8, 8, false);
    println!("{}", fmt_bitboard_display(&test));
    println!("{}", fmt_bitboard_debug(&test, 64));
    let test = SmallBitboard::new(7, 7, false, 0b1011000);
    let mut it = test.iter_bits();
    while let Some(idx) = it.next() {
        println!("bit actif: {}", idx);
    }
}

#[test]
fn test_bitboard8x8() {
    assert_eq!(SmallBitboard::index_from_coords(8, 8, false, 0, 1), 8);
    let test = SmallBitboard::new(8, 8, false, 1u64 << SmallBitboard::index_from_coords(
        8, 8, false, 0, 1,
    ));
    assert_eq!(
        test.storage(),
        0b00000000_00000000_00000000_00000000_00000000_00000000_00000001_00000000
    );

    let test = SmallBitboard::south_border(8, 8, false);
    let repr = fmt_bitboard_debug(&test, 64);
    assert_eq!(
        repr,
        "0b00000000_00000000_00000000_00000000_00000000_00000000_00000000_11111111".to_string()
    );
    assert_eq!(
        test.storage(),
        0b00000000_00000000_00000000_00000000_00000000_00000000_00000000_11111111
    );

    let test = SmallBitboard::north_border(8, 8, false);
    assert_eq!(
        test.storage(),
        0b11111111_00000000_00000000_00000000_00000000_00000000_00000000_00000000
    );

    let test = SmallBitboard::west_border(8, 8, false);
    assert_eq!(
        test.storage(),
        0b00000001_00000001_00000001_00000001_00000001_00000001_00000001_00000001
    );

    let test = SmallBitboard::east_border(8, 8, false);
    assert_eq!(
        test.storage(),
        0b10000000_10000000_10000000_10000000_10000000_10000000_10000000_10000000
    );

    let test = SmallBitboard::full(8, 8, false);
    for i in 0..8 {
        assert_eq!(0xFF, test.extract_row(i));
    }
    for i in 0..8 {
        assert_eq!(0xFF, test.extract_col(i));
    }

    let rays_ne = SmallBitboard::generate_ray_ne_table(8, 8, false);
    println!("{}", fmt_bitboard_display(&rays_ne[44]));
    let rays_nw = SmallBitboard::generate_ray_nw_table(8, 8, false);
    println!("{}", fmt_bitboard_display(&rays_nw[44]));
    let rays_se = SmallBitboard::generate_ray_se_table(8, 8, false);
    println!("{}", fmt_bitboard_display(&rays_se[44]));
    let rays_n = SmallBitboard::generate_ray_n_table(8, 8, false);
    println!("{}", fmt_bitboard_display(&rays_n[44]));
    let rays_s = SmallBitboard::generate_ray_s_table(8, 8, false);
    println!("{}", fmt_bitboard_display(&rays_s[44]));
    let rays_e = SmallBitboard::generate_ray_e_table(8, 8, false);
    println!("{}", fmt_bitboard_display(&rays_e[44]));
    let rays_w = SmallBitboard::generate_ray_w_table(8, 8, false);
    println!("{}", fmt_bitboard_display(&rays_w[44]));

    let test = SmallBitboard::south_border(8, 8, false);
    assert_eq!(0, test.extract_row(1));
}

#[test]
fn test_bitboard7x7() {
    assert_eq!(SmallBitboard::index_from_coords(7, 7, false, 0, 1), 7);
    let test = SmallBitboard::new(7, 7, false, 1u64 << SmallBitboard::index_from_coords(
        7, 7, false, 0, 1,
    ));
    assert_eq!(test.storage(), 0b0000000_0000000_0000000_0000000_0000000_0000001_0000000);

    let test = SmallBitboard::south_border(7, 7, false);
    let repr = fmt_bitboard_debug(&test, 64);
    assert_eq!(
        repr,
        "0b0000000_0000000_0000000_0000000_0000000_0000000_1111111".to_string()
    );
    assert_eq!(test.storage(), 0b0000000_0000000_0000000_0000000_0000000_0000000_1111111);

    let test = SmallBitboard::north_border(7, 7, false);
    assert_eq!(test.storage(), 0b1111111_0000000_0000000_0000000_0000000_0000000_0000000);

    let test = SmallBitboard::west_border(7, 7, false);
    assert_eq!(test.storage(), 0b0000001_0000001_0000001_0000001_0000001_0000001_0000001);

    let test = SmallBitboard::east_border(7, 7, false);
    assert_eq!(test.storage(), 0b1000000_1000000_1000000_1000000_1000000_1000000_1000000);

    let test = SmallBitboard::full(7, 7, false);
    for i in 0..7 {
        assert_eq!(0x7F, test.extract_row(i));
    }
    for i in 0..7 {
        assert_eq!(0x7F, test.extract_col(i));
    }

    let test = SmallBitboard::south_border(7, 7, false);
    assert_eq!(0, test.extract_row(1));
}

#[test]
fn test_bitboard10x10() {
    assert_eq!(MediumBitboard::index_from_coords(10, 10, false, 0, 1), 10);

    let test = MediumBitboard::new(10, 10, false, 1u128 << MediumBitboard::index_from_coords(
        10, 10, false, 0, 1,
    ));
    assert_eq!(
        test.storage(),
        0b0000000000_0000000000_0000000000_0000000000_0000000000_0000000000_0000000000_0000000000_0000000001_0000000000u128
    );

    let test = MediumBitboard::south_border(10, 10, false);
    assert_eq!(
        test.storage(),
        0b0000000000_0000000000_0000000000_0000000000_0000000000_0000000000_0000000000_0000000000_0000000000_1111111111u128
    );
    let repr = fmt_bitboard_debug(&test, 128);
    assert_eq!(
        repr,
        "0b0000000000_0000000000_0000000000_0000000000_0000000000_0000000000_0000000000_0000000000_0000000000_1111111111".to_string()
    );

    let test = MediumBitboard::north_border(10, 10, false);
    assert_eq!(
        test.storage(),
        0b1111111111_0000000000_0000000000_0000000000_0000000000_0000000000_0000000000_0000000000_0000000000_0000000000u128
    );

    let test = MediumBitboard::west_border(10, 10, false);
    assert_eq!(
        test.storage(),
        0b0000000001_0000000001_0000000001_0000000001_0000000001_0000000001_0000000001_0000000001_0000000001_0000000001u128
    );

    let test = MediumBitboard::east_border(10, 10, false);
    assert_eq!(
        test.storage(),
        0b1000000000_1000000000_1000000000_1000000000_1000000000_1000000000_1000000000_1000000000_1000000000_1000000000u128
    );

    let test = MediumBitboard::full(10, 10, false);
    for i in 0..10 {
        assert_eq!(0b1111111111, test.extract_row(i));
    }
    for i in 0..10 {
        assert_eq!(0b1111111111, test.extract_col(i));
    }

    let test = MediumBitboard::south_border(10, 10, false);
    assert_eq!(0, test.extract_row(1));

    let mut test = MediumBitboard::full(10, 10, false);
    test.insert_col(0, 0);
    println!("{}", fmt_bitboard_display(&test));
    assert_eq!(0, test.extract_col(0));
    test.insert_row(0, 0);
    println!("{}", fmt_bitboard_display(&test));
    assert_eq!(0, test.extract_row(0));
    let full = MediumBitboard::full(10, 10, false);
    test.insert_col(0, full.storage());
    println!("{}", fmt_bitboard_display(&test));
    assert_eq!((1 << 10) - 1, test.extract_col(0));
    test.insert_row(0, full.storage());
    println!("{}", fmt_bitboard_display(&test));
    assert_eq!((1 << 10) - 1, test.extract_row(0));

    let test = MediumBitboard::full(10, 10, false);
    println!("{}", fmt_bitboard_display(&test.shr(10)));
    println!("{}", fmt_bitboard_display(&test.shl(10)));

    let neighbors = SmallBitboard::generate_neighbors_8_table(8, 8, false);
    println!("{}", fmt_bitboard_display(&neighbors[27]));
}
