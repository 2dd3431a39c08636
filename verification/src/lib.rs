//! A generic 2D bit-grid engine for rectangular boards up to 255x255 cells.
//!
//! Each cell of a board is one bit. Three storage backings implement one
//! contract: a single 64-bit word, a 128-bit double word, and an array of
//! 64-bit words. On top of the storage sit parallel bit extract/deposit,
//! a multi-word shift engine, and generators for border, row, column, ray,
//! diagonal and neighborhood masks as well as sliding and jump attack tables.

pub mod bitops;
pub mod bitops128;
pub mod board;
pub mod coords;
pub mod lanes;
pub mod lanes128;
pub mod large_bitboard;
pub mod medium_bitboard;
pub mod render;
pub mod shape;
pub mod small_bitboard;
pub mod storage;
pub mod tables;
