//! Bitboard move-generation core for a chess engine: a 64-bit board-set
//! primitive, square indexing, a ray caster for sliding pieces, and
//! perfect-hash (PEXT-indexed) attack tables built once and read in O(1).

pub mod action;
pub mod attacks;
pub mod bitboard;
pub mod bitops;
pub mod color;
pub mod piece;
pub mod position;
pub mod square;
pub mod util;
