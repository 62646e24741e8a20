//! A bidirectional codec between a compact bitboard-based chess position
//! representation and the Forsyth-Edwards Notation (FEN) text format.
//!
//! The library models the minimal state of a chess position snapshot: piece
//! placement, side to move, castling rights, en-passant target, half-move
//! clock and full-move number. It offers a standard starting position, piece
//! lookup by square, and the two conversions between `GameState` and FEN text.

pub mod bits;
pub mod board;
pub mod codec;
pub mod laws;
pub mod piece;

