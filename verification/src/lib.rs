//! A chess position and move-generation engine.
//!
//! The crate models a board as an 8x8 grid, enumerates the pseudo-legal moves
//! of a piece and of a side, applies a move to a board, detects whether a
//! king is attacked, and filters pseudo-legal moves down to legal ones. It
//! also imports a position from text in Forsyth-Edwards notation. Every
//! executable function carries a contract over the mathematical model in
//! [`board`], and Verus proves the body against it.

pub mod apply;
pub mod board;
pub mod distinct;
pub mod error;
pub mod fen;
pub mod legality;
pub mod movegen;
pub mod rules;
pub mod text;

pub use crate::apply::apply_move;
pub use crate::board::{
    opposite, BoardState, CastlingState, Color, GameState, Move, Piece, PieceKind, Square,
    SquareContent,
};
pub use crate::error::{InputError, InternalInvariantViolation};
pub use crate::fen::{
    parse_fen, parse_fen_active, parse_fen_board, parse_fen_castling, parse_fen_en_passant,
    parse_fen_row, parse_square,
};
pub use crate::legality::{get_legal_moves, in_check};
pub use crate::movegen::{get_piece_pseudolegal_moves, get_pseudolegal_moves, in_bounds};
