//! The two kinds of failure: text that cannot be imported, and an operation
//! asked for in a state that no valid use of the engine reaches.

use vstd::prelude::*;

verus! {

/// Why a position text was rejected. The text is at fault, never the engine.
#[derive(Clone, Copy, Debug, PartialEq, Eq, Structural)]
pub enum InputError {
    /// The text has no board field.
    MissingBoard,
    /// The text has no active-color field.
    MissingActiveColor,
    /// The text has no castling field.
    MissingCastling,
    /// The text has no en-passant field.
    MissingEnPassant,
    /// The board field does not have eight rows.
    WrongRowCount,
    /// A row of the board field covers more than eight squares.
    RowOverflow,
    /// A row of the board field has a character that is neither a piece
    /// letter nor a digit.
    UnknownPieceCharacter,
    /// The active-color field is neither `w` nor `b`.
    InvalidActiveColor,
    /// The castling field has a character other than `K`, `Q`, `k`, `q`.
    InvalidCastling,
    /// A square token has fewer than two characters.
    SquareTooShort,
    /// A square token does not start with a letter.
    InvalidSquareFile,
    /// What follows the file letter of a square token is not one digit.
    InvalidSquareRank,
    /// A square token names a file beyond `h` or a rank outside 1 to 8.
    SquareOutOfBounds,
}

/// An operation was asked for that no valid use of the engine asks for. It
/// signals a fault of the calling program and is a type of its own, so that
/// it cannot be taken for an [`InputError`].
#[derive(Clone, Copy, Debug, PartialEq, Eq, Structural)]
pub enum InternalInvariantViolation {
    /// A promotion was applied whose origin square is empty.
    PromotionFromEmptySquare,
    /// A castling move was applied; castling is not implemented.
    CastlingUnimplemented,
}

} // verus!
