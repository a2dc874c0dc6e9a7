//! Move application: the successor board of a board and a move.

use crate::board::{
    grid_set, grid_wf, lemma_same_squares, on_board, same_squares, BoardState, Grid, Move, Piece,
    SquareContent,
};
use crate::error::InternalInvariantViolation;
use vstd::prelude::*;

verus! {

/// The grid after a piece has gone from `origin` to `target`: the target
/// holds `arriving`, the origin is empty, every other square is as before.
pub open spec fn relocate(
    g: Grid,
    ox: int,
    oy: int,
    tx: int,
    ty: int,
    arriving: SquareContent,
) -> Grid {
    grid_set(grid_set(g, tx, ty, arriving), ox, oy, SquareContent::Empty)
}

/// The grid that a move leads to, or the reason why it cannot be applied.
///
/// A plain move carries what the origin holds to the target. A promotion
/// does the same and changes the kind of the piece, keeping its color; from
/// an empty origin it fails. Castling is not implemented and fails.
pub open spec fn successor(g: Grid, m: Move) -> Result<Grid, InternalInvariantViolation> {
    match m {
        Move::Normal { origin, target } => Ok(
            relocate(
                g,
                origin.0 as int,
                origin.1 as int,
                target.0 as int,
                target.1 as int,
                g[origin.0 as int][origin.1 as int],
            ),
        ),
        Move::Promote { origin, target, kind } => match g[origin.0 as int][origin.1 as int] {
            SquareContent::Filled(piece) => Ok(
                relocate(
                    g,
                    origin.0 as int,
                    origin.1 as int,
                    target.0 as int,
                    target.1 as int,
                    SquareContent::Filled(Piece { color: piece.color, kind }),
                ),
            ),
            SquareContent::Empty => Err(InternalInvariantViolation::PromotionFromEmptySquare),
        },
        Move::CastleK => Err(InternalInvariantViolation::CastlingUnimplemented),
        Move::CastleQ => Err(InternalInvariantViolation::CastlingUnimplemented),
    }
}

/// The result is what applying the move to the board gives: the board that
/// stands for the successor grid, or the error for which there is none.
pub open spec fn is_successor(
    result: Result<BoardState, InternalInvariantViolation>,
    bs: BoardState,
    m: Move,
) -> bool {
    match result {
        Ok(next) => successor(bs@, m) == Ok::<Grid, InternalInvariantViolation>(next@),
        Err(e) => successor(bs@, m) == Err::<Grid, InternalInvariantViolation>(e),
    }
}

/// Applies a move to a board and returns the successor board; the board
/// given is left as it is. Neither the side to move nor the castling rights
/// nor the en-passant target are part of a board, so none of them changes
/// here.
pub fn apply_move(m: &Move, bs: &BoardState) -> (result: Result<
    BoardState,
    InternalInvariantViolation,
>)
    requires
        m.wf(),
    ensures
        is_successor(result, *bs, *m),
{
    let mut bs2 = BoardState { squares: bs.squares };
    assert(bs2@ =~~= bs@);
    match m {
        Move::Normal { origin, target } => {
            let moving = bs2.get(*origin);
            bs2.put(*target, moving);
            bs2.put(*origin, SquareContent::Empty);
            Ok(bs2)
        },
        Move::Promote { origin, target, kind } => {
            match bs2.get(*origin) {
                SquareContent::Filled(piece) => {
                    bs2.put(
                        *target,
                        SquareContent::Filled(Piece { color: piece.color, kind: *kind }),
                    );
                    bs2.put(*origin, SquareContent::Empty);
                    Ok(bs2)
                },
                SquareContent::Empty => Err(InternalInvariantViolation::PromotionFromEmptySquare),
            }
        },
        Move::CastleK => Err(InternalInvariantViolation::CastlingUnimplemented),
        Move::CastleQ => Err(InternalInvariantViolation::CastlingUnimplemented),
    }
}

/// A move can be applied exactly if it is a plain move, or a promotion
/// whose origin holds a piece.
pub proof fn lemma_successor_defined(g: Grid, m: Move)
    ensures
        successor(g, m) is Ok <==> (m is Normal || (m matches Move::Promote { origin, .. }
            && g[origin.0 as int][origin.1 as int] is Filled)),
        successor(g, m) == Err::<Grid, InternalInvariantViolation>(
            InternalInvariantViolation::CastlingUnimplemented,
        ) <==> (m is CastleK || m is CastleQ),
{
}

/// What a move changes: after a well-formed move on a well-formed grid the
/// grid is well-formed, the origin is empty, and every square other than
/// origin and target holds what it held. The target, where it differs from
/// the origin, holds the piece that stood on the origin, of the kind chosen
/// if the move is a promotion.
pub proof fn lemma_successor_squares(g: Grid, m: Move, next: Grid)
    requires
        grid_wf(g),
        m.wf(),
        successor(g, m) == Ok::<Grid, InternalInvariantViolation>(next),
    ensures
        grid_wf(next),
        m.origin_square() is Some,
        m.target_square() is Some,
        ({
            let origin = m.origin_square()->0;
            let target = m.target_square()->0;
            &&& next[origin.0 as int][origin.1 as int] is Empty
            &&& origin != target ==> match m {
                Move::Promote { kind, .. } => next[target.0 as int][target.1 as int]
                    == SquareContent::Filled(
                    Piece { color: g[origin.0 as int][origin.1 as int]->0.color, kind },
                ),
                _ => next[target.0 as int][target.1 as int] == g[origin.0 as int][origin.1 as int],
            }
            &&& forall|file: int, rank: int|
                on_board(file, rank) && (file, rank) != (origin.0 as int, origin.1 as int) && (
                file,
                rank,
                ) != (target.0 as int, target.1 as int) ==> #[trigger] next[file][rank]
                    == g[file][rank]
        }),
{
}

/// Applying a move has no hidden state. On two boards that hold the same on
/// every square, the same move either fails for the same reason on both, or
/// leads to two boards that again hold the same on every square.
pub proof fn lemma_apply_move_pure(
    m: Move,
    a: BoardState,
    b: BoardState,
    after_a: Result<BoardState, InternalInvariantViolation>,
    after_b: Result<BoardState, InternalInvariantViolation>,
)
    requires
        same_squares(a, b),
        is_successor(after_a, a, m),
        is_successor(after_b, b, m),
    ensures
        match (after_a, after_b) {
            (Ok(next_a), Ok(next_b)) => same_squares(next_a, next_b),
            (Err(e_a), Err(e_b)) => e_a == e_b,
            _ => false,
        },
{
    lemma_same_squares(a, b);
    match (after_a, after_b) {
        (Ok(next_a), Ok(next_b)) => {
            lemma_same_squares(next_a, next_b);
        },
        _ => {},
    }
}

} // verus!
