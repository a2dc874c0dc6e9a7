//! Attack detection and the legality filter.
//!
//! Whether a king is attacked is decided by generating every pseudo-legal
//! move of the other side and looking for one that lands on the king. A move
//! is legal if, on the board it leads to, the mover's own king is not
//! attacked. Both cost a full move generation per question; nothing is
//! precomputed.

use crate::apply::{apply_move, successor};
use crate::board::{
    opposite, opposite_color, BoardState, Color, GameState, Grid, Move, Piece, PieceKind,
    SquareContent,
};
use crate::distinct::lemma_filter_distinct;
use crate::movegen::get_pseudolegal_moves;
use crate::rules::{all_move_pieces_of, moves_piece_of, side_moves};
use vstd::prelude::*;

verus! {

/// The move lands on a square that holds the king of `color`.
pub open spec fn strikes_king(g: Grid, m: Move, color: Color) -> bool {
    m.target_square() matches Some(target) && g[target.0 as int][target.1 as int]
        == SquareContent::Filled(Piece { color, kind: PieceKind::King })
}

/// The king of `color` is attacked: some pseudo-legal move of the other
/// side lands on it.
pub open spec fn king_attacked(g: Grid, color: Color) -> bool {
    exists|i: int|
        0 <= i < side_moves(g, opposite_color(color)).len() && strikes_king(
            g,
            #[trigger] side_moves(g, opposite_color(color))[i],
            color,
        )
}

/// The move can be applied, and on the grid it leads to the king of `color`
/// is not attacked.
pub open spec fn keeps_king_safe(g: Grid, m: Move, color: Color) -> bool {
    successor(g, m) matches Ok(next) && !king_attacked(next, color)
}

/// The legal moves of the side `color`: its pseudo-legal moves that keep its
/// own king safe, in the order in which they are generated.
pub open spec fn legal_moves(g: Grid, color: Color) -> Seq<Move> {
    side_moves(g, color).filter(|m: Move| keeps_king_safe(g, m, color))
}

/// Whether the king of `color` is attacked on the board.
pub fn in_check(board: &BoardState, color: Color) -> (attacked: bool)
    ensures
        attacked == king_attacked(board@, color),
{
    let moves = get_pseudolegal_moves(board, opposite(color));
    let mut i: usize = 0;
    while i < moves.len()
        invariant
            i <= moves.len(),
            moves@ == side_moves(board@, opposite_color(color)),
            all_move_pieces_of(moves@, board@, opposite_color(color)),
            forall|k: int| 0 <= k < i ==> !strikes_king(board@, #[trigger] moves@[k], color),
        decreases moves.len() - i,
    {
        let m = moves[i];
        assert(moves_piece_of(moves@[i as int], board@, opposite_color(color)));
        let target = match m {
            Move::Normal { target, .. } => Some(target),
            Move::Promote { target, .. } => Some(target),
            _ => None,
        };
        if let Some(target) = target {
            if let SquareContent::Filled(piece) = board.get(target) {
                if piece.color == color && piece.kind == PieceKind::King {
                    assert(strikes_king(board@, moves@[i as int], color));
                    return true;
                }
            }
        }
        i += 1;
    }
    false
}

/// The legal moves of the side to move: its pseudo-legal moves, each tried
/// on the board, without those after which its own king is attacked. The
/// moves that stay keep the order in which they were generated.
pub fn get_legal_moves(gs: &GameState) -> (moves: Vec<Move>)
    ensures
        moves@ == legal_moves(gs.board@, gs.active),
        forall|i: int|
            0 <= i < moves.len() ==> keeps_king_safe(gs.board@, #[trigger] moves@[i], gs.active),
        all_move_pieces_of(moves@, gs.board@, gs.active),
        moves@.no_duplicates(),
{
    let ghost g = gs.board@;
    let ghost safe = |m: Move| keeps_king_safe(g, m, gs.active);
    let candidates = get_pseudolegal_moves(&gs.board, gs.active);
    let mut moves = Vec::<Move>::new();
    let mut i: usize = 0;
    assert(candidates@.take(0) =~= Seq::<Move>::empty());
    assert(Seq::<Move>::empty().filter(safe) =~= Seq::<Move>::empty()) by {
        reveal(Seq::filter);
    }
    while i < candidates.len()
        invariant
            i <= candidates.len(),
            g == gs.board@,
            safe == (|m: Move| keeps_king_safe(g, m, gs.active)),
            candidates@ == side_moves(g, gs.active),
            all_move_pieces_of(candidates@, g, gs.active),
            moves@ == candidates@.take(i as int).filter(safe),
            forall|k: int|
                0 <= k < moves.len() ==> keeps_king_safe(g, #[trigger] moves@[k], gs.active),
            all_move_pieces_of(moves@, g, gs.active),
        decreases candidates.len() - i,
    {
        let m = candidates[i];
        assert(moves_piece_of(candidates@[i as int], g, gs.active));
        proof {
            assert(candidates@.take(i + 1) =~= candidates@.take(i as int).push(m));
            candidates@.take(i as int).lemma_filter_push(m, safe);
        }
        match apply_move(&m, &gs.board) {
            Ok(bs2) => {
                if !in_check(&bs2, gs.active) {
                    moves.push(m);
                }
            },
            Err(_) => {
                // A generated move is a plain move or a promotion of a piece
                // that stands on its origin, so it can always be applied.
                assert(false);
            },
        }
        i += 1;
    }
    proof {
        assert(candidates@.take(candidates.len() as int) =~= candidates@);
        lemma_filter_distinct(candidates@, safe);
    }
    moves
}

/// A move is legal exactly if it is pseudo-legal and keeps the mover's own
/// king safe: no move after which that king is attacked is among the legal
/// moves, although it is among the pseudo-legal ones.
pub proof fn lemma_legal_iff_safe(g: Grid, color: Color, m: Move)
    ensures
        legal_moves(g, color).contains(m) <==> (side_moves(g, color).contains(m)
            && keeps_king_safe(g, m, color)),
{
    let safe = |m: Move| keeps_king_safe(g, m, color);
    let all = side_moves(g, color);
    if legal_moves(g, color).contains(m) {
        all.lemma_filter_contains_rev(safe, m);
    }
    if all.contains(m) && keeps_king_safe(g, m, color) {
        let i = choose|i: int| 0 <= i < all.len() && all[i] == m;
        all.lemma_filter_contains(safe, i);
    }
}

} // verus!
