//! Pseudo-legal move generation: the executable generators, each proved to
//! compute exactly the moves that the rules give.

use crate::board::{
    holds_color, on_board, square_valid, BoardState, Color, Move, PieceKind, Square, SquareContent,
};
use crate::distinct::{lemma_piece_moves_distinct, lemma_side_moves_distinct};
use crate::rules::{
    all_depart_from, all_move_pieces_of, cardinal_moves, diagonal_moves, king_moves, knight_moves,
    landing, lemma_piece_moves_on_board, lemma_side_moves_on_board, moves_before, normal_move,
    pawn_arrival, pawn_capture, pawn_double_push, pawn_moves, pawn_push, piece_moves, promotions,
    ray, side_moves, square_moves,
};
use vstd::prelude::*;
use vstd::seq_lib::lemma_concat_associative;

verus! {

/// Whether both coordinates lie on the board.
pub fn in_bounds(sq: (i32, i32)) -> (inside: bool)
    ensures
        inside == on_board(sq.0 as int, sq.1 as int),
{
    0 <= sq.0 && sq.0 < 8 && 0 <= sq.1 && sq.1 < 8
}

/// Appends the plain move from `origin` to `target`.
fn add_normal_move(origin: Square, target: (i32, i32), moves: &mut Vec<Move>)
    requires
        on_board(target.0 as int, target.1 as int),
    ensures
        final(moves)@ == old(moves)@ + seq![
            normal_move(origin.0 as int, origin.1 as int, target.0 as int, target.1 as int),
        ],
{
    moves.push(Move::Normal { origin, target: (target.0 as usize, target.1 as usize) });
    assert(moves@ =~= old(moves)@ + seq![
        normal_move(origin.0 as int, origin.1 as int, target.0 as int, target.1 as int),
    ]);
}

/// The color of the piece on a square of the board, if there is one.
fn check_square_piece(board: &BoardState, sq: (i32, i32)) -> (found: Option<Color>)
    requires
        on_board(sq.0 as int, sq.1 as int),
    ensures
        match found {
            Some(color) => holds_color(board@, sq.0 as int, sq.1 as int, color),
            None => board@[sq.0 as int][sq.1 as int] is Empty,
        },
{
    match board.squares[sq.0 as usize][sq.1 as usize] {
        SquareContent::Filled(piece) => Some(piece.color),
        SquareContent::Empty => None,
    }
}

/// Appends the move to a square of the board unless a piece of the mover's
/// own color stands there, and tells whether the square was empty.
fn maybe_add_square(
    board: &BoardState,
    origin: Square,
    color: Color,
    target: (i32, i32),
    moves: &mut Vec<Move>,
) -> (free: bool)
    requires
        on_board(target.0 as int, target.1 as int),
    ensures
        final(moves)@ == old(moves)@ + landing(
            board@,
            origin.0 as int,
            origin.1 as int,
            target.0 as int,
            target.1 as int,
            color,
        ),
        free == (board@[target.0 as int][target.1 as int] is Empty),
{
    match check_square_piece(board, target) {
        Some(piece_color) => {
            if piece_color != color {
                add_normal_move(origin, target, moves);
            } else {
                assert(moves@ =~= old(moves)@ + Seq::<Move>::empty());
            }
            false
        },
        None => {
            add_normal_move(origin, target, moves);
            true
        },
    }
}

/// Appends the leap by `(dx, dy)`, if it stays on the board and does not end
/// on a piece of the mover's own color.
fn add_leap(
    board: &BoardState,
    origin: Square,
    color: Color,
    dx: i32,
    dy: i32,
    moves: &mut Vec<Move>,
)
    requires
        square_valid(origin),
        -2 <= dx <= 2,
        -2 <= dy <= 2,
    ensures
        final(moves)@ == old(moves)@ + landing(
            board@,
            origin.0 as int,
            origin.1 as int,
            origin.0 + dx,
            origin.1 + dy,
            color,
        ),
{
    let square = (origin.0 as i32 + dx, origin.1 as i32 + dy);
    if in_bounds(square) {
        maybe_add_square(board, origin, color, square, moves);
    } else {
        assert(moves@ =~= old(moves)@ + Seq::<Move>::empty());
    }
}

/// Appends the moves along one direction, as far as the ray goes.
fn add_ray(
    board: &BoardState,
    origin: Square,
    color: Color,
    dx: i32,
    dy: i32,
    moves: &mut Vec<Move>,
)
    requires
        square_valid(origin),
        -1 <= dx <= 1,
        -1 <= dy <= 1,
    ensures
        final(moves)@ == old(moves)@ + ray(
            board@,
            origin.0 as int,
            origin.1 as int,
            dx as int,
            dy as int,
            color,
            1,
        ),
{
    let ghost g = board@;
    let ghost ox = origin.0 as int;
    let ghost oy = origin.1 as int;
    let ghost before = moves@;
    let mut k: i32 = 1;
    let mut xp: i32 = origin.0 as i32 + dx;
    let mut yp: i32 = origin.1 as i32 + dy;
    assert(1 * dx == dx && 1 * dy == dy);
    while k < 8 && in_bounds((xp, yp))
        invariant_except_break
            before + ray(g, ox, oy, dx as int, dy as int, color, 1) == moves@ + ray(
                g,
                ox,
                oy,
                dx as int,
                dy as int,
                color,
                k as int,
            ),
        invariant
            1 <= k <= 8,
            g == board@,
            ox == origin.0,
            oy == origin.1,
            ox < 8,
            oy < 8,
            -1 <= dx <= 1,
            -1 <= dy <= 1,
            xp == ox + k * dx,
            yp == oy + k * dy,
        ensures
            moves@ == before + ray(g, ox, oy, dx as int, dy as int, color, 1),
        decreases 8 - k,
    {
        let ghost here = moves@;
        let free = maybe_add_square(board, origin, color, (xp, yp), moves);
        if !free {
            assert(moves@ == here + ray(g, ox, oy, dx as int, dy as int, color, k as int));
            break ;
        }
        assert(here + ray(g, ox, oy, dx as int, dy as int, color, k as int) =~= moves@ + ray(
            g,
            ox,
            oy,
            dx as int,
            dy as int,
            color,
            k + 1,
        ));
        assert((k + 1) * dx == k * dx + dx) by (nonlinear_arith);
        assert((k + 1) * dy == k * dy + dy) by (nonlinear_arith);
        k = k + 1;
        xp = xp + dx;
        yp = yp + dy;
    }
    assert(moves@ =~= before + ray(g, ox, oy, dx as int, dy as int, color, 1));
}

/// Appends the moves by which a pawn arrives on a square of the board: the
/// four promotions on the far rank of its color, one plain move elsewhere.
fn add_pawn_arrival(origin: Square, target: (i32, i32), color: Color, moves: &mut Vec<Move>)
    requires
        on_board(target.0 as int, target.1 as int),
    ensures
        final(moves)@ == old(moves)@ + pawn_arrival(
            origin.0 as int,
            origin.1 as int,
            target.0 as int,
            target.1 as int,
            color,
        ),
{
    let queen_rank: i32 = match color {
        Color::White => 7,
        Color::Black => 0,
    };
    if target.1 != queen_rank {
        add_normal_move(origin, target, moves);
    } else {
        let target: Square = (target.0 as usize, target.1 as usize);
        moves.push(Move::Promote { origin, target, kind: PieceKind::Knight });
        moves.push(Move::Promote { origin, target, kind: PieceKind::Bishop });
        moves.push(Move::Promote { origin, target, kind: PieceKind::Rook });
        moves.push(Move::Promote { origin, target, kind: PieceKind::Queen });
        assert(moves@ =~= old(moves)@ + promotions(
            origin.0 as int,
            origin.1 as int,
            target.0 as int,
            target.1 as int,
        ));
    }
}

/// Appends the capture by a pawn on the forward diagonal towards `dx`.
fn add_pawn_capture(
    board: &BoardState,
    origin: Square,
    color: Color,
    dx: i32,
    moves: &mut Vec<Move>,
)
    requires
        square_valid(origin),
        -1 <= dx <= 1,
    ensures
        final(moves)@ == old(moves)@ + pawn_capture(
            board@,
            origin.0 as int,
            origin.1 as int,
            dx as int,
            color,
        ),
{
    let sign: i32 = match color {
        Color::White => 1,
        Color::Black => -1,
    };
    let diag_sq = (origin.0 as i32 + dx, origin.1 as i32 + sign);
    let mut captures = false;
    if in_bounds(diag_sq) {
        if let Some(piece_color) = check_square_piece(board, diag_sq) {
            captures = piece_color != color;
        }
    }
    if captures {
        add_pawn_arrival(origin, diag_sq, color, moves);
    } else {
        assert(moves@ =~= old(moves)@ + Seq::<Move>::empty());
    }
}

/// Appends the pushes of a pawn: by one square, and from its home rank by
/// two.
fn add_pawn_pushes(board: &BoardState, origin: Square, color: Color, moves: &mut Vec<Move>)
    requires
        square_valid(origin),
    ensures
        final(moves)@ == old(moves)@ + (pawn_push(
            board@,
            origin.0 as int,
            origin.1 as int,
            color,
        ) + pawn_double_push(board@, origin.0 as int, origin.1 as int, color)),
{
    let ghost g = board@;
    let ghost ox = origin.0 as int;
    let ghost oy = origin.1 as int;
    let x = origin.0 as i32;
    let y = origin.1 as i32;
    let sign: i32 = match color {
        Color::White => 1,
        Color::Black => -1,
    };
    let home_rank: i32 = match color {
        Color::White => 1,
        Color::Black => 6,
    };
    let push_one_sq = (x, y + sign);
    let push_two_sq = (x, y + 2 * sign);
    if in_bounds(push_one_sq) && check_square_piece(board, push_one_sq).is_none() {
        add_pawn_arrival(origin, push_one_sq, color, moves);
        if y == home_rank && check_square_piece(board, push_two_sq).is_none() {
            add_normal_move(origin, push_two_sq, moves);
            proof {
                lemma_concat_associative(
                    old(moves)@,
                    pawn_push(g, ox, oy, color),
                    pawn_double_push(g, ox, oy, color),
                );
            }
        } else {
            assert(pawn_double_push(g, ox, oy, color) =~= Seq::<Move>::empty());
            assert(pawn_push(g, ox, oy, color) + Seq::<Move>::empty() =~= pawn_push(
                g,
                ox,
                oy,
                color,
            ));
        }
    } else {
        assert(pawn_push(g, ox, oy, color) =~= Seq::<Move>::empty());
        assert(pawn_double_push(g, ox, oy, color) =~= Seq::<Move>::empty());
        assert(moves@ =~= old(moves)@ + (Seq::<Move>::empty() + Seq::<Move>::empty()));
    }
}

/// Appends the moves of a pawn.
fn add_pawn_moves(board: &BoardState, origin: Square, color: Color, moves: &mut Vec<Move>)
    requires
        square_valid(origin),
    ensures
        final(moves)@ == old(moves)@ + pawn_moves(
            board@,
            origin.0 as int,
            origin.1 as int,
            color,
        ),
{
    let ghost g = board@;
    let ghost ox = origin.0 as int;
    let ghost oy = origin.1 as int;
    let ghost before = moves@;
    let ghost pushes = pawn_push(g, ox, oy, color) + pawn_double_push(g, ox, oy, color);
    let ghost left = pawn_capture(g, ox, oy, -1, color);
    let ghost right = pawn_capture(g, ox, oy, 1, color);
    add_pawn_pushes(board, origin, color, moves);
    add_pawn_capture(board, origin, color, -1, moves);
    add_pawn_capture(board, origin, color, 1, moves);
    proof {
        lemma_concat_associative(before, pushes, left);
        lemma_concat_associative(before, pushes + left, right);
    }
}

/// Appends the moves of a bishop.
fn add_diagonal_moves(board: &BoardState, origin: Square, color: Color, moves: &mut Vec<Move>)
    requires
        square_valid(origin),
    ensures
        final(moves)@ == old(moves)@ + diagonal_moves(
            board@,
            origin.0 as int,
            origin.1 as int,
            color,
        ),
{
    add_ray(board, origin, color, 1, 1, moves);
    add_ray(board, origin, color, 1, -1, moves);
    add_ray(board, origin, color, -1, -1, moves);
    add_ray(board, origin, color, -1, 1, moves);
    assert(moves@ =~= old(moves)@ + diagonal_moves(
        board@,
        origin.0 as int,
        origin.1 as int,
        color,
    ));
}

/// Appends the moves of a rook.
fn add_cardinal_moves(board: &BoardState, origin: Square, color: Color, moves: &mut Vec<Move>)
    requires
        square_valid(origin),
    ensures
        final(moves)@ == old(moves)@ + cardinal_moves(
            board@,
            origin.0 as int,
            origin.1 as int,
            color,
        ),
{
    add_ray(board, origin, color, 1, 0, moves);
    add_ray(board, origin, color, -1, 0, moves);
    add_ray(board, origin, color, 0, 1, moves);
    add_ray(board, origin, color, 0, -1, moves);
    assert(moves@ =~= old(moves)@ + cardinal_moves(
        board@,
        origin.0 as int,
        origin.1 as int,
        color,
    ));
}

/// Appends the moves of a knight.
fn add_knight_moves(board: &BoardState, origin: Square, color: Color, moves: &mut Vec<Move>)
    requires
        square_valid(origin),
    ensures
        final(moves)@ == old(moves)@ + knight_moves(
            board@,
            origin.0 as int,
            origin.1 as int,
            color,
        ),
{
    let ghost g = board@;
    let ghost ox = origin.0 as int;
    let ghost oy = origin.1 as int;
    let ghost before = moves@;
    let ghost mut sum = Seq::<Move>::empty();
    assert(moves@ =~= before + sum);
    add_leap(board, origin, color, -1, 2, moves);
    proof {
        let step = landing(g, ox, oy, ox + (-1), oy + (2), color);
        lemma_concat_associative(before, sum, step);
        sum = sum + step;
    }
    add_leap(board, origin, color, 1, 2, moves);
    proof {
        let step = landing(g, ox, oy, ox + (1), oy + (2), color);
        lemma_concat_associative(before, sum, step);
        sum = sum + step;
    }
    add_leap(board, origin, color, 2, 1, moves);
    proof {
        let step = landing(g, ox, oy, ox + (2), oy + (1), color);
        lemma_concat_associative(before, sum, step);
        sum = sum + step;
    }
    add_leap(board, origin, color, 2, -1, moves);
    proof {
        let step = landing(g, ox, oy, ox + (2), oy + (-1), color);
        lemma_concat_associative(before, sum, step);
        sum = sum + step;
    }
    add_leap(board, origin, color, -1, -2, moves);
    proof {
        let step = landing(g, ox, oy, ox + (-1), oy + (-2), color);
        lemma_concat_associative(before, sum, step);
        sum = sum + step;
    }
    add_leap(board, origin, color, 1, -2, moves);
    proof {
        let step = landing(g, ox, oy, ox + (1), oy + (-2), color);
        lemma_concat_associative(before, sum, step);
        sum = sum + step;
    }
    add_leap(board, origin, color, -2, 1, moves);
    proof {
        let step = landing(g, ox, oy, ox + (-2), oy + (1), color);
        lemma_concat_associative(before, sum, step);
        sum = sum + step;
    }
    add_leap(board, origin, color, -2, -1, moves);
    proof {
        let step = landing(g, ox, oy, ox + (-2), oy + (-1), color);
        lemma_concat_associative(before, sum, step);
        sum = sum + step;
    }
    assert(sum =~= knight_moves(g, ox, oy, color));
}

/// Appends the moves of a king.
fn add_king_moves(board: &BoardState, origin: Square, color: Color, moves: &mut Vec<Move>)
    requires
        square_valid(origin),
    ensures
        final(moves)@ == old(moves)@ + king_moves(
            board@,
            origin.0 as int,
            origin.1 as int,
            color,
        ),
{
    let ghost g = board@;
    let ghost ox = origin.0 as int;
    let ghost oy = origin.1 as int;
    let ghost before = moves@;
    let ghost mut sum = Seq::<Move>::empty();
    assert(moves@ =~= before + sum);
    add_leap(board, origin, color, -1, -1, moves);
    proof {
        let step = landing(g, ox, oy, ox + (-1), oy + (-1), color);
        lemma_concat_associative(before, sum, step);
        sum = sum + step;
    }
    add_leap(board, origin, color, -1, 0, moves);
    proof {
        let step = landing(g, ox, oy, ox + (-1), oy + (0), color);
        lemma_concat_associative(before, sum, step);
        sum = sum + step;
    }
    add_leap(board, origin, color, -1, 1, moves);
    proof {
        let step = landing(g, ox, oy, ox + (-1), oy + (1), color);
        lemma_concat_associative(before, sum, step);
        sum = sum + step;
    }
    add_leap(board, origin, color, 0, -1, moves);
    proof {
        let step = landing(g, ox, oy, ox + (0), oy + (-1), color);
        lemma_concat_associative(before, sum, step);
        sum = sum + step;
    }
    add_leap(board, origin, color, 0, 1, moves);
    proof {
        let step = landing(g, ox, oy, ox + (0), oy + (1), color);
        lemma_concat_associative(before, sum, step);
        sum = sum + step;
    }
    add_leap(board, origin, color, 1, -1, moves);
    proof {
        let step = landing(g, ox, oy, ox + (1), oy + (-1), color);
        lemma_concat_associative(before, sum, step);
        sum = sum + step;
    }
    add_leap(board, origin, color, 1, 0, moves);
    proof {
        let step = landing(g, ox, oy, ox + (1), oy + (0), color);
        lemma_concat_associative(before, sum, step);
        sum = sum + step;
    }
    add_leap(board, origin, color, 1, 1, moves);
    proof {
        let step = landing(g, ox, oy, ox + (1), oy + (1), color);
        lemma_concat_associative(before, sum, step);
        sum = sum + step;
    }
    assert(sum =~= king_moves(g, ox, oy, color));
}

/// Appends the pseudo-legal moves of a piece of the given color and kind that
/// stands on `origin`.
fn add_piece_moves(
    board: &BoardState,
    origin: Square,
    color: Color,
    kind: PieceKind,
    moves: &mut Vec<Move>,
)
    requires
        square_valid(origin),
    ensures
        final(moves)@ == old(moves)@ + piece_moves(
            board@,
            origin.0 as int,
            origin.1 as int,
            color,
            kind,
        ),
{
    match kind {
        PieceKind::Pawn => {
            add_pawn_moves(board, origin, color, moves);
        },
        PieceKind::Knight => {
            add_knight_moves(board, origin, color, moves);
        },
        PieceKind::Bishop => {
            add_diagonal_moves(board, origin, color, moves);
        },
        PieceKind::Rook => {
            add_cardinal_moves(board, origin, color, moves);
        },
        PieceKind::Queen => {
            add_diagonal_moves(board, origin, color, moves);
            add_cardinal_moves(board, origin, color, moves);
            proof {
                lemma_concat_associative(
                    old(moves)@,
                    diagonal_moves(board@, origin.0 as int, origin.1 as int, color),
                    cardinal_moves(board@, origin.0 as int, origin.1 as int, color),
                );
            }
        },
        PieceKind::King => {
            add_king_moves(board, origin, color, moves);
        },
    }
}

/// The pseudo-legal moves of a piece of the given color and kind that stands
/// on `origin`. Other squares are read from the board; what the board holds
/// on `origin` itself plays no part. Every move starts from `origin` and
/// lands on a square of the board.
pub fn get_piece_pseudolegal_moves(
    origin: Square,
    color: Color,
    kind: PieceKind,
    board: &BoardState,
) -> (moves: Vec<Move>)
    requires
        square_valid(origin),
    ensures
        moves@ == piece_moves(board@, origin.0 as int, origin.1 as int, color, kind),
        all_depart_from(moves@, origin.0 as int, origin.1 as int),
        moves@.no_duplicates(),
{
    let mut moves = Vec::<Move>::new();
    add_piece_moves(board, origin, color, kind, &mut moves);
    proof {
        let rule = piece_moves(board@, origin.0 as int, origin.1 as int, color, kind);
        assert(moves@ =~= rule);
        lemma_piece_moves_on_board(board@, origin.0 as int, origin.1 as int, color, kind);
        lemma_piece_moves_distinct(board@, origin.0 as int, origin.1 as int, color, kind);
    }
    moves
}

/// The pseudo-legal moves of the side `active`: those of each of its pieces,
/// square by square in the order of the files and, within a file, of the
/// ranks. Every move starts from a square that holds a piece of that side
/// and lands on a square of the board.
pub fn get_pseudolegal_moves(board: &BoardState, active: Color) -> (moves: Vec<Move>)
    ensures
        moves@ == side_moves(board@, active),
        all_move_pieces_of(moves@, board@, active),
        moves@.no_duplicates(),
{
    let mut moves = Vec::<Move>::new();
    let mut i: usize = 0;
    while i < 8
        invariant
            i <= 8,
            moves@ == moves_before(board@, active, (8 * i) as nat),
        decreases 8 - i,
    {
        let mut j: usize = 0;
        while j < 8
            invariant
                i < 8,
                j <= 8,
                moves@ == moves_before(board@, active, (8 * i + j) as nat),
            decreases 8 - j,
        {
            let ghost before = moves@;
            if let SquareContent::Filled(piece) = board.squares[i][j] {
                if piece.color == active {
                    add_piece_moves(board, (i, j), piece.color, piece.kind, &mut moves);
                }
            }
            assert(moves@ =~= before + square_moves(board@, i as int, j as int, active));
            assert((8 * i + j) / 8 == i && (8 * i + j) % 8 == j);
            j += 1;
        }
        i += 1;
    }
    proof {
        lemma_side_moves_on_board(board@, active);
        lemma_side_moves_distinct(board@, active);
    }
    moves
}

} // verus!
