//! The movement rules, as spec functions over the grid: which moves a piece
//! has, square by square and ray by ray, and which moves a whole side has.

use crate::board::{
    holds_color, on_board, opposite_color, Color, Grid, Move, PieceKind, SquareContent,
};
use vstd::prelude::*;

verus! {

/// The plain move from `(ox, oy)` to `(tx, ty)`.
pub open spec fn normal_move(ox: int, oy: int, tx: int, ty: int) -> Move {
    Move::Normal { origin: (ox as usize, oy as usize), target: (tx as usize, ty as usize) }
}

/// The move from `(ox, oy)` to `(tx, ty)` that promotes the pawn to `kind`.
pub open spec fn promotion_move(ox: int, oy: int, tx: int, ty: int, kind: PieceKind) -> Move {
    Move::Promote { origin: (ox as usize, oy as usize), target: (tx as usize, ty as usize), kind }
}

/// The four promotions of a pawn that goes from `(ox, oy)` to `(tx, ty)`:
/// to a knight, a bishop, a rook and a queen, in that order.
pub open spec fn promotions(ox: int, oy: int, tx: int, ty: int) -> Seq<Move> {
    seq![
        promotion_move(ox, oy, tx, ty, PieceKind::Knight),
        promotion_move(ox, oy, tx, ty, PieceKind::Bishop),
        promotion_move(ox, oy, tx, ty, PieceKind::Rook),
        promotion_move(ox, oy, tx, ty, PieceKind::Queen),
    ]
}

/// What a piece of `color` gains from the square `(tx, ty)` when it may go
/// there unless the square is off the board or holds a piece of its own
/// color: one plain move or nothing.
pub open spec fn landing(g: Grid, ox: int, oy: int, tx: int, ty: int, color: Color) -> Seq<Move> {
    if on_board(tx, ty) && !holds_color(g, tx, ty, color) {
        seq![normal_move(ox, oy, tx, ty)]
    } else {
        Seq::empty()
    }
}

/// The moves of a sliding piece along the direction `(dx, dy)`, from the
/// `k`-th square of the ray on. The ray goes through empty squares, ends
/// at the edge of the board or at the first occupied square, and includes
/// that square only if it holds a piece of the other color.
pub open spec fn ray(
    g: Grid,
    ox: int,
    oy: int,
    dx: int,
    dy: int,
    color: Color,
    k: int,
) -> Seq<Move>
    decreases 8 - k,
{
    let tx = ox + k * dx;
    let ty = oy + k * dy;
    if k < 1 || k >= 8 || !on_board(tx, ty) {
        Seq::empty()
    } else if g[tx][ty] is Empty {
        seq![normal_move(ox, oy, tx, ty)] + ray(g, ox, oy, dx, dy, color, k + 1)
    } else {
        landing(g, ox, oy, tx, ty, color)
    }
}

/// The moves of a bishop: the four diagonal rays.
pub open spec fn diagonal_moves(g: Grid, ox: int, oy: int, color: Color) -> Seq<Move> {
    ray(g, ox, oy, 1, 1, color, 1)
        + ray(g, ox, oy, 1, -1, color, 1)
        + ray(g, ox, oy, -1, -1, color, 1)
        + ray(g, ox, oy, -1, 1, color, 1)
}

/// The moves of a rook: the four rays along a file or a rank.
pub open spec fn cardinal_moves(g: Grid, ox: int, oy: int, color: Color) -> Seq<Move> {
    ray(g, ox, oy, 1, 0, color, 1)
        + ray(g, ox, oy, -1, 0, color, 1)
        + ray(g, ox, oy, 0, 1, color, 1)
        + ray(g, ox, oy, 0, -1, color, 1)
}

/// The moves of a knight: its eight leaps.
pub open spec fn knight_moves(g: Grid, ox: int, oy: int, color: Color) -> Seq<Move> {
    landing(g, ox, oy, ox - 1, oy + 2, color)
        + landing(g, ox, oy, ox + 1, oy + 2, color)
        + landing(g, ox, oy, ox + 2, oy + 1, color)
        + landing(g, ox, oy, ox + 2, oy - 1, color)
        + landing(g, ox, oy, ox - 1, oy - 2, color)
        + landing(g, ox, oy, ox + 1, oy - 2, color)
        + landing(g, ox, oy, ox - 2, oy + 1, color)
        + landing(g, ox, oy, ox - 2, oy - 1, color)
}

/// The moves of a king: the eight adjacent squares. Castling is not among
/// them.
pub open spec fn king_moves(g: Grid, ox: int, oy: int, color: Color) -> Seq<Move> {
    landing(g, ox, oy, ox - 1, oy - 1, color)
        + landing(g, ox, oy, ox - 1, oy, color)
        + landing(g, ox, oy, ox - 1, oy + 1, color)
        + landing(g, ox, oy, ox, oy - 1, color)
        + landing(g, ox, oy, ox, oy + 1, color)
        + landing(g, ox, oy, ox + 1, oy - 1, color)
        + landing(g, ox, oy, ox + 1, oy, color)
        + landing(g, ox, oy, ox + 1, oy + 1, color)
}

/// The direction in which the pawns of a color advance along a file.
pub open spec fn forward(color: Color) -> int {
    match color {
        Color::White => 1,
        Color::Black => -1,
    }
}

/// The rank on which the pawns of a color are promoted.
pub open spec fn far_rank(color: Color) -> int {
    match color {
        Color::White => 7,
        Color::Black => 0,
    }
}

/// The rank on which the pawns of a color start.
pub open spec fn home_rank(color: Color) -> int {
    match color {
        Color::White => 1,
        Color::Black => 6,
    }
}

/// The moves by which a pawn arrives on `(tx, ty)`: the four promotions if
/// that is on the far rank of its color, and one plain move otherwise.
pub open spec fn pawn_arrival(ox: int, oy: int, tx: int, ty: int, color: Color) -> Seq<Move> {
    if ty == far_rank(color) {
        promotions(ox, oy, tx, ty)
    } else {
        seq![normal_move(ox, oy, tx, ty)]
    }
}

/// The push of a pawn by one square, which needs that square to be empty.
pub open spec fn pawn_push(g: Grid, ox: int, oy: int, color: Color) -> Seq<Move> {
    let ty = oy + forward(color);
    if on_board(ox, ty) && g[ox][ty] is Empty {
        pawn_arrival(ox, oy, ox, ty, color)
    } else {
        Seq::empty()
    }
}

/// The push of a pawn by two squares, from its home rank only, which needs
/// both the square passed over and the square reached to be empty.
pub open spec fn pawn_double_push(g: Grid, ox: int, oy: int, color: Color) -> Seq<Move> {
    let ty1 = oy + forward(color);
    let ty2 = oy + 2 * forward(color);
    if oy == home_rank(color) && g[ox][ty1] is Empty && g[ox][ty2] is Empty {
        seq![normal_move(ox, oy, ox, ty2)]
    } else {
        Seq::empty()
    }
}

/// The capture by a pawn on the forward diagonal towards `dx`, which needs
/// a piece of the other color there. No capture in passing is generated.
pub open spec fn pawn_capture(g: Grid, ox: int, oy: int, dx: int, color: Color) -> Seq<Move> {
    let tx = ox + dx;
    let ty = oy + forward(color);
    if on_board(tx, ty) && holds_color(g, tx, ty, opposite_color(color)) {
        pawn_arrival(ox, oy, tx, ty, color)
    } else {
        Seq::empty()
    }
}

/// The moves of a pawn: the single push, the double push, the capture
/// towards the lower file and the capture towards the higher file.
pub open spec fn pawn_moves(g: Grid, ox: int, oy: int, color: Color) -> Seq<Move> {
    pawn_push(g, ox, oy, color)
        + pawn_double_push(g, ox, oy, color)
        + pawn_capture(g, ox, oy, -1, color)
        + pawn_capture(g, ox, oy, 1, color)
}

/// The pseudo-legal moves of a piece of the given color and kind that
/// stands on `(ox, oy)`: those that obey the movement and occupancy rules,
/// whether or not they leave the mover's own king attacked.
pub open spec fn piece_moves(
    g: Grid,
    ox: int,
    oy: int,
    color: Color,
    kind: PieceKind,
) -> Seq<Move> {
    match kind {
        PieceKind::Pawn => pawn_moves(g, ox, oy, color),
        PieceKind::Knight => knight_moves(g, ox, oy, color),
        PieceKind::Bishop => diagonal_moves(g, ox, oy, color),
        PieceKind::Rook => cardinal_moves(g, ox, oy, color),
        PieceKind::Queen => diagonal_moves(g, ox, oy, color) + cardinal_moves(g, ox, oy, color),
        PieceKind::King => king_moves(g, ox, oy, color),
    }
}

/// The moves that the square `(file, rank)` contributes to the side `color`:
/// those of the piece on it, if that piece is of this color.
pub open spec fn square_moves(g: Grid, file: int, rank: int, color: Color) -> Seq<Move> {
    match g[file][rank] {
        SquareContent::Filled(piece) => if piece.color == color {
            piece_moves(g, file, rank, piece.color, piece.kind)
        } else {
            Seq::empty()
        },
        SquareContent::Empty => Seq::empty(),
    }
}

/// The moves of the side `color` from the first `n` squares of the scan
/// that goes file by file and, within a file, rank by rank.
pub open spec fn moves_before(g: Grid, color: Color, n: nat) -> Seq<Move>
    decreases n,
{
    if n == 0 {
        Seq::empty()
    } else {
        moves_before(g, color, (n - 1) as nat) + square_moves(g, (n - 1) / 8, (n - 1) % 8, color)
    }
}

/// The pseudo-legal moves of the side `color`, in the order of the scan.
pub open spec fn side_moves(g: Grid, color: Color) -> Seq<Move> {
    moves_before(g, color, 64)
}

/// The move is well-formed, is a plain move or a promotion, and starts
/// from `(ox, oy)`.
pub open spec fn departs_from(m: Move, ox: int, oy: int) -> bool {
    &&& m.wf()
    &&& m.target_square() is Some
    &&& m.origin_square() == Some((ox as usize, oy as usize))
}

/// The move is well-formed, is a plain move or a promotion, and starts
/// from a square on which the grid holds a piece of `color`.
pub open spec fn moves_piece_of(m: Move, g: Grid, color: Color) -> bool {
    &&& m.wf()
    &&& m.target_square() is Some
    &&& m.origin_square() matches Some(origin)
    &&& holds_color(g, origin.0 as int, origin.1 as int, color)
}

/// Every move of the sequence departs from `(ox, oy)`.
pub open spec fn all_depart_from(moves: Seq<Move>, ox: int, oy: int) -> bool {
    forall|i: int| 0 <= i < moves.len() ==> departs_from(#[trigger] moves[i], ox, oy)
}

/// Every move of the sequence moves a piece of `color`.
pub open spec fn all_move_pieces_of(moves: Seq<Move>, g: Grid, color: Color) -> bool {
    forall|i: int| 0 <= i < moves.len() ==> moves_piece_of(#[trigger] moves[i], g, color)
}

proof fn lemma_all_depart_concat(a: Seq<Move>, b: Seq<Move>, ox: int, oy: int)
    requires
        all_depart_from(a, ox, oy),
        all_depart_from(b, ox, oy),
    ensures
        all_depart_from(a + b, ox, oy),
{
    assert forall|i: int| 0 <= i < (a + b).len() implies departs_from(
        #[trigger] (a + b)[i],
        ox,
        oy,
    ) by {
        if i < a.len() {
            assert((a + b)[i] == a[i]);
        } else {
            assert((a + b)[i] == b[i - a.len()]);
        }
    }
}

proof fn lemma_landing_departs(g: Grid, ox: int, oy: int, tx: int, ty: int, color: Color)
    requires
        on_board(ox, oy),
    ensures
        all_depart_from(landing(g, ox, oy, tx, ty, color), ox, oy),
{
}

proof fn lemma_ray_departs(g: Grid, ox: int, oy: int, dx: int, dy: int, color: Color, k: int)
    requires
        on_board(ox, oy),
    ensures
        all_depart_from(ray(g, ox, oy, dx, dy, color, k), ox, oy),
    decreases 8 - k,
{
    let tx = ox + k * dx;
    let ty = oy + k * dy;
    if k < 1 || k >= 8 || !on_board(tx, ty) {
    } else if g[tx][ty] is Empty {
        lemma_ray_departs(g, ox, oy, dx, dy, color, k + 1);
        lemma_all_depart_concat(
            seq![normal_move(ox, oy, tx, ty)],
            ray(g, ox, oy, dx, dy, color, k + 1),
            ox,
            oy,
        );
    } else {
        lemma_landing_departs(g, ox, oy, tx, ty, color);
    }
}

proof fn lemma_diagonal_departs(g: Grid, ox: int, oy: int, color: Color)
    requires
        on_board(ox, oy),
    ensures
        all_depart_from(diagonal_moves(g, ox, oy, color), ox, oy),
{
    let a = ray(g, ox, oy, 1, 1, color, 1);
    let b = ray(g, ox, oy, 1, -1, color, 1);
    let c = ray(g, ox, oy, -1, -1, color, 1);
    let d = ray(g, ox, oy, -1, 1, color, 1);
    lemma_ray_departs(g, ox, oy, 1, 1, color, 1);
    lemma_ray_departs(g, ox, oy, 1, -1, color, 1);
    lemma_ray_departs(g, ox, oy, -1, -1, color, 1);
    lemma_ray_departs(g, ox, oy, -1, 1, color, 1);
    lemma_all_depart_concat(a, b, ox, oy);
    lemma_all_depart_concat(a + b, c, ox, oy);
    lemma_all_depart_concat(a + b + c, d, ox, oy);
}

proof fn lemma_cardinal_departs(g: Grid, ox: int, oy: int, color: Color)
    requires
        on_board(ox, oy),
    ensures
        all_depart_from(cardinal_moves(g, ox, oy, color), ox, oy),
{
    let a = ray(g, ox, oy, 1, 0, color, 1);
    let b = ray(g, ox, oy, -1, 0, color, 1);
    let c = ray(g, ox, oy, 0, 1, color, 1);
    let d = ray(g, ox, oy, 0, -1, color, 1);
    lemma_ray_departs(g, ox, oy, 1, 0, color, 1);
    lemma_ray_departs(g, ox, oy, -1, 0, color, 1);
    lemma_ray_departs(g, ox, oy, 0, 1, color, 1);
    lemma_ray_departs(g, ox, oy, 0, -1, color, 1);
    lemma_all_depart_concat(a, b, ox, oy);
    lemma_all_depart_concat(a + b, c, ox, oy);
    lemma_all_depart_concat(a + b + c, d, ox, oy);
}

proof fn lemma_eight_depart(
    s0: Seq<Move>,
    s1: Seq<Move>,
    s2: Seq<Move>,
    s3: Seq<Move>,
    s4: Seq<Move>,
    s5: Seq<Move>,
    s6: Seq<Move>,
    s7: Seq<Move>,
    ox: int,
    oy: int,
)
    requires
        all_depart_from(s0, ox, oy),
        all_depart_from(s1, ox, oy),
        all_depart_from(s2, ox, oy),
        all_depart_from(s3, ox, oy),
        all_depart_from(s4, ox, oy),
        all_depart_from(s5, ox, oy),
        all_depart_from(s6, ox, oy),
        all_depart_from(s7, ox, oy),
    ensures
        all_depart_from(s0 + s1 + s2 + s3 + s4 + s5 + s6 + s7, ox, oy),
{
    lemma_all_depart_concat(s0, s1, ox, oy);
    lemma_all_depart_concat(s0 + s1, s2, ox, oy);
    lemma_all_depart_concat(s0 + s1 + s2, s3, ox, oy);
    lemma_all_depart_concat(s0 + s1 + s2 + s3, s4, ox, oy);
    lemma_all_depart_concat(s0 + s1 + s2 + s3 + s4, s5, ox, oy);
    lemma_all_depart_concat(s0 + s1 + s2 + s3 + s4 + s5, s6, ox, oy);
    lemma_all_depart_concat(s0 + s1 + s2 + s3 + s4 + s5 + s6, s7, ox, oy);
}

proof fn lemma_knight_departs(g: Grid, ox: int, oy: int, color: Color)
    requires
        on_board(ox, oy),
    ensures
        all_depart_from(knight_moves(g, ox, oy, color), ox, oy),
{
    lemma_eight_depart(
        landing(g, ox, oy, ox - 1, oy + 2, color),
        landing(g, ox, oy, ox + 1, oy + 2, color),
        landing(g, ox, oy, ox + 2, oy + 1, color),
        landing(g, ox, oy, ox + 2, oy - 1, color),
        landing(g, ox, oy, ox - 1, oy - 2, color),
        landing(g, ox, oy, ox + 1, oy - 2, color),
        landing(g, ox, oy, ox - 2, oy + 1, color),
        landing(g, ox, oy, ox - 2, oy - 1, color),
        ox,
        oy,
    );
}

proof fn lemma_king_departs(g: Grid, ox: int, oy: int, color: Color)
    requires
        on_board(ox, oy),
    ensures
        all_depart_from(king_moves(g, ox, oy, color), ox, oy),
{
    lemma_eight_depart(
        landing(g, ox, oy, ox - 1, oy - 1, color),
        landing(g, ox, oy, ox - 1, oy, color),
        landing(g, ox, oy, ox - 1, oy + 1, color),
        landing(g, ox, oy, ox, oy - 1, color),
        landing(g, ox, oy, ox, oy + 1, color),
        landing(g, ox, oy, ox + 1, oy - 1, color),
        landing(g, ox, oy, ox + 1, oy, color),
        landing(g, ox, oy, ox + 1, oy + 1, color),
        ox,
        oy,
    );
}

proof fn lemma_pawn_arrival_departs(ox: int, oy: int, tx: int, ty: int, color: Color)
    requires
        on_board(ox, oy),
        on_board(tx, ty),
    ensures
        all_depart_from(pawn_arrival(ox, oy, tx, ty, color), ox, oy),
{
}

proof fn lemma_pawn_departs(g: Grid, ox: int, oy: int, color: Color)
    requires
        on_board(ox, oy),
    ensures
        all_depart_from(pawn_moves(g, ox, oy, color), ox, oy),
{
    let a = pawn_push(g, ox, oy, color);
    let b = pawn_double_push(g, ox, oy, color);
    let c = pawn_capture(g, ox, oy, -1, color);
    let d = pawn_capture(g, ox, oy, 1, color);
    let ty = oy + forward(color);
    if on_board(ox, ty) {
        lemma_pawn_arrival_departs(ox, oy, ox, ty, color);
    }
    if on_board(ox - 1, ty) {
        lemma_pawn_arrival_departs(ox, oy, ox - 1, ty, color);
    }
    if on_board(ox + 1, ty) {
        lemma_pawn_arrival_departs(ox, oy, ox + 1, ty, color);
    }
    assert(all_depart_from(a, ox, oy));
    assert(all_depart_from(b, ox, oy));
    assert(all_depart_from(c, ox, oy));
    assert(all_depart_from(d, ox, oy));
    lemma_all_depart_concat(a, b, ox, oy);
    lemma_all_depart_concat(a + b, c, ox, oy);
    lemma_all_depart_concat(a + b + c, d, ox, oy);
}

/// Every pseudo-legal move of a piece on a square of the board starts from
/// that square and lands on a square of the board; a promotion among them
/// is to a knight, bishop, rook or queen.
pub proof fn lemma_piece_moves_on_board(g: Grid, ox: int, oy: int, color: Color, kind: PieceKind)
    requires
        on_board(ox, oy),
    ensures
        all_depart_from(piece_moves(g, ox, oy, color, kind), ox, oy),
{
    match kind {
        PieceKind::Pawn => lemma_pawn_departs(g, ox, oy, color),
        PieceKind::Knight => lemma_knight_departs(g, ox, oy, color),
        PieceKind::Bishop => lemma_diagonal_departs(g, ox, oy, color),
        PieceKind::Rook => lemma_cardinal_departs(g, ox, oy, color),
        PieceKind::Queen => {
            lemma_diagonal_departs(g, ox, oy, color);
            lemma_cardinal_departs(g, ox, oy, color);
            lemma_all_depart_concat(
                diagonal_moves(g, ox, oy, color),
                cardinal_moves(g, ox, oy, color),
                ox,
                oy,
            );
        },
        PieceKind::King => lemma_king_departs(g, ox, oy, color),
    }
}

proof fn lemma_moves_before_on_board(g: Grid, color: Color, n: nat)
    requires
        n <= 64,
    ensures
        all_move_pieces_of(moves_before(g, color, n), g, color),
    decreases n,
{
    if n > 0 {
        let file = (n - 1) / 8;
        let rank = (n - 1) % 8;
        let a = moves_before(g, color, (n - 1) as nat);
        let b = square_moves(g, file, rank, color);
        lemma_moves_before_on_board(g, color, (n - 1) as nat);
        assert(all_move_pieces_of(b, g, color)) by {
            match g[file][rank] {
                SquareContent::Filled(piece) => {
                    lemma_piece_moves_on_board(g, file, rank, piece.color, piece.kind);
                },
                SquareContent::Empty => {},
            }
        }
        assert forall|i: int| 0 <= i < (a + b).len() implies moves_piece_of(
            #[trigger] (a + b)[i],
            g,
            color,
        ) by {
            if i < a.len() {
                assert((a + b)[i] == a[i]);
            } else {
                assert((a + b)[i] == b[i - a.len()]);
            }
        }
    }
}

/// Every pseudo-legal move of a side starts from a square that holds a
/// piece of that side and lands on a square of the board; a promotion among
/// them is to a knight, bishop, rook or queen.
pub proof fn lemma_side_moves_on_board(g: Grid, color: Color)
    ensures
        all_move_pieces_of(side_moves(g, color), g, color),
{
    lemma_moves_before_on_board(g, color, 64);
}

/// The `k`-th square of the ray from `(ox, oy)` in the direction `(dx, dy)`
/// is empty.
pub open spec fn ray_passes(g: Grid, ox: int, oy: int, dx: int, dy: int, k: int) -> bool {
    g[ox + k * dx][oy + k * dy] is Empty
}

/// A sliding piece of `color` on `(ox, oy)` can go to the `k`-th square in
/// the direction `(dx, dy)`: that square is on the board, every square of
/// the ray before it is empty, and it does not hold a piece of `color`.
pub open spec fn ray_reaches(
    g: Grid,
    ox: int,
    oy: int,
    dx: int,
    dy: int,
    color: Color,
    k: int,
) -> bool {
    &&& 1 <= k
    &&& on_board(ox + k * dx, oy + k * dy)
    &&& forall|j: int| 1 <= j < k ==> #[trigger] ray_passes(g, ox, oy, dx, dy, j)
    &&& !holds_color(g, ox + k * dx, oy + k * dy, color)
}

/// One step along a file or a rank, or along a diagonal.
pub open spec fn is_direction(dx: int, dy: int) -> bool {
    -1 <= dx <= 1 && -1 <= dy <= 1 && (dx != 0 || dy != 0)
}

/// The product of a number and a step of -1, 0 or 1.
pub proof fn lemma_unit_product(k: int, d: int)
    requires
        -1 <= d <= 1,
    ensures
        k * d == (if d == 1 {
            k
        } else if d == -1 {
            -k
        } else {
            0
        }),
{
    assert(d == 1 ==> k * d == k) by (nonlinear_arith);
    assert(d == -1 ==> k * d == -k) by (nonlinear_arith);
    assert(d == 0 ==> k * d == 0) by (nonlinear_arith);
}

proof fn lemma_step_off_board(ox: int, oy: int, dx: int, dy: int, k: int, j: int)
    requires
        on_board(ox, oy),
        is_direction(dx, dy),
        1 <= k <= j,
        !on_board(ox + k * dx, oy + k * dy),
    ensures
        !on_board(ox + j * dx, oy + j * dy),
{
    lemma_unit_product(k, dx);
    lemma_unit_product(j, dx);
    lemma_unit_product(k, dy);
    lemma_unit_product(j, dy);
}

proof fn lemma_eighth_step_off_board(ox: int, oy: int, dx: int, dy: int, k: int)
    requires
        on_board(ox, oy),
        is_direction(dx, dy),
        8 <= k,
    ensures
        !on_board(ox + k * dx, oy + k * dy),
{
    lemma_unit_product(k, dx);
    lemma_unit_product(k, dy);
}

proof fn lemma_ray_from(g: Grid, ox: int, oy: int, dx: int, dy: int, color: Color, start: int)
    requires
        on_board(ox, oy),
        is_direction(dx, dy),
        1 <= start,
        forall|j: int| 1 <= j < start ==> #[trigger] ray_passes(g, ox, oy, dx, dy, j),
    ensures
        forall|i: int|
            0 <= i < ray(g, ox, oy, dx, dy, color, start).len() ==> #[trigger] ray(
                g,
                ox,
                oy,
                dx,
                dy,
                color,
                start,
            )[i] == normal_move(ox, oy, ox + (start + i) * dx, oy + (start + i) * dy),
        forall|k: int|
            start <= k ==> (k - start < ray(g, ox, oy, dx, dy, color, start).len()
                <==> #[trigger] ray_reaches(g, ox, oy, dx, dy, color, k)),
    decreases 8 - start,
{
    let r = ray(g, ox, oy, dx, dy, color, start);
    let tx = ox + start * dx;
    let ty = oy + start * dy;
    if start >= 8 || !on_board(tx, ty) {
        assert forall|k: int| start <= k implies !#[trigger] ray_reaches(
            g,
            ox,
            oy,
            dx,
            dy,
            color,
            k,
        ) by {
            if start >= 8 {
                lemma_eighth_step_off_board(ox, oy, dx, dy, k);
            } else {
                lemma_step_off_board(ox, oy, dx, dy, start, k);
            }
        }
    } else if g[tx][ty] is Empty {
        let rest = ray(g, ox, oy, dx, dy, color, start + 1);
        assert(ray_passes(g, ox, oy, dx, dy, start));
        lemma_ray_from(g, ox, oy, dx, dy, color, start + 1);
        assert(r == seq![normal_move(ox, oy, tx, ty)] + rest);
        assert forall|i: int| 0 <= i < r.len() implies #[trigger] r[i] == normal_move(
            ox,
            oy,
            ox + (start + i) * dx,
            oy + (start + i) * dy,
        ) by {
            if i > 0 {
                assert(r[i] == rest[i - 1]);
                assert(start + 1 + (i - 1) == start + i);
            }
        }
        assert forall|k: int| start <= k implies (k - start < r.len() <==> #[trigger] ray_reaches(
            g,
            ox,
            oy,
            dx,
            dy,
            color,
            k,
        )) by {
            if k > start {
                assert(k - (start + 1) < rest.len() <==> ray_reaches(g, ox, oy, dx, dy, color, k));
            }
        }
    } else {
        assert(!ray_passes(g, ox, oy, dx, dy, start));
        assert forall|k: int| start <= k implies (k - start < r.len() <==> #[trigger] ray_reaches(
            g,
            ox,
            oy,
            dx,
            dy,
            color,
            k,
        )) by {
            if k > start {
                assert(!ray_reaches(g, ox, oy, dx, dy, color, k));
            }
        }
    }
}

/// A ray stops at the first occupied square. Its moves go to the first,
/// second, third square of the direction and so on, in this order, and the
/// ray has a move to the `k`-th square exactly if that square is on the
/// board, every square before it is empty, and the square itself is empty
/// or holds a piece of the other color.
pub proof fn lemma_ray_stops_at_first_piece(
    g: Grid,
    ox: int,
    oy: int,
    dx: int,
    dy: int,
    color: Color,
)
    requires
        on_board(ox, oy),
        is_direction(dx, dy),
    ensures
        forall|i: int|
            0 <= i < ray(g, ox, oy, dx, dy, color, 1).len() ==> #[trigger] ray(
                g,
                ox,
                oy,
                dx,
                dy,
                color,
                1,
            )[i] == normal_move(ox, oy, ox + (i + 1) * dx, oy + (i + 1) * dy),
        forall|k: int|
            1 <= k ==> (k <= ray(g, ox, oy, dx, dy, color, 1).len() <==> #[trigger] ray_reaches(
                g,
                ox,
                oy,
                dx,
                dy,
                color,
                k,
            )),
{
    lemma_ray_from(g, ox, oy, dx, dy, color, 1);
    let r = ray(g, ox, oy, dx, dy, color, 1);
    assert forall|i: int| 0 <= i < r.len() implies #[trigger] r[i] == normal_move(
        ox,
        oy,
        ox + (i + 1) * dx,
        oy + (i + 1) * dy,
    ) by {
        assert(1 + i == i + 1);
    }
}

/// The move lands on `(tx, ty)`.
pub open spec fn lands_on(m: Move, tx: int, ty: int) -> bool {
    m.target_square() == Some((tx as usize, ty as usize))
}

/// A pawn of `color` on `(ox, oy)` can go to `(tx, ty)` by a push of one
/// square or by a capture.
pub open spec fn pawn_steps_to(g: Grid, ox: int, oy: int, tx: int, ty: int, color: Color) -> bool {
    &&& on_board(tx, ty)
    &&& ty == oy + forward(color)
    &&& (tx == ox && g[tx][ty] is Empty) || ((tx == ox - 1 || tx == ox + 1) && holds_color(
        g,
        tx,
        ty,
        opposite_color(color),
    ))
}

proof fn lemma_filter_keeps_all(s: Seq<Move>, pred: spec_fn(Move) -> bool)
    requires
        forall|i: int| 0 <= i < s.len() ==> pred(#[trigger] s[i]),
    ensures
        s.filter(pred) == s,
    decreases s.len(),
{
    reveal(Seq::filter);
    if s.len() > 0 {
        lemma_filter_keeps_all(s.drop_last(), pred);
        assert(s.drop_last().push(s.last()) =~= s);
    }
}

proof fn lemma_filter_keeps_none(s: Seq<Move>, pred: spec_fn(Move) -> bool)
    requires
        forall|i: int| 0 <= i < s.len() ==> !pred(#[trigger] s[i]),
    ensures
        s.filter(pred) == Seq::<Move>::empty(),
    decreases s.len(),
{
    reveal(Seq::filter);
    if s.len() > 0 {
        lemma_filter_keeps_none(s.drop_last(), pred);
    }
}

/// Among the moves by which a pawn arrives on a square, those that land on
/// `(tx, ty)` are all of them if that is the square, and none otherwise.
proof fn lemma_arrival_filter(
    ox: int,
    oy: int,
    ax: int,
    ay: int,
    color: Color,
    tx: int,
    ty: int,
)
    requires
        on_board(ax, ay),
        on_board(tx, ty),
    ensures
        pawn_arrival(ox, oy, ax, ay, color).filter(|m: Move| lands_on(m, tx, ty)) == (if ax == tx
            && ay == ty {
            pawn_arrival(ox, oy, ax, ay, color)
        } else {
            Seq::<Move>::empty()
        }),
{
    let pred = |m: Move| lands_on(m, tx, ty);
    let s = pawn_arrival(ox, oy, ax, ay, color);
    if ax == tx && ay == ty {
        lemma_filter_keeps_all(s, pred);
    } else {
        lemma_filter_keeps_none(s, pred);
    }
}

/// A pawn that steps onto the far rank of its color is promoted: of the
/// moves of a pawn, those that land on a square of that rank are exactly
/// the four promotions to that square (to a knight, a bishop, a rook and a
/// queen) if the pawn can push or capture to it, and none otherwise. No
/// plain move of a pawn lands on the far rank.
pub proof fn lemma_pawn_promotes_on_far_rank(g: Grid, ox: int, oy: int, color: Color, tx: int)
    requires
        on_board(ox, oy),
        0 <= tx < 8,
    ensures
        pawn_moves(g, ox, oy, color).filter(|m: Move| lands_on(m, tx, far_rank(color))) == (
        if pawn_steps_to(g, ox, oy, tx, far_rank(color), color) {
            promotions(ox, oy, tx, far_rank(color))
        } else {
            Seq::<Move>::empty()
        }),
        forall|i: int|
            0 <= i < pawn_moves(g, ox, oy, color).len() && lands_on(
                #[trigger] pawn_moves(g, ox, oy, color)[i],
                tx,
                far_rank(color),
            ) ==> pawn_moves(g, ox, oy, color)[i] is Promote,
{
    let far = far_rank(color);
    let ty = oy + forward(color);
    let pred = |m: Move| lands_on(m, tx, far);
    let a = pawn_push(g, ox, oy, color);
    let b = pawn_double_push(g, ox, oy, color);
    let c = pawn_capture(g, ox, oy, -1, color);
    let d = pawn_capture(g, ox, oy, 1, color);
    let none = Seq::<Move>::empty();
    let hit = promotions(ox, oy, tx, far);

    assert(a.filter(pred) == if tx == ox && ty == far && g[ox][ty] is Empty {
        hit
    } else {
        none
    }) by {
        if on_board(ox, ty) && g[ox][ty] is Empty {
            lemma_arrival_filter(ox, oy, ox, ty, color, tx, far);
        } else {
            lemma_filter_keeps_none(a, pred);
        }
    }
    assert(b.filter(pred) == none) by {
        lemma_filter_keeps_none(b, pred);
    }
    assert(c.filter(pred) == if tx == ox - 1 && ty == far && holds_color(
        g,
        tx,
        ty,
        opposite_color(color),
    ) {
        hit
    } else {
        none
    }) by {
        if on_board(ox - 1, ty) && holds_color(g, ox - 1, ty, opposite_color(color)) {
            lemma_arrival_filter(ox, oy, ox - 1, ty, color, tx, far);
        } else {
            lemma_filter_keeps_none(c, pred);
        }
    }
    assert(d.filter(pred) == if tx == ox + 1 && ty == far && holds_color(
        g,
        tx,
        ty,
        opposite_color(color),
    ) {
        hit
    } else {
        none
    }) by {
        if on_board(ox + 1, ty) && holds_color(g, ox + 1, ty, opposite_color(color)) {
            lemma_arrival_filter(ox, oy, ox + 1, ty, color, tx, far);
        } else {
            lemma_filter_keeps_none(d, pred);
        }
    }
    Seq::filter_distributes_over_add(a, b, pred);
    Seq::filter_distributes_over_add(a + b, c, pred);
    Seq::filter_distributes_over_add(a + b + c, d, pred);
    assert(none + none =~= none);
    assert(hit + none =~= hit);
    assert(none + hit =~= hit);

    let all = pawn_moves(g, ox, oy, color);
    assert forall|i: int| 0 <= i < all.len() && lands_on(#[trigger] all[i], tx, far) implies all[i]
         is Promote by {
        lemma_pawn_plain_moves_stay_short(g, ox, oy, color, i);
    }
}

/// A plain move of a pawn does not land on the far rank of its color.
proof fn lemma_pawn_plain_moves_stay_short(g: Grid, ox: int, oy: int, color: Color, i: int)
    requires
        on_board(ox, oy),
        0 <= i < pawn_moves(g, ox, oy, color).len(),
    ensures
        pawn_moves(g, ox, oy, color)[i] matches Move::Normal { target, .. } ==> target.1
            != far_rank(color),
{
    let a = pawn_push(g, ox, oy, color);
    let b = pawn_double_push(g, ox, oy, color);
    let c = pawn_capture(g, ox, oy, -1, color);
    let d = pawn_capture(g, ox, oy, 1, color);
    let all = pawn_moves(g, ox, oy, color);
    assert(all == a + b + c + d);
    if i < a.len() {
        assert(all[i] == a[i]);
    } else if i < a.len() + b.len() {
        assert(all[i] == b[i - a.len()]);
    } else if i < a.len() + b.len() + c.len() {
        assert(all[i] == c[i - a.len() - b.len()]);
    } else {
        assert(all[i] == d[i - a.len() - b.len() - c.len()]);
    }
}

} // verus!
