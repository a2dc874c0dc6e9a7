//! No move is generated twice: the moves of a piece are pairwise different,
//! and so are the moves of a side.
//!
//! The proofs sort the moves of a piece by the squares they land on. Each
//! part of a piece's moves (a leap, a ray, a pawn's push or capture) lands in
//! a zone of its own, and the zones of different parts do not meet.

use crate::board::{on_board, Color, Grid, Move, PieceKind, SquareContent};
use crate::rules::{
    all_depart_from, cardinal_moves, departs_from, diagonal_moves, forward, is_direction,
    king_moves, knight_moves, landing, lemma_piece_moves_on_board, lemma_ray_stops_at_first_piece,
    lemma_unit_product, moves_before, pawn_arrival, pawn_capture, pawn_double_push, pawn_moves,
    pawn_push, piece_moves, ray, ray_reaches, side_moves, square_moves,
};
use vstd::prelude::*;
use vstd::seq_lib::lemma_no_dup_in_concat;

verus! {

/// The square that a move lands on, as integers.
spec fn landing_square(m: Move) -> (int, int) {
    let target = m.target_square().unwrap();
    (target.0 as int, target.1 as int)
}

/// Every move of the sequence lands on a square of the zone.
spec fn lands_within(moves: Seq<Move>, zone: Set<(int, int)>) -> bool {
    forall|i: int| 0 <= i < moves.len() ==> zone.contains(landing_square(#[trigger] moves[i]))
}

/// The sign of a number: -1, 0 or 1.
spec fn sign(n: int) -> int {
    if n < 0 {
        -1
    } else if n == 0 {
        0
    } else {
        1
    }
}

/// The squares that lie from `(ox, oy)` in the direction `(dx, dy)`: to the
/// left, to the right or on the same file as `dx` says, and above, below or
/// on the same rank as `dy` says.
spec fn ray_zone(ox: int, oy: int, dx: int, dy: int) -> Set<(int, int)> {
    Set::new(|sq: (int, int)| sign(sq.0 - ox) == dx && sign(sq.1 - oy) == dy)
}

/// The one square `(x, y)`.
spec fn one_square(x: int, y: int) -> Set<(int, int)> {
    Set::new(|sq: (int, int)| sq == (x, y))
}

/// Two sequences of pairwise different moves that land in zones which do not
/// meet make, one after the other, a sequence of pairwise different moves.
proof fn lemma_concat_distinct(
    a: Seq<Move>,
    b: Seq<Move>,
    zone_a: Set<(int, int)>,
    zone_b: Set<(int, int)>,
)
    requires
        a.no_duplicates(),
        b.no_duplicates(),
        lands_within(a, zone_a),
        lands_within(b, zone_b),
        zone_a.disjoint(zone_b),
    ensures
        (a + b).no_duplicates(),
        lands_within(a + b, zone_a.union(zone_b)),
{
    assert forall|i: int, j: int| 0 <= i < a.len() && 0 <= j < b.len() implies a[i] != b[j] by {
        assert(zone_a.contains(landing_square(a[i])));
        assert(zone_b.contains(landing_square(b[j])));
    }
    lemma_no_dup_in_concat(a, b);
    assert forall|i: int| 0 <= i < (a + b).len() implies zone_a.union(zone_b).contains(
        landing_square(#[trigger] (a + b)[i]),
    ) by {
        if i < a.len() {
            assert((a + b)[i] == a[i]);
        } else {
            assert((a + b)[i] == b[i - a.len()]);
        }
    }
}

proof fn lemma_landing_distinct(g: Grid, ox: int, oy: int, tx: int, ty: int, color: Color)
    ensures
        landing(g, ox, oy, tx, ty, color).no_duplicates(),
        lands_within(landing(g, ox, oy, tx, ty, color), one_square(tx, ty)),
{
}

proof fn lemma_ray_distinct(g: Grid, ox: int, oy: int, dx: int, dy: int, color: Color)
    requires
        on_board(ox, oy),
        is_direction(dx, dy),
    ensures
        ray(g, ox, oy, dx, dy, color, 1).no_duplicates(),
        lands_within(ray(g, ox, oy, dx, dy, color, 1), ray_zone(ox, oy, dx, dy)),
{
    let r = ray(g, ox, oy, dx, dy, color, 1);
    lemma_ray_stops_at_first_piece(g, ox, oy, dx, dy, color);
    assert forall|i: int| 0 <= i < r.len() implies landing_square(#[trigger] r[i]) == (
        ox + (i + 1) * dx,
        oy + (i + 1) * dy,
    ) && ray_zone(ox, oy, dx, dy).contains(landing_square(r[i])) by {
        assert(ray_reaches(g, ox, oy, dx, dy, color, i + 1));
        lemma_unit_product(i + 1, dx);
        lemma_unit_product(i + 1, dy);
    }
    assert forall|i: int, j: int| 0 <= i < r.len() && 0 <= j < r.len() && i != j implies r[i]
        != r[j] by {
        lemma_unit_product(i + 1, dx);
        lemma_unit_product(i + 1, dy);
        lemma_unit_product(j + 1, dx);
        lemma_unit_product(j + 1, dy);
        assert(landing_square(r[i]) != landing_square(r[j]));
    }
}

proof fn lemma_diagonal_distinct(g: Grid, ox: int, oy: int, color: Color)
    requires
        on_board(ox, oy),
    ensures
        diagonal_moves(g, ox, oy, color).no_duplicates(),
        lands_within(
            diagonal_moves(g, ox, oy, color),
            Set::new(|sq: (int, int)| sq.0 != ox && sq.1 != oy),
        ),
{
    let a = ray(g, ox, oy, 1, 1, color, 1);
    let b = ray(g, ox, oy, 1, -1, color, 1);
    let c = ray(g, ox, oy, -1, -1, color, 1);
    let d = ray(g, ox, oy, -1, 1, color, 1);
    let za = ray_zone(ox, oy, 1, 1);
    let zb = ray_zone(ox, oy, 1, -1);
    let zc = ray_zone(ox, oy, -1, -1);
    let zd = ray_zone(ox, oy, -1, 1);
    lemma_ray_distinct(g, ox, oy, 1, 1, color);
    lemma_ray_distinct(g, ox, oy, 1, -1, color);
    lemma_ray_distinct(g, ox, oy, -1, -1, color);
    lemma_ray_distinct(g, ox, oy, -1, 1, color);
    lemma_concat_distinct(a, b, za, zb);
    lemma_concat_distinct(a + b, c, za.union(zb), zc);
    lemma_concat_distinct(a + b + c, d, za.union(zb).union(zc), zd);
}

proof fn lemma_cardinal_distinct(g: Grid, ox: int, oy: int, color: Color)
    requires
        on_board(ox, oy),
    ensures
        cardinal_moves(g, ox, oy, color).no_duplicates(),
        lands_within(
            cardinal_moves(g, ox, oy, color),
            Set::new(|sq: (int, int)| sq.0 == ox || sq.1 == oy),
        ),
{
    let a = ray(g, ox, oy, 1, 0, color, 1);
    let b = ray(g, ox, oy, -1, 0, color, 1);
    let c = ray(g, ox, oy, 0, 1, color, 1);
    let d = ray(g, ox, oy, 0, -1, color, 1);
    let za = ray_zone(ox, oy, 1, 0);
    let zb = ray_zone(ox, oy, -1, 0);
    let zc = ray_zone(ox, oy, 0, 1);
    let zd = ray_zone(ox, oy, 0, -1);
    lemma_ray_distinct(g, ox, oy, 1, 0, color);
    lemma_ray_distinct(g, ox, oy, -1, 0, color);
    lemma_ray_distinct(g, ox, oy, 0, 1, color);
    lemma_ray_distinct(g, ox, oy, 0, -1, color);
    lemma_concat_distinct(a, b, za, zb);
    lemma_concat_distinct(a + b, c, za.union(zb), zc);
    lemma_concat_distinct(a + b + c, d, za.union(zb).union(zc), zd);
}

/// Eight leaps to eight different squares give pairwise different moves.
proof fn lemma_leaps_distinct(
    g: Grid,
    ox: int,
    oy: int,
    color: Color,
    t: Seq<(int, int)>,
)
    requires
        t.len() == 8,
        t.no_duplicates(),
    ensures
        (landing(g, ox, oy, t[0].0, t[0].1, color) + landing(g, ox, oy, t[1].0, t[1].1, color)
            + landing(g, ox, oy, t[2].0, t[2].1, color) + landing(
            g,
            ox,
            oy,
            t[3].0,
            t[3].1,
            color,
        ) + landing(g, ox, oy, t[4].0, t[4].1, color) + landing(g, ox, oy, t[5].0, t[5].1, color)
            + landing(g, ox, oy, t[6].0, t[6].1, color) + landing(
            g,
            ox,
            oy,
            t[7].0,
            t[7].1,
            color,
        )).no_duplicates(),
{
    let l0 = landing(g, ox, oy, t[0].0, t[0].1, color);
    let l1 = landing(g, ox, oy, t[1].0, t[1].1, color);
    let l2 = landing(g, ox, oy, t[2].0, t[2].1, color);
    let l3 = landing(g, ox, oy, t[3].0, t[3].1, color);
    let l4 = landing(g, ox, oy, t[4].0, t[4].1, color);
    let l5 = landing(g, ox, oy, t[5].0, t[5].1, color);
    let l6 = landing(g, ox, oy, t[6].0, t[6].1, color);
    let l7 = landing(g, ox, oy, t[7].0, t[7].1, color);
    let z0 = one_square(t[0].0, t[0].1);
    let z1 = one_square(t[1].0, t[1].1);
    let z2 = one_square(t[2].0, t[2].1);
    let z3 = one_square(t[3].0, t[3].1);
    let z4 = one_square(t[4].0, t[4].1);
    let z5 = one_square(t[5].0, t[5].1);
    let z6 = one_square(t[6].0, t[6].1);
    let z7 = one_square(t[7].0, t[7].1);
    lemma_landing_distinct(g, ox, oy, t[0].0, t[0].1, color);
    lemma_landing_distinct(g, ox, oy, t[1].0, t[1].1, color);
    lemma_landing_distinct(g, ox, oy, t[2].0, t[2].1, color);
    lemma_landing_distinct(g, ox, oy, t[3].0, t[3].1, color);
    lemma_landing_distinct(g, ox, oy, t[4].0, t[4].1, color);
    lemma_landing_distinct(g, ox, oy, t[5].0, t[5].1, color);
    lemma_landing_distinct(g, ox, oy, t[6].0, t[6].1, color);
    lemma_landing_distinct(g, ox, oy, t[7].0, t[7].1, color);
    lemma_concat_distinct(l0, l1, z0, z1);
    let u1 = z0.union(z1);
    lemma_concat_distinct(l0 + l1, l2, u1, z2);
    let u2 = u1.union(z2);
    lemma_concat_distinct(l0 + l1 + l2, l3, u2, z3);
    let u3 = u2.union(z3);
    lemma_concat_distinct(l0 + l1 + l2 + l3, l4, u3, z4);
    let u4 = u3.union(z4);
    lemma_concat_distinct(l0 + l1 + l2 + l3 + l4, l5, u4, z5);
    let u5 = u4.union(z5);
    lemma_concat_distinct(l0 + l1 + l2 + l3 + l4 + l5, l6, u5, z6);
    let u6 = u5.union(z6);
    lemma_concat_distinct(l0 + l1 + l2 + l3 + l4 + l5 + l6, l7, u6, z7);
}

proof fn lemma_knight_distinct(g: Grid, ox: int, oy: int, color: Color)
    ensures
        knight_moves(g, ox, oy, color).no_duplicates(),
{
    let t = seq![
        (ox - 1, oy + 2),
        (ox + 1, oy + 2),
        (ox + 2, oy + 1),
        (ox + 2, oy - 1),
        (ox - 1, oy - 2),
        (ox + 1, oy - 2),
        (ox - 2, oy + 1),
        (ox - 2, oy - 1),
    ];
    assert(t.no_duplicates()) by {
        assert forall|i: int, j: int| 0 <= i < 8 && 0 <= j < 8 && i != j implies t[i] != t[j] by {
            assert(t[i].0 - ox != t[j].0 - ox || t[i].1 - oy != t[j].1 - oy);
        }
    }
    lemma_leaps_distinct(g, ox, oy, color, t);
}

proof fn lemma_king_distinct(g: Grid, ox: int, oy: int, color: Color)
    ensures
        king_moves(g, ox, oy, color).no_duplicates(),
{
    let t = seq![
        (ox - 1, oy - 1),
        (ox - 1, oy),
        (ox - 1, oy + 1),
        (ox, oy - 1),
        (ox, oy + 1),
        (ox + 1, oy - 1),
        (ox + 1, oy),
        (ox + 1, oy + 1),
    ];
    assert(t.no_duplicates()) by {
        assert forall|i: int, j: int| 0 <= i < 8 && 0 <= j < 8 && i != j implies t[i] != t[j] by {
            assert(t[i].0 - ox != t[j].0 - ox || t[i].1 - oy != t[j].1 - oy);
        }
    }
    lemma_leaps_distinct(g, ox, oy, color, t);
}

proof fn lemma_arrival_distinct(ox: int, oy: int, tx: int, ty: int, color: Color)
    requires
        on_board(tx, ty),
    ensures
        pawn_arrival(ox, oy, tx, ty, color).no_duplicates(),
        lands_within(pawn_arrival(ox, oy, tx, ty, color), one_square(tx, ty)),
{
}

proof fn lemma_pawn_distinct(g: Grid, ox: int, oy: int, color: Color)
    requires
        on_board(ox, oy),
    ensures
        pawn_moves(g, ox, oy, color).no_duplicates(),
{
    let a = pawn_push(g, ox, oy, color);
    let b = pawn_double_push(g, ox, oy, color);
    let c = pawn_capture(g, ox, oy, -1, color);
    let d = pawn_capture(g, ox, oy, 1, color);
    let ty = oy + forward(color);
    let za = one_square(ox, ty);
    let zb = one_square(ox, oy + 2 * forward(color));
    let zc = one_square(ox - 1, ty);
    let zd = one_square(ox + 1, ty);
    if on_board(ox, ty) {
        lemma_arrival_distinct(ox, oy, ox, ty, color);
    }
    if on_board(ox - 1, ty) {
        lemma_arrival_distinct(ox, oy, ox - 1, ty, color);
    }
    if on_board(ox + 1, ty) {
        lemma_arrival_distinct(ox, oy, ox + 1, ty, color);
    }
    assert(a.no_duplicates() && lands_within(a, za));
    assert(b.no_duplicates() && lands_within(b, zb));
    assert(c.no_duplicates() && lands_within(c, zc));
    assert(d.no_duplicates() && lands_within(d, zd));
    lemma_concat_distinct(a, b, za, zb);
    lemma_concat_distinct(a + b, c, za.union(zb), zc);
    lemma_concat_distinct(a + b + c, d, za.union(zb).union(zc), zd);
}

/// No move occurs twice among the pseudo-legal moves of a piece.
pub proof fn lemma_piece_moves_distinct(g: Grid, ox: int, oy: int, color: Color, kind: PieceKind)
    requires
        on_board(ox, oy),
    ensures
        piece_moves(g, ox, oy, color, kind).no_duplicates(),
{
    match kind {
        PieceKind::Pawn => lemma_pawn_distinct(g, ox, oy, color),
        PieceKind::Knight => lemma_knight_distinct(g, ox, oy, color),
        PieceKind::Bishop => lemma_diagonal_distinct(g, ox, oy, color),
        PieceKind::Rook => lemma_cardinal_distinct(g, ox, oy, color),
        PieceKind::Queen => {
            lemma_diagonal_distinct(g, ox, oy, color);
            lemma_cardinal_distinct(g, ox, oy, color);
            lemma_concat_distinct(
                diagonal_moves(g, ox, oy, color),
                cardinal_moves(g, ox, oy, color),
                Set::new(|sq: (int, int)| sq.0 != ox && sq.1 != oy),
                Set::new(|sq: (int, int)| sq.0 == ox || sq.1 == oy),
            );
        },
        PieceKind::King => lemma_king_distinct(g, ox, oy, color),
    }
}

/// Every move of the sequence starts from one of the first `n` squares of
/// the scan that goes file by file and, within a file, rank by rank.
spec fn departs_before(moves: Seq<Move>, n: int) -> bool {
    forall|i: int|
        0 <= i < moves.len() ==> (#[trigger] moves[i]).origin_square() is Some
            && moves[i].origin_square().unwrap().0 * 8 + moves[i].origin_square().unwrap().1 < n
}

proof fn lemma_moves_before_distinct(g: Grid, color: Color, n: nat)
    requires
        n <= 64,
    ensures
        moves_before(g, color, n).no_duplicates(),
        departs_before(moves_before(g, color, n), n as int),
    decreases n,
{
    if n > 0 {
        let file = (n - 1) / 8;
        let rank = (n - 1) % 8;
        let a = moves_before(g, color, (n - 1) as nat);
        let b = square_moves(g, file, rank, color);
        lemma_moves_before_distinct(g, color, (n - 1) as nat);
        assert(b.no_duplicates() && all_depart_from(b, file, rank)) by {
            match g[file][rank] {
                SquareContent::Filled(piece) => {
                    lemma_piece_moves_distinct(g, file, rank, piece.color, piece.kind);
                    lemma_piece_moves_on_board(g, file, rank, piece.color, piece.kind);
                },
                SquareContent::Empty => {},
            }
        }
        assert forall|i: int, j: int| 0 <= i < a.len() && 0 <= j < b.len() implies a[i]
            != b[j] by {
            assert(departs_from(b[j], file, rank));
        }
        lemma_no_dup_in_concat(a, b);
        assert forall|i: int| 0 <= i < (a + b).len() implies (#[trigger] (a + b)[i]).origin_square()
             is Some && (a + b)[i].origin_square().unwrap().0 * 8 + (a
            + b)[i].origin_square().unwrap().1 < n by {
            if i < a.len() {
                assert((a + b)[i] == a[i]);
            } else {
                assert((a + b)[i] == b[i - a.len()]);
                assert(departs_from(b[i - a.len()], file, rank));
            }
        }
    }
}

/// No move occurs twice among the pseudo-legal moves of a side.
pub proof fn lemma_side_moves_distinct(g: Grid, color: Color)
    ensures
        side_moves(g, color).no_duplicates(),
{
    lemma_moves_before_distinct(g, color, 64);
}

/// Taking moves out of a sequence of pairwise different moves leaves
/// pairwise different moves.
pub proof fn lemma_filter_distinct(moves: Seq<Move>, keep: spec_fn(Move) -> bool)
    requires
        moves.no_duplicates(),
    ensures
        moves.filter(keep).no_duplicates(),
    decreases moves.len(),
{
    reveal(Seq::filter);
    if moves.len() > 0 {
        let init = moves.drop_last();
        let last = moves.last();
        lemma_filter_distinct(init, keep);
        if keep(last) {
            let kept = init.filter(keep);
            assert forall|i: int| 0 <= i < kept.len() implies kept[i] != last by {
                if kept[i] == last {
                    assert(kept.contains(last));
                    init.lemma_filter_contains_rev(keep, last);
                    let k = choose|k: int| 0 <= k < init.len() && init[k] == last;
                    assert(moves[k] == moves[moves.len() - 1]);
                }
            }
        }
    }
}

} // verus!
