use chess::{
    get_piece_pseudolegal_moves, get_pseudolegal_moves, in_bounds, opposite, parse_fen_board,
    BoardState, Color, GameState, Move, PieceKind, SquareContent,
};

fn normal(origin: (usize, usize), target: (usize, usize)) -> Move {
    Move::Normal { origin, target }
}

fn from(origin: (usize, usize), targets: &[(usize, usize)]) -> Vec<Move> {
    targets.iter().map(|target| normal(origin, *target)).collect()
}

fn promotions(origin: (usize, usize), target: (usize, usize)) -> Vec<Move> {
    [PieceKind::Knight, PieceKind::Bishop, PieceKind::Rook, PieceKind::Queen]
        .iter()
        .map(|kind| Move::Promote { origin, target, kind: *kind })
        .collect()
}

fn board(rows: &str) -> BoardState {
    parse_fen_board(rows).unwrap()
}

fn target_of(m: &Move) -> Option<(usize, usize)> {
    match m {
        Move::Normal { target, .. } => Some(*target),
        Move::Promote { target, .. } => Some(*target),
        _ => None,
    }
}

const KINDS: [PieceKind; 6] = [
    PieceKind::Pawn,
    PieceKind::Knight,
    PieceKind::Bishop,
    PieceKind::Rook,
    PieceKind::Queen,
    PieceKind::King,
];

const BOARDS: [&str; 5] = [
    "8/8/8/8/8/8/8/8",
    "rnbqkbnr/pppppppp/8/8/8/8/PPPPPPPP/RNBQKBNR",
    "rnbqkbnr/pp1ppppp/8/2p5/4P3/5N2/PPPP1PPP/RNBQKB1R",
    "r3k2r/pPp2pPp/8/3Pp3/8/8/PpP2PpP/R3K2R",
    "pppppppp/PPPPPPPP/pppppppp/PPPPPPPP/pppppppp/PPPPPPPP/pppppppp/PPPPPPPP",
];

#[test]
fn in_bounds_is_the_board() {
    assert!(in_bounds((0, 0)));
    assert!(in_bounds((7, 7)));
    assert!(in_bounds((0, 7)));
    assert!(in_bounds((7, 0)));
    assert!(in_bounds((3, 4)));
    assert!(!in_bounds((8, 0)));
    assert!(!in_bounds((0, 8)));
    assert!(!in_bounds((-1, 3)));
    assert!(!in_bounds((3, -1)));
    assert!(!in_bounds((8, 8)));
    assert!(!in_bounds((i32::MAX, 0)));
    assert!(!in_bounds((0, i32::MIN)));
    for x in -2..10 {
        for y in -2..10 {
            assert_eq!(in_bounds((x, y)), (0..8).contains(&x) && (0..8).contains(&y));
        }
    }
}

#[test]
fn opposite_swaps_the_colors() {
    assert_eq!(opposite(Color::White), Color::Black);
    assert_eq!(opposite(Color::Black), Color::White);
}

#[test]
fn knight_in_the_corner_has_two_moves() {
    let empty = BoardState::new();
    assert_eq!(
        get_piece_pseudolegal_moves((0, 0), Color::White, PieceKind::Knight, &empty),
        from((0, 0), &[(1, 2), (2, 1)])
    );
    assert_eq!(
        get_piece_pseudolegal_moves((7, 7), Color::Black, PieceKind::Knight, &empty),
        from((7, 7), &[(6, 5), (5, 6)])
    );
}

#[test]
fn knight_in_the_middle_has_eight_moves() {
    let empty = BoardState::new();
    assert_eq!(
        get_piece_pseudolegal_moves((3, 3), Color::White, PieceKind::Knight, &empty),
        from((3, 3), &[(2, 5), (4, 5), (5, 4), (5, 2), (2, 1), (4, 1), (1, 4), (1, 2)])
    );
}

#[test]
fn knight_takes_the_other_color_only() {
    let b = board("8/8/2p1P3/8/3N4/8/8/8");
    assert_eq!(
        get_piece_pseudolegal_moves((3, 3), Color::White, PieceKind::Knight, &b),
        from((3, 3), &[(2, 5), (5, 4), (5, 2), (2, 1), (4, 1), (1, 4), (1, 2)])
    );
    assert_eq!(
        get_piece_pseudolegal_moves((3, 3), Color::Black, PieceKind::Knight, &b),
        from((3, 3), &[(4, 5), (5, 4), (5, 2), (2, 1), (4, 1), (1, 4), (1, 2)])
    );
}

#[test]
fn king_moves_to_adjacent_squares() {
    let empty = BoardState::new();
    assert_eq!(
        get_piece_pseudolegal_moves((4, 0), Color::White, PieceKind::King, &empty),
        from((4, 0), &[(3, 0), (3, 1), (4, 1), (5, 0), (5, 1)])
    );
    assert_eq!(
        get_piece_pseudolegal_moves((3, 3), Color::Black, PieceKind::King, &empty),
        from((3, 3), &[(2, 2), (2, 3), (2, 4), (3, 2), (3, 4), (4, 2), (4, 3), (4, 4)])
    );
    assert_eq!(
        get_piece_pseudolegal_moves((7, 7), Color::Black, PieceKind::King, &empty),
        from((7, 7), &[(6, 6), (6, 7), (7, 6)])
    );
}

#[test]
fn king_does_not_castle() {
    let b = board("r3k2r/8/8/8/8/8/8/R3K2R");
    let white = get_piece_pseudolegal_moves((4, 0), Color::White, PieceKind::King, &b);
    assert_eq!(white, from((4, 0), &[(3, 0), (3, 1), (4, 1), (5, 0), (5, 1)]));
    let all = get_pseudolegal_moves(&b, Color::White);
    assert!(all.iter().all(|m| matches!(m, Move::Normal { .. })));
}

#[test]
fn rook_rays_run_to_the_edge() {
    let empty = BoardState::new();
    assert_eq!(
        get_piece_pseudolegal_moves((0, 0), Color::White, PieceKind::Rook, &empty),
        from(
            (0, 0),
            &[
                (1, 0),
                (2, 0),
                (3, 0),
                (4, 0),
                (5, 0),
                (6, 0),
                (7, 0),
                (0, 1),
                (0, 2),
                (0, 3),
                (0, 4),
                (0, 5),
                (0, 6),
                (0, 7),
            ]
        )
    );
    assert_eq!(
        get_piece_pseudolegal_moves((7, 7), Color::White, PieceKind::Rook, &empty),
        from(
            (7, 7),
            &[
                (6, 7),
                (5, 7),
                (4, 7),
                (3, 7),
                (2, 7),
                (1, 7),
                (0, 7),
                (7, 6),
                (7, 5),
                (7, 4),
                (7, 3),
                (7, 2),
                (7, 1),
                (7, 0),
            ]
        )
    );
}

#[test]
fn rook_ray_stops_at_the_first_piece() {
    let b = board("8/8/3P4/8/3R1p2/8/8/8");
    assert_eq!(
        get_piece_pseudolegal_moves((3, 3), Color::White, PieceKind::Rook, &b),
        from((3, 3), &[(4, 3), (5, 3), (2, 3), (1, 3), (0, 3), (3, 4), (3, 2), (3, 1), (3, 0)])
    );
    assert_eq!(
        get_piece_pseudolegal_moves((3, 3), Color::Black, PieceKind::Rook, &b),
        from(
            (3, 3),
            &[(4, 3), (2, 3), (1, 3), (0, 3), (3, 4), (3, 5), (3, 2), (3, 1), (3, 0)]
        )
    );
}

#[test]
fn bishop_rays_run_along_the_diagonals() {
    let empty = BoardState::new();
    assert_eq!(
        get_piece_pseudolegal_moves((3, 3), Color::White, PieceKind::Bishop, &empty),
        from(
            (3, 3),
            &[
                (4, 4),
                (5, 5),
                (6, 6),
                (7, 7),
                (4, 2),
                (5, 1),
                (6, 0),
                (2, 2),
                (1, 1),
                (0, 0),
                (2, 4),
                (1, 5),
                (0, 6),
            ]
        )
    );
    assert_eq!(
        get_piece_pseudolegal_moves((0, 7), Color::White, PieceKind::Bishop, &empty),
        from((0, 7), &[(1, 6), (2, 5), (3, 4), (4, 3), (5, 2), (6, 1), (7, 0)])
    );
}

#[test]
fn bishop_ray_stops_at_the_first_piece() {
    let b = board("8/8/1p3P2/8/3B4/8/1P3p2/8");
    assert_eq!(
        get_piece_pseudolegal_moves((3, 3), Color::White, PieceKind::Bishop, &b),
        from((3, 3), &[(4, 4), (4, 2), (5, 1), (2, 2), (2, 4), (1, 5)])
    );
}

#[test]
fn queen_moves_as_bishop_then_as_rook() {
    for rows in BOARDS {
        let b = board(rows);
        for file in 0..8 {
            for rank in 0..8 {
                for color in [Color::White, Color::Black] {
                    let mut both =
                        get_piece_pseudolegal_moves((file, rank), color, PieceKind::Bishop, &b);
                    both.extend(get_piece_pseudolegal_moves(
                        (file, rank),
                        color,
                        PieceKind::Rook,
                        &b,
                    ));
                    assert_eq!(
                        get_piece_pseudolegal_moves((file, rank), color, PieceKind::Queen, &b),
                        both
                    );
                }
            }
        }
    }
    let empty = BoardState::new();
    assert_eq!(
        get_piece_pseudolegal_moves((3, 3), Color::White, PieceKind::Queen, &empty).len(),
        27
    );
}

#[test]
fn pawn_pushes_one_or_two_from_home() {
    let empty = BoardState::new();
    assert_eq!(
        get_piece_pseudolegal_moves((4, 1), Color::White, PieceKind::Pawn, &empty),
        from((4, 1), &[(4, 2), (4, 3)])
    );
    assert_eq!(
        get_piece_pseudolegal_moves((4, 2), Color::White, PieceKind::Pawn, &empty),
        from((4, 2), &[(4, 3)])
    );
    assert_eq!(
        get_piece_pseudolegal_moves((4, 6), Color::Black, PieceKind::Pawn, &empty),
        from((4, 6), &[(4, 5), (4, 4)])
    );
    assert_eq!(
        get_piece_pseudolegal_moves((4, 5), Color::Black, PieceKind::Pawn, &empty),
        from((4, 5), &[(4, 4)])
    );
    assert_eq!(
        get_piece_pseudolegal_moves((4, 6), Color::White, PieceKind::Pawn, &empty).len(),
        4
    );
    assert_eq!(
        get_piece_pseudolegal_moves((4, 1), Color::Black, PieceKind::Pawn, &empty).len(),
        4
    );
}

#[test]
fn pawn_push_needs_empty_squares() {
    let near = board("8/8/8/8/8/4p3/8/8");
    assert_eq!(
        get_piece_pseudolegal_moves((4, 1), Color::White, PieceKind::Pawn, &near),
        Vec::new()
    );
    let far = board("8/8/8/8/4p3/8/8/8");
    assert_eq!(
        get_piece_pseudolegal_moves((4, 1), Color::White, PieceKind::Pawn, &far),
        from((4, 1), &[(4, 2)])
    );
    let own = board("8/8/8/8/8/4P3/8/8");
    assert_eq!(
        get_piece_pseudolegal_moves((4, 1), Color::White, PieceKind::Pawn, &own),
        Vec::new()
    );
    let black_near = board("8/8/4P3/8/8/8/8/8");
    assert_eq!(
        get_piece_pseudolegal_moves((4, 6), Color::Black, PieceKind::Pawn, &black_near),
        Vec::new()
    );
    let black_far = board("8/8/8/4P3/8/8/8/8");
    assert_eq!(
        get_piece_pseudolegal_moves((4, 6), Color::Black, PieceKind::Pawn, &black_far),
        from((4, 6), &[(4, 5)])
    );
}

#[test]
fn pawn_captures_on_the_forward_diagonals() {
    let b = board("8/8/8/3ppp2/8/8/8/8");
    assert_eq!(
        get_piece_pseudolegal_moves((4, 3), Color::White, PieceKind::Pawn, &b),
        from((4, 3), &[(3, 4), (5, 4)])
    );
    let own = board("8/8/8/3P1P2/8/8/8/8");
    assert_eq!(
        get_piece_pseudolegal_moves((4, 3), Color::White, PieceKind::Pawn, &own),
        from((4, 3), &[(4, 4)])
    );
    assert_eq!(
        get_piece_pseudolegal_moves((4, 5), Color::Black, PieceKind::Pawn, &own),
        from((4, 5), &[(4, 4), (3, 4), (5, 4)])
    );
    let edge = board("8/8/8/8/8/1p6/8/8");
    assert_eq!(
        get_piece_pseudolegal_moves((0, 1), Color::White, PieceKind::Pawn, &edge),
        from((0, 1), &[(0, 2), (0, 3), (1, 2)])
    );
    let other_edge = board("8/8/8/8/8/6p1/8/8");
    assert_eq!(
        get_piece_pseudolegal_moves((7, 1), Color::White, PieceKind::Pawn, &other_edge),
        from((7, 1), &[(7, 2), (7, 3), (6, 2)])
    );
}

#[test]
fn pawn_does_not_capture_in_passing() {
    let b = board("8/8/8/3pP3/8/8/8/8");
    assert_eq!(
        get_piece_pseudolegal_moves((4, 4), Color::White, PieceKind::Pawn, &b),
        from((4, 4), &[(4, 5)])
    );
}

#[test]
fn pawn_push_to_the_far_rank_is_four_promotions() {
    let empty = BoardState::new();
    assert_eq!(
        get_piece_pseudolegal_moves((4, 6), Color::White, PieceKind::Pawn, &empty),
        promotions((4, 6), (4, 7))
    );
    assert_eq!(
        get_piece_pseudolegal_moves((4, 1), Color::Black, PieceKind::Pawn, &empty),
        promotions((4, 1), (4, 0))
    );
    assert_eq!(
        promotions((4, 6), (4, 7)),
        vec![
            Move::Promote { origin: (4, 6), target: (4, 7), kind: PieceKind::Knight },
            Move::Promote { origin: (4, 6), target: (4, 7), kind: PieceKind::Bishop },
            Move::Promote { origin: (4, 6), target: (4, 7), kind: PieceKind::Rook },
            Move::Promote { origin: (4, 6), target: (4, 7), kind: PieceKind::Queen },
        ]
    );
}

#[test]
fn pawn_capture_onto_the_far_rank_is_four_promotions() {
    let b = board("3Pnr2/8/8/8/8/8/8/8");
    assert_eq!(
        get_piece_pseudolegal_moves((4, 6), Color::White, PieceKind::Pawn, &b),
        promotions((4, 6), (5, 7))
    );
    let both = board("3r1r2/8/8/8/8/8/8/8");
    let mut expected = promotions((4, 6), (4, 7));
    expected.extend(promotions((4, 6), (3, 7)));
    expected.extend(promotions((4, 6), (5, 7)));
    assert_eq!(
        get_piece_pseudolegal_moves((4, 6), Color::White, PieceKind::Pawn, &both),
        expected
    );
    let black = board("8/8/8/8/8/8/8/3R1R2");
    let mut expected = promotions((4, 1), (4, 0));
    expected.extend(promotions((4, 1), (3, 0)));
    expected.extend(promotions((4, 1), (5, 0)));
    assert_eq!(
        get_piece_pseudolegal_moves((4, 1), Color::Black, PieceKind::Pawn, &black),
        expected
    );
}

#[test]
fn pawn_landing_on_the_far_rank_is_never_a_plain_move() {
    for rows in BOARDS {
        let b = board(rows);
        for file in 0..8 {
            for rank in 0..8 {
                for (color, far) in [(Color::White, 7), (Color::Black, 0)] {
                    let moves =
                        get_piece_pseudolegal_moves((file, rank), color, PieceKind::Pawn, &b);
                    for target_file in 0..8 {
                        let landing: Vec<Move> = moves
                            .iter()
                            .filter(|m| target_of(m) == Some((target_file, far)))
                            .cloned()
                            .collect();
                        assert!(
                            landing.is_empty()
                                || landing == promotions((file, rank), (target_file, far))
                        );
                    }
                    for m in &moves {
                        if let Move::Promote { target, .. } = m {
                            assert_eq!(target.1, far);
                        }
                    }
                }
            }
        }
    }
}

#[test]
fn pawn_on_the_far_rank_has_no_move() {
    let b = board("rnbqkbnr/8/8/8/8/8/8/RNBQKBNR");
    assert_eq!(
        get_piece_pseudolegal_moves((4, 7), Color::White, PieceKind::Pawn, &b),
        Vec::new()
    );
    assert_eq!(
        get_piece_pseudolegal_moves((4, 0), Color::Black, PieceKind::Pawn, &b),
        Vec::new()
    );
}

#[test]
fn start_position_moves_follow_the_scan() {
    let gs = GameState::new();
    let mut expected = Vec::new();
    expected.extend(from((0, 1), &[(0, 2), (0, 3)]));
    expected.extend(from((1, 0), &[(0, 2), (2, 2)]));
    expected.extend(from((1, 1), &[(1, 2), (1, 3)]));
    expected.extend(from((2, 1), &[(2, 2), (2, 3)]));
    expected.extend(from((3, 1), &[(3, 2), (3, 3)]));
    expected.extend(from((4, 1), &[(4, 2), (4, 3)]));
    expected.extend(from((5, 1), &[(5, 2), (5, 3)]));
    expected.extend(from((6, 0), &[(5, 2), (7, 2)]));
    expected.extend(from((6, 1), &[(6, 2), (6, 3)]));
    expected.extend(from((7, 1), &[(7, 2), (7, 3)]));
    assert_eq!(get_pseudolegal_moves(&gs.board, Color::White), expected);

    let mut expected = Vec::new();
    expected.extend(from((0, 6), &[(0, 5), (0, 4)]));
    expected.extend(from((1, 6), &[(1, 5), (1, 4)]));
    expected.extend(from((1, 7), &[(0, 5), (2, 5)]));
    expected.extend(from((2, 6), &[(2, 5), (2, 4)]));
    expected.extend(from((3, 6), &[(3, 5), (3, 4)]));
    expected.extend(from((4, 6), &[(4, 5), (4, 4)]));
    expected.extend(from((5, 6), &[(5, 5), (5, 4)]));
    expected.extend(from((6, 6), &[(6, 5), (6, 4)]));
    expected.extend(from((6, 7), &[(5, 5), (7, 5)]));
    expected.extend(from((7, 6), &[(7, 5), (7, 4)]));
    assert_eq!(get_pseudolegal_moves(&gs.board, Color::Black), expected);
}

#[test]
fn side_moves_are_the_piece_moves_in_scan_order() {
    for rows in BOARDS {
        let b = board(rows);
        for color in [Color::White, Color::Black] {
            let mut expected = Vec::new();
            for file in 0..8 {
                for rank in 0..8 {
                    if let SquareContent::Filled(piece) = b.squares[file][rank] {
                        if piece.color == color {
                            expected.extend(get_piece_pseudolegal_moves(
                                (file, rank),
                                piece.color,
                                piece.kind,
                                &b,
                            ));
                        }
                    }
                }
            }
            assert_eq!(get_pseudolegal_moves(&b, color), expected);
        }
    }
}

#[test]
fn empty_board_has_no_moves() {
    let empty = BoardState::new();
    assert_eq!(get_pseudolegal_moves(&empty, Color::White), Vec::new());
    assert_eq!(get_pseudolegal_moves(&empty, Color::Black), Vec::new());
}

#[test]
fn no_move_leaves_the_board() {
    for rows in BOARDS {
        let b = board(rows);
        for file in 0..8 {
            for rank in 0..8 {
                for color in [Color::White, Color::Black] {
                    for kind in KINDS {
                        for m in get_piece_pseudolegal_moves((file, rank), color, kind, &b) {
                            let (origin, target) = match m {
                                Move::Normal { origin, target } => (origin, target),
                                Move::Promote { origin, target, .. } => (origin, target),
                                _ => panic!("castling is not generated"),
                            };
                            assert_eq!(origin, (file, rank));
                            assert!(target.0 < 8 && target.1 < 8);
                            assert_ne!(target, origin);
                        }
                    }
                }
            }
        }
    }
}

#[test]
fn no_move_occurs_twice() {
    for rows in BOARDS {
        let b = board(rows);
        for file in 0..8 {
            for rank in 0..8 {
                for color in [Color::White, Color::Black] {
                    for kind in KINDS {
                        let moves = get_piece_pseudolegal_moves((file, rank), color, kind, &b);
                        for i in 0..moves.len() {
                            for j in 0..i {
                                assert_ne!(moves[i], moves[j]);
                            }
                        }
                    }
                }
            }
        }
    }
}

#[test]
fn no_move_lands_on_the_movers_own_color() {
    for rows in BOARDS {
        let b = board(rows);
        for color in [Color::White, Color::Black] {
            for m in get_pseudolegal_moves(&b, color) {
                let (file, rank) = target_of(&m).unwrap();
                if let SquareContent::Filled(piece) = b.squares[file][rank] {
                    assert_eq!(piece.color, opposite(color));
                }
            }
        }
    }
}
