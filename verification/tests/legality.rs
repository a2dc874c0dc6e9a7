use chess::{
    apply_move, get_legal_moves, get_pseudolegal_moves, in_check, parse_fen, parse_fen_board,
    BoardState, Color, GameState, InternalInvariantViolation, Move, Piece, PieceKind,
    SquareContent,
};

fn normal(origin: (usize, usize), target: (usize, usize)) -> Move {
    Move::Normal { origin, target }
}

fn from(origin: (usize, usize), targets: &[(usize, usize)]) -> Vec<Move> {
    targets.iter().map(|target| normal(origin, *target)).collect()
}

fn filled(color: Color, kind: PieceKind) -> SquareContent {
    SquareContent::Filled(Piece { color, kind })
}

fn board(rows: &str) -> BoardState {
    parse_fen_board(rows).unwrap()
}

#[test]
fn plain_move_carries_the_piece() {
    let start = GameState::new().board;
    let next = apply_move(&normal((4, 1), (4, 3)), &start).unwrap();
    for file in 0..8 {
        for rank in 0..8 {
            let expected = if (file, rank) == (4, 1) {
                SquareContent::Empty
            } else if (file, rank) == (4, 3) {
                filled(Color::White, PieceKind::Pawn)
            } else {
                start.squares[file][rank]
            };
            assert_eq!(next.squares[file][rank], expected);
        }
    }
    assert_eq!(start, GameState::new().board);
    assert_eq!(next, board("rnbqkbnr/pppppppp/8/8/4P3/8/PPPP1PPP/RNBQKBNR"));
}

#[test]
fn plain_move_replaces_what_stood_on_the_target() {
    let b = board("8/8/8/3p4/4N3/8/8/8");
    let next = apply_move(&normal((4, 3), (3, 4)), &b).unwrap();
    assert_eq!(next, board("8/8/8/3N4/8/8/8/8"));
}

#[test]
fn plain_move_from_an_empty_square_clears_the_target() {
    let b = board("8/8/8/3p4/8/8/8/8");
    let next = apply_move(&normal((0, 0), (3, 4)), &b).unwrap();
    assert_eq!(next, BoardState::new());
    let same = apply_move(&normal((3, 4), (3, 4)), &b).unwrap();
    assert_eq!(same, BoardState::new());
}

#[test]
fn promotion_changes_the_kind_and_keeps_the_color() {
    let b = board("5r2/4P3/8/8/8/8/4p3/8");
    let push = Move::Promote { origin: (4, 6), target: (4, 7), kind: PieceKind::Queen };
    assert_eq!(apply_move(&push, &b), Ok(board("4Qr2/8/8/8/8/8/4p3/8")));
    let capture = Move::Promote { origin: (4, 6), target: (5, 7), kind: PieceKind::Knight };
    assert_eq!(apply_move(&capture, &b), Ok(board("5N2/8/8/8/8/8/4p3/8")));
    let black = Move::Promote { origin: (4, 1), target: (4, 0), kind: PieceKind::Rook };
    assert_eq!(apply_move(&black, &b), Ok(board("5r2/4P3/8/8/8/8/8/4r3")));
    let bishop = Move::Promote { origin: (4, 1), target: (4, 0), kind: PieceKind::Bishop };
    assert_eq!(apply_move(&bishop, &b), Ok(board("5r2/4P3/8/8/8/8/8/4b3")));
}

#[test]
fn promotion_from_an_empty_square_fails() {
    let b = board("8/4P3/8/8/8/8/8/8");
    let m = Move::Promote { origin: (3, 6), target: (3, 7), kind: PieceKind::Queen };
    assert_eq!(apply_move(&m, &b), Err(InternalInvariantViolation::PromotionFromEmptySquare));
}

#[test]
fn castling_is_not_implemented() {
    let b = board("r3k2r/8/8/8/8/8/8/R3K2R");
    assert_eq!(
        apply_move(&Move::CastleK, &b),
        Err(InternalInvariantViolation::CastlingUnimplemented)
    );
    assert_eq!(
        apply_move(&Move::CastleQ, &b),
        Err(InternalInvariantViolation::CastlingUnimplemented)
    );
}

#[test]
fn equal_boards_give_equal_successors() {
    let first = parse_fen("rnbqkbnr/pp1ppppp/8/2p5/4P3/5N2/PPPP1PPP/RNBQKB1R b KQkq - 1 2")
        .unwrap()
        .board;
    let second = board("rnbqkbnr/pp1ppppp/8/2p5/4P3/5N2/PPPP1PPP/RNBQKB1R");
    assert_eq!(first, second);
    for color in [Color::White, Color::Black] {
        for m in get_pseudolegal_moves(&first, color) {
            assert_eq!(apply_move(&m, &first), apply_move(&m, &second));
            assert_eq!(apply_move(&m, &first), apply_move(&m, &first));
        }
    }
    assert_eq!(first, second);
}

#[test]
fn nobody_is_in_check_at_the_start() {
    let gs = GameState::new();
    assert!(!in_check(&gs.board, Color::White));
    assert!(!in_check(&gs.board, Color::Black));
}

#[test]
fn rook_on_an_open_file_gives_check() {
    let b = board("k3r3/8/8/8/8/8/8/4K3");
    assert!(in_check(&b, Color::White));
    assert!(!in_check(&b, Color::Black));
}

#[test]
fn piece_in_between_blocks_the_check() {
    assert!(!in_check(&board("k3r3/8/8/8/4p3/8/8/4K3"), Color::White));
    assert!(!in_check(&board("k3r3/8/8/8/4P3/8/8/4K3"), Color::White));
}

#[test]
fn knight_and_bishop_and_pawn_give_check() {
    assert!(in_check(&board("k7/8/8/8/8/5n2/8/4K3"), Color::White));
    assert!(in_check(&board("k7/8/8/8/7b/8/8/4K3"), Color::White));
    assert!(in_check(&board("k7/8/8/8/8/8/3p4/4K3"), Color::White));
    assert!(!in_check(&board("k7/8/8/8/8/8/4p3/4K3"), Color::White));
    assert!(in_check(&board("4k3/3P4/8/8/8/8/8/4K3"), Color::Black));
    assert!(!in_check(&board("4k3/4P3/8/8/8/8/8/4K3"), Color::Black));
    assert!(in_check(&board("8/8/8/3k4/4P3/8/8/4K3"), Color::Black));
    assert!(in_check(&board("8/8/8/8/8/8/3kK3/8"), Color::Black));
    assert!(in_check(&board("8/8/8/8/8/8/3kK3/8"), Color::White));
}

#[test]
fn board_without_a_king_is_not_in_check() {
    assert!(!in_check(&board("4r3/8/8/8/8/8/8/4Q3"), Color::White));
    assert!(!in_check(&BoardState::new(), Color::Black));
}

#[test]
fn pinned_rook_stays_on_its_file() {
    let gs = parse_fen("k3r3/8/8/8/8/8/4R3/4K3 w - - 0 1").unwrap();
    let mut pseudo = from((4, 0), &[(3, 0), (3, 1), (5, 0), (5, 1)]);
    pseudo.extend(from(
        (4, 1),
        &[
            (5, 1),
            (6, 1),
            (7, 1),
            (3, 1),
            (2, 1),
            (1, 1),
            (0, 1),
            (4, 2),
            (4, 3),
            (4, 4),
            (4, 5),
            (4, 6),
            (4, 7),
        ],
    ));
    assert_eq!(get_pseudolegal_moves(&gs.board, Color::White), pseudo);
    let mut legal = from((4, 0), &[(3, 0), (3, 1), (5, 0), (5, 1)]);
    legal.extend(from((4, 1), &[(4, 2), (4, 3), (4, 4), (4, 5), (4, 6), (4, 7)]));
    assert_eq!(get_legal_moves(&gs), legal);
}

#[test]
fn king_in_check_must_leave_the_file() {
    let gs = parse_fen("k3r3/8/8/8/8/8/8/4K3 w - - 0 1").unwrap();
    assert_eq!(
        get_pseudolegal_moves(&gs.board, Color::White),
        from((4, 0), &[(3, 0), (3, 1), (4, 1), (5, 0), (5, 1)])
    );
    assert_eq!(get_legal_moves(&gs), from((4, 0), &[(3, 0), (3, 1), (5, 0), (5, 1)]));
}

#[test]
fn legal_moves_are_those_of_the_side_to_move() {
    let white = parse_fen("k3r3/8/8/8/8/8/8/4K3 w - - 0 1").unwrap();
    let black = parse_fen("k3r3/8/8/8/8/8/8/4K3 b - - 0 1").unwrap();
    assert_eq!(get_legal_moves(&white).len(), 4);
    let mut expected = from((0, 7), &[(0, 6), (1, 6), (1, 7)]);
    expected.extend(from(
        (4, 7),
        &[
            (5, 7),
            (6, 7),
            (7, 7),
            (3, 7),
            (2, 7),
            (1, 7),
            (4, 6),
            (4, 5),
            (4, 4),
            (4, 3),
            (4, 2),
            (4, 1),
            (4, 0),
        ],
    ));
    assert_eq!(get_legal_moves(&black), expected);
}

#[test]
fn legal_moves_keep_the_king_safe() {
    for text in [
        "rnbqkbnr/pppppppp/8/8/8/8/PPPPPPPP/RNBQKBNR w KQkq - 0 1",
        "rnbqkbnr/pp1ppppp/8/2p5/4P3/5N2/PPPP1PPP/RNBQKB1R b KQkq - 1 2",
        "k3r3/8/8/8/8/8/4R3/4K3 w - - 0 1",
        "k3r3/8/8/8/8/8/8/4K3 w - - 0 1",
        "r3k2r/pPp2pPp/8/3Pp3/1b6/8/PpP2PpP/R3K2R w KQkq - 0 1",
        "r3k2r/pPp2pPp/8/3Pp3/1b6/8/PpP2PpP/R3K2R b KQkq - 0 1",
    ] {
        let gs = parse_fen(text).unwrap();
        let pseudo = get_pseudolegal_moves(&gs.board, gs.active);
        let legal = get_legal_moves(&gs);
        let expected: Vec<Move> = pseudo
            .iter()
            .filter(|m| !in_check(&apply_move(m, &gs.board).unwrap(), gs.active))
            .cloned()
            .collect();
        assert_eq!(legal, expected);
        for m in &legal {
            assert!(!in_check(&apply_move(m, &gs.board).unwrap(), gs.active));
            assert!(pseudo.contains(m));
        }
    }
}

#[test]
fn second_position_has_twenty_two_legal_moves() {
    let gs = parse_fen("rnbqkbnr/pp1ppppp/8/2p5/4P3/5N2/PPPP1PPP/RNBQKB1R b KQkq - 1 2").unwrap();
    assert_eq!(get_legal_moves(&gs).len(), 22);
}

#[test]
fn new_game_has_twenty_legal_moves() {
    let gs = GameState::new();
    let legal = get_legal_moves(&gs);
    assert_eq!(legal.len(), 20);
    assert_eq!(legal, get_pseudolegal_moves(&gs.board, Color::White));
}

#[test]
fn legal_moves_do_not_change_the_position() {
    let gs = parse_fen("k3r3/8/8/8/8/8/4R3/4K3 w - - 0 1").unwrap();
    let copy = gs;
    let _ = get_legal_moves(&gs);
    assert_eq!(gs, copy);
}

#[test]
fn get_and_put_read_and_write_one_square() {
    let mut b = BoardState::new();
    let queen = filled(Color::Black, PieceKind::Queen);
    b.put((3, 7), queen);
    assert_eq!(b.get((3, 7)), queen);
    assert_eq!(b.squares[3][7], queen);
    for file in 0..8 {
        for rank in 0..8 {
            if (file, rank) != (3, 7) {
                assert_eq!(b.get((file, rank)), SquareContent::Empty);
            }
        }
    }
    b.put((3, 7), SquareContent::Empty);
    assert_eq!(b, BoardState::new());
}

#[test]
fn starting_board_is_that_of_the_new_game() {
    assert_eq!(BoardState::starting(), GameState::new().board);
    assert_eq!(
        BoardState::starting(),
        board("rnbqkbnr/pppppppp/8/8/8/8/PPPPPPPP/RNBQKBNR")
    );
}

#[test]
fn no_legal_move_occurs_twice() {
    for text in [
        "rnbqkbnr/pppppppp/8/8/8/8/PPPPPPPP/RNBQKBNR w KQkq - 0 1",
        "r3k2r/pPp2pPp/8/3Pp3/1b6/8/PpP2PpP/R3K2R w KQkq - 0 1",
        "r3k2r/pPp2pPp/8/3Pp3/1b6/8/PpP2PpP/R3K2R b KQkq - 0 1",
    ] {
        let gs = parse_fen(text).unwrap();
        for moves in [get_pseudolegal_moves(&gs.board, gs.active), get_legal_moves(&gs)] {
            for i in 0..moves.len() {
                for j in 0..i {
                    assert_ne!(moves[i], moves[j]);
                }
            }
        }
    }
}
