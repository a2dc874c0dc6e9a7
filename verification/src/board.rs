//! The data model: colors, pieces, squares, boards, positions and moves,
//! together with the mathematical grid that contracts speak of.

use vstd::prelude::*;

verus! {

/// The two sides.
#[derive(Clone, Copy, Debug, PartialEq, Eq, Structural)]
pub enum Color {
    Black,
    White,
}

/// The six kinds of chess piece.
#[derive(Clone, Copy, Debug, PartialEq, Eq, Structural)]
pub enum PieceKind {
    Pawn,
    Knight,
    Bishop,
    Rook,
    Queen,
    King,
}

/// A piece: a kind that belongs to a color.
#[derive(Clone, Copy, Debug, PartialEq, Eq, Structural)]
pub struct Piece {
    pub color: Color,
    pub kind: PieceKind,
}

/// What one square of the board holds.
#[derive(Clone, Copy, Debug, PartialEq, Eq, Structural)]
pub enum SquareContent {
    Empty,
    Filled(Piece),
}

/// A square, as `(file, rank)`. A valid square has both coordinates below 8.
pub type Square = (usize, usize);

/// The mathematical model of a board: `grid[file][rank]` is what the square
/// holds. A well-formed grid has eight files of eight ranks.
pub type Grid = Seq<Seq<SquareContent>>;

/// The board: a full 8x8 array, indexed by file and then by rank.
#[derive(Clone, Copy, Debug, PartialEq, Eq)]
pub struct BoardState {
    pub squares: [[SquareContent; 8]; 8],
}

/// Which castling moves each side may still make.
#[derive(Clone, Copy, Debug, PartialEq, Eq, Structural)]
pub struct CastlingState {
    pub wk: bool,
    pub wq: bool,
    pub bk: bool,
    pub bq: bool,
}

/// A full position: the board, the castling rights, the side to move and the
/// square a pawn may be captured on in passing, if any.
#[derive(Clone, Copy, Debug, PartialEq, Eq)]
pub struct GameState {
    pub board: BoardState,
    pub castling: CastlingState,
    pub active: Color,
    pub en_passant: Option<Square>,
}

/// The mathematical model of a [`GameState`].
pub struct Position {
    pub board: Grid,
    pub castling: CastlingState,
    pub active: Color,
    pub en_passant: Option<Square>,
}

/// A move. The two castling variants are representable but are neither
/// generated nor applied.
#[derive(Clone, Copy, Debug, PartialEq, Eq)]
pub enum Move {
    Normal { origin: Square, target: Square },
    Promote { origin: Square, target: Square, kind: PieceKind },
    CastleK,
    CastleQ,
}

/// Both coordinates lie on the board.
pub open spec fn on_board(file: int, rank: int) -> bool {
    0 <= file < 8 && 0 <= rank < 8
}

/// The square is one of the 64 squares of the board.
pub open spec fn square_valid(sq: Square) -> bool {
    sq.0 < 8 && sq.1 < 8
}

/// The grid has eight files of eight ranks each.
pub open spec fn grid_wf(g: Grid) -> bool {
    &&& g.len() == 8
    &&& forall|file: int| 0 <= file < 8 ==> (#[trigger] g[file]).len() == 8
}

/// The grid with the content of one square replaced.
pub open spec fn grid_set(g: Grid, file: int, rank: int, content: SquareContent) -> Grid {
    g.update(file, g[file].update(rank, content))
}

/// The square holds a piece of the given color.
pub open spec fn holds_color(g: Grid, file: int, rank: int, color: Color) -> bool {
    g[file][rank] matches SquareContent::Filled(piece) && piece.color == color
}

/// A pawn may be promoted to this kind.
pub open spec fn promotable(kind: PieceKind) -> bool {
    kind == PieceKind::Knight || kind == PieceKind::Bishop || kind == PieceKind::Rook || kind
        == PieceKind::Queen
}

/// The other color.
pub open spec fn opposite_color(color: Color) -> Color {
    match color {
        Color::Black => Color::White,
        Color::White => Color::Black,
    }
}

/// The kind of piece that starts on the given file of a side's back rank.
pub open spec fn back_rank_kind(file: int) -> PieceKind {
    if file == 0 || file == 7 {
        PieceKind::Rook
    } else if file == 1 || file == 6 {
        PieceKind::Knight
    } else if file == 2 || file == 5 {
        PieceKind::Bishop
    } else if file == 3 {
        PieceKind::Queen
    } else {
        PieceKind::King
    }
}

/// What a square holds in the standard starting layout.
pub open spec fn starting_content(file: int, rank: int) -> SquareContent {
    if rank == 0 {
        SquareContent::Filled(Piece { color: Color::White, kind: back_rank_kind(file) })
    } else if rank == 1 {
        SquareContent::Filled(Piece { color: Color::White, kind: PieceKind::Pawn })
    } else if rank == 6 {
        SquareContent::Filled(Piece { color: Color::Black, kind: PieceKind::Pawn })
    } else if rank == 7 {
        SquareContent::Filled(Piece { color: Color::Black, kind: back_rank_kind(file) })
    } else {
        SquareContent::Empty
    }
}

/// The grid in which every square is empty.
pub open spec fn empty_grid() -> Grid {
    Seq::new(8, |file: int| Seq::new(8, |rank: int| SquareContent::Empty))
}

/// The grid of the standard starting layout.
pub open spec fn starting_grid() -> Grid {
    Seq::new(8, |file: int| Seq::new(8, |rank: int| starting_content(file, rank)))
}

/// The position a game starts from: the standard layout, every castling
/// right, White to move, no en-passant target.
pub open spec fn starting_position() -> Position {
    Position {
        board: starting_grid(),
        castling: CastlingState { wk: true, wq: true, bk: true, bq: true },
        active: Color::White,
        en_passant: None,
    }
}

impl View for BoardState {
    type V = Grid;

    open spec fn view(&self) -> Grid {
        Seq::new(8, |file: int| Seq::new(8, |rank: int| self.squares[file][rank]))
    }
}

impl View for GameState {
    type V = Position;

    open spec fn view(&self) -> Position {
        Position {
            board: self.board@,
            castling: self.castling,
            active: self.active,
            en_passant: self.en_passant,
        }
    }
}

impl Move {
    /// The square the move starts from, for the variants that have one.
    pub open spec fn origin_square(self) -> Option<Square> {
        match self {
            Move::Normal { origin, .. } => Some(origin),
            Move::Promote { origin, .. } => Some(origin),
            _ => None,
        }
    }

    /// The square the move lands on, for the variants that have one.
    pub open spec fn target_square(self) -> Option<Square> {
        match self {
            Move::Normal { target, .. } => Some(target),
            Move::Promote { target, .. } => Some(target),
            _ => None,
        }
    }

    /// Every square the move names is on the board, and a promotion is to a
    /// knight, bishop, rook or queen.
    pub open spec fn wf(self) -> bool {
        match self {
            Move::Normal { origin, target } => square_valid(origin) && square_valid(target),
            Move::Promote { origin, target, kind } => square_valid(origin) && square_valid(target)
                && promotable(kind),
            _ => true,
        }
    }
}

impl GameState {
    /// The en-passant target, if there is one, is a square of the board.
    pub open spec fn wf(&self) -> bool {
        self.en_passant matches Some(sq) ==> square_valid(sq)
    }

    /// The position a game starts from.
    pub fn new() -> (state: Self)
        ensures
            state@ == starting_position(),
            state.wf(),
    {
        GameState {
            board: BoardState::starting(),
            castling: CastlingState { wk: true, wq: true, bk: true, bq: true },
            active: Color::White,
            en_passant: None,
        }
    }
}

impl BoardState {
    /// The board with no piece on it.
    pub fn new() -> (board: Self)
        ensures
            board@ == empty_grid(),
    {
        let board = BoardState { squares: [[SquareContent::Empty; 8]; 8] };
        assert(board@ =~~= empty_grid());
        board
    }

    /// The board of the standard starting layout.
    pub fn starting() -> (board: Self)
        ensures
            board@ == starting_grid(),
    {
        let mut board = BoardState::new();
        let mut file: usize = 0;
        while file < 8
            invariant
                file <= 8,
                forall|f: int, r: int|
                    0 <= f < 8 && 0 <= r < 8 ==> #[trigger] board@[f][r] == (if f < file {
                        starting_content(f, r)
                    } else {
                        SquareContent::Empty
                    }),
            decreases 8 - file,
        {
            let kind = if file == 0 || file == 7 {
                PieceKind::Rook
            } else if file == 1 || file == 6 {
                PieceKind::Knight
            } else if file == 2 || file == 5 {
                PieceKind::Bishop
            } else if file == 3 {
                PieceKind::Queen
            } else {
                PieceKind::King
            };
            board.put((file, 0), SquareContent::Filled(Piece { color: Color::White, kind }));
            board.put(
                (file, 1),
                SquareContent::Filled(Piece { color: Color::White, kind: PieceKind::Pawn }),
            );
            board.put(
                (file, 6),
                SquareContent::Filled(Piece { color: Color::Black, kind: PieceKind::Pawn }),
            );
            board.put((file, 7), SquareContent::Filled(Piece { color: Color::Black, kind }));
            file += 1;
        }
        assert(board@ =~~= starting_grid());
        board
    }

    /// What the given square holds.
    pub fn get(&self, sq: Square) -> (content: SquareContent)
        requires
            square_valid(sq),
        ensures
            content == self@[sq.0 as int][sq.1 as int],
    {
        self.squares[sq.0][sq.1]
    }

    /// Replaces what the given square holds and leaves every other square as
    /// it was.
    pub fn put(&mut self, sq: Square, content: SquareContent)
        requires
            square_valid(sq),
        ensures
            final(self)@ == grid_set(old(self)@, sq.0 as int, sq.1 as int, content),
    {
        self.squares[sq.0][sq.1] = content;
        assert(self@ =~~= grid_set(old(self)@, sq.0 as int, sq.1 as int, content));
    }
}

/// The other color.
pub fn opposite(color: Color) -> (other: Color)
    ensures
        other == opposite_color(color),
{
    match color {
        Color::Black => Color::White,
        Color::White => Color::Black,
    }
}

/// The two boards hold the same on every square.
pub open spec fn same_squares(a: BoardState, b: BoardState) -> bool {
    forall|file: int, rank: int|
        #![trigger a.squares[file][rank]]
        on_board(file, rank) ==> a.squares[file][rank] == b.squares[file][rank]
}

/// Two boards hold the same on every square exactly if they have the same
/// model.
pub proof fn lemma_same_squares(a: BoardState, b: BoardState)
    ensures
        same_squares(a, b) <==> a@ == b@,
{
    if same_squares(a, b) {
        assert forall|file: int| 0 <= file < 8 implies #[trigger] a@[file] =~= b@[file] by {
            assert forall|rank: int| 0 <= rank < 8 implies #[trigger] a@[file][rank]
                == b@[file][rank] by {
                assert(a.squares[file][rank] == b.squares[file][rank]);
            }
        }
        assert(a@ =~= b@);
    }
    if a@ == b@ {
        assert forall|file: int, rank: int| on_board(file, rank) implies a.squares[file][rank]
            == b.squares[file][rank] by {
            assert(a@[file][rank] == a.squares[file][rank]);
            assert(b@[file][rank] == b.squares[file][rank]);
        }
    }
}

/// Every board's model is a well-formed grid.
pub proof fn lemma_board_grid_wf(board: BoardState)
    ensures
        grid_wf(board@),
{
}

} // verus!
