//! Import of a position from text in Forsyth-Edwards notation.
//!
//! The text has four fields separated by whitespace: the board, the side to
//! move, the castling rights and the en-passant target. What follows them
//! (the two move counters) is not read. The spec functions say what each
//! field means; each parser is proved to return exactly that.

use crate::board::{
    on_board, square_valid, BoardState, CastlingState, Color, GameState, Grid, Piece, PieceKind,
    Position, Square, SquareContent,
};
use crate::error::InputError;
use crate::text::{chars_of, fields, next_field, split, split_on, views};
use vstd::prelude::*;
use vstd::string::StrSliceExecFns;

verus! {

/// The piece that a letter of the board field stands for: an upper-case
/// letter for a white piece, a lower-case letter for a black one.
pub open spec fn piece_of(c: char) -> Option<Piece> {
    if c == 'p' {
        Some(Piece { color: Color::Black, kind: PieceKind::Pawn })
    } else if c == 'r' {
        Some(Piece { color: Color::Black, kind: PieceKind::Rook })
    } else if c == 'n' {
        Some(Piece { color: Color::Black, kind: PieceKind::Knight })
    } else if c == 'b' {
        Some(Piece { color: Color::Black, kind: PieceKind::Bishop })
    } else if c == 'q' {
        Some(Piece { color: Color::Black, kind: PieceKind::Queen })
    } else if c == 'k' {
        Some(Piece { color: Color::Black, kind: PieceKind::King })
    } else if c == 'P' {
        Some(Piece { color: Color::White, kind: PieceKind::Pawn })
    } else if c == 'R' {
        Some(Piece { color: Color::White, kind: PieceKind::Rook })
    } else if c == 'N' {
        Some(Piece { color: Color::White, kind: PieceKind::Knight })
    } else if c == 'B' {
        Some(Piece { color: Color::White, kind: PieceKind::Bishop })
    } else if c == 'Q' {
        Some(Piece { color: Color::White, kind: PieceKind::Queen })
    } else if c == 'K' {
        Some(Piece { color: Color::White, kind: PieceKind::King })
    } else {
        None
    }
}

/// The character is a decimal digit.
pub open spec fn is_digit(c: char) -> bool {
    '0' <= c <= '9'
}

/// The number that a decimal digit stands for.
pub open spec fn digit_value(c: char) -> int {
    c as int - '0' as int
}

/// The squares that one character of a row stands for: a piece letter for
/// one square with that piece, a digit for that many empty squares. Any
/// other character stands for nothing.
pub open spec fn glyph(c: char) -> Option<Seq<SquareContent>> {
    match piece_of(c) {
        Some(piece) => Some(seq![SquareContent::Filled(piece)]),
        None => if is_digit(c) {
            Some(Seq::new(digit_value(c) as nat, |i: int| SquareContent::Empty))
        } else {
            None
        },
    }
}

/// The squares of one row of the board field, from the first file on. The
/// row is read character by character; the first character that stands for
/// nothing, or that takes the row beyond eight squares, decides the error.
pub open spec fn row_squares(row: Seq<char>) -> Result<Seq<SquareContent>, InputError>
    decreases row.len(),
{
    if row.len() == 0 {
        Ok(Seq::empty())
    } else {
        match row_squares(row.drop_last()) {
            Err(e) => Err(e),
            Ok(squares) => match glyph(row.last()) {
                None => Err(InputError::UnknownPieceCharacter),
                Some(more) => if squares.len() + more.len() > 8 {
                    Err(InputError::RowOverflow)
                } else {
                    Ok(squares + more)
                },
            },
        }
    }
}

/// The squares of each row, or the error of the first row that has one.
pub open spec fn rows_squares(rows: Seq<Seq<char>>) -> Result<Seq<Seq<SquareContent>>, InputError>
    decreases rows.len(),
{
    if rows.len() == 0 {
        Ok(Seq::empty())
    } else {
        match rows_squares(rows.drop_last()) {
            Err(e) => Err(e),
            Ok(done) => match row_squares(rows.last()) {
                Err(e) => Err(e),
                Ok(squares) => Ok(done.push(squares)),
            },
        }
    }
}

/// The grid that eight rows describe. The first row is the eighth rank, the
/// last row the first rank. A row that covers fewer than eight squares
/// leaves the rest of its rank empty.
pub open spec fn grid_of_rows(rows: Seq<Seq<SquareContent>>) -> Grid {
    Seq::new(
        8,
        |file: int|
            Seq::new(
                8,
                |rank: int|
                    if file < rows[7 - rank].len() {
                        rows[7 - rank][file]
                    } else {
                        SquareContent::Empty
                    },
            ),
    )
}

/// What the board field means: the grid of its eight rows, which slashes
/// separate. Another number of rows is an error, and comes before any error
/// within a row.
pub open spec fn board_of(s: Seq<char>) -> Result<Grid, InputError> {
    let rows = split(s, '/');
    if rows.len() != 8 {
        Err(InputError::WrongRowCount)
    } else {
        match rows_squares(rows) {
            Err(e) => Err(e),
            Ok(squares) => Ok(grid_of_rows(squares)),
        }
    }
}

/// The text is the one character `c`.
pub open spec fn is_char(s: Seq<char>, c: char) -> bool {
    s.len() == 1 && s[0] == c
}

/// What the active-color field means: `w` for White, `b` for Black.
pub open spec fn active_of(s: Seq<char>) -> Result<Color, InputError> {
    if is_char(s, 'w') {
        Ok(Color::White)
    } else if is_char(s, 'b') {
        Ok(Color::Black)
    } else {
        Err(InputError::InvalidActiveColor)
    }
}

/// The character names a castling right.
pub open spec fn is_castling_letter(c: char) -> bool {
    c == 'K' || c == 'Q' || c == 'k' || c == 'q'
}

/// What the castling field means: `-` for no right at all; otherwise each
/// of `K`, `Q`, `k`, `q` that occurs grants the right it names, and any
/// other character is an error.
pub open spec fn castling_of(s: Seq<char>) -> Result<CastlingState, InputError> {
    if is_char(s, '-') {
        Ok(CastlingState { wk: false, wq: false, bk: false, bq: false })
    } else if forall|i: int| 0 <= i < s.len() ==> is_castling_letter(#[trigger] s[i]) {
        Ok(
            CastlingState {
                wk: s.contains('K'),
                wq: s.contains('Q'),
                bk: s.contains('k'),
                bq: s.contains('q'),
            },
        )
    } else {
        Err(InputError::InvalidCastling)
    }
}

/// The character is a letter of the basic Latin alphabet.
pub open spec fn is_letter(c: char) -> bool {
    'a' <= c <= 'z' || 'A' <= c <= 'Z'
}

/// The index of a letter in the alphabet, from 0 for `a` or `A`.
pub open spec fn letter_index(c: char) -> int {
    if 'A' <= c <= 'Z' {
        c as int - 'A' as int
    } else {
        c as int - 'a' as int
    }
}

/// What a square token means: a file letter from `a` to `h`, in either
/// case, and then a rank digit from `1` to `8`. The file index is the
/// letter's distance from `a`, the rank index the digit less one.
pub open spec fn square_of(s: Seq<char>) -> Result<Square, InputError> {
    if s.len() < 2 {
        Err(InputError::SquareTooShort)
    } else if !is_letter(s[0]) {
        Err(InputError::InvalidSquareFile)
    } else if s.len() > 2 || !is_digit(s[1]) {
        Err(InputError::InvalidSquareRank)
    } else if letter_index(s[0]) >= 8 || digit_value(s[1]) < 1 || digit_value(s[1]) > 8 {
        Err(InputError::SquareOutOfBounds)
    } else {
        Ok((letter_index(s[0]) as usize, (digit_value(s[1]) - 1) as usize))
    }
}

/// What the en-passant field means: `-` for no target, otherwise a square.
pub open spec fn en_passant_of(s: Seq<char>) -> Result<Option<Square>, InputError> {
    if is_char(s, '-') {
        Ok(None)
    } else {
        match square_of(s) {
            Ok(sq) => Ok(Some(sq)),
            Err(e) => Err(e),
        }
    }
}

/// The `n`-th field of a text, or the given error where the text has no
/// such field.
pub open spec fn field(f: Seq<Seq<char>>, n: int, missing: InputError) -> Result<
    Seq<char>,
    InputError,
> {
    if n < f.len() {
        Ok(f[n])
    } else {
        Err(missing)
    }
}

/// What a position text means. Its fields are read in order: the board,
/// the active color, the castling rights, the en-passant target. The first
/// field that is missing or in error decides the error; fields after the
/// fourth are not read.
pub open spec fn position_of(s: Seq<char>) -> Result<Position, InputError> {
    let f = fields(s);
    match field(f, 0, InputError::MissingBoard) {
        Err(e) => Err(e),
        Ok(board_text) => match board_of(board_text) {
            Err(e) => Err(e),
            Ok(board) => match field(f, 1, InputError::MissingActiveColor) {
                Err(e) => Err(e),
                Ok(active_text) => match active_of(active_text) {
                    Err(e) => Err(e),
                    Ok(active) => match field(f, 2, InputError::MissingCastling) {
                        Err(e) => Err(e),
                        Ok(castling_text) => match castling_of(castling_text) {
                            Err(e) => Err(e),
                            Ok(castling) => match field(f, 3, InputError::MissingEnPassant) {
                                Err(e) => Err(e),
                                Ok(en_passant_text) => match en_passant_of(en_passant_text) {
                                    Err(e) => Err(e),
                                    Ok(en_passant) => Ok(
                                        Position { board, castling, active, en_passant },
                                    ),
                                },
                            },
                        },
                    },
                },
            },
        },
    }
}

/// The piece that a letter of the board field stands for.
fn piece_from_letter(c: char) -> (piece: Option<Piece>)
    ensures
        piece == piece_of(c),
{
    match c {
        'p' => Some(Piece { color: Color::Black, kind: PieceKind::Pawn }),
        'r' => Some(Piece { color: Color::Black, kind: PieceKind::Rook }),
        'n' => Some(Piece { color: Color::Black, kind: PieceKind::Knight }),
        'b' => Some(Piece { color: Color::Black, kind: PieceKind::Bishop }),
        'q' => Some(Piece { color: Color::Black, kind: PieceKind::Queen }),
        'k' => Some(Piece { color: Color::Black, kind: PieceKind::King }),
        'P' => Some(Piece { color: Color::White, kind: PieceKind::Pawn }),
        'R' => Some(Piece { color: Color::White, kind: PieceKind::Rook }),
        'N' => Some(Piece { color: Color::White, kind: PieceKind::Knight }),
        'B' => Some(Piece { color: Color::White, kind: PieceKind::Bishop }),
        'Q' => Some(Piece { color: Color::White, kind: PieceKind::Queen }),
        'K' => Some(Piece { color: Color::White, kind: PieceKind::King }),
        _ => None,
    }
}

/// Reads one row of the board field into the squares it covers, from the
/// first file on.
pub fn parse_fen_row(row: &Vec<char>) -> (result: Result<Vec<SquareContent>, InputError>)
    ensures
        match result {
            Ok(squares) => row_squares(row@) == Ok::<Seq<SquareContent>, InputError>(squares@),
            Err(e) => row_squares(row@) == Err::<Seq<SquareContent>, InputError>(e),
        },
{
    let mut squares: Vec<SquareContent> = Vec::new();
    let mut i: usize = 0;
    assert(row@.take(0) =~= Seq::<char>::empty());
    while i < row.len()
        invariant
            i <= row.len(),
            squares.len() <= 8,
            row_squares(row@.take(i as int)) == Ok::<Seq<SquareContent>, InputError>(squares@),
        decreases row.len() - i,
    {
        let c = row[i];
        let ghost before = squares@;
        proof {
            let next = row@.take(i + 1);
            assert(next.drop_last() =~= row@.take(i as int));
            assert(next.last() == c);
        }
        match piece_from_letter(c) {
            Some(piece) => {
                if squares.len() + 1 > 8 {
                    proof {
                        lemma_row_error_stays(row@, i + 1);
                    }
                    return Err(InputError::RowOverflow);
                }
                squares.push(SquareContent::Filled(piece));
                assert(squares@ =~= before + seq![SquareContent::Filled(piece)]);
            },
            None => {
                if '0' <= c && c <= '9' {
                    let num_spaces = (c as u32 - '0' as u32) as usize;
                    if squares.len() + num_spaces > 8 {
                        proof {
                            lemma_row_error_stays(row@, i + 1);
                        }
                        return Err(InputError::RowOverflow);
                    }
                    let mut k: usize = 0;
                    while k < num_spaces
                        invariant
                            k <= num_spaces,
                            before.len() + num_spaces <= 8,
                            squares@ == before + Seq::new(k as nat, |i: int| SquareContent::Empty),
                        decreases num_spaces - k,
                    {
                        squares.push(SquareContent::Empty);
                        assert(squares@ =~= before + Seq::new(
                            (k + 1) as nat,
                            |i: int| SquareContent::Empty,
                        ));
                        k += 1;
                    }
                } else {
                    proof {
                        lemma_row_error_stays(row@, i + 1);
                    }
                    return Err(InputError::UnknownPieceCharacter);
                }
            },
        }
        i += 1;
    }
    assert(row@.take(row.len() as int) =~= row@);
    Ok(squares)
}

/// Once the start of a row is in error, the whole row is, with the same
/// error.
proof fn lemma_row_error_stays(row: Seq<char>, n: int)
    requires
        0 <= n <= row.len(),
        row_squares(row.take(n)) is Err,
    ensures
        row_squares(row) == row_squares(row.take(n)),
    decreases row.len() - n,
{
    if n < row.len() {
        let next = row.take(n + 1);
        assert(next.drop_last() =~= row.take(n));
        lemma_row_error_stays(row, n + 1);
    } else {
        assert(row.take(n) =~= row);
    }
}

/// Once the rows read so far are in error, all the rows are, with the same
/// error.
proof fn lemma_rows_error_stays(rows: Seq<Seq<char>>, n: int)
    requires
        0 <= n <= rows.len(),
        rows_squares(rows.take(n)) is Err,
    ensures
        rows_squares(rows) == rows_squares(rows.take(n)),
    decreases rows.len() - n,
{
    if n < rows.len() {
        let next = rows.take(n + 1);
        assert(next.drop_last() =~= rows.take(n));
        lemma_rows_error_stays(rows, n + 1);
    } else {
        assert(rows.take(n) =~= rows);
    }
}

/// Reads the board field.
///
/// The field has eight rows, which slashes separate, from the eighth rank
/// down to the first. In a row a letter stands for a piece and a digit for
/// that many empty squares. The field is rejected if it does not have eight
/// rows, if a row covers more than eight squares, or if a row has any other
/// character.
pub fn parse_fen_board(board_str: &str) -> (result: Result<BoardState, InputError>)
    ensures
        match result {
            Ok(board) => board_of(board_str@) == Ok::<Grid, InputError>(board@),
            Err(e) => board_of(board_str@) == Err::<Grid, InputError>(e),
        },
{
    let chars = chars_of(board_str);
    let rows = split_on(&chars, '/');
    if rows.len() != 8 {
        return Err(InputError::WrongRowCount);
    }
    let ghost texts = split(board_str@, '/');
    let ghost mut done: Seq<Seq<SquareContent>> = Seq::empty();
    let mut board_state = BoardState::new();
    let mut i: usize = 0;
    assert(texts.take(0) =~= Seq::<Seq<char>>::empty());
    while i < 8
        invariant
            i <= 8,
            rows.len() == 8,
            texts == views(rows@),
            texts == split(board_str@, '/'),
            done.len() == i,
            rows_squares(texts.take(i as int)) == Ok::<Seq<Seq<SquareContent>>, InputError>(done),
            forall|k: int| 0 <= k < i ==> (#[trigger] done[k]).len() <= 8,
            forall|file: int, rank: int|
                on_board(file, rank) ==> #[trigger] board_state@[file][rank] == (if 7 - rank < i
                    && file < done[7 - rank].len() {
                    done[7 - rank][file]
                } else {
                    SquareContent::Empty
                }),
        decreases 8 - i,
    {
        proof {
            let next = texts.take(i + 1);
            assert(next.drop_last() =~= texts.take(i as int));
            assert(next.last() == rows@[i as int]@);
        }
        match parse_fen_row(&rows[i]) {
            Err(e) => {
                proof {
                    lemma_rows_error_stays(texts, i + 1);
                }
                return Err(e);
            },
            Ok(squares) => {
                proof {
                    lemma_row_squares_len(rows@[i as int]@);
                }
                let ghost filled = board_state@;
                let mut j: usize = 0;
                while j < squares.len()
                    invariant
                        i < 8,
                        j <= squares.len() <= 8,
                        forall|file: int, rank: int|
                            on_board(file, rank) ==> #[trigger] board_state@[file][rank] == (if rank
                                == 7 - i && file < j {
                                squares@[file]
                            } else {
                                filled[file][rank]
                            }),
                    decreases squares.len() - j,
                {
                    board_state.put((j, 7 - i), squares[j]);
                    j += 1;
                }
                proof {
                    done = done.push(squares@);
                }
            },
        }
        i += 1;
    }
    assert(texts.take(8) =~= texts);
    assert(board_state@ =~~= grid_of_rows(done));
    Ok(board_state)
}

/// A row that can be read covers at most eight squares.
proof fn lemma_row_squares_len(row: Seq<char>)
    ensures
        row_squares(row) matches Ok(squares) ==> squares.len() <= 8,
    decreases row.len(),
{
    if row.len() > 0 {
        lemma_row_squares_len(row.drop_last());
    }
}

/// Reads the active-color field: `w` or `b`, and nothing else.
pub fn parse_fen_active(active_str: &str) -> (result: Result<Color, InputError>)
    ensures
        result == active_of(active_str@),
{
    let chars = chars_of(active_str);
    if chars.len() == 1 && chars[0] == 'w' {
        Ok(Color::White)
    } else if chars.len() == 1 && chars[0] == 'b' {
        Ok(Color::Black)
    } else {
        Err(InputError::InvalidActiveColor)
    }
}

/// Reads the castling field: `-`, or any combination of the letters `K`,
/// `Q`, `k` and `q`, each of which grants one right.
pub fn parse_fen_castling(castle_str: &str) -> (result: Result<CastlingState, InputError>)
    ensures
        result == castling_of(castle_str@),
{
    let chars = chars_of(castle_str);
    let mut castling_state = CastlingState { wk: false, wq: false, bk: false, bq: false };
    if chars.len() == 1 && chars[0] == '-' {
        return Ok(castling_state);
    }
    let mut i: usize = 0;
    while i < chars.len()
        invariant
            i <= chars.len(),
            chars@ == castle_str@,
            !is_char(chars@, '-'),
            forall|k: int| 0 <= k < i ==> is_castling_letter(#[trigger] chars@[k]),
            castling_state.wk == chars@.take(i as int).contains('K'),
            castling_state.wq == chars@.take(i as int).contains('Q'),
            castling_state.bk == chars@.take(i as int).contains('k'),
            castling_state.bq == chars@.take(i as int).contains('q'),
        decreases chars.len() - i,
    {
        let c = chars[i];
        proof {
            let seen = chars@.take(i as int);
            let next = chars@.take(i + 1);
            assert(next =~= seen.push(c));
            assert forall|x: char| next.contains(x) == (seen.contains(x) || x == c) by {
                if seen.contains(x) {
                    let k = choose|k: int| 0 <= k < seen.len() && seen[k] == x;
                    assert(next[k] == x);
                }
                if x == c {
                    assert(next[i as int] == x);
                }
            }
        }
        match c {
            'K' => {
                castling_state.wk = true;
            },
            'Q' => {
                castling_state.wq = true;
            },
            'k' => {
                castling_state.bk = true;
            },
            'q' => {
                castling_state.bq = true;
            },
            _ => {
                assert(!is_castling_letter(chars@[i as int]));
                return Err(InputError::InvalidCastling);
            },
        }
        i += 1;
    }
    assert(chars@.take(chars.len() as int) =~= chars@);
    Ok(castling_state)
}

/// Reads a square token: a file letter from `a` to `h`, in either case,
/// and a rank digit from `1` to `8`.
pub fn parse_square(sq_str: &str) -> (result: Result<Square, InputError>)
    ensures
        result == square_of(sq_str@),
        result matches Ok(sq) ==> square_valid(sq),
{
    let chars = chars_of(sq_str);
    if chars.len() < 2 {
        return Err(InputError::SquareTooShort);
    }
    let col = chars[0];
    let col_i: usize = if 'a' <= col && col <= 'z' {
        (col as u32 - 'a' as u32) as usize
    } else if 'A' <= col && col <= 'Z' {
        (col as u32 - 'A' as u32) as usize
    } else {
        return Err(InputError::InvalidSquareFile);
    };
    let row = chars[1];
    if chars.len() > 2 || !('0' <= row && row <= '9') {
        return Err(InputError::InvalidSquareRank);
    }
    let digit: usize = (row as u32 - '0' as u32) as usize;
    if col_i >= 8 || digit < 1 || digit > 8 {
        return Err(InputError::SquareOutOfBounds);
    }
    Ok((col_i, digit - 1))
}

/// Reads the en-passant field: `-` for no target, otherwise a square.
pub fn parse_fen_en_passant(en_passant_str: &str) -> (result: Result<Option<Square>, InputError>)
    ensures
        result == en_passant_of(en_passant_str@),
        result matches Ok(Some(sq)) ==> square_valid(sq),
{
    let chars = chars_of(en_passant_str);
    if chars.len() == 1 && chars[0] == '-' {
        return Ok(None);
    }
    match parse_square(en_passant_str) {
        Ok(sq) => Ok(Some(sq)),
        Err(e) => Err(e),
    }
}

/// Reads the field that follows the first `n` fields of the text, of which
/// the last ends at `start`. Returns the field and where it ends, or the
/// given error where no field is left.
fn read_field<'a>(
    fen: &'a str,
    chars: &Vec<char>,
    start: usize,
    missing: InputError,
    Ghost(n): Ghost<int>,
) -> (result: Result<(&'a str, usize), InputError>)
    requires
        chars@ == fen@,
        start <= chars.len(),
        0 <= n <= fields(fen@).len(),
        fields(fen@).skip(n) == fields(fen@.skip(start as int)),
    ensures
        match result {
            Ok((text, end)) => {
                &&& field(fields(fen@), n, missing) == Ok::<Seq<char>, InputError>(text@)
                &&& end <= chars.len()
                &&& n + 1 <= fields(fen@).len()
                &&& fields(fen@).skip(n + 1) == fields(fen@.skip(end as int))
            },
            Err(e) => field(fields(fen@), n, missing) == Err::<Seq<char>, InputError>(e),
        },
{
    let ghost f = fields(fen@);
    match next_field(chars, start) {
        Some((from, to)) => {
            let text = fen.substring_char(from, to);
            proof {
                let rest = fields(fen@.skip(to as int));
                assert(f.skip(n) == seq![text@] + rest);
                assert(f.skip(n).len() == rest.len() + 1);
                assert(f.skip(n)[0] == text@);
                assert(f.skip(n + 1) =~= f.skip(n).skip(1));
                assert(f.skip(n).skip(1) =~= rest);
            }
            Ok((text, to))
        },
        None => {
            assert(f.skip(n).len() == 0);
            Err(missing)
        },
    }
}

/// Reads a position from text in Forsyth-Edwards notation.
///
/// The fields are read in order, and the first that is missing or in error
/// decides the error returned. The move counters that may follow the
/// en-passant field are not read.
pub fn parse_fen(fen: &str) -> (result: Result<GameState, InputError>)
    ensures
        match result {
            Ok(state) => position_of(fen@) == Ok::<Position, InputError>(state@) && state.wf(),
            Err(e) => position_of(fen@) == Err::<Position, InputError>(e),
        },
{
    let chars = chars_of(fen);
    assert(fen@.skip(0) =~= fen@);
    assert(fields(fen@).skip(0) =~= fields(fen@));

    let (board_str, end) = match read_field(fen, &chars, 0, InputError::MissingBoard, Ghost(0)) {
        Ok(found) => found,
        Err(e) => {
            return Err(e);
        },
    };
    let board = match parse_fen_board(board_str) {
        Ok(board) => board,
        Err(e) => {
            return Err(e);
        },
    };

    let (active_str, end) = match read_field(
        fen,
        &chars,
        end,
        InputError::MissingActiveColor,
        Ghost(1),
    ) {
        Ok(found) => found,
        Err(e) => {
            return Err(e);
        },
    };
    let active = match parse_fen_active(active_str) {
        Ok(active) => active,
        Err(e) => {
            return Err(e);
        },
    };

    let (castle_str, end) = match read_field(
        fen,
        &chars,
        end,
        InputError::MissingCastling,
        Ghost(2),
    ) {
        Ok(found) => found,
        Err(e) => {
            return Err(e);
        },
    };
    let castling = match parse_fen_castling(castle_str) {
        Ok(castling) => castling,
        Err(e) => {
            return Err(e);
        },
    };

    let (en_passant_str, _) = match read_field(
        fen,
        &chars,
        end,
        InputError::MissingEnPassant,
        Ghost(3),
    ) {
        Ok(found) => found,
        Err(e) => {
            return Err(e);
        },
    };
    let en_passant = match parse_fen_en_passant(en_passant_str) {
        Ok(en_passant) => en_passant,
        Err(e) => {
            return Err(e);
        },
    };

    Ok(GameState { board, castling, active, en_passant })
}

} // verus!
