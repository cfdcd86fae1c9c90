//! Common value types of the rules engine and the square-name notation.
//!
//! A board position is a `(column, row)` pair, each in `0..8`, where
//! `(0, 0)` is the square named "a1" and `(7, 7)` is "h8".

pub mod board;
pub mod fen;
pub mod laws;
pub mod pieces;

use vstd::prelude::*;

verus! {

/// One of the two players.
#[derive(Copy, Clone, Debug, PartialEq, Eq, Structural)]
pub enum Side {
    White,
    Black,
}

impl Side {
    /// The other player.
    pub open spec fn spec_opposite(self) -> Side {
        match self {
            Side::White => Side::Black,
            Side::Black => Side::White,
        }
    }

    /// The other player.
    #[verifier::when_used_as_spec(spec_opposite)]
    pub fn opposite(self) -> (r: Side)
        ensures
            r == self.spec_opposite(),
    {
        match self {
            Side::White => Side::Black,
            Side::Black => Side::White,
        }
    }
}

impl Default for Side {
    fn default() -> (r: Self)
        ensures
            r == Side::White,
    {
        Side::White
    }
}

/// Errors of the chess logic. Every variant wraps a message describing
/// the failure.
#[derive(Debug)]
pub enum ChessError {
    /// A malformed square name or an out-of-range index.
    InvalidArgument(String),
    /// A requested move that is not in the current legal-move set.
    InvalidMove(String),
    /// A malformed position-notation string.
    InvalidState(String),
}

/// The kinds of chess moves; the special variants steer the extra
/// effects of applying a move.
#[derive(Copy, Clone, Debug, PartialEq, Eq, Structural)]
pub enum MoveType {
    Standard,
    DoubleAdvance,
    EnPassant,
    Castle,
    Promotion,
}

/// A move of one piece, together with derived annotations used for
/// filtering and move-quality ranking.
///
/// Two moves are equal when their origin and destination agree; the kind
/// and the metadata are derived annotations, not identity.
#[derive(Copy, Clone, Debug)]
pub struct ChessMove {
    pub from_square: (usize, usize),
    pub destination: (usize, usize),
    pub move_type: MoveType,
    /// The square of the piece this move captures, if any. For an en
    /// passant capture it differs from the destination.
    pub captures: Option<(usize, usize)>,
    /// Whether the destination is attacked by the opposing side.
    pub dest_threatened: bool,
    /// Whether the destination is defended by the moving side.
    pub dest_defended: bool,
}

impl PartialEq for ChessMove {
    fn eq(&self, other: &Self) -> (r: bool) {
        self.from_square.0 == other.from_square.0 && self.from_square.1 == other.from_square.1
            && self.destination.0 == other.destination.0
            && self.destination.1 == other.destination.1
    }
}

impl vstd::std_specs::cmp::PartialEqSpecImpl for ChessMove {
    open spec fn obeys_eq_spec() -> bool {
        true
    }

    open spec fn eq_spec(&self, other: &Self) -> bool {
        self.from_square == other.from_square && self.destination == other.destination
    }
}

/// How a finished game ended; the payload is a short descriptive reason.
#[derive(Debug)]
pub enum GameEnd {
    WhiteVictory(String),
    BlackVictory(String),
    Draw(String),
}

/// Whether `s` is a well-formed square name: a file letter 'a'-'h'
/// followed by a rank digit '1'-'8'.
pub open spec fn valid_square_name(s: Seq<char>) -> bool {
    &&& s.len() == 2
    &&& 'a' <= s[0] <= 'h'
    &&& '1' <= s[1] <= '8'
}

/// The column index a well-formed square name denotes.
pub open spec fn name_column(s: Seq<char>) -> int {
    s[0] as int - 'a' as int
}

/// The row index a well-formed square name denotes.
pub open spec fn name_row(s: Seq<char>) -> int {
    s[1] as int - '1' as int
}

/// Parses a square name such as "b4" into a `(column, row)` index pair.
///
/// Succeeds exactly on well-formed square names, and then returns the
/// denoted pair, each component below 8.
pub fn name_to_index_pair(square_name: String) -> (r: Result<(usize, usize), ChessError>)
    ensures
        match r {
            Ok(p) => valid_square_name(square_name@) && p.0 == name_column(square_name@)
                && p.1 == name_row(square_name@) && p.0 < 8 && p.1 < 8,
            Err(e) => !valid_square_name(square_name@) && (e matches ChessError::InvalidArgument(_)),
        },
{
    let s = square_name.as_str();
    if s.unicode_len() != 2 {
        return Err(
            ChessError::InvalidArgument(
                String::from_str("square name expected, e.g. 'b4': must be two characters"),
            ),
        );
    }

    let column_letter = s.get_char(0);
    let column_code = column_letter as u32;
    if column_code > 104 || column_code < 97 {
        return Err(
            ChessError::InvalidArgument(
                String::from_str("invalid column reference, must be between 'a' and 'h'"),
            ),
        );
    }
    let column_index = (column_code - 97) as usize;

    let row_number = s.get_char(1);
    let row_code = row_number as u32;
    if row_code > 56 || row_code < 49 {
        return Err(
            ChessError::InvalidArgument(
                String::from_str("invalid row reference, must be between '1' and '8'"),
            ),
        );
    }
    let row_index = (row_code - 49) as usize;

    Ok((column_index, row_index))
}

/// The file letter of a column index below 8.
pub open spec fn column_char(column: int) -> char {
    ('a' as int + column) as char
}

/// The rank digit of a row index below 8.
pub open spec fn row_char(row: int) -> char {
    ('1' as int + row) as char
}

/// Formats a `(column, row)` index pair as a square name such as "b4".
///
/// Succeeds exactly when both indices are below 8, and then returns the
/// two-character name whose parse is the given pair.
pub fn index_pair_to_name(column: usize, row: usize) -> (r: Result<String, ChessError>)
    ensures
        match r {
            Ok(name) => column < 8 && row < 8 && name@ == seq![
                column_char(column as int),
                row_char(row as int),
            ],
            Err(e) => (column >= 8 || row >= 8) && (e matches ChessError::InvalidArgument(_)),
        },
{
    if column > 7 {
        return Err(
            ChessError::InvalidArgument(
                String::from_str("column invalid, expected to be between 0-7 inclusive"),
            ),
        );
    }
    if row > 7 {
        return Err(
            ChessError::InvalidArgument(
                String::from_str("row invalid, expected to be between 0-7 inclusive"),
            ),
        );
    }
    let col_char = char_of_column(column);
    let row_ch = char_of_row(row);
    let mut name = String::new();
    push_char(&mut name, col_char);
    push_char(&mut name, row_ch);
    proof {
        assert(name@ =~= seq![column_char(column as int), row_char(row as int)]);
    }
    Ok(name)
}

/// The file letter of a column index, as executable code.
pub(crate) fn char_of_column(column: usize) -> (c: char)
    requires
        column < 8,
    ensures
        c == column_char(column as int),
{
    match column {
        0 => 'a',
        1 => 'b',
        2 => 'c',
        3 => 'd',
        4 => 'e',
        5 => 'f',
        6 => 'g',
        _ => 'h',
    }
}

/// The rank digit of a row index, as executable code.
pub(crate) fn char_of_row(row: usize) -> (c: char)
    requires
        row < 8,
    ensures
        c == row_char(row as int),
{
    match row {
        0 => '1',
        1 => '2',
        2 => '3',
        3 => '4',
        4 => '5',
        5 => '6',
        6 => '7',
        _ => '8',
    }
}

/// Relies on String::push: appends exactly the given character.
#[verifier::external_body]
pub(crate) fn push_char(s: &mut String, c: char)
    ensures
        final(s)@ == old(s)@.push(c),
{
    s.push(c);
}

} // verus!
