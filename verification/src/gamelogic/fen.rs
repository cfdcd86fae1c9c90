//! The Forsyth-Edwards codec: the bidirectional single-line text
//! encoding of piece placement, side to move, castling rights, the
//! en-passant target and two unused counters.

use vstd::prelude::*;

use crate::gamelogic::board::{BoardModel, BoardStateFlags, ChessBoard, wf_model};
use crate::gamelogic::pieces::{ChessPiece, PieceType, in_board, sq};
use crate::gamelogic::{ChessError, ChessMove, Side, column_char, push_char, row_char};

verus! {

/// The letter a piece is written as: one letter per kind, uppercase
/// for White and lowercase for Black.
pub open spec fn piece_char(p: ChessPiece) -> char {
    match p.side {
        Side::White => match p.piece_type {
            PieceType::Pawn => 'P',
            PieceType::Rook => 'R',
            PieceType::Knight => 'N',
            PieceType::Bishop => 'B',
            PieceType::Queen => 'Q',
            PieceType::King => 'K',
        },
        Side::Black => match p.piece_type {
            PieceType::Pawn => 'p',
            PieceType::Rook => 'r',
            PieceType::Knight => 'n',
            PieceType::Bishop => 'b',
            PieceType::Queen => 'q',
            PieceType::King => 'k',
        },
    }
}

/// The digit a run of 1 to 8 empty squares collapses to.
pub open spec fn digit_char(n: int) -> char {
    if n == 1 {
        '1'
    } else if n == 2 {
        '2'
    } else if n == 3 {
        '3'
    } else if n == 4 {
        '4'
    } else if n == 5 {
        '5'
    } else if n == 6 {
        '6'
    } else if n == 7 {
        '7'
    } else {
        '8'
    }
}

/// The text of one rank from column `col` on, given `empties`
/// consecutive empty squares already pending: runs of empty squares
/// collapse to a single digit, occupied squares emit one letter.
pub open spec fn rank_chars(m: BoardModel, row: int, col: int, empties: int) -> Seq<char>
    decreases 8 - col,
        when 0 <= col <= 8
{
    if col >= 8 {
        if empties > 0 {
            seq![digit_char(empties)]
        } else {
            Seq::empty()
        }
    } else {
        match sq(m, col, row) {
            None => rank_chars(m, row, col + 1, empties + 1),
            Some(p) => (if empties > 0 {
                seq![digit_char(empties)]
            } else {
                Seq::empty()
            }) + seq![piece_char(p)] + rank_chars(m, row, col + 1, 0),
        }
    }
}

/// The placement text of the ranks from `row` down to rank 0,
/// separated by '/'.
pub open spec fn placement_chars(m: BoardModel, row: int) -> Seq<char>
    decreases row,
        when 0 <= row <= 7
{
    if row == 0 {
        rank_chars(m, 0, 0, 0)
    } else {
        rank_chars(m, row, 0, 0) + seq!['/'] + placement_chars(m, row - 1)
    }
}

/// The side-to-move letter.
pub open spec fn turn_char(m: BoardModel) -> char {
    if m.current_turn == Side::White {
        'w'
    } else {
        'b'
    }
}

/// The castling-rights text: up to four letters in the fixed order
/// K, Q, k, q, each included while that right is held, or "-" when
/// none is.
pub open spec fn castle_chars(m: BoardModel) -> Seq<char> {
    let s = (if m.white_castle_kingside {
        seq!['K']
    } else {
        Seq::<char>::empty()
    }) + (if m.white_castle_queenside {
        seq!['Q']
    } else {
        Seq::<char>::empty()
    }) + (if m.black_castle_kingside {
        seq!['k']
    } else {
        Seq::<char>::empty()
    }) + (if m.black_castle_queenside {
        seq!['q']
    } else {
        Seq::<char>::empty()
    });
    if s.len() == 0 {
        seq!['-']
    } else {
        s
    }
}

/// The en-passant target text: the target square's name, whose rank
/// depends on which side just made the double advance, or "-".
pub open spec fn ep_chars(m: BoardModel) -> Seq<char> {
    match m.en_passant_column {
        Some(col) => seq![
            column_char(col as int),
            if m.current_turn == Side::White {
                row_char(5)
            } else {
                row_char(2)
            },
        ],
        None => seq!['-'],
    }
}

/// The full Forsyth-Edwards text of a position. The two clock fields
/// are not tracked by this engine and always read "0".
pub open spec fn fen_chars(m: BoardModel) -> Seq<char> {
    placement_chars(m, 7) + seq![' '] + seq![turn_char(m)] + seq![' '] + castle_chars(m) + seq![' ']
        + ep_chars(m) + seq![' ', '0', ' ', '0']
}

/// The executable mirror of `piece_char`.
fn piece_char_exec(p: &ChessPiece) -> (c: char)
    ensures
        c == piece_char(*p),
{
    match p.side {
        Side::White => match p.piece_type {
            PieceType::Pawn => 'P',
            PieceType::Rook => 'R',
            PieceType::Knight => 'N',
            PieceType::Bishop => 'B',
            PieceType::Queen => 'Q',
            PieceType::King => 'K',
        },
        Side::Black => match p.piece_type {
            PieceType::Pawn => 'p',
            PieceType::Rook => 'r',
            PieceType::Knight => 'n',
            PieceType::Bishop => 'b',
            PieceType::Queen => 'q',
            PieceType::King => 'k',
        },
    }
}

/// The executable mirror of `digit_char`.
fn digit_char_exec(n: usize) -> (c: char)
    requires
        1 <= n <= 8,
    ensures
        c == digit_char(n as int),
{
    match n {
        1 => '1',
        2 => '2',
        3 => '3',
        4 => '4',
        5 => '5',
        6 => '6',
        7 => '7',
        _ => '8',
    }
}

/// Appends the text of one rank of the board.
fn write_rank(board: &ChessBoard, out: &mut String, row: usize)
    requires
        board.wf(),
        row < 8,
    ensures
        final(out)@ == old(out)@ + rank_chars(board@, row as int, 0, 0),
{
    let ghost m = board@;
    let mut empties: usize = 0;
    let mut col: usize = 0;
    while col < 8
        invariant
            board.wf(),
            m == board@,
            row < 8,
            col <= 8,
            empties <= col,
            old(out)@ + rank_chars(m, row as int, 0, 0) == out@ + rank_chars(
                m,
                row as int,
                col as int,
                empties as int,
            ),
        decreases 8 - col,
    {
        match board.get_square_by_index(col, row) {
            None => {
                empties += 1;
            },
            Some(p) => {
                let ghost out0 = out@;
                if empties > 0 {
                    push_char(out, digit_char_exec(empties));
                }
                push_char(out, piece_char_exec(&p));
                proof {
                    let pre = if empties > 0 {
                        seq![digit_char(empties as int)]
                    } else {
                        Seq::<char>::empty()
                    };
                    assert(out@ =~= out0 + pre + seq![piece_char(p)]);
                    assert(rank_chars(m, row as int, col as int, empties as int) =~= pre + seq![
                        piece_char(p),
                    ] + rank_chars(m, row as int, col as int + 1, 0));
                    assert(old(out)@ + rank_chars(m, row as int, 0, 0) =~= out@ + rank_chars(
                        m,
                        row as int,
                        col as int + 1,
                        0,
                    ));
                }
                empties = 0;
            },
        }
        col += 1;
    }
    let ghost out1 = out@;
    if empties > 0 {
        push_char(out, digit_char_exec(empties));
        proof {
            assert(out@ =~= out1 + seq![digit_char(empties as int)]);
            assert(old(out)@ + rank_chars(m, row as int, 0, 0) =~= out@);
        }
    } else {
        proof {
            assert(old(out)@ + rank_chars(m, row as int, 0, 0) =~= out@);
        }
    }
}

/// Appends the placement text: ranks 8 down to 1, separated by '/'.
fn write_placement(board: &ChessBoard, out: &mut String)
    requires
        board.wf(),
    ensures
        final(out)@ == old(out)@ + placement_chars(board@, 7),
{
    let ghost m = board@;
    let mut row_i: usize = 0;
    while row_i < 8
        invariant
            board.wf(),
            m == board@,
            row_i <= 8,
            old(out)@ + placement_chars(m, 7) == out@ + (if row_i < 8 {
                placement_chars(m, 7 - row_i as int)
            } else {
                Seq::<char>::empty()
            }),
        decreases 8 - row_i,
    {
        let row = 7 - row_i;
        proof {
            assert(placement_chars(m, row as int) == rank_chars(m, row as int, 0, 0) + (if row > 0 {
                seq!['/'] + placement_chars(m, row as int - 1)
            } else {
                Seq::<char>::empty()
            }) || (row == 0 && placement_chars(m, 0) == rank_chars(m, 0, 0, 0)));
        }
        write_rank(board, out, row);
        if row > 0 {
            let ghost out2 = out@;
            push_char(out, '/');
            proof {
                assert(out@ =~= out2 + seq!['/']);
                assert(old(out)@ + placement_chars(m, 7) =~= out@ + placement_chars(
                    m,
                    row as int - 1,
                ));
            }
        } else {
            proof {
                assert(old(out)@ + placement_chars(m, 7) =~= out@);
            }
        }
        row_i += 1;
    }
}

/// Appends the castling-rights text.
fn write_castling(board: &ChessBoard, out: &mut String)
    ensures
        final(out)@ == old(out)@ + castle_chars(board@),
{
    let flags = board.get_state_flags();
    if !flags.white_castle_kingside && !flags.white_castle_queenside
        && !flags.black_castle_kingside && !flags.black_castle_queenside {
        push_char(out, '-');
        proof {
            assert(final(out)@ =~= old(out)@ + castle_chars(board@));
        }
    } else {
        if flags.white_castle_kingside {
            push_char(out, 'K');
        }
        if flags.white_castle_queenside {
            push_char(out, 'Q');
        }
        if flags.black_castle_kingside {
            push_char(out, 'k');
        }
        if flags.black_castle_queenside {
            push_char(out, 'q');
        }
        proof {
            assert(final(out)@ =~= old(out)@ + castle_chars(board@));
        }
    }
}

/// Appends the en-passant target text.
fn write_en_passant(board: &ChessBoard, out: &mut String)
    requires
        board.wf(),
    ensures
        final(out)@ == old(out)@ + ep_chars(board@),
{
    let flags = board.get_state_flags();
    match flags.en_passant_column {
        Some(col) => {
            proof {
                board.wf_model_holds();
            }
            push_char(out, crate::gamelogic::char_of_column(col));
            let target_row: usize = match flags.current_turn {
                Side::White => 5,
                Side::Black => 2,
            };
            push_char(out, crate::gamelogic::char_of_row(target_row));
            proof {
                assert(final(out)@ =~= old(out)@ + ep_chars(board@));
            }
        },
        None => {
            push_char(out, '-');
            proof {
                assert(final(out)@ =~= old(out)@ + ep_chars(board@));
            }
        },
    }
}

impl ChessBoard {
    /// Writes the current position as Forsyth-Edwards text. The
    /// halfmove and fullmove clocks are not tracked and are always
    /// written as "0".
    #[verifier::rlimit(100)]
    #[verifier::spinoff_prover]
    pub fn to_forsyth_edwards(&self) -> (r: String)
        requires
            self.wf(),
        ensures
            r@ == fen_chars(self@),
    {
        let ghost m = self@;
        let mut out = String::new();
        write_placement(self, &mut out);
        let ghost placement_done = out@;
        proof {
            assert(placement_done =~= placement_chars(m, 7));
        }

        // side to move
        push_char(&mut out, ' ');
        let flags = self.get_state_flags();
        let turn = match flags.current_turn {
            Side::White => 'w',
            Side::Black => 'b',
        };
        push_char(&mut out, turn);
        push_char(&mut out, ' ');
        proof {
            assert(out@ =~= placement_done + seq![' '] + seq![turn_char(m)] + seq![' ']);
        }
        let ghost before_castle = out@;

        write_castling(self, &mut out);
        let ghost before_ep = out@;
        push_char(&mut out, ' ');
        write_en_passant(self, &mut out);
        proof {
            assert(out@ =~= before_ep + seq![' '] + ep_chars(m));
        }
        let ghost before_clocks = out@;

        // the untracked clock fields
        push_char(&mut out, ' ');
        push_char(&mut out, '0');
        push_char(&mut out, ' ');
        push_char(&mut out, '0');
        proof {
            assert(out@ =~= before_clocks + seq![' ', '0', ' ', '0']);
            assert(out@ =~= fen_chars(m));
        }
        out
    }
}

/// The pieces of `s` between occurrences of `sep`, in order; the
/// separators are dropped and empty pieces are kept.
pub open spec fn split_from(s: Seq<char>, sep: char, i: int, start: int) -> Seq<Seq<char>>
    decreases s.len() - i,
        when 0 <= start <= i <= s.len()
{
    if i >= s.len() {
        seq![s.subrange(start, s.len() as int)]
    } else if s[i] == sep {
        seq![s.subrange(start, i)] + split_from(s, sep, i + 1, i + 1)
    } else {
        split_from(s, sep, i + 1, start)
    }
}

/// The pieces of `s` between occurrences of `sep`.
pub open spec fn split_chars(s: Seq<char>, sep: char) -> Seq<Seq<char>> {
    split_from(s, sep, 0, 0)
}

/// The piece a placement letter denotes, if any: lowercase letters
/// are Black, uppercase White.
pub open spec fn letter_piece(ch: char) -> Option<(Side, PieceType)> {
    if ch == 'P' {
        Some((Side::White, PieceType::Pawn))
    } else if ch == 'R' {
        Some((Side::White, PieceType::Rook))
    } else if ch == 'N' {
        Some((Side::White, PieceType::Knight))
    } else if ch == 'B' {
        Some((Side::White, PieceType::Bishop))
    } else if ch == 'Q' {
        Some((Side::White, PieceType::Queen))
    } else if ch == 'K' {
        Some((Side::White, PieceType::King))
    } else if ch == 'p' {
        Some((Side::Black, PieceType::Pawn))
    } else if ch == 'r' {
        Some((Side::Black, PieceType::Rook))
    } else if ch == 'n' {
        Some((Side::Black, PieceType::Knight))
    } else if ch == 'b' {
        Some((Side::Black, PieceType::Bishop))
    } else if ch == 'q' {
        Some((Side::Black, PieceType::Queen))
    } else if ch == 'k' {
        Some((Side::Black, PieceType::King))
    } else {
        None
    }
}

/// Whether `ch` is a decimal digit.
pub open spec fn is_fen_digit(ch: char) -> bool {
    48 <= ch as int <= 57
}

/// The numeric value of a decimal digit.
pub open spec fn digit_value(ch: char) -> int {
    ch as int - 48
}

/// Parses one placement rank from position `j` on, having already
/// accumulated the cells `acc`: a digit consumes that many empty
/// columns, a piece letter consumes one column, anything else fails,
/// and the rank must describe exactly 8 columns.
pub open spec fn rank_parse(g: Seq<char>, j: int, acc: Seq<Option<(Side, PieceType)>>) -> Option<
    Seq<Option<(Side, PieceType)>>,
>
    decreases g.len() - j,
        when 0 <= j <= g.len()
{
    if j >= g.len() {
        if acc.len() == 8 {
            Some(acc)
        } else {
            None
        }
    } else if acc.len() > 7 {
        None
    } else if is_fen_digit(g[j]) {
        if acc.len() + digit_value(g[j]) <= 8 {
            rank_parse(
                g,
                j + 1,
                acc + Seq::<Option<(Side, PieceType)>>::new(
                    digit_value(g[j]) as nat,
                    |t: int| None,
                ),
            )
        } else {
            None
        }
    } else {
        match letter_piece(g[j]) {
            Some(sp) => rank_parse(g, j + 1, acc.push(Some(sp))),
            None => None,
        }
    }
}

/// Whether a placement field is well formed: exactly 8 '/'-separated
/// ranks, each parsing to exactly 8 columns.
pub open spec fn placement_ok(f: Seq<char>) -> bool {
    let rows = split_chars(f, '/');
    &&& rows.len() == 8
    &&& forall|k: int| 0 <= k < 8 ==> #[trigger] rank_parse(rows[k], 0, Seq::empty()) is Some
}

/// The occupant that a well-formed placement field puts on square
/// `(c, r)`; ranks are written from rank 8 down to rank 1.
pub open spec fn parsed_cell(f: Seq<char>, c: int, r: int) -> Option<ChessPiece>
    recommends
        placement_ok(f),
        in_board(c, r),
{
    let rows = split_chars(f, '/');
    match rank_parse(rows[7 - r], 0, Seq::empty()) {
        Some(cells) => match cells[c] {
            Some(sp) => Some(
                ChessPiece { position: (c as usize, r as usize), side: sp.0, piece_type: sp.1 },
            ),
            None => None,
        },
        None => None,
    }
}

/// Whether a field is the single dash standing for "none".
pub open spec fn is_dash(f: Seq<char>) -> bool {
    f.len() == 1 && f[0] == '-'
}

/// Whether a side-to-move field is well formed.
pub open spec fn turn_ok(f: Seq<char>) -> bool {
    f.len() == 1 && (f[0] == 'w' || f[0] == 'b')
}

/// The side a well-formed side-to-move field denotes.
pub open spec fn parsed_turn(f: Seq<char>) -> Side {
    if f[0] == 'w' {
        Side::White
    } else {
        Side::Black
    }
}

/// Whether a castling-rights field is well formed: "-" or letters
/// from "KQkq" only.
pub open spec fn castling_ok(f: Seq<char>) -> bool {
    ||| is_dash(f)
    ||| forall|t: int|
        0 <= t < f.len() ==> ((#[trigger] f[t]) == 'K' || f[t] == 'Q' || f[t] == 'k' || f[t]
            == 'q')
}

/// Whether a castling-rights field grants the right written `ch`.
pub open spec fn castle_flag(f: Seq<char>, ch: char) -> bool {
    !is_dash(f) && f.contains(ch)
}

/// Whether an en-passant field is well formed: "-" or a square name.
pub open spec fn ep_ok(f: Seq<char>) -> bool {
    is_dash(f) || crate::gamelogic::valid_square_name(f)
}

/// The en-passant column an en-passant field denotes.
pub open spec fn parsed_ep(f: Seq<char>) -> Option<usize> {
    if is_dash(f) {
        None
    } else {
        Some(crate::gamelogic::name_column(f) as usize)
    }
}

/// Whether a clock field is a digit string (its value is discarded).
pub open spec fn clock_ok(f: Seq<char>) -> bool {
    forall|t: int| 0 <= t < f.len() ==> is_fen_digit(#[trigger] f[t])
}

/// Whether a position text is well formed: exactly six space-separated
/// non-empty fields, each valid for its place.
pub open spec fn fen_ok(s: Seq<char>) -> bool {
    let fields = split_chars(s, ' ');
    &&& fields.len() == 6
    &&& (forall|k: int| 0 <= k < 6 ==> (#[trigger] fields[k]).len() > 0)
    &&& placement_ok(fields[0])
    &&& turn_ok(fields[1])
    &&& castling_ok(fields[2])
    &&& ep_ok(fields[3])
    &&& clock_ok(fields[4])
    &&& clock_ok(fields[5])
}

/// The cell of a 64-cell column-major grid, for stating grid facts.
pub open spec fn grid_cell(g: Seq<Option<ChessPiece>>, c: int, r: int) -> Option<ChessPiece>
    recommends
        in_board(c, r),
        g.len() == 64,
{
    g[c * 8 + r]
}

/// Splits a string on a separator character; the separators are
/// dropped and empty pieces are kept.
fn split_on_char(s: &str, sep: char) -> (r: Vec<String>)
    ensures
        r@.len() == split_chars(s@, sep).len(),
        forall|k: int| 0 <= k < r@.len() ==> (#[trigger] r@[k])@ == split_chars(s@, sep)[k],
{
    let ghost sp = split_chars(s@, sep);
    let mut parts: Vec<String> = Vec::new();
    let ghost mut done: Seq<Seq<char>> = Seq::empty();
    let mut cur = String::new();
    let ghost mut start: int = 0;
    let len = s.unicode_len();
    let mut i: usize = 0;
    while i < len
        invariant
            len == s@.len(),
            i <= len,
            0 <= start <= i as int,
            cur@ == s@.subrange(start, i as int),
            sp == split_chars(s@, sep),
            sp == done + split_from(s@, sep, i as int, start),
            parts@.len() == done.len(),
            forall|k: int| 0 <= k < done.len() ==> (#[trigger] parts@[k])@ == done[k],
        decreases len - i,
    {
        let c = s.get_char(i);
        if c == sep {
            proof {
                assert(split_from(s@, sep, i as int, start) == seq![s@.subrange(start, i as int)]
                    + split_from(s@, sep, i as int + 1, i as int + 1));
            }
            let ghost cur_view = cur@;
            parts.push(cur);
            cur = String::new();
            proof {
                done = done + seq![cur_view];
                start = i as int + 1;
                assert(sp =~= done + split_from(s@, sep, i as int + 1, i as int + 1));
            }
        } else {
            push_char(&mut cur, c);
            proof {
                assert(cur@ =~= s@.subrange(start, i as int + 1));
            }
        }
        i += 1;
    }
    proof {
        assert(split_from(s@, sep, len as int, start) == seq![s@.subrange(start, s@.len() as int)]);
        assert(cur@ == s@.subrange(start, s@.len() as int));
    }
    let ghost cur_view = cur@;
    parts.push(cur);
    proof {
        assert(sp =~= done + seq![cur_view]);
        assert(parts@.len() == sp.len());
        assert forall|k: int| 0 <= k < parts@.len() implies (#[trigger] parts@[k])@ == sp[k] by {
            if k < done.len() {
            } else {
                assert(parts@[k]@ == cur_view);
                assert(sp[k] == cur_view);
            }
        }
    }
    parts
}

/// The executable mirror of `letter_piece`.
fn letter_to_piece(ch: char) -> (r: Option<(Side, PieceType)>)
    ensures
        r == letter_piece(ch),
{
    match ch {
        'P' => Some((Side::White, PieceType::Pawn)),
        'R' => Some((Side::White, PieceType::Rook)),
        'N' => Some((Side::White, PieceType::Knight)),
        'B' => Some((Side::White, PieceType::Bishop)),
        'Q' => Some((Side::White, PieceType::Queen)),
        'K' => Some((Side::White, PieceType::King)),
        'p' => Some((Side::Black, PieceType::Pawn)),
        'r' => Some((Side::Black, PieceType::Rook)),
        'n' => Some((Side::Black, PieceType::Knight)),
        'b' => Some((Side::Black, PieceType::Bishop)),
        'q' => Some((Side::Black, PieceType::Queen)),
        'k' => Some((Side::Black, PieceType::King)),
        _ => None,
    }
}

/// A parse error with a descriptive message.
fn invalid_state(msg: &str) -> (r: ChessError)
    ensures
        r matches ChessError::InvalidState(_),
{
    ChessError::InvalidState(String::from_str(msg))
}

/// Parses the placement field into the 64-cell grid, succeeding
/// exactly when the field is well formed and then placing exactly the
/// pieces the field describes.
#[verifier::rlimit(100)]
#[verifier::spinoff_prover]
fn parse_placement(field: &str) -> (r: Result<Vec<Option<ChessPiece>>, ChessError>)
    ensures
        match r {
            Ok(squares) => {
                &&& placement_ok(field@)
                &&& squares@.len() == 64
                &&& forall|c: int, rr: int|
                    in_board(c, rr) ==> grid_cell(squares@, c, rr) == #[trigger] parsed_cell(
                        field@,
                        c,
                        rr,
                    )
                &&& forall|i: int|
                    0 <= i < 64 ==> match #[trigger] squares@[i] {
                        Some(p) => p.position.0 < 8 && p.position.1 < 8 && p.position.0 as int * 8
                            + p.position.1 as int == i,
                        None => true,
                    }
            },
            Err(e) => !placement_ok(field@) && (e matches ChessError::InvalidState(_)),
        },
{
    let ghost rows_spec = split_chars(field@, '/');
    let rows = split_on_char(field, '/');
    if rows.len() != 8 {
        return Err(invalid_state("the placement must hold exactly 8 ranks"));
    }
    let mut squares: Vec<Option<ChessPiece>> = Vec::new();
    let mut si: usize = 0;
    while si < 64
        invariant
            si <= 64,
            squares@.len() == si,
            forall|i: int| 0 <= i < si ==> #[trigger] squares@[i] is None,
        decreases 64 - si,
    {
        squares.push(None);
        si += 1;
    }
    let mut k: usize = 0;
    while k < 8
        invariant
            k <= 8,
            rows@.len() == 8,
            rows_spec.len() == 8,
            rows_spec == split_chars(field@, '/'),
            forall|t: int| 0 <= t < 8 ==> (#[trigger] rows@[t])@ == rows_spec[t],
            squares@.len() == 64,
            forall|kk: int|
                0 <= kk < k ==> #[trigger] rank_parse(rows_spec[kk], 0, Seq::empty()) is Some,
            forall|c: int, rr: int|
                in_board(c, rr) && rr > 7 - k ==> grid_cell(squares@, c, rr)
                    == #[trigger] parsed_cell(field@, c, rr),
            forall|c: int, rr: int|
                in_board(c, rr) && rr <= 7 - k ==> #[trigger] grid_cell(squares@, c, rr) is None,
        decreases 8 - k,
    {
        let row = 7 - k;
        let group = rows[k].as_str();
        let glen = group.unicode_len();
        let ghost g = rows_spec[k as int];
        proof {
            assert(group@ == g);
        }
        let ghost mut acc: Seq<Option<(Side, PieceType)>> = Seq::empty();
        let mut col: usize = 0;
        let mut j: usize = 0;
        while j < glen
            invariant
                k < 8,
                row == 7 - k,
                glen == g.len(),
                group@ == g,
                j <= glen,
                rows_spec.len() == 8,
                rows_spec == split_chars(field@, '/'),
                g == rows_spec[k as int],
                squares@.len() == 64,
                col as int == acc.len(),
                col <= 8,
                rank_parse(g, 0, Seq::empty()) == rank_parse(g, j as int, acc),
                forall|kk: int|
                    0 <= kk < k ==> #[trigger] rank_parse(rows_spec[kk], 0, Seq::empty()) is Some,
                forall|c: int, rr: int|
                    in_board(c, rr) && rr > row ==> grid_cell(squares@, c, rr)
                        == #[trigger] parsed_cell(field@, c, rr),
                forall|c: int, rr: int|
                    in_board(c, rr) && rr < row ==> #[trigger] grid_cell(squares@, c, rr) is None,
                forall|cc: int|
                    0 <= cc < col ==> #[trigger] grid_cell(squares@, cc, row as int) == (
                    match acc[cc] {
                        Some(sp) => Some(
                            ChessPiece {
                                position: (cc as usize, row as usize),
                                side: sp.0,
                                piece_type: sp.1,
                            },
                        ),
                        None => None,
                    }),
                forall|cc: int|
                    col <= cc < 8 ==> #[trigger] grid_cell(squares@, cc, row as int) is None,
            decreases glen - j,
        {
            let ch = group.get_char(j);
            let code = ch as u32;
            if col > 7 {
                return Err(invalid_state("a placement rank describes more than 8 columns"));
            }
            if code >= 48 && code <= 57 {
                let n = (code - 48) as usize;
                if col + n > 8 {
                    return Err(
                        invalid_state("a placement rank claims more empty squares than exist"),
                    );
                }
                proof {
                    let added = Seq::<Option<(Side, PieceType)>>::new(n as nat, |t: int| None);
                    acc = acc + added;
                }
                col += n;
            } else {
                match letter_to_piece(ch) {
                    Some((side, kind)) => {
                        let piece = ChessPiece { position: (col, row), side, piece_type: kind };
                        let ghost squares_before = squares@;
                        squares.set(col * 8 + row, Some(piece));
                        proof {
                            acc = acc.push(Some((side, kind)));
                            assert(grid_cell(squares@, col as int, row as int) == Some(piece));
                            assert forall|c: int, rr: int|
                                in_board(c, rr) && !(c == col as int && rr == row as int) implies
                                #[trigger] grid_cell(squares@, c, rr) == grid_cell(
                                squares_before,
                                c,
                                rr,
                            ) by {
                                assert(c * 8 + rr != col as int * 8 + row as int);
                            }
                        }
                        col += 1;
                    },
                    None => {
                        return Err(
                            invalid_state("the placement holds an unrecognized character"),
                        );
                    },
                }
            }
            j += 1;
        }
        if col != 8 {
            return Err(invalid_state("a placement rank does not describe exactly 8 columns"));
        }
        proof {
            assert(rank_parse(g, 0, Seq::empty()) == Some(acc));
            assert forall|c: int, rr: int| in_board(c, rr) && rr > 7 - (k + 1) implies grid_cell(
                squares@,
                c,
                rr,
            ) == #[trigger] parsed_cell(field@, c, rr) by {
                if rr == row {
                    assert(7 - rr == k);
                    assert(grid_cell(squares@, c, rr) == (match acc[c] {
                        Some(sp) => Some(
                            ChessPiece {
                                position: (c as usize, rr as usize),
                                side: sp.0,
                                piece_type: sp.1,
                            },
                        ),
                        None => None,
                    }));
                }
            }
        }
        k += 1;
    }
    proof {
        assert(placement_ok(field@));
        assert forall|i: int| 0 <= i < 64 implies match #[trigger] squares@[i] {
            Some(p) => p.position.0 < 8 && p.position.1 < 8 && p.position.0 as int * 8
                + p.position.1 as int == i,
            None => true,
        } by {
            let c = i / 8;
            let rr = i % 8;
            assert(c * 8 + rr == i);
            assert(0 <= c < 8 && 0 <= rr < 8);
            assert(grid_cell(squares@, c, rr) == parsed_cell(field@, c, rr));
            assert(squares@[i] == grid_cell(squares@, c, rr));
        }
    }
    Ok(squares)
}

/// Parses the castling-rights field into the four flags (K, Q, k, q),
/// succeeding exactly when the field is well formed and then granting
/// exactly the rights whose letters occur.
fn parse_castling(field: &str) -> (r: Result<(bool, bool, bool, bool), ChessError>)
    ensures
        match r {
            Ok(f) => {
                &&& castling_ok(field@)
                &&& f.0 == castle_flag(field@, 'K')
                &&& f.1 == castle_flag(field@, 'Q')
                &&& f.2 == castle_flag(field@, 'k')
                &&& f.3 == castle_flag(field@, 'q')
            },
            Err(e) => !castling_ok(field@) && (e matches ChessError::InvalidState(_)),
        },
{
    let clen = field.unicode_len();
    if clen == 1 && field.get_char(0) == '-' {
        return Ok((false, false, false, false));
    }
    let mut white_kingside = false;
    let mut white_queenside = false;
    let mut black_kingside = false;
    let mut black_queenside = false;
    let mut ci: usize = 0;
    while ci < clen
        invariant
            clen == field@.len(),
            ci <= clen,
            !is_dash(field@),
            white_kingside == (exists|t: int| 0 <= t < ci && field@[t] == 'K'),
            white_queenside == (exists|t: int| 0 <= t < ci && field@[t] == 'Q'),
            black_kingside == (exists|t: int| 0 <= t < ci && field@[t] == 'k'),
            black_queenside == (exists|t: int| 0 <= t < ci && field@[t] == 'q'),
            forall|t: int|
                0 <= t < ci ==> ((#[trigger] field@[t]) == 'K' || field@[t] == 'Q' || field@[t]
                    == 'k' || field@[t] == 'q'),
        decreases clen - ci,
    {
        let ch = field.get_char(ci);
        match ch {
            'K' => {
                white_kingside = true;
            },
            'Q' => {
                white_queenside = true;
            },
            'k' => {
                black_kingside = true;
            },
            'q' => {
                black_queenside = true;
            },
            _ => {
                return Err(invalid_state("the castling rights hold an invalid character"));
            },
        }
        proof {
            if white_kingside && field@[ci as int] != 'K' {
                let t = choose|t: int| 0 <= t < ci && field@[t] == 'K';
                assert(0 <= t < ci + 1 && field@[t] == 'K');
            }
            if white_queenside && field@[ci as int] != 'Q' {
                let t = choose|t: int| 0 <= t < ci && field@[t] == 'Q';
                assert(0 <= t < ci + 1 && field@[t] == 'Q');
            }
            if black_kingside && field@[ci as int] != 'k' {
                let t = choose|t: int| 0 <= t < ci && field@[t] == 'k';
                assert(0 <= t < ci + 1 && field@[t] == 'k');
            }
            if black_queenside && field@[ci as int] != 'q' {
                let t = choose|t: int| 0 <= t < ci && field@[t] == 'q';
                assert(0 <= t < ci + 1 && field@[t] == 'q');
            }
        }
        ci += 1;
    }
    Ok((white_kingside, white_queenside, black_kingside, black_queenside))
}

/// Whether every character of a clock field is a digit.
fn check_clock(field: &str) -> (r: bool)
    ensures
        r == clock_ok(field@),
{
    let clen = field.unicode_len();
    let mut di: usize = 0;
    while di < clen
        invariant
            clen == field@.len(),
            di <= clen,
            forall|t: int| 0 <= t < di ==> is_fen_digit(#[trigger] field@[t]),
        decreases clen - di,
    {
        let code = field.get_char(di) as u32;
        if code < 48 || code > 57 {
            proof {
                assert(!is_fen_digit(field@[di as int]));
            }
            return false;
        }
        di += 1;
    }
    true
}

impl ChessBoard {
    /// Parses Forsyth-Edwards text into a board. Succeeds exactly on
    /// well-formed position texts: six space-separated non-empty
    /// fields — the placement (eight '/'-separated ranks of exactly
    /// eight columns each, written with piece letters and empty-run
    /// digits), the side to move ('w' or 'b'), the castling rights
    /// ("-" or letters from "KQkq"), the en-passant target (a square
    /// name or "-"), and two digit-only clock fields that are
    /// validated and discarded — and then returns the board those
    /// fields describe, with nothing recorded and no history. Chess
    /// semantics are deliberately not validated: there need not be a
    /// king per side, and pawns may stand on the back rank.
    #[verifier::rlimit(100)]
    #[verifier::spinoff_prover]
    pub fn from_forsyth_edwards(fen_string: String) -> (r: Result<ChessBoard, ChessError>)
        ensures
            match r {
                Ok(b) => {
                    let fields = split_chars(fen_string@, ' ');
                    &&& fen_ok(fen_string@)
                    &&& b.wf()
                    &&& forall|c: int, rr: int|
                        in_board(c, rr) ==> #[trigger] sq(b@, c, rr) == parsed_cell(
                            fields[0],
                            c,
                            rr,
                        )
                    &&& b@.current_turn == parsed_turn(fields[1])
                    &&& b@.white_castle_kingside == castle_flag(fields[2], 'K')
                    &&& b@.white_castle_queenside == castle_flag(fields[2], 'Q')
                    &&& b@.black_castle_kingside == castle_flag(fields[2], 'k')
                    &&& b@.black_castle_queenside == castle_flag(fields[2], 'q')
                    &&& b@.en_passant_column == parsed_ep(fields[3])
                    &&& b@.state_counts == Map::<u64, usize>::empty()
                    &&& b@.moves == Seq::<ChessMove>::empty()
                    &&& b.spec_max_state_count() == 0
                },
                Err(e) => !fen_ok(fen_string@) && (e matches ChessError::InvalidState(_)),
            },
    {
        let ghost fields_spec = split_chars(fen_string@, ' ');
        let fields = split_on_char(fen_string.as_str(), ' ');
        if fields.len() != 6 {
            return Err(invalid_state("the text must have exactly 6 space-separated fields"));
        }
        let mut fi: usize = 0;
        while fi < 6
            invariant
                fields@.len() == 6,
                fields_spec.len() == 6,
                fields_spec == split_chars(fen_string@, ' '),
                forall|t: int| 0 <= t < 6 ==> (#[trigger] fields@[t])@ == fields_spec[t],
                fi <= 6,
                forall|t: int| 0 <= t < fi ==> (#[trigger] fields_spec[t]).len() > 0,
            decreases 6 - fi,
        {
            if fields[fi].as_str().unicode_len() == 0 {
                proof {
                    assert(fields_spec[fi as int].len() == 0);
                }
                return Err(invalid_state("the text contains an empty field"));
            }
            fi += 1;
        }

        // field 1: the piece placement
        let squares = match parse_placement(fields[0].as_str()) {
            Ok(sqs) => sqs,
            Err(e) => {
                proof {
                    assert(!placement_ok(fields_spec[0]));
                }
                return Err(e);
            },
        };

        // field 2: the side to move
        let turn_field = fields[1].as_str();
        if turn_field.unicode_len() != 1 {
            proof {
                assert(!turn_ok(fields_spec[1]));
            }
            return Err(invalid_state("the side to move must be a single character"));
        }
        let current_turn = match turn_field.get_char(0) {
            'w' => Side::White,
            'b' => Side::Black,
            _ => {
                proof {
                    assert(!turn_ok(fields_spec[1]));
                }
                return Err(invalid_state("the side to move must be 'w' or 'b'"));
            },
        };

        // field 3: the castling rights
        let (white_castle_kingside, white_castle_queenside, black_castle_kingside,
            black_castle_queenside) = match parse_castling(fields[2].as_str()) {
            Ok(f) => f,
            Err(e) => {
                proof {
                    assert(!castling_ok(fields_spec[2]));
                }
                return Err(e);
            },
        };

        // field 4: the en-passant target square
        let ep_field = fields[3].as_str();
        let en_passant_column: Option<usize> = if ep_field.unicode_len() == 1 && ep_field.get_char(
            0,
        ) == '-' {
            None
        } else {
            match crate::gamelogic::name_to_index_pair(fields[3].clone()) {
                Ok(pair) => Some(pair.0),
                Err(_) => {
                    proof {
                        assert(!ep_ok(fields_spec[3]));
                    }
                    return Err(invalid_state("the en-passant target square is invalid"));
                },
            }
        };

        // fields 5 and 6: the clock fields, validated and discarded
        if !check_clock(fields[4].as_str()) {
            return Err(invalid_state("a clock field cannot be parsed as a number"));
        }
        if !check_clock(fields[5].as_str()) {
            return Err(invalid_state("a clock field cannot be parsed as a number"));
        }

        let state = BoardStateFlags {
            white_castle_queenside,
            white_castle_kingside,
            black_castle_queenside,
            black_castle_kingside,
            en_passant_column,
            current_turn,
        };
        let b = ChessBoard::from_parts(squares, state);
        proof {
            assert(fen_ok(fen_string@));
            assert forall|c: int, rr: int| in_board(c, rr) implies #[trigger] sq(b@, c, rr)
                == parsed_cell(fields_spec[0], c, rr) by {
                assert(sq(b@, c, rr) == b@.squares[c * 8 + rr]);
                assert(grid_cell(squares@, c, rr) == parsed_cell(fields_spec[0], c, rr));
            }
        }
        Ok(b)
    }
}

} // verus!
