//! The authoritative mutable position: the 8-by-8 grid, the side to
//! move, castling rights, the en-passant column, the move history and
//! the repetition counter.

use vstd::prelude::*;

use std::collections::HashMap;

use crate::gamelogic::pieces::{
    ChessPiece, PieceType, holds_side, in_board, material_value, occupied, piece_attacks,
    side_attacks, sq,
};
use crate::gamelogic::{ChessError, ChessMove, GameEnd, MoveType, Side, name_to_index_pair};

verus! {

/// The mathematical model of a board: the grid as a sequence of 64
/// optional pieces in column-major order (index `column * 8 + row`),
/// the state flags, the repetition counts and the move history.
#[verifier::ext_equal]
pub ghost struct BoardModel {
    pub squares: Seq<Option<ChessPiece>>,
    pub white_castle_queenside: bool,
    pub white_castle_kingside: bool,
    pub black_castle_queenside: bool,
    pub black_castle_kingside: bool,
    pub en_passant_column: Option<usize>,
    pub current_turn: Side,
    pub state_counts: Map<u64, usize>,
    pub moves: Seq<ChessMove>,
}

/// The per-position flags of a board: castling rights (monotonic, once
/// cleared never reset), the en-passant column (valid for exactly one
/// ply) and the side to move.
#[derive(Copy, Clone, Debug)]
pub struct BoardStateFlags {
    pub white_castle_queenside: bool,
    pub white_castle_kingside: bool,
    pub black_castle_queenside: bool,
    pub black_castle_kingside: bool,
    pub en_passant_column: Option<usize>,
    pub current_turn: Side,
}

impl Default for BoardStateFlags {
    /// A new game: every castling right held, no en-passant column,
    /// White to move.
    fn default() -> (r: Self)
        ensures
            r.white_castle_queenside && r.white_castle_kingside,
            r.black_castle_queenside && r.black_castle_kingside,
            r.en_passant_column is None,
            r.current_turn == Side::White,
    {
        BoardStateFlags {
            white_castle_queenside: true,
            white_castle_kingside: true,
            black_castle_queenside: true,
            black_castle_kingside: true,
            en_passant_column: None,
            current_turn: Side::White,
        }
    }
}

/// A chess position. Mutated exclusively through the single-ply move
/// application, optionally with recording of turn, history and the
/// repetition count.
#[derive(Clone, Debug)]
pub struct ChessBoard {
    /// 64 cells in column-major order: index `column * 8 + row`.
    squares: Vec<Option<ChessPiece>>,
    pub state: BoardStateFlags,
    /// How often each canonical position hash has been recorded.
    board_state_counts: HashMap<u64, usize>,
    /// The largest count in `board_state_counts`, or 0 when empty.
    max_state_count: usize,
    pub move_list: Vec<ChessMove>,
}

impl View for ChessBoard {
    type V = BoardModel;

    closed spec fn view(&self) -> BoardModel {
        BoardModel {
            squares: self.squares@,
            white_castle_queenside: self.state.white_castle_queenside,
            white_castle_kingside: self.state.white_castle_kingside,
            black_castle_queenside: self.state.black_castle_queenside,
            black_castle_kingside: self.state.black_castle_kingside,
            en_passant_column: self.state.en_passant_column,
            current_turn: self.state.current_turn,
            state_counts: self.board_state_counts@,
            moves: self.move_list@,
        }
    }
}

/// Well-formedness of a board model: the grid has 64 cells, every
/// occupant's stored position equals its cell, and the en-passant
/// column, if set, is a real column.
pub open spec fn wf_model(m: BoardModel) -> bool {
    &&& m.squares.len() == 64
    &&& forall|c: int, r: int|
        in_board(c, r) ==> match #[trigger] sq(m, c, r) {
            Some(p) => p.position.0 == c && p.position.1 == r,
            None => true,
        }
    &&& match m.en_passant_column {
        Some(col) => col < 8,
        None => true,
    }
}

impl ChessBoard {
    /// Well-formedness of a board: its model is well formed and the
    /// cached maximum repetition count is the maximum of the recorded
    /// counts (0 when none is recorded).
    pub closed spec fn wf(&self) -> bool {
        &&& wf_model(self@)
        &&& vstd::std_specs::hash::obeys_key_model::<u64>()
        &&& forall|k: u64|
            #[trigger] self@.state_counts.contains_key(k) ==> self@.state_counts[k]
                <= self.max_state_count
        &&& self.max_state_count > 0 ==> exists|k: u64|
            #[trigger] self@.state_counts.contains_key(k) && self@.state_counts[k]
                == self.max_state_count
    }

    /// The largest recorded repetition count, for contracts.
    pub closed spec fn spec_max_state_count(&self) -> usize {
        self.max_state_count
    }

    /// The current state flags: castling rights, en-passant column
    /// and side to move.
    pub fn get_state_flags(&self) -> (r: BoardStateFlags)
        ensures
            r.white_castle_queenside == self@.white_castle_queenside,
            r.white_castle_kingside == self@.white_castle_kingside,
            r.black_castle_queenside == self@.black_castle_queenside,
            r.black_castle_kingside == self@.black_castle_kingside,
            r.en_passant_column == self@.en_passant_column,
            r.current_turn == self@.current_turn,
    {
        self.state
    }

    /// A well-formed board has a well-formed model.
    pub proof fn wf_model_holds(&self)
        requires
            self.wf(),
        ensures
            wf_model(self@),
    {
    }
}

/// The piece that the standard initial setup places on `(c, r)`.
pub open spec fn initial_square(c: int, r: int) -> Option<ChessPiece> {
    if r == 0 {
        Some(
            ChessPiece {
                position: (c as usize, 0),
                side: Side::White,
                piece_type: back_rank_kind(c),
            },
        )
    } else if r == 1 {
        Some(ChessPiece { position: (c as usize, 1), side: Side::White, piece_type: PieceType::Pawn })
    } else if r == 6 {
        Some(ChessPiece { position: (c as usize, 6), side: Side::Black, piece_type: PieceType::Pawn })
    } else if r == 7 {
        Some(
            ChessPiece {
                position: (c as usize, 7),
                side: Side::Black,
                piece_type: back_rank_kind(c),
            },
        )
    } else {
        None
    }
}

/// The piece kind on column `c` of each side's back rank in the
/// standard initial setup.
pub open spec fn back_rank_kind(c: int) -> PieceType {
    if c == 0 || c == 7 {
        PieceType::Rook
    } else if c == 1 || c == 6 {
        PieceType::Knight
    } else if c == 2 || c == 5 {
        PieceType::Bishop
    } else if c == 3 {
        PieceType::Queen
    } else {
        PieceType::King
    }
}

/// The executable mirror of `initial_square`.
fn initial_square_exec(c: usize, r: usize) -> (res: Option<ChessPiece>)
    requires
        c < 8,
        r < 8,
    ensures
        res == initial_square(c as int, r as int),
{
    if r == 0 || r == 7 {
        let side = if r == 0 {
            Side::White
        } else {
            Side::Black
        };
        let kind = match c {
            0 => PieceType::Rook,
            1 => PieceType::Knight,
            2 => PieceType::Bishop,
            3 => PieceType::Queen,
            4 => PieceType::King,
            5 => PieceType::Bishop,
            6 => PieceType::Knight,
            _ => PieceType::Rook,
        };
        Some(ChessPiece { position: (c, r), side, piece_type: kind })
    } else if r == 1 {
        Some(ChessPiece { position: (c, r), side: Side::White, piece_type: PieceType::Pawn })
    } else if r == 6 {
        Some(ChessPiece { position: (c, r), side: Side::Black, piece_type: PieceType::Pawn })
    } else {
        None
    }
}

impl ChessBoard {
    /// Creates a board holding the standard initial setup, every
    /// castling right held and White to move.
    pub fn new() -> (r: Self)
        ensures
            r.wf(),
            forall|c: int, rr: int|
                in_board(c, rr) ==> #[trigger] sq(r@, c, rr) == initial_square(c, rr),
            r@.white_castle_queenside && r@.white_castle_kingside,
            r@.black_castle_queenside && r@.black_castle_kingside,
            r@.en_passant_column is None,
            r@.current_turn == Side::White,
            r@.state_counts == Map::<u64, usize>::empty(),
            r@.moves == Seq::<ChessMove>::empty(),
            r.spec_max_state_count() == 0,
    {
        let mut squares: Vec<Option<ChessPiece>> = Vec::new();
        let mut c: usize = 0;
        while c < 8
            invariant
                c <= 8,
                squares@.len() == c * 8,
                forall|cc: int, rr: int|
                    0 <= cc < c && 0 <= rr < 8 ==> squares@[cc * 8 + rr] == initial_square(cc, rr),
            decreases 8 - c,
        {
            let mut r: usize = 0;
            while r < 8
                invariant
                    c < 8,
                    r <= 8,
                    squares@.len() == c * 8 + r,
                    forall|cc: int, rr: int|
                        0 <= cc < c && 0 <= rr < 8 ==> squares@[cc * 8 + rr] == initial_square(
                            cc,
                            rr,
                        ),
                    forall|rr: int|
                        0 <= rr < r ==> squares@[c as int * 8 + rr] == initial_square(
                            c as int,
                            rr,
                        ),
                decreases 8 - r,
            {
                squares.push(initial_square_exec(c, r));
                r += 1;
            }
            c += 1;
        }
        let board = ChessBoard {
            squares,
            state: BoardStateFlags::default(),
            board_state_counts: HashMap::new(),
            max_state_count: 0,
            move_list: Vec::new(),
        };
        proof {
            broadcast use vstd::std_specs::hash::group_hash_axioms;
            assert forall|c: int, rr: int| in_board(c, rr) implies match #[trigger] sq(
                board@,
                c,
                rr,
            ) {
                Some(p) => p.position.0 == c && p.position.1 == rr,
                None => true,
            } by {
                assert(board@.squares[c * 8 + rr] == initial_square(c, rr));
            }
        }
        board
    }

    /// Creates a board with the given cell contents, every castling
    /// right held and White to move. The grid is the sole source of
    /// truth for placement, so the position field of every stored
    /// piece is set to the cell holding it.
    pub fn new_with_squares(setup: [[Option<ChessPiece>; 8]; 8]) -> (r: Self)
        ensures
            r.wf(),
            forall|c: int, rr: int|
                in_board(c, rr) ==> #[trigger] sq(r@, c, rr) == match setup@[c]@[rr] {
                    Some(p) => Some(
                        ChessPiece {
                            position: (c as usize, rr as usize),
                            side: p.side,
                            piece_type: p.piece_type,
                        },
                    ),
                    None => None,
                },
            r@.white_castle_queenside && r@.white_castle_kingside,
            r@.black_castle_queenside && r@.black_castle_kingside,
            r@.en_passant_column is None,
            r@.current_turn == Side::White,
            r@.state_counts == Map::<u64, usize>::empty(),
            r@.moves == Seq::<ChessMove>::empty(),
            r.spec_max_state_count() == 0,
    {
        let mut squares: Vec<Option<ChessPiece>> = Vec::new();
        let mut c: usize = 0;
        while c < 8
            invariant
                c <= 8,
                squares@.len() == c * 8,
                forall|cc: int, rr: int|
                    #![trigger setup@[cc]@[rr]]
                    0 <= cc < c && 0 <= rr < 8 ==> squares@[cc * 8 + rr] == (match setup@[cc]@[rr] {
                        Some(p) => Some(
                            ChessPiece {
                                position: (cc as usize, rr as usize),
                                side: p.side,
                                piece_type: p.piece_type,
                            },
                        ),
                        None => None,
                    }),
            decreases 8 - c,
        {
            let mut r: usize = 0;
            while r < 8
                invariant
                    c < 8,
                    r <= 8,
                    squares@.len() == c * 8 + r,
                    forall|cc: int, rr: int|
                        #![trigger setup@[cc]@[rr]]
                        0 <= cc < c && 0 <= rr < 8 ==> squares@[cc * 8 + rr] == (match setup@[cc]@[rr] {
                            Some(p) => Some(
                                ChessPiece {
                                    position: (cc as usize, rr as usize),
                                    side: p.side,
                                    piece_type: p.piece_type,
                                },
                            ),
                            None => None,
                        }),
                    forall|rr: int|
                        #![trigger setup@[c as int]@[rr]]
                        0 <= rr < r ==> squares@[c as int * 8 + rr] == (match setup@[c as int]@[rr] {
                            Some(p) => Some(
                                ChessPiece {
                                    position: (c, rr as usize),
                                    side: p.side,
                                    piece_type: p.piece_type,
                                },
                            ),
                            None => None,
                        }),
                decreases 8 - r,
            {
                let cell = match setup[c][r] {
                    Some(p) => Some(
                        ChessPiece { position: (c, r), side: p.side, piece_type: p.piece_type },
                    ),
                    None => None,
                };
                squares.push(cell);
                r += 1;
            }
            c += 1;
        }
        let board = ChessBoard {
            squares,
            state: BoardStateFlags::default(),
            board_state_counts: HashMap::new(),
            max_state_count: 0,
            move_list: Vec::new(),
        };
        proof {
            broadcast use vstd::std_specs::hash::group_hash_axioms;
            assert forall|c: int, rr: int| in_board(c, rr) implies match #[trigger] sq(
                board@,
                c,
                rr,
            ) {
                Some(p) => p.position.0 == c && p.position.1 == rr,
                None => true,
            } by {
                assert(board@.squares[c * 8 + rr] == (match setup@[c]@[rr] {
                    Some(p) => Some(
                        ChessPiece {
                            position: (c as usize, rr as usize),
                            side: p.side,
                            piece_type: p.piece_type,
                        },
                    ),
                    None => None,
                }));
            }
        }
        board
    }

    /// Assembles a board from a parsed grid and parsed state flags,
    /// with nothing recorded and no history.
    pub(crate) fn from_parts(squares: Vec<Option<ChessPiece>>, state: BoardStateFlags) -> (r:
        ChessBoard)
        requires
            squares@.len() == 64,
            forall|i: int|
                0 <= i < 64 ==> match #[trigger] squares@[i] {
                    Some(p) => p.position.0 < 8 && p.position.1 < 8 && p.position.0 as int * 8
                        + p.position.1 as int == i,
                    None => true,
                },
            match state.en_passant_column {
                Some(col) => col < 8,
                None => true,
            },
        ensures
            r.wf(),
            r@.squares == squares@,
            r@.white_castle_queenside == state.white_castle_queenside,
            r@.white_castle_kingside == state.white_castle_kingside,
            r@.black_castle_queenside == state.black_castle_queenside,
            r@.black_castle_kingside == state.black_castle_kingside,
            r@.en_passant_column == state.en_passant_column,
            r@.current_turn == state.current_turn,
            r@.state_counts == Map::<u64, usize>::empty(),
            r@.moves == Seq::<ChessMove>::empty(),
            r.spec_max_state_count() == 0,
    {
        let board = ChessBoard {
            squares,
            state,
            board_state_counts: HashMap::new(),
            max_state_count: 0,
            move_list: Vec::new(),
        };
        proof {
            broadcast use vstd::std_specs::hash::group_hash_axioms;

            assert forall|c: int, r: int| in_board(c, r) implies match #[trigger] sq(
                board@,
                c,
                r,
            ) {
                Some(p) => p.position.0 == c && p.position.1 == r,
                None => true,
            } by {
                let i = c * 8 + r;
                assert(sq(board@, c, r) == board@.squares[i]);
            }
        }
        board
    }

    /// The occupant of the square at the given column and row.
    pub fn get_square_by_index(&self, column: usize, row: usize) -> (r: Option<ChessPiece>)
        requires
            self.wf(),
            column < 8,
            row < 8,
        ensures
            r == sq(self@, column as int, row as int),
    {
        self.squares[column * 8 + row]
    }

    /// The occupant of the square at the given `(column, row)` pair.
    pub fn get_square_by_position(&self, position: (usize, usize)) -> (r: Option<ChessPiece>)
        requires
            self.wf(),
            position.0 < 8,
            position.1 < 8,
        ensures
            r == sq(self@, position.0 as int, position.1 as int),
    {
        self.get_square_by_index(position.0, position.1)
    }

    /// The occupant of the named square, or an error for a malformed
    /// square name.
    pub fn get_square_by_name(&self, square_name: String) -> (r: Result<
        Option<ChessPiece>,
        ChessError,
    >)
        requires
            self.wf(),
        ensures
            match r {
                Ok(occ) => crate::gamelogic::valid_square_name(square_name@) && occ == sq(
                    self@,
                    crate::gamelogic::name_column(square_name@),
                    crate::gamelogic::name_row(square_name@),
                ),
                Err(e) => !crate::gamelogic::valid_square_name(square_name@) && (
                e matches ChessError::InvalidArgument(_)),
            },
    {
        let (column_index, row_index) = match name_to_index_pair(square_name) {
            Ok(p) => p,
            Err(e) => {
                return Err(e);
            },
        };
        Ok(self.get_square_by_index(column_index, row_index))
    }
}

/// Whether `(c1, r1)` comes before `(c2, r2)` in the column-major scan
/// order of the grid.
pub open spec fn scanned_before(c1: int, r1: int, c2: int, r2: int) -> bool {
    c1 < c2 || (c1 == c2 && r1 < r2)
}

/// Whether some piece of side `s` on a square before `(c, r)` in scan
/// order attacks `(tc, tr)`.
pub open spec fn side_attacks_before(
    m: BoardModel,
    s: Side,
    tc: int,
    tr: int,
    c: int,
    r: int,
) -> bool {
    exists|cc: int, rr: int|
        #![trigger sq(m, cc, rr)]
        scanned_before(cc, rr, c, r) && in_board(cc, rr) && holds_side(m, cc, rr, s)
            && piece_attacks(m, sq(m, cc, rr)->Some_0, tc, tr)
}

/// Whether square `(c, r)` holds the king of side `s`.
pub open spec fn is_king_of(m: BoardModel, c: int, r: int, s: Side) -> bool {
    match sq(m, c, r) {
        Some(p) => p.side == s && p.piece_type == PieceType::King,
        None => false,
    }
}

/// The first square in column-major scan order, starting at `(c, r)`,
/// that holds the king of side `s`.
pub open spec fn king_scan(m: BoardModel, s: Side, c: int, r: int) -> Option<(int, int)>
    decreases 8 - c, 8 - r,
        when 0 <= c <= 8 && 0 <= r <= 8
{
    if c >= 8 {
        None
    } else if r >= 8 {
        king_scan(m, s, c + 1, 0)
    } else if is_king_of(m, c, r, s) {
        Some((c, r))
    } else {
        king_scan(m, s, c, r + 1)
    }
}

/// The first square in scan order holding the king of side `s`.
pub open spec fn first_king(m: BoardModel, s: Side) -> Option<(int, int)> {
    king_scan(m, s, 0, 0)
}

/// Whether side `s` has a king on the board.
pub open spec fn has_king(m: BoardModel, s: Side) -> bool {
    first_king(m, s) is Some
}

/// Whether side `s` is in check: its king's square is attacked by the
/// other side. False on a board where `s` has no king.
pub open spec fn in_check(m: BoardModel, s: Side) -> bool {
    match first_king(m, s) {
        Some(p) => side_attacks(m, s.opposite(), p.0, p.1),
        None => false,
    }
}

/// The pieces of side `s`, in column-major scan order starting at
/// `(c, r)`.
pub open spec fn pieces_scan(m: BoardModel, s: Side, c: int, r: int) -> Seq<ChessPiece>
    decreases 8 - c, 8 - r,
        when 0 <= c <= 8 && 0 <= r <= 8
{
    if c >= 8 {
        Seq::empty()
    } else if r >= 8 {
        pieces_scan(m, s, c + 1, 0)
    } else if holds_side(m, c, r, s) {
        seq![sq(m, c, r)->Some_0] + pieces_scan(m, s, c, r + 1)
    } else {
        pieces_scan(m, s, c, r + 1)
    }
}

/// All pieces of side `s`, in column-major scan order.
pub open spec fn pieces_of(m: BoardModel, s: Side) -> Seq<ChessPiece> {
    pieces_scan(m, s, 0, 0)
}

/// The total material of side `s` over the squares from `(c, r)` on,
/// in scan order; the king carries no material weight.
pub open spec fn material_scan(m: BoardModel, s: Side, c: int, r: int) -> int
    decreases 8 - c, 8 - r,
        when 0 <= c <= 8 && 0 <= r <= 8
{
    if c >= 8 {
        0
    } else if r >= 8 {
        material_scan(m, s, c + 1, 0)
    } else if holds_side(m, c, r, s) {
        material_value(sq(m, c, r)->Some_0.piece_type) + material_scan(m, s, c, r + 1)
    } else {
        material_scan(m, s, c, r + 1)
    }
}

/// The total material of side `s`: the sum of the material values of
/// its pieces.
pub open spec fn total_material(m: BoardModel, s: Side) -> int {
    material_scan(m, s, 0, 0)
}

/// The material sum over a scan suffix is between 0 and nine points
/// per remaining square.
proof fn lemma_material_scan_bounds(m: BoardModel, s: Side, c: int, r: int)
    requires
        0 <= c <= 8,
        0 <= r <= 8,
    ensures
        0 <= material_scan(m, s, c, r) <= ((8 - c) * 8 - r) * 9 + 72,
    decreases 8 - c, 8 - r,
{
    if c >= 8 {
    } else if r >= 8 {
        lemma_material_scan_bounds(m, s, c + 1, 0);
    } else {
        lemma_material_scan_bounds(m, s, c, r + 1);
    }
}

/// Whether `v` holds the square `s`.
fn contains_square(v: &Vec<(usize, usize)>, s: (usize, usize)) -> (r: bool)
    ensures
        r == v@.contains(s),
{
    let mut i: usize = 0;
    while i < v.len()
        invariant
            i <= v@.len(),
            forall|j: int| 0 <= j < i ==> v@[j] != s,
        decreases v@.len() - i,
    {
        let e = v[i];
        if e.0 == s.0 && e.1 == s.1 {
            proof {
                assert(v@[i as int] == s);
            }
            return true;
        }
        i += 1;
    }
    false
}

impl ChessBoard {
    /// Every square attacked by some piece of side `side`, with
    /// repetition when several pieces attack the same square.
    pub fn get_threatened(&self, side: Side) -> (res: Vec<(usize, usize)>)
        requires
            self.wf(),
        ensures
            forall|p: (usize, usize)|
                #[trigger] res@.contains(p) ==> p.0 < 8 && p.1 < 8 && side_attacks(
                    self@,
                    side,
                    p.0 as int,
                    p.1 as int,
                ),
            forall|tc: int, tr: int|
                side_attacks(self@, side, tc, tr) ==> #[trigger] res@.contains(
                    (tc as usize, tr as usize),
                ),
    {
        let ghost m = self@;
        let mut res: Vec<(usize, usize)> = Vec::new();
        let mut c: usize = 0;
        while c < 8
            invariant
                self.wf(),
                m == self@,
                c <= 8,
                forall|p: (usize, usize)|
                    #[trigger] res@.contains(p) ==> p.0 < 8 && p.1 < 8 && side_attacks(
                        m,
                        side,
                        p.0 as int,
                        p.1 as int,
                    ),
                forall|tc: int, tr: int|
                    #[trigger] side_attacks_before(m, side, tc, tr, c as int, 0) ==> res@.contains(
                        (tc as usize, tr as usize),
                    ),
            decreases 8 - c,
        {
            let mut r: usize = 0;
            while r < 8
                invariant
                    self.wf(),
                    m == self@,
                    c < 8,
                    r <= 8,
                    forall|p: (usize, usize)|
                        #[trigger] res@.contains(p) ==> p.0 < 8 && p.1 < 8 && side_attacks(
                            m,
                            side,
                            p.0 as int,
                            p.1 as int,
                        ),
                    forall|tc: int, tr: int|
                        #[trigger] side_attacks_before(m, side, tc, tr, c as int, r as int)
                            ==> res@.contains((tc as usize, tr as usize)),
                decreases 8 - r,
            {
                let cell = self.get_square_by_index(c, r);
                match cell {
                    Some(piece) => {
                        if piece.side == side {
                            let threats = piece.get_threats(self);
                            let ghost res_before = res@;
                            let ghost threats_view = threats@;
                            crate::gamelogic::pieces::append_squares(&mut res, threats);
                            proof {
                                assert(sq(m, c as int, r as int) == Some(piece));
                                assert forall|p: (usize, usize)| #[trigger]
                                    res@.contains(p) implies p.0 < 8 && p.1 < 8 && side_attacks(
                                    m,
                                    side,
                                    p.0 as int,
                                    p.1 as int,
                                ) by {
                                    if threats_view.contains(p) {
                                        assert(piece_attacks(m, piece, p.0 as int, p.1 as int));
                                        assert(in_board(c as int, r as int) && holds_side(
                                            m,
                                            c as int,
                                            r as int,
                                            side,
                                        ) && piece_attacks(
                                            m,
                                            sq(m, c as int, r as int)->Some_0,
                                            p.0 as int,
                                            p.1 as int,
                                        ));
                                    } else {
                                        assert(res_before.contains(p));
                                    }
                                }
                                assert forall|tc: int, tr: int| #[trigger]
                                    side_attacks_before(
                                        m,
                                        side,
                                        tc,
                                        tr,
                                        c as int,
                                        r as int + 1,
                                    ) implies res@.contains((tc as usize, tr as usize)) by {
                                    let (cc, rr) = choose|cc: int, rr: int|
                                        #![trigger sq(m, cc, rr)]
                                        scanned_before(cc, rr, c as int, r as int + 1) && in_board(
                                            cc,
                                            rr,
                                        ) && holds_side(m, cc, rr, side) && piece_attacks(
                                            m,
                                            sq(m, cc, rr)->Some_0,
                                            tc,
                                            tr,
                                        );
                                    if scanned_before(cc, rr, c as int, r as int) {
                                        assert(side_attacks_before(
                                            m,
                                            side,
                                            tc,
                                            tr,
                                            c as int,
                                            r as int,
                                        ));
                                    } else {
                                        assert(cc == c as int && rr == r as int);
                                        assert(piece_attacks(m, piece, tc, tr));
                                    }
                                }
                            }
                        } else {
                            proof {
                                lemma_attacks_before_step(m, side, c as int, r as int);
                            }
                        }
                    },
                    None => {
                        proof {
                            lemma_attacks_before_step(m, side, c as int, r as int);
                        }
                    },
                }
                r += 1;
            }
            proof {
                assert forall|tc: int, tr: int| #[trigger]
                    side_attacks_before(m, side, tc, tr, c as int + 1, 0) implies res@.contains(
                    (tc as usize, tr as usize),
                ) by {
                    let (cc, rr) = choose|cc: int, rr: int|
                        #![trigger sq(m, cc, rr)]
                        scanned_before(cc, rr, c as int + 1, 0) && in_board(cc, rr) && holds_side(
                            m,
                            cc,
                            rr,
                            side,
                        ) && piece_attacks(m, sq(m, cc, rr)->Some_0, tc, tr);
                    assert(scanned_before(cc, rr, c as int, 8));
                    assert(side_attacks_before(m, side, tc, tr, c as int, 8));
                }
            }
            c += 1;
        }
        proof {
            assert forall|tc: int, tr: int| side_attacks(m, side, tc, tr) implies #[trigger]
                res@.contains((tc as usize, tr as usize)) by {
                let (cc, rr) = choose|cc: int, rr: int|
                    #![trigger sq(m, cc, rr)]
                    in_board(cc, rr) && holds_side(m, cc, rr, side) && piece_attacks(
                        m,
                        sq(m, cc, rr)->Some_0,
                        tc,
                        tr,
                    );
                assert(scanned_before(cc, rr, 8, 0));
                assert(side_attacks_before(m, side, tc, tr, 8, 0));
            }
        }
        res
    }
}

/// A piece of side `s` before `(c, r)` attacks the same squares
/// whether the scan frontier is `(c, r)` or `(c, r + 1)`, when the
/// square `(c, r)` itself holds no piece of side `s`.
proof fn lemma_attacks_before_step(m: BoardModel, s: Side, c: int, r: int)
    requires
        in_board(c, r),
        !holds_side(m, c, r, s),
    ensures
        forall|tc: int, tr: int|
            #[trigger] side_attacks_before(m, s, tc, tr, c, r + 1) == side_attacks_before(
                m,
                s,
                tc,
                tr,
                c,
                r,
            ),
{
    assert forall|tc: int, tr: int| #[trigger]
        side_attacks_before(m, s, tc, tr, c, r + 1) implies side_attacks_before(
        m,
        s,
        tc,
        tr,
        c,
        r,
    ) by {
        let (cc, rr) = choose|cc: int, rr: int|
            #![trigger sq(m, cc, rr)]
            scanned_before(cc, rr, c, r + 1) && in_board(cc, rr) && holds_side(m, cc, rr, s)
                && piece_attacks(m, sq(m, cc, rr)->Some_0, tc, tr);
        assert(!(cc == c && rr == r));
        assert(scanned_before(cc, rr, c, r));
    }
    assert forall|tc: int, tr: int| #[trigger]
        side_attacks_before(m, s, tc, tr, c, r) implies side_attacks_before(
        m,
        s,
        tc,
        tr,
        c,
        r + 1,
    ) by {
        let (cc, rr) = choose|cc: int, rr: int|
            #![trigger sq(m, cc, rr)]
            scanned_before(cc, rr, c, r) && in_board(cc, rr) && holds_side(m, cc, rr, s)
                && piece_attacks(m, sq(m, cc, rr)->Some_0, tc, tr);
        assert(scanned_before(cc, rr, c, r + 1));
    }
}

impl ChessBoard {
    /// The set of squares attacked by side `side`, without repetition.
    pub fn get_threatened_map(&self, side: Side) -> (res: Vec<(usize, usize)>)
        requires
            self.wf(),
        ensures
            forall|p: (usize, usize)|
                #[trigger] res@.contains(p) ==> p.0 < 8 && p.1 < 8 && side_attacks(
                    self@,
                    side,
                    p.0 as int,
                    p.1 as int,
                ),
            forall|tc: int, tr: int|
                side_attacks(self@, side, tc, tr) ==> #[trigger] res@.contains(
                    (tc as usize, tr as usize),
                ),
            res@.no_duplicates(),
    {
        let threatened_squares_vec = self.get_threatened(side);
        let mut res: Vec<(usize, usize)> = Vec::new();
        let mut i: usize = 0;
        while i < threatened_squares_vec.len()
            invariant
                i <= threatened_squares_vec@.len(),
                forall|p: (usize, usize)|
                    #[trigger] res@.contains(p) ==> threatened_squares_vec@.contains(p),
                forall|j: int|
                    0 <= j < i ==> res@.contains(#[trigger] threatened_squares_vec@[j]),
                res@.no_duplicates(),
            decreases threatened_squares_vec@.len() - i,
        {
            let square = threatened_squares_vec[i];
            if !contains_square(&res, square) {
                let ghost res_before = res@;
                res.push(square);
                proof {
                    assert forall|p: (usize, usize)| #[trigger]
                        res@.contains(p) implies threatened_squares_vec@.contains(p) by {
                        let j = choose|j: int| 0 <= j < res@.len() && res@[j] == p;
                        if j < res_before.len() {
                            assert(res_before[j] == p);
                            assert(res_before.contains(p));
                        } else {
                            assert(p == square);
                            assert(threatened_squares_vec@[i as int] == p);
                        }
                    }
                    assert forall|j: int| 0 <= j < i + 1 implies res@.contains(
                        #[trigger] threatened_squares_vec@[j],
                    ) by {
                        if j < i {
                            assert(res_before.contains(threatened_squares_vec@[j]));
                            let k = choose|k: int|
                                0 <= k < res_before.len() && res_before[k]
                                    == threatened_squares_vec@[j];
                            assert(res@[k] == threatened_squares_vec@[j]);
                        } else {
                            assert(res@[res_before.len() as int] == square);
                        }
                    }
                }
            } else {
                proof {
                    assert(res@.contains(threatened_squares_vec@[i as int]));
                }
            }
            i += 1;
        }
        proof {
            assert forall|tc: int, tr: int|
                side_attacks(self@, side, tc, tr) implies #[trigger] res@.contains(
                (tc as usize, tr as usize),
            ) by {
                assert(threatened_squares_vec@.contains((tc as usize, tr as usize)));
                let j = choose|j: int|
                    0 <= j < threatened_squares_vec@.len() && threatened_squares_vec@[j] == (
                    tc as usize,
                    tr as usize,
                );
            }
        }
        res
    }

    /// Whether side `side` attacks the given square.
    pub fn is_square_threatened(&self, side: Side, square: (usize, usize)) -> (r: bool)
        requires
            self.wf(),
        ensures
            r == side_attacks(self@, side, square.0 as int, square.1 as int),
    {
        let threatened = self.get_threatened(side);
        let found = contains_square(&threatened, square);
        proof {
            if side_attacks(self@, side, square.0 as int, square.1 as int) {
                assert(threatened@.contains(
                    (((square.0 as int) as usize), ((square.1 as int) as usize)),
                ));
                assert((((square.0 as int) as usize), ((square.1 as int) as usize)) == square);
            }
        }
        found
    }

    /// Every piece of side `side` that attacks the given square.
    pub fn get_square_threats(&self, side: Side, square: (usize, usize)) -> (res: Vec<ChessPiece>)
        requires
            self.wf(),
        ensures
            forall|i: int|
                #![trigger res@[i]]
                0 <= i < res@.len() ==> {
                    let p = res@[i];
                    &&& in_board(p.position.0 as int, p.position.1 as int)
                    &&& sq(self@, p.position.0 as int, p.position.1 as int) == Some(p)
                    &&& p.side == side
                    &&& piece_attacks(self@, p, square.0 as int, square.1 as int)
                },
            forall|cc: int, rr: int|
                in_board(cc, rr) && holds_side(self@, cc, rr, side) && piece_attacks(
                    self@,
                    #[trigger] sq(self@, cc, rr)->Some_0,
                    square.0 as int,
                    square.1 as int,
                ) ==> res@.contains(sq(self@, cc, rr)->Some_0),
            res@.no_duplicates(),
    {
        let ghost m = self@;
        let mut res: Vec<ChessPiece> = Vec::new();
        let mut c: usize = 0;
        while c < 8
            invariant
                self.wf(),
                m == self@,
                c <= 8,
                forall|i: int|
                    #![trigger res@[i]]
                    0 <= i < res@.len() ==> {
                        let p = res@[i];
                        &&& in_board(p.position.0 as int, p.position.1 as int)
                        &&& sq(m, p.position.0 as int, p.position.1 as int) == Some(p)
                        &&& p.side == side
                        &&& piece_attacks(m, p, square.0 as int, square.1 as int)
                    },
                forall|cc: int, rr: int|
                    scanned_before(cc, rr, c as int, 0) && in_board(cc, rr) && holds_side(
                        m,
                        cc,
                        rr,
                        side,
                    ) && piece_attacks(
                        m,
                        #[trigger] sq(m, cc, rr)->Some_0,
                        square.0 as int,
                        square.1 as int,
                    ) ==> res@.contains(sq(m, cc, rr)->Some_0),
                forall|i: int|
                    #![trigger res@[i]]
                    0 <= i < res@.len() ==> scanned_before(
                        res@[i].position.0 as int,
                        res@[i].position.1 as int,
                        c as int,
                        0,
                    ),
                res@.no_duplicates(),
            decreases 8 - c,
        {
            let mut r: usize = 0;
            while r < 8
                invariant
                    self.wf(),
                    m == self@,
                    c < 8,
                    r <= 8,
                    forall|i: int|
                        #![trigger res@[i]]
                        0 <= i < res@.len() ==> {
                            let p = res@[i];
                            &&& in_board(p.position.0 as int, p.position.1 as int)
                            &&& sq(m, p.position.0 as int, p.position.1 as int) == Some(p)
                            &&& p.side == side
                            &&& piece_attacks(m, p, square.0 as int, square.1 as int)
                        },
                    forall|cc: int, rr: int|
                        scanned_before(cc, rr, c as int, r as int) && in_board(cc, rr)
                            && holds_side(m, cc, rr, side) && piece_attacks(
                            m,
                            #[trigger] sq(m, cc, rr)->Some_0,
                            square.0 as int,
                            square.1 as int,
                        ) ==> res@.contains(sq(m, cc, rr)->Some_0),
                    forall|i: int|
                        #![trigger res@[i]]
                        0 <= i < res@.len() ==> scanned_before(
                            res@[i].position.0 as int,
                            res@[i].position.1 as int,
                            c as int,
                            r as int,
                        ),
                    res@.no_duplicates(),
                decreases 8 - r,
            {
                let cell = self.get_square_by_index(c, r);
                match cell {
                    Some(piece) => {
                        if piece.side == side {
                            let piece_threats = piece.get_threats(self);
                            if contains_square(&piece_threats, square) {
                                let ghost res_before = res@;
                                res.push(piece);
                                proof {
                                    assert(piece_attacks(m, piece, square.0 as int, square.1 as int));
                                    assert(res@[res_before.len() as int] == piece);
                                    assert(piece.position.0 == c && piece.position.1 == r);
                                    assert forall|i: int, j: int|
                                        0 <= i < res@.len() && 0 <= j < res@.len() && i
                                            != j implies res@[i] != res@[j] by {
                                        if i < res_before.len() && j < res_before.len() {
                                            assert(res@[i] == res_before[i] && res@[j]
                                                == res_before[j]);
                                        } else if i < res_before.len() {
                                            assert(scanned_before(
                                                res_before[i].position.0 as int,
                                                res_before[i].position.1 as int,
                                                c as int,
                                                r as int,
                                            ));
                                        } else if j < res_before.len() {
                                            assert(scanned_before(
                                                res_before[j].position.0 as int,
                                                res_before[j].position.1 as int,
                                                c as int,
                                                r as int,
                                            ));
                                        }
                                    }
                                    assert(res@.no_duplicates());
                                    assert forall|cc: int, rr: int|
                                        scanned_before(cc, rr, c as int, r as int + 1) && in_board(
                                            cc,
                                            rr,
                                        ) && holds_side(m, cc, rr, side) && piece_attacks(
                                            m,
                                            #[trigger] sq(m, cc, rr)->Some_0,
                                            square.0 as int,
                                            square.1 as int,
                                        ) implies res@.contains(sq(m, cc, rr)->Some_0) by {
                                        if scanned_before(cc, rr, c as int, r as int) {
                                            assert(res_before.contains(sq(m, cc, rr)->Some_0));
                                            let k = choose|k: int|
                                                0 <= k < res_before.len() && res_before[k] == sq(
                                                    m,
                                                    cc,
                                                    rr,
                                                )->Some_0;
                                            assert(res@[k] == sq(m, cc, rr)->Some_0);
                                        } else {
                                            assert(cc == c as int && rr == r as int);
                                            assert(res@[res_before.len() as int] == sq(
                                                m,
                                                cc,
                                                rr,
                                            )->Some_0);
                                        }
                                    }
                                }
                            } else {
                                proof {
                                    if piece_attacks(m, piece, square.0 as int, square.1 as int) {
                                        assert(piece_threats@.contains(
                                            (
                                                ((square.0 as int) as usize),
                                                ((square.1 as int) as usize),
                                            ),
                                        ));
                                        assert((
                                            ((square.0 as int) as usize),
                                            ((square.1 as int) as usize),
                                        ) == square);
                                        assert(false);
                                    }
                                }
                            }
                        }
                    },
                    None => {},
                }
                r += 1;
            }
            c += 1;
        }
        res
    }

    /// The square of side `side`'s first king in column-major scan
    /// order, if any.
    fn find_king(&self, side: Side) -> (res: Option<(usize, usize)>)
        requires
            self.wf(),
        ensures
            match res {
                Some(p) => p.0 < 8 && p.1 < 8 && first_king(self@, side) == Some(
                    (p.0 as int, p.1 as int),
                ),
                None => first_king(self@, side) is None,
            },
    {
        let ghost m = self@;
        let mut c: usize = 0;
        while c < 8
            invariant
                self.wf(),
                m == self@,
                c <= 8,
                first_king(m, side) == king_scan(m, side, c as int, 0),
            decreases 8 - c,
        {
            let mut r: usize = 0;
            while r < 8
                invariant
                    self.wf(),
                    m == self@,
                    c < 8,
                    r <= 8,
                    first_king(m, side) == king_scan(m, side, c as int, r as int),
                decreases 8 - r,
            {
                match self.get_square_by_index(c, r) {
                    Some(p) => {
                        if p.piece_type == PieceType::King && p.side == side {
                            proof {
                                assert(is_king_of(m, c as int, r as int, side));
                            }
                            return Some((c, r));
                        }
                    },
                    None => {},
                }
                r += 1;
            }
            c += 1;
        }
        None
    }

    /// Whether side `side` is in check: the square of its first king
    /// in scan order is attacked by the other side.
    pub fn is_checked(&self, side: Side) -> (r: bool)
        requires
            self.wf(),
            has_king(self@, side),
        ensures
            r == in_check(self@, side),
    {
        match self.find_king(side) {
            Some(pos) => self.is_square_threatened(side.opposite(), pos),
            None => {
                proof {
                    assert(false);
                }
                false
            },
        }
    }

    /// All pieces of side `side`, in column-major scan order.
    pub fn get_all_pieces(&self, side: Side) -> (res: Vec<ChessPiece>)
        requires
            self.wf(),
        ensures
            res@ == pieces_of(self@, side),
    {
        let ghost m = self@;
        let mut res: Vec<ChessPiece> = Vec::new();
        let mut c: usize = 0;
        while c < 8
            invariant
                self.wf(),
                m == self@,
                c <= 8,
                pieces_of(m, side) == res@ + pieces_scan(m, side, c as int, 0),
            decreases 8 - c,
        {
            let mut r: usize = 0;
            while r < 8
                invariant
                    self.wf(),
                    m == self@,
                    c < 8,
                    r <= 8,
                    pieces_of(m, side) == res@ + pieces_scan(m, side, c as int, r as int),
                decreases 8 - r,
            {
                let ghost res_before = res@;
                match self.get_square_by_index(c, r) {
                    Some(piece) => {
                        if piece.side == side {
                            res.push(piece);
                            proof {
                                assert(holds_side(m, c as int, r as int, side));
                                assert((res_before + seq![piece]) + pieces_scan(
                                    m,
                                    side,
                                    c as int,
                                    r as int + 1,
                                ) =~= res_before + (seq![piece] + pieces_scan(
                                    m,
                                    side,
                                    c as int,
                                    r as int + 1,
                                )));
                            }
                        }
                    },
                    None => {},
                }
                r += 1;
            }
            c += 1;
        }
        proof {
            assert(pieces_of(m, side) =~= res@);
        }
        res
    }

    /// The total material held by side `side`: the sum of the material
    /// values of its pieces, the king counting for nothing.
    pub fn get_total_materials(&self, side: Side) -> (res: usize)
        requires
            self.wf(),
        ensures
            res == total_material(self@, side),
    {
        let ghost m = self@;
        let mut total: usize = 0;
        let mut c: usize = 0;
        while c < 8
            invariant
                self.wf(),
                m == self@,
                c <= 8,
                total + material_scan(m, side, c as int, 0) == total_material(m, side),
                total <= 648,
            decreases 8 - c,
        {
            let mut r: usize = 0;
            while r < 8
                invariant
                    self.wf(),
                    m == self@,
                    c < 8,
                    r <= 8,
                    total + material_scan(m, side, c as int, r as int) == total_material(m, side),
                    total <= 648,
                decreases 8 - r,
            {
                match self.get_square_by_index(c, r) {
                    Some(piece) => {
                        if piece.side == side {
                            proof {
                                lemma_material_scan_bounds(m, side, c as int, r as int + 1);
                                lemma_material_scan_bounds(m, side, 0, 0);
                            }
                            total = total + piece.get_material();
                        }
                    },
                    None => {},
                }
                r += 1;
            }
            c += 1;
        }
        total
    }
}

/// The conditions under which applying a move is meaningful: both
/// squares are on the board, the origin is occupied, an en passant
/// capture has a piece on its true captured square, and a castle is a
/// king's move from its home column to column 2 or 6 with a rook on
/// the matching corner. Applying a move whose origin is empty would be
/// a fatal caller error, so it is excluded here.
pub open spec fn apply_shape_ok(m: BoardModel, mv: ChessMove) -> bool {
    let fc = mv.from_square.0 as int;
    let fr = mv.from_square.1 as int;
    let tc = mv.destination.0 as int;
    let tr = mv.destination.1 as int;
    &&& m.squares.len() == 64
    &&& in_board(fc, fr)
    &&& in_board(tc, tr)
    &&& occupied(m, fc, fr)
    &&& match mv.move_type {
        MoveType::EnPassant => {
            let p = sq(m, fc, fr)->Some_0;
            if p.side == Side::White {
                tr >= 1 && occupied(m, tc, tr - 1)
            } else {
                tr <= 6 && occupied(m, tc, tr + 1)
            }
        },
        MoveType::Castle => {
            let p = sq(m, fc, fr)->Some_0;
            let rfc: int = if tc == 2 {
                0
            } else {
                7
            };
            &&& p.piece_type == PieceType::King
            &&& fc == 4
            &&& tr == fr
            &&& (tc == 2 || tc == 6)
            &&& match sq(m, rfc, tr) {
                Some(rk) => rk.piece_type == PieceType::Rook,
                None => false,
            }
        },
        _ => true,
    }
}

/// The board that results from applying a move: the piece is
/// relocated (its kind becoming Queen on a promotion), the en passant
/// victim or the ordinary capture is removed, a castle relocates the
/// paired rook, the en-passant column is set by a double advance and
/// cleared by every other move, and the castling rights of a moved
/// king or corner rook are cleared. The side to move, the history and
/// the repetition counts are untouched.
pub open spec fn apply_move_model(m: BoardModel, mv: ChessMove) -> BoardModel
    recommends
        apply_shape_ok(m, mv),
{
    let fc = mv.from_square.0 as int;
    let fr = mv.from_square.1 as int;
    let tc = mv.destination.0 as int;
    let tr = mv.destination.1 as int;
    let p = sq(m, fc, fr)->Some_0;
    let new_kind = if mv.move_type == MoveType::Promotion {
        PieceType::Queen
    } else {
        p.piece_type
    };
    let moved = ChessPiece {
        position: (mv.destination.0, mv.destination.1),
        side: p.side,
        piece_type: new_kind,
    };
    let rfc: int = if tc == 2 {
        0
    } else {
        7
    };
    let rtc: int = if tc == 2 {
        3
    } else {
        5
    };
    let squares1 = match mv.move_type {
        MoveType::EnPassant => {
            let cr = if p.side == Side::White {
                tr - 1
            } else {
                tr + 1
            };
            m.squares.update(tc * 8 + cr, None)
        },
        MoveType::Castle => {
            let rook = sq(m, rfc, tr)->Some_0;
            m.squares.update(rfc * 8 + tr, None).update(
                rtc * 8 + tr,
                Some(
                    ChessPiece {
                        position: (rtc as usize, tr as usize),
                        side: rook.side,
                        piece_type: rook.piece_type,
                    },
                ),
            )
        },
        _ => m.squares,
    };
    let squares2 = squares1.update(fc * 8 + fr, None).update(tc * 8 + tr, Some(moved));
    let is_castle = mv.move_type == MoveType::Castle;
    BoardModel {
        squares: squares2,
        white_castle_queenside: m.white_castle_queenside && !(new_kind == PieceType::Rook && fc == 0
            && fr == 0) && !(new_kind == PieceType::King && p.side == Side::White) && !(is_castle
            && rfc == 0 && tr == 0),
        white_castle_kingside: m.white_castle_kingside && !(new_kind == PieceType::Rook && fc == 7
            && fr == 0) && !(new_kind == PieceType::King && p.side == Side::White) && !(is_castle
            && rfc == 7 && tr == 0),
        black_castle_queenside: m.black_castle_queenside && !(new_kind == PieceType::Rook && fc == 0
            && fr == 7) && !(new_kind == PieceType::King && p.side == Side::Black) && !(is_castle
            && rfc == 0 && tr == 7),
        black_castle_kingside: m.black_castle_kingside && !(new_kind == PieceType::Rook && fc == 7
            && fr == 7) && !(new_kind == PieceType::King && p.side == Side::Black) && !(is_castle
            && rfc == 7 && tr == 7),
        en_passant_column: if mv.move_type == MoveType::DoubleAdvance {
            Some(mv.destination.0)
        } else {
            None
        },
        current_turn: m.current_turn,
        state_counts: m.state_counts,
        moves: m.moves,
    }
}

/// Whether applying `mv` leaves the moving piece's own side in check.
pub open spec fn causes_self_check(m: BoardModel, mv: ChessMove) -> bool {
    let p = sq(m, mv.from_square.0 as int, mv.from_square.1 as int)->Some_0;
    in_check(apply_move_model(m, mv), p.side)
}

/// Every square a king scan reports holds that side's king.
pub proof fn lemma_king_scan_sound(m: BoardModel, s: Side, c: int, r: int)
    requires
        0 <= c <= 8,
        0 <= r <= 8,
    ensures
        match king_scan(m, s, c, r) {
            Some(k) => in_board(k.0, k.1) && is_king_of(m, k.0, k.1, s),
            None => true,
        },
    decreases 8 - c, 8 - r,
{
    if c >= 8 {
    } else if r >= 8 {
        lemma_king_scan_sound(m, s, c + 1, 0);
    } else if is_king_of(m, c, r, s) {
    } else {
        lemma_king_scan_sound(m, s, c, r + 1);
    }
}

/// A king scan starting at or before a king's square finds a king.
proof fn lemma_king_scan_finds(m: BoardModel, s: Side, c: int, r: int, kc: int, kr: int)
    requires
        0 <= c <= 8,
        0 <= r <= 8,
        in_board(kc, kr),
        is_king_of(m, kc, kr, s),
        !scanned_before(kc, kr, c, r),
    ensures
        king_scan(m, s, c, r) is Some,
    decreases 8 - c, 8 - r,
{
    if c >= 8 {
        assert(false);
    } else if r >= 8 {
        lemma_king_scan_finds(m, s, c + 1, 0, kc, kr);
    } else if is_king_of(m, c, r, s) {
    } else {
        assert(!(kc == c && kr == r));
        lemma_king_scan_finds(m, s, c, r + 1, kc, kr);
    }
}

/// A side with a king on some square has a king.
pub proof fn lemma_has_king_from_cell(m: BoardModel, s: Side, kc: int, kr: int)
    requires
        in_board(kc, kr),
        is_king_of(m, kc, kr, s),
    ensures
        has_king(m, s),
{
    lemma_king_scan_finds(m, s, 0, 0, kc, kr);
}

/// A king that moves without promotion still stands on the board
/// after the move.
pub proof fn lemma_moving_king_survives(m: BoardModel, mv: ChessMove)
    requires
        wf_model(m),
        apply_shape_ok(m, mv),
        sq(m, mv.from_square.0 as int, mv.from_square.1 as int)->Some_0.piece_type
            == PieceType::King,
        mv.move_type != MoveType::Promotion,
    ensures
        has_king(
            apply_move_model(m, mv),
            sq(m, mv.from_square.0 as int, mv.from_square.1 as int)->Some_0.side,
        ),
{
    let p = sq(m, mv.from_square.0 as int, mv.from_square.1 as int)->Some_0;
    let m2 = apply_move_model(m, mv);
    let tc = mv.destination.0 as int;
    let tr = mv.destination.1 as int;
    assert(is_king_of(m2, tc, tr, p.side));
    lemma_has_king_from_cell(m2, p.side, tc, tr);
}

/// A king whose square is touched by none of a move's effects still
/// stands on the board after the move.
pub proof fn lemma_bystander_king_survives(
    m: BoardModel,
    mv: ChessMove,
    s: Side,
    kc: int,
    kr: int,
)
    requires
        wf_model(m),
        apply_shape_ok(m, mv),
        in_board(kc, kr),
        is_king_of(m, kc, kr, s),
        !(kc == mv.from_square.0 as int && kr == mv.from_square.1 as int),
        !(kc == mv.destination.0 as int && kr == mv.destination.1 as int),
        mv.move_type == MoveType::EnPassant ==> {
            let p = sq(m, mv.from_square.0 as int, mv.from_square.1 as int)->Some_0;
            let cr = if p.side == Side::White {
                mv.destination.1 as int - 1
            } else {
                mv.destination.1 as int + 1
            };
            !(kc == mv.destination.0 as int && kr == cr)
        },
        mv.move_type == MoveType::Castle ==> {
            let rfc: int = if mv.destination.0 as int == 2 {
                0
            } else {
                7
            };
            let rtc: int = if mv.destination.0 as int == 2 {
                3
            } else {
                5
            };
            !(kc == rfc && kr == mv.destination.1 as int) && !(kc == rtc && kr
                == mv.destination.1 as int)
        },
    ensures
        has_king(apply_move_model(m, mv), s),
{
    let m2 = apply_move_model(m, mv);
    assert(sq(m2, kc, kr) == sq(m, kc, kr));
    lemma_has_king_from_cell(m2, s, kc, kr);
}

impl ChessBoard {
    /// Reads one grid cell without assuming full well-formedness,
    /// for use in the middle of a mutation.
    fn peek_square(&self, column: usize, row: usize) -> (r: Option<ChessPiece>)
        requires
            column < 8,
            row < 8,
            self@.squares.len() == 64,
        ensures
            r == sq(self@, column as int, row as int),
    {
        self.squares[column * 8 + row]
    }

    /// Overwrites one grid cell, leaving the rest of the board alone.
    fn set_square(&mut self, column: usize, row: usize, value: Option<ChessPiece>)
        requires
            column < 8,
            row < 8,
            old(self)@.squares.len() == 64,
        ensures
            final(self)@ == (BoardModel {
                squares: old(self)@.squares.update(column as int * 8 + row as int, value),
                ..old(self)@
            }),
            final(self).spec_max_state_count() == old(self).spec_max_state_count(),
    {
        self.squares.set(column * 8 + row, value);
        proof {
            assert(self@ =~= BoardModel {
                squares: old(self)@.squares.update(column as int * 8 + row as int, value),
                ..old(self)@
            });
        }
    }

    /// An exact copy of this board.
    pub fn duplicate(&self) -> (r: ChessBoard)
        requires
            self.wf(),
        ensures
            r@ == self@,
            r.wf(),
            r.spec_max_state_count() == self.spec_max_state_count(),
    {
        let mut squares: Vec<Option<ChessPiece>> = Vec::new();
        let mut i: usize = 0;
        while i < self.squares.len()
            invariant
                i <= self.squares@.len(),
                squares@ == self.squares@.subrange(0, i as int),
            decreases self.squares@.len() - i,
        {
            squares.push(self.squares[i]);
            proof {
                assert(squares@ =~= self.squares@.subrange(0, i as int + 1));
            }
            i += 1;
        }
        let mut move_list: Vec<ChessMove> = Vec::new();
        let mut j: usize = 0;
        while j < self.move_list.len()
            invariant
                j <= self.move_list@.len(),
                move_list@ == self.move_list@.subrange(0, j as int),
            decreases self.move_list@.len() - j,
        {
            move_list.push(self.move_list[j]);
            proof {
                assert(move_list@ =~= self.move_list@.subrange(0, j as int + 1));
            }
            j += 1;
        }
        let r = ChessBoard {
            squares,
            state: self.state,
            board_state_counts: self.board_state_counts.clone(),
            max_state_count: self.max_state_count,
            move_list,
        };
        proof {
            assert(self.squares@.subrange(0, self.squares@.len() as int) =~= self.squares@);
            assert(self.move_list@.subrange(0, self.move_list@.len() as int) =~= self.move_list@);
            assert(r@ =~= self@);
        }
        r
    }

    /// Applies a move to this board: relocates the piece, performs the
    /// special effects of its kind, and updates the castling rights
    /// and the en-passant column. The side to move, the history and
    /// the repetition counts are untouched; `perform_move_and_record`
    /// updates those as well.
    #[verifier::rlimit(100)]
    #[verifier::spinoff_prover]
    pub fn perform_move(&mut self, chess_move: &ChessMove) -> (r: Result<(), ()>)
        requires
            old(self).wf(),
            apply_shape_ok(old(self)@, *chess_move),
        ensures
            r is Ok,
            final(self)@ == apply_move_model(old(self)@, *chess_move),
            final(self).wf(),
            final(self).spec_max_state_count() == old(self).spec_max_state_count(),
    {
        let ghost m0 = old(self)@;
        let current_position = chess_move.from_square;
        let piece_opt = self.get_square_by_index(current_position.0, current_position.1);
        let mut piece = match piece_opt {
            Some(p) => p,
            None => {
                proof {
                    assert(false);
                }
                return Err(());
            },
        };
        let dest_col = chess_move.destination.0;
        let dest_row = chess_move.destination.1;

        match chess_move.move_type {
            MoveType::EnPassant => {
                // the captured pawn stands behind the destination, on
                // the rank the capturing pawn came from
                let captured_row = match piece.side {
                    Side::White => dest_row - 1,
                    Side::Black => dest_row + 1,
                };
                self.set_square(dest_col, captured_row, None);
                self.state.en_passant_column = None;
            },
            MoveType::DoubleAdvance => {
                self.state.en_passant_column = Some(dest_col);
            },
            MoveType::Promotion => {
                // only queen promotion is modeled
                piece.piece_type = PieceType::Queen;
                self.state.en_passant_column = None;
            },
            MoveType::Castle => {
                self.state.en_passant_column = None;
                // relocate the paired rook alongside the king
                let (castle_from_col, castle_dest_col): (usize, usize) = if dest_col == 2 {
                    (0, 3)
                } else {
                    (7, 5)
                };
                let rook_opt = self.peek_square(castle_from_col, dest_row);
                let rook = match rook_opt {
                    Some(p) => p,
                    None => {
                        proof {
                            assert(false);
                        }
                        return Err(());
                    },
                };
                // the rook leaving its corner clears that wing's right
                if castle_from_col == 0 && dest_row == 0 {
                    self.state.white_castle_queenside = false;
                }
                if castle_from_col == 7 && dest_row == 0 {
                    self.state.white_castle_kingside = false;
                }
                if castle_from_col == 0 && dest_row == 7 {
                    self.state.black_castle_queenside = false;
                }
                if castle_from_col == 7 && dest_row == 7 {
                    self.state.black_castle_kingside = false;
                }
                self.set_square(castle_from_col, dest_row, None);
                self.set_square(
                    castle_dest_col,
                    dest_row,
                    Some(
                        ChessPiece {
                            position: (castle_dest_col, dest_row),
                            side: rook.side,
                            piece_type: rook.piece_type,
                        },
                    ),
                );
            },
            MoveType::Standard => {
                self.state.en_passant_column = None;
            },
        }

        // moving a rook off its exact home square clears that wing's
        // castling right, one-directionally
        if piece.piece_type == PieceType::Rook {
            if current_position.0 == 0 && current_position.1 == 0 {
                self.state.white_castle_queenside = false;
            }
            if current_position.0 == 7 && current_position.1 == 0 {
                self.state.white_castle_kingside = false;
            }
            if current_position.0 == 0 && current_position.1 == 7 {
                self.state.black_castle_queenside = false;
            }
            if current_position.0 == 7 && current_position.1 == 7 {
                self.state.black_castle_kingside = false;
            }
        }
        // moving the king clears both of its side's rights
        if piece.piece_type == PieceType::King {
            match piece.side {
                Side::White => {
                    self.state.white_castle_kingside = false;
                    self.state.white_castle_queenside = false;
                },
                Side::Black => {
                    self.state.black_castle_kingside = false;
                    self.state.black_castle_queenside = false;
                },
            }
        }

        // relocate the piece from its origin to the destination
        piece.position = (dest_col, dest_row);
        self.set_square(current_position.0, current_position.1, None);
        self.set_square(dest_col, dest_row, Some(piece));

        proof {
            let mf = apply_move_model(m0, *chess_move);
            assert(self@.squares =~= mf.squares);
            assert(self@.white_castle_queenside == mf.white_castle_queenside);
            assert(self@.white_castle_kingside == mf.white_castle_kingside);
            assert(self@.black_castle_queenside == mf.black_castle_queenside);
            assert(self@.black_castle_kingside == mf.black_castle_kingside);
            assert(self@.en_passant_column == mf.en_passant_column);
            assert(self@ =~= mf);
            assert forall|c: int, r: int| in_board(c, r) implies match #[trigger] sq(self@, c, r) {
                Some(p) => p.position.0 == c && p.position.1 == r,
                None => true,
            } by {
                let idx = c * 8 + r;
                assert(sq(self@, c, r) == self@.squares[idx]);
                assert(sq(m0, c, r) == m0.squares[idx]);
            }
            assert(wf_model(self@));
            assert(self@.state_counts == m0.state_counts);
            assert(self.max_state_count == old(self).spec_max_state_count());
            assert(forall|k: u64|
                #[trigger] self@.state_counts.contains_key(k) ==> self@.state_counts[k]
                    <= self.max_state_count);
            assert(self.max_state_count > 0 ==> exists|k: u64|
                #[trigger] self@.state_counts.contains_key(k) && self@.state_counts[k]
                    == self.max_state_count);
            assert(self.wf());
        }
        Ok(())
    }
}

/// Whether side `s` has any legal move: some piece of `s` has a
/// pseudo-legal move that does not leave its own king in check.
pub open spec fn exists_legal_move(m: BoardModel, s: Side) -> bool {
    exists|c: int, r: int, tc: int, tr: int|
        in_board(c, r) && holds_side(m, c, r, s) && crate::gamelogic::pieces::legal_move_ok(
            m,
            sq(m, c, r)->Some_0,
            tc,
            tr,
        ) && #[trigger] crate::gamelogic::pieces::pseudo_move(m, sq(m, c, r)->Some_0, tc, tr)
            == crate::gamelogic::pieces::pseudo_move(m, sq(m, c, r)->Some_0, tc, tr)
}

/// Every piece a scan reports stands on the board at its recorded
/// position, belonging to the scanned side.
proof fn lemma_pieces_scan_sound(m: BoardModel, s: Side, c: int, r: int)
    requires
        wf_model(m),
        0 <= c <= 8,
        0 <= r <= 8,
    ensures
        forall|k: int|
            #![trigger pieces_scan(m, s, c, r)[k]]
            0 <= k < pieces_scan(m, s, c, r).len() ==> {
                let p = pieces_scan(m, s, c, r)[k];
                &&& p.position.0 < 8
                &&& p.position.1 < 8
                &&& sq(m, p.position.0 as int, p.position.1 as int) == Some(p)
                &&& p.side == s
            },
    decreases 8 - c, 8 - r,
{
    if c >= 8 {
    } else if r >= 8 {
        lemma_pieces_scan_sound(m, s, c + 1, 0);
    } else {
        lemma_pieces_scan_sound(m, s, c, r + 1);
        if holds_side(m, c, r, s) {
            let p = sq(m, c, r)->Some_0;
            assert(p.position.0 == c && p.position.1 == r);
            assert(pieces_scan(m, s, c, r)[0] == p);
            assert forall|k: int| 0 <= k < pieces_scan(m, s, c, r).len() implies {
                let q = #[trigger] pieces_scan(m, s, c, r)[k];
                &&& q.position.0 < 8
                &&& q.position.1 < 8
                &&& sq(m, q.position.0 as int, q.position.1 as int) == Some(q)
                &&& q.side == s
            } by {
                if k > 0 {
                    assert(pieces_scan(m, s, c, r)[k] == pieces_scan(m, s, c, r + 1)[k - 1]);
                }
            }
        }
    }
}

/// A scan starting at or before an occupied square of the scanned
/// side reports its piece.
proof fn lemma_pieces_scan_complete(m: BoardModel, s: Side, c: int, r: int, cc: int, rr: int)
    requires
        wf_model(m),
        0 <= c <= 8,
        0 <= r <= 8,
        in_board(cc, rr),
        holds_side(m, cc, rr, s),
        !scanned_before(cc, rr, c, r),
    ensures
        pieces_scan(m, s, c, r).contains(sq(m, cc, rr)->Some_0),
    decreases 8 - c, 8 - r,
{
    if c >= 8 {
        assert(false);
    } else if r >= 8 {
        lemma_pieces_scan_complete(m, s, c + 1, 0, cc, rr);
    } else if cc == c && rr == r {
        assert(pieces_scan(m, s, c, r)[0] == sq(m, cc, rr)->Some_0);
    } else {
        lemma_pieces_scan_complete(m, s, c, r + 1, cc, rr);
        let p = sq(m, cc, rr)->Some_0;
        let k = choose|k: int|
            0 <= k < pieces_scan(m, s, c, r + 1).len() && #[trigger] pieces_scan(m, s, c, r + 1)[k]
                == p;
        if holds_side(m, c, r, s) {
            assert(pieces_scan(m, s, c, r)[k + 1] == p);
        }
    }
}

/// A scan reports at most one piece per remaining square.
proof fn lemma_pieces_scan_len(m: BoardModel, s: Side, c: int, r: int)
    requires
        0 <= c <= 8,
        0 <= r <= 8,
    ensures
        pieces_scan(m, s, c, r).len() <= (8 - c) * 8 - r + 8,
    decreases 8 - c, 8 - r,
{
    if c >= 8 {
    } else if r >= 8 {
        lemma_pieces_scan_len(m, s, c + 1, 0);
    } else {
        lemma_pieces_scan_len(m, s, c, r + 1);
    }
}

/// How many pieces from index `i` on have the given kind.
pub open spec fn kind_count_from(ps: Seq<ChessPiece>, i: int, t: PieceType) -> int
    decreases ps.len() - i,
        when 0 <= i <= ps.len()
{
    if i >= ps.len() {
        0
    } else {
        (if ps[i].piece_type == t {
            1int
        } else {
            0int
        }) + kind_count_from(ps, i + 1, t)
    }
}

/// How many pieces of side `s` have the given kind.
pub open spec fn kind_count(m: BoardModel, s: Side, t: PieceType) -> int {
    kind_count_from(pieces_of(m, s), 0, t)
}

/// Whether one side holds only its king and the other king plus
/// exactly one minor piece.
pub open spec fn lone_king_vs_minor(m: BoardModel, lone: Side, other: Side) -> bool {
    &&& pieces_of(m, lone).len() == 1
    &&& pieces_of(m, other).len() == 2
    &&& kind_count(m, other, PieceType::King) == 1
    &&& kind_count(m, other, PieceType::Knight) + kind_count(m, other, PieceType::Bishop) == 1
}

/// Whether one side holds only its king and the other king plus
/// exactly two knights.
pub open spec fn lone_king_vs_two_knights(m: BoardModel, lone: Side, other: Side) -> bool {
    &&& pieces_of(m, lone).len() == 1
    &&& pieces_of(m, other).len() == 3
    &&& kind_count(m, other, PieceType::King) == 1
    &&& kind_count(m, other, PieceType::Knight) == 2
}

/// Whether the material left on the board suffices for checkmate:
/// drawn are king against king, king against king and one minor,
/// king against king and two knights, and king and minor each.
pub open spec fn insufficient_material(m: BoardModel) -> bool {
    let w = pieces_of(m, Side::White);
    let b = pieces_of(m, Side::Black);
    ||| (w.len() == 1 && b.len() == 1)
    ||| lone_king_vs_minor(m, Side::White, Side::Black)
    ||| lone_king_vs_two_knights(m, Side::White, Side::Black)
    ||| lone_king_vs_minor(m, Side::Black, Side::White)
    ||| lone_king_vs_two_knights(m, Side::Black, Side::White)
    ||| (w.len() == 2 && b.len() == 2 && kind_count(m, Side::White, PieceType::King) == 1
        && kind_count(m, Side::White, PieceType::Knight) + kind_count(
        m,
        Side::White,
        PieceType::Bishop,
    ) == 1 && kind_count(m, Side::Black, PieceType::King) == 1 && kind_count(
        m,
        Side::Black,
        PieceType::Knight,
    ) + kind_count(m, Side::Black, PieceType::Bishop) == 1)
}

/// Whether some position has been recorded at least three times.
pub open spec fn has_threefold_repetition(m: BoardModel) -> bool {
    exists|k: u64| #[trigger] m.state_counts.contains_key(k) && m.state_counts[k] >= 3
}

/// The canonical one-byte encoding of a cell: 0 for empty, 1 to 6 for
/// a White pawn, rook, knight, bishop, queen and king, 7 to 12 for
/// the Black pieces.
pub open spec fn cell_code(o: Option<ChessPiece>) -> u8 {
    match o {
        None => 0,
        Some(p) => {
            let base: u8 = match p.piece_type {
                PieceType::Pawn => 1,
                PieceType::Rook => 2,
                PieceType::Knight => 3,
                PieceType::Bishop => 4,
                PieceType::Queen => 5,
                PieceType::King => 6,
            };
            if p.side == Side::Black {
                (base + 6) as u8
            } else {
                base
            }
        },
    }
}

/// The canonical encoding of the position-relevant state: one byte
/// per cell in column-major order, then the side to move, the
/// castling rights as a bit set, and the en-passant column (8 for
/// none). Move counts deliberately do not participate, so positions
/// reached by different move orders hash alike.
pub open spec fn state_byte(m: BoardModel, i: int) -> u8
    recommends
        0 <= i < 67,
        m.squares.len() == 64,
{
    if i < 64 {
        cell_code(m.squares[i])
    } else if i == 64 {
        if m.current_turn == Side::Black {
            1
        } else {
            0
        }
    } else if i == 65 {
        ((if m.white_castle_kingside {
            1u8
        } else {
            0u8
        }) + (if m.white_castle_queenside {
            2u8
        } else {
            0u8
        }) + (if m.black_castle_kingside {
            4u8
        } else {
            0u8
        }) + (if m.black_castle_queenside {
            8u8
        } else {
            0u8
        })) as u8
    } else {
        match m.en_passant_column {
            Some(col) => col as u8,
            None => 8,
        }
    }
}

/// One step of the 64-bit Fowler-Noll-Vo hash: mix one byte in.
pub open spec fn fnv_step(h: u64, b: u8) -> u64 {
    vstd::wrapping::u64_specs::wrapping_mul(h ^ (b as u64), 0x100000001b3)
}

/// The hash of the encoding bytes from index `i` on, starting from
/// accumulator `h`.
pub open spec fn hash_from(m: BoardModel, i: int, h: u64) -> u64
    decreases 67 - i,
        when 0 <= i <= 67
{
    if i >= 67 {
        h
    } else {
        hash_from(m, i + 1, fnv_step(h, state_byte(m, i)))
    }
}

/// The canonical position hash: the 64-bit Fowler-Noll-Vo hash of the
/// canonical structural encoding of piece placement, side to move,
/// castling rights and en-passant column.
pub open spec fn state_hash(m: BoardModel) -> u64 {
    hash_from(m, 0, 0xcbf29ce484222325)
}

/// A repetition count increments, staying put at the type's maximum.
pub open spec fn sat_inc(c: usize) -> usize {
    if c == usize::MAX {
        c
    } else {
        (c + 1) as usize
    }
}

/// The board that results from applying a move and recording it: the
/// mover's side is read from the origin, the side to move flips, the
/// move applies as in `apply_move_model`, the canonical hash of the
/// new position is counted once, and the move is appended to the
/// history.
pub open spec fn apply_and_record_model(m: BoardModel, mv: ChessMove) -> BoardModel
    recommends
        apply_shape_ok(m, mv),
{
    let mover = sq(m, mv.from_square.0 as int, mv.from_square.1 as int)->Some_0;
    let m1 = BoardModel { current_turn: mover.side.spec_opposite(), ..m };
    let m2 = apply_move_model(m1, mv);
    let h = state_hash(m2);
    let old_count: usize = if m2.state_counts.contains_key(h) {
        m2.state_counts[h]
    } else {
        0
    };
    BoardModel {
        state_counts: m2.state_counts.insert(h, sat_inc(old_count)),
        moves: m2.moves.push(mv),
        ..m2
    }
}

impl ChessBoard {
    /// Every legal move of every piece of side `side`.
    pub fn get_all_moves(&self, side: Side) -> (res: Vec<ChessMove>)
        requires
            self.wf(),
            has_king(self@, side),
        ensures
            forall|i: int|
                #![trigger res@[i]]
                0 <= i < res@.len() ==> {
                    let mv = res@[i];
                    let p = sq(self@, mv.from_square.0 as int, mv.from_square.1 as int)->Some_0;
                    &&& mv.from_square.0 < 8
                    &&& mv.from_square.1 < 8
                    &&& holds_side(self@, mv.from_square.0 as int, mv.from_square.1 as int, side)
                    &&& crate::gamelogic::pieces::legal_move_ok(
                        self@,
                        p,
                        mv.destination.0 as int,
                        mv.destination.1 as int,
                    )
                    &&& mv == crate::gamelogic::pieces::pseudo_move(
                        self@,
                        p,
                        mv.destination.0 as int,
                        mv.destination.1 as int,
                    )
                },
            forall|c: int, r: int, tc: int, tr: int|
                in_board(c, r) && holds_side(self@, c, r, side)
                    && crate::gamelogic::pieces::legal_move_ok(
                    self@,
                    sq(self@, c, r)->Some_0,
                    tc,
                    tr,
                ) ==> res@.contains(
                    #[trigger] crate::gamelogic::pieces::pseudo_move(
                        self@,
                        sq(self@, c, r)->Some_0,
                        tc,
                        tr,
                    ),
                ),
            res@.len() > 0 <==> exists_legal_move(self@, side),
    {
        let ghost m = self@;
        let pieces = self.get_all_pieces(side);
        proof {
            self.wf_model_holds();
            lemma_pieces_scan_sound(m, side, 0, 0);
        }
        let mut res: Vec<ChessMove> = Vec::new();
        let mut i: usize = 0;
        while i < pieces.len()
            invariant
                self.wf(),
                m == self@,
                has_king(m, side),
                i <= pieces@.len(),
                pieces@ == pieces_of(m, side),
                forall|k: int|
                    #![trigger pieces@[k]]
                    0 <= k < pieces@.len() ==> {
                        let p = pieces@[k];
                        &&& p.position.0 < 8
                        &&& p.position.1 < 8
                        &&& sq(m, p.position.0 as int, p.position.1 as int) == Some(p)
                        &&& p.side == side
                    },
                forall|j: int|
                    #![trigger res@[j]]
                    0 <= j < res@.len() ==> {
                        let mv = res@[j];
                        let p = sq(m, mv.from_square.0 as int, mv.from_square.1 as int)->Some_0;
                        &&& mv.from_square.0 < 8
                        &&& mv.from_square.1 < 8
                        &&& holds_side(m, mv.from_square.0 as int, mv.from_square.1 as int, side)
                        &&& crate::gamelogic::pieces::legal_move_ok(
                            m,
                            p,
                            mv.destination.0 as int,
                            mv.destination.1 as int,
                        )
                        &&& mv == crate::gamelogic::pieces::pseudo_move(
                            m,
                            p,
                            mv.destination.0 as int,
                            mv.destination.1 as int,
                        )
                    },
                forall|k: int, tc: int, tr: int|
                    #![trigger crate::gamelogic::pieces::pseudo_move(m, pieces_of(m, side)[k], tc, tr)]
                    0 <= k < i && crate::gamelogic::pieces::legal_move_ok(
                        m,
                        pieces_of(m, side)[k],
                        tc,
                        tr,
                    ) ==> res@.contains(
                        crate::gamelogic::pieces::pseudo_move(m, pieces_of(m, side)[k], tc, tr),
                    ),
            decreases pieces@.len() - i,
        {
            let piece = pieces[i];
            let mut piece_moves = piece.get_moves(self);
            let ghost res_before = res@;
            let ghost piece_moves_view = piece_moves@;
            res.append(&mut piece_moves);
            proof {
                assert(res@ == res_before + piece_moves_view);
                assert forall|j: int| 0 <= j < res@.len() implies {
                    let mv = #[trigger] res@[j];
                    let p = sq(m, mv.from_square.0 as int, mv.from_square.1 as int)->Some_0;
                    &&& mv.from_square.0 < 8
                    &&& mv.from_square.1 < 8
                    &&& holds_side(m, mv.from_square.0 as int, mv.from_square.1 as int, side)
                    &&& crate::gamelogic::pieces::legal_move_ok(
                        m,
                        p,
                        mv.destination.0 as int,
                        mv.destination.1 as int,
                    )
                    &&& mv == crate::gamelogic::pieces::pseudo_move(
                        m,
                        p,
                        mv.destination.0 as int,
                        mv.destination.1 as int,
                    )
                } by {
                    reveal(crate::gamelogic::pieces::pawn_record);
                    if j < res_before.len() {
                        assert(res@[j] == res_before[j]);
                    } else {
                        let mv = piece_moves_view[j - res_before.len()];
                        assert(res@[j] == mv);
                        assert(mv == crate::gamelogic::pieces::pseudo_move(
                            m,
                            piece,
                            mv.destination.0 as int,
                            mv.destination.1 as int,
                        ));
                        assert(mv.from_square == piece.position);
                        assert(sq(m, mv.from_square.0 as int, mv.from_square.1 as int) == Some(
                            piece,
                        ));
                    }
                }
                assert forall|k: int, tc: int, tr: int|
                    0 <= k < i + 1 && crate::gamelogic::pieces::legal_move_ok(
                        m,
                        pieces_of(m, side)[k],
                        tc,
                        tr,
                    ) implies res@.contains(
                    #[trigger] crate::gamelogic::pieces::pseudo_move(
                        m,
                        pieces_of(m, side)[k],
                        tc,
                        tr,
                    ),
                ) by {
                    let target = crate::gamelogic::pieces::pseudo_move(
                        m,
                        pieces_of(m, side)[k],
                        tc,
                        tr,
                    );
                    if k < i {
                        assert(res_before.contains(target));
                        let j = choose|j: int|
                            0 <= j < res_before.len() && res_before[j] == target;
                        assert(res@[j] == target);
                    } else {
                        assert(pieces_of(m, side)[k] == piece);
                        assert(piece_moves_view.contains(target));
                        let j = choose|j: int|
                            0 <= j < piece_moves_view.len() && piece_moves_view[j] == target;
                        assert(res@[res_before.len() + j] == target);
                    }
                }
            }
            i += 1;
        }
        proof {
            assert forall|c: int, r: int, tc: int, tr: int|
                in_board(c, r) && holds_side(m, c, r, side)
                    && crate::gamelogic::pieces::legal_move_ok(
                    m,
                    sq(m, c, r)->Some_0,
                    tc,
                    tr,
                ) implies res@.contains(
                #[trigger] crate::gamelogic::pieces::pseudo_move(m, sq(m, c, r)->Some_0, tc, tr),
            ) by {
                lemma_pieces_scan_complete(m, side, 0, 0, c, r);
                let k = choose|k: int|
                    0 <= k < pieces_of(m, side).len() && #[trigger] pieces_of(m, side)[k] == sq(
                        m,
                        c,
                        r,
                    )->Some_0;
                assert(res@.contains(
                    crate::gamelogic::pieces::pseudo_move(m, pieces_of(m, side)[k], tc, tr),
                ));
            }
            if res@.len() > 0 {
                let mv = res@[0];
                let p = sq(m, mv.from_square.0 as int, mv.from_square.1 as int)->Some_0;
                assert(in_board(mv.from_square.0 as int, mv.from_square.1 as int) && holds_side(
                    m,
                    mv.from_square.0 as int,
                    mv.from_square.1 as int,
                    side,
                ) && crate::gamelogic::pieces::legal_move_ok(
                    m,
                    p,
                    mv.destination.0 as int,
                    mv.destination.1 as int,
                ) && crate::gamelogic::pieces::pseudo_move(
                    m,
                    p,
                    mv.destination.0 as int,
                    mv.destination.1 as int,
                ) == crate::gamelogic::pieces::pseudo_move(
                    m,
                    p,
                    mv.destination.0 as int,
                    mv.destination.1 as int,
                ));
                assert(exists_legal_move(m, side));
            }
            if exists_legal_move(m, side) {
                let (c, r, tc, tr) = choose|c: int, r: int, tc: int, tr: int|
                    in_board(c, r) && holds_side(m, c, r, side)
                        && crate::gamelogic::pieces::legal_move_ok(m, sq(m, c, r)->Some_0, tc, tr)
                        && #[trigger] crate::gamelogic::pieces::pseudo_move(
                        m,
                        sq(m, c, r)->Some_0,
                        tc,
                        tr,
                    ) == crate::gamelogic::pieces::pseudo_move(m, sq(m, c, r)->Some_0, tc, tr);
                lemma_pieces_scan_complete(m, side, 0, 0, c, r);
                let k = choose|k: int|
                    0 <= k < pieces_of(m, side).len() && pieces_of(m, side)[k] == sq(
                        m,
                        c,
                        r,
                    )->Some_0;
                assert(res@.contains(
                    crate::gamelogic::pieces::pseudo_move(m, pieces_of(m, side)[k], tc, tr),
                ));
                assert(res@.len() > 0);
            }
        }
        res
    }

    /// The canonical position hash of the current board state.
    pub fn get_board_state_hash(&self) -> (r: u64)
        requires
            self.wf(),
        ensures
            r == state_hash(self@),
    {
        let ghost m = self@;
        let mut h: u64 = 0xcbf29ce484222325;
        let mut i: usize = 0;
        while i < 64
            invariant
                self.wf(),
                m == self@,
                i <= 64,
                state_hash(m) == hash_from(m, i as int, h),
            decreases 64 - i,
        {
            let cell = self.squares[i];
            let b = encode_cell(cell);
            proof {
                assert(b == state_byte(m, i as int));
            }
            h = (h ^ (b as u64)).wrapping_mul(0x100000001b3);
            i += 1;
        }
        let turn_byte: u8 = match self.state.current_turn {
            Side::White => 0,
            Side::Black => 1,
        };
        let ghost h64 = h;
        h = (h ^ (turn_byte as u64)).wrapping_mul(0x100000001b3);
        proof {
            assert(turn_byte == state_byte(m, 64));
            assert(h == fnv_step(h64, state_byte(m, 64)));
            assert(hash_from(m, 64, h64) == hash_from(m, 65, h));
        }
        let mut castle_byte: u8 = 0;
        if self.state.white_castle_kingside {
            castle_byte += 1;
        }
        if self.state.white_castle_queenside {
            castle_byte += 2;
        }
        if self.state.black_castle_kingside {
            castle_byte += 4;
        }
        if self.state.black_castle_queenside {
            castle_byte += 8;
        }
        let ghost h65 = h;
        h = (h ^ (castle_byte as u64)).wrapping_mul(0x100000001b3);
        proof {
            assert(castle_byte == state_byte(m, 65));
            assert(h == fnv_step(h65, state_byte(m, 65)));
            assert(hash_from(m, 65, h65) == hash_from(m, 66, h));
        }
        let ep_byte: u8 = match self.state.en_passant_column {
            Some(col) => {
                proof {
                    self.wf_model_holds();
                }
                col as u8
            },
            None => 8,
        };
        let ghost h66 = h;
        h = (h ^ (ep_byte as u64)).wrapping_mul(0x100000001b3);
        proof {
            assert(ep_byte == state_byte(m, 66));
            assert(h == fnv_step(h66, state_byte(m, 66)));
            assert(hash_from(m, 66, h66) == hash_from(m, 67, h));
            assert(hash_from(m, 67, h) == h);
        }
        h
    }

    /// Counts one more sighting of the current position's canonical
    /// hash, for threefold-repetition detection.
    pub fn record_board_state(&mut self)
        requires
            old(self).wf(),
        ensures
            final(self).wf(),
            final(self)@ == (BoardModel {
                state_counts: old(self)@.state_counts.insert(
                    state_hash(old(self)@),
                    sat_inc(
                        if old(self)@.state_counts.contains_key(state_hash(old(self)@)) {
                            old(self)@.state_counts[state_hash(old(self)@)]
                        } else {
                            0
                        },
                    ),
                ),
                ..old(self)@
            }),
    {
        let new_state_hash = self.get_board_state_hash();
        let seen = match self.board_state_counts.get(&new_state_hash) {
            Some(c) => *c,
            None => 0,
        };
        let new_count = if seen == usize::MAX {
            seen
        } else {
            seen + 1
        };
        self.board_state_counts.insert(new_state_hash, new_count);
        if new_count > self.max_state_count {
            self.max_state_count = new_count;
        }
        proof {
            assert(self@ =~= BoardModel {
                state_counts: old(self)@.state_counts.insert(
                    state_hash(old(self)@),
                    sat_inc(
                        if old(self)@.state_counts.contains_key(state_hash(old(self)@)) {
                            old(self)@.state_counts[state_hash(old(self)@)]
                        } else {
                            0
                        },
                    ),
                ),
                ..old(self)@
            });
            assert forall|c: int, r: int| in_board(c, r) implies match #[trigger] sq(
                self@,
                c,
                r,
            ) {
                Some(p) => p.position.0 == c && p.position.1 == r,
                None => true,
            } by {
                assert(sq(self@, c, r) == sq(old(self)@, c, r));
            }
            assert forall|k: u64| #[trigger]
                self@.state_counts.contains_key(k) implies self@.state_counts[k]
                <= self.max_state_count by {
                if k != new_state_hash {
                    assert(old(self)@.state_counts.contains_key(k));
                }
            }
            if self.max_state_count > 0 {
                if self.max_state_count == new_count {
                    assert(self@.state_counts.contains_key(new_state_hash)
                        && self@.state_counts[new_state_hash] == self.max_state_count);
                } else {
                    let w = choose|k: u64|
                        #[trigger] old(self)@.state_counts.contains_key(k) && old(
                            self,
                        )@.state_counts[k] == self.max_state_count;
                    assert(w != new_state_hash);
                    assert(self@.state_counts.contains_key(w) && self@.state_counts[w]
                        == self.max_state_count);
                }
            }
        }
    }

    /// Applies a move and records its effects: reads the mover's side
    /// from the origin square, flips the side to move, applies the
    /// move, counts the new position's hash and appends the move to
    /// the history.
    pub fn perform_move_and_record(&mut self, chess_move: &ChessMove) -> (r: Result<(), ()>)
        requires
            old(self).wf(),
            apply_shape_ok(old(self)@, *chess_move),
        ensures
            r is Ok,
            final(self).wf(),
            final(self)@ == apply_and_record_model(old(self)@, *chess_move),
    {
        let ghost m0 = old(self)@;
        let piece = match self.get_square_by_position(chess_move.from_square) {
            Some(p) => p,
            None => {
                proof {
                    assert(false);
                }
                return Err(());
            },
        };
        self.state.current_turn = piece.side.opposite();
        let ghost m1 = self@;
        proof {
            assert(m1 =~= BoardModel { current_turn: piece.side.spec_opposite(), ..m0 });
            assert forall|c: int, r: int| in_board(c, r) implies match #[trigger] sq(m1, c, r) {
                Some(p) => p.position.0 == c && p.position.1 == r,
                None => true,
            } by {
                assert(sq(m1, c, r) == sq(m0, c, r));
            }
            assert(self.wf());
        }
        let step = self.perform_move(chess_move);
        proof {
            assert(step is Ok);
        }
        self.record_board_state();
        let ghost m_rec = self@;
        self.move_list.push(*chess_move);
        proof {
            assert(self@ =~= BoardModel { moves: m_rec.moves.push(*chess_move), ..m_rec });
            assert forall|c: int, r: int| in_board(c, r) implies match #[trigger] sq(self@, c, r) {
                Some(p) => p.position.0 == c && p.position.1 == r,
                None => true,
            } by {
                assert(sq(self@, c, r) == sq(m_rec, c, r));
            }
            if self.max_state_count > 0 {
                let w = choose|k: u64|
                    #[trigger] m_rec.state_counts.contains_key(k) && m_rec.state_counts[k]
                        == self.max_state_count;
                assert(self@.state_counts.contains_key(w) && self@.state_counts[w]
                    == self.max_state_count);
            }
            assert(self.wf());
            assert(self@ =~= apply_and_record_model(m0, *chess_move));
        }
        Ok(())
    }

    /// The terminal state of the game for the given side to move, in
    /// the order: checkmate, stalemate, insufficient material, draw by
    /// repetition; `None` while the game goes on.
    pub fn is_game_over(&self, current_turn: Side) -> (r: Option<GameEnd>)
        requires
            self.wf(),
            has_king(self@, current_turn),
        ensures
            ({
                let m = self@;
                match r {
                    Some(GameEnd::WhiteVictory(msg)) => current_turn == Side::Black && in_check(
                        m,
                        current_turn,
                    ) && !exists_legal_move(m, current_turn) && msg@ == "Checkmate"@,
                    Some(GameEnd::BlackVictory(msg)) => current_turn == Side::White && in_check(
                        m,
                        current_turn,
                    ) && !exists_legal_move(m, current_turn) && msg@ == "Checkmate"@,
                    Some(GameEnd::Draw(msg)) => {
                        ||| (!in_check(m, current_turn) && !exists_legal_move(m, current_turn)
                            && msg@ == "Stalemate"@)
                        ||| (exists_legal_move(m, current_turn) && insufficient_material(m) && msg@
                            == "Insufficient material"@)
                        ||| (exists_legal_move(m, current_turn) && !insufficient_material(m)
                            && has_threefold_repetition(m) && msg@ == "Draw by repetition"@)
                    },
                    None => exists_legal_move(m, current_turn) && !insufficient_material(m)
                        && !has_threefold_repetition(m),
                }
            }),
    {
        let ghost m = self@;
        let is_checked_now = self.is_checked(current_turn);
        let all_moves = self.get_all_moves(current_turn);
        if all_moves.is_empty() {
            if is_checked_now {
                // the side to move is mated; the other side wins
                return match current_turn {
                    Side::White => Some(GameEnd::BlackVictory(String::from_str("Checkmate"))),
                    Side::Black => Some(GameEnd::WhiteVictory(String::from_str("Checkmate"))),
                };
            }
            return Some(GameEnd::Draw(String::from_str("Stalemate")));
        }

        let white_pieces = self.get_all_pieces(Side::White);
        let black_pieces = self.get_all_pieces(Side::Black);
        proof {
            lemma_pieces_scan_len(m, Side::White, 0, 0);
            lemma_pieces_scan_len(m, Side::Black, 0, 0);
        }
        let w_len = white_pieces.len();
        let b_len = black_pieces.len();
        let w_kings = count_kind(&white_pieces, PieceType::King);
        let b_kings = count_kind(&black_pieces, PieceType::King);
        let w_minors = count_kind(&white_pieces, PieceType::Knight) + count_kind(
            &white_pieces,
            PieceType::Bishop,
        );
        let b_minors = count_kind(&black_pieces, PieceType::Knight) + count_kind(
            &black_pieces,
            PieceType::Bishop,
        );
        let w_knights = count_kind(&white_pieces, PieceType::Knight);
        let b_knights = count_kind(&black_pieces, PieceType::Knight);
        let insufficient = (w_len == 1 && b_len == 1) || (w_len == 1 && b_len == 2 && b_kings == 1
            && b_minors == 1) || (w_len == 1 && b_len == 3 && b_kings == 1 && b_knights == 2) || (
        b_len == 1 && w_len == 2 && w_kings == 1 && w_minors == 1) || (b_len == 1 && w_len == 3
            && w_kings == 1 && w_knights == 2) || (w_len == 2 && b_len == 2 && w_kings == 1
            && w_minors == 1 && b_kings == 1 && b_minors == 1);
        if insufficient {
            return Some(GameEnd::Draw(String::from_str("Insufficient material")));
        }

        if self.max_state_count >= 3 {
            proof {
                let w = choose|k: u64|
                    #[trigger] self@.state_counts.contains_key(k) && self@.state_counts[k]
                        == self.max_state_count;
                assert(has_threefold_repetition(m));
            }
            return Some(GameEnd::Draw(String::from_str("Draw by repetition")));
        }
        proof {
            if has_threefold_repetition(m) {
                let k = choose|k: u64|
                    #[trigger] m.state_counts.contains_key(k) && m.state_counts[k] >= 3;
                assert(m.state_counts[k] <= self.max_state_count);
                assert(false);
            }
        }
        None
    }
}

/// The executable mirror of `cell_code`.
fn encode_cell(o: Option<ChessPiece>) -> (r: u8)
    ensures
        r == cell_code(o),
{
    match o {
        None => 0,
        Some(p) => {
            let base: u8 = match p.piece_type {
                PieceType::Pawn => 1,
                PieceType::Rook => 2,
                PieceType::Knight => 3,
                PieceType::Bishop => 4,
                PieceType::Queen => 5,
                PieceType::King => 6,
            };
            if matches!(p.side, Side::Black) {
                base + 6
            } else {
                base
            }
        },
    }
}

/// How many pieces in the list have the given kind.
fn count_kind(pieces: &Vec<ChessPiece>, t: PieceType) -> (r: usize)
    ensures
        r == kind_count_from(pieces@, 0, t),
        r <= pieces@.len(),
{
    let mut count: usize = 0;
    let mut i: usize = 0;
    while i < pieces.len()
        invariant
            i <= pieces@.len(),
            count <= i,
            count + kind_count_from(pieces@, i as int, t) == kind_count_from(pieces@, 0, t),
        decreases pieces@.len() - i,
    {
        if pieces[i].piece_type == t {
            count += 1;
        }
        i += 1;
    }
    count
}

} // verus!
