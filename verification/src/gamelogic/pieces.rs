//! Chess pieces: their kinds, material values, and the geometry of the
//! squares they attack and the moves they may make.

use vstd::prelude::*;

pub use crate::gamelogic::Side;

use crate::gamelogic::board::{BoardModel, ChessBoard};
use crate::gamelogic::{ChessError, ChessMove, MoveType};

verus! {

/// A piece on the board. The grid is the sole source of truth for
/// placement: whenever a piece occupies a grid cell, its `position`
/// field equals that cell's index pair; copies elsewhere are snapshots.
#[derive(Copy, Clone, Debug)]
pub struct ChessPiece {
    /// `(column, row)`; `(0, 0)` is "a1" and `(7, 7)` is "h8".
    pub position: (usize, usize),
    pub side: Side,
    pub piece_type: PieceType,
}

/// The six kinds of chess pieces.
#[derive(Copy, Clone, Debug, PartialEq, Eq, Structural)]
pub enum PieceType {
    Pawn,
    Rook,
    Knight,
    Bishop,
    Queen,
    King,
}

/// The material value of a piece kind. The king is deliberately
/// excluded from material accounting and carries no weight.
pub open spec fn material_value(t: PieceType) -> usize {
    match t {
        PieceType::Pawn => 1,
        PieceType::Rook => 5,
        PieceType::Knight => 3,
        PieceType::Bishop => 3,
        PieceType::Queen => 9,
        PieceType::King => 0,
    }
}

/// Whether a piece kind is a minor piece (knight or bishop), the kinds
/// that cannot force checkmate alone.
pub open spec fn is_minor(t: PieceType) -> bool {
    t == PieceType::Knight || t == PieceType::Bishop
}

impl ChessPiece {
    /// The material value of this piece; the king carries none.
    pub fn get_material(&self) -> (r: usize)
        ensures
            r == material_value(self.piece_type),
    {
        match self.piece_type {
            PieceType::Pawn => 1,
            PieceType::Rook => 5,
            PieceType::Knight => 3,
            PieceType::Bishop => 3,
            PieceType::Queen => 9,
            PieceType::King => 0,
        }
    }
}

/// Whether `(c, r)` is a square of the 8-by-8 board.
pub open spec fn in_board(c: int, r: int) -> bool {
    0 <= c < 8 && 0 <= r < 8
}

/// The occupant of square `(c, r)` of a board model.
pub open spec fn sq(m: BoardModel, c: int, r: int) -> Option<ChessPiece>
    recommends
        in_board(c, r),
        m.squares.len() == 64,
{
    m.squares[c * 8 + r]
}

/// Whether square `(c, r)` is occupied.
pub open spec fn occupied(m: BoardModel, c: int, r: int) -> bool {
    sq(m, c, r) is Some
}

/// Whether square `(c, r)` holds a piece of side `s`.
pub open spec fn holds_side(m: BoardModel, c: int, r: int, s: Side) -> bool {
    match sq(m, c, r) {
        Some(p) => p.side == s,
        None => false,
    }
}

/// Whether `(dc, dr)` is a unit step of a ray: each component in
/// -1..=1 and not both zero.
pub open spec fn valid_dir(dc: int, dr: int) -> bool {
    -1 <= dc <= 1 && -1 <= dr <= 1 && !(dc == 0 && dr == 0)
}

/// How many steps a ray from `(c, r)` in direction `(dc, dr)` can
/// take before leaving the board; a termination measure.
pub open spec fn ray_measure(c: int, r: int, dc: int, dr: int) -> int {
    if dc > 0 {
        7 - c
    } else if dc < 0 {
        c
    } else if dr > 0 {
        7 - r
    } else {
        r
    }
}

/// Whether the square `(tc, tr)` is visible from `(c, r)` along the
/// ray in direction `(dc, dr)`: the ray reaches it before leaving the
/// board, and every square strictly between is empty. The first
/// occupied square along the ray is itself visible; squares behind it
/// are not. The starting square is never visible from itself.
pub open spec fn ray_sees(
    m: BoardModel,
    c: int,
    r: int,
    dc: int,
    dr: int,
    tc: int,
    tr: int,
) -> bool
    recommends
        valid_dir(dc, dr),
        in_board(c, r),
    decreases ray_measure(c, r, dc, dr),
        when valid_dir(dc, dr) && in_board(c, r)
{
    let nc = c + dc;
    let nr = r + dr;
    &&& in_board(nc, nr)
    &&& ((nc == tc && nr == tr) || (!occupied(m, nc, nr) && ray_sees(m, nc, nr, dc, dr, tc, tr)))
}

/// Whether a rook on `(c, r)` attacks `(tc, tr)`: visibility along one
/// of the four orthogonal rays.
pub open spec fn rook_sees(m: BoardModel, c: int, r: int, tc: int, tr: int) -> bool {
    ||| ray_sees(m, c, r, 1, 0, tc, tr)
    ||| ray_sees(m, c, r, -1, 0, tc, tr)
    ||| ray_sees(m, c, r, 0, 1, tc, tr)
    ||| ray_sees(m, c, r, 0, -1, tc, tr)
}

/// Whether a bishop on `(c, r)` attacks `(tc, tr)`: visibility along
/// one of the four diagonal rays.
pub open spec fn bishop_sees(m: BoardModel, c: int, r: int, tc: int, tr: int) -> bool {
    ||| ray_sees(m, c, r, 1, 1, tc, tr)
    ||| ray_sees(m, c, r, 1, -1, tc, tr)
    ||| ray_sees(m, c, r, -1, 1, tc, tr)
    ||| ray_sees(m, c, r, -1, -1, tc, tr)
}

/// Whether a knight on `(c, r)` attacks `(tc, tr)`.
pub open spec fn knight_attacks(c: int, r: int, tc: int, tr: int) -> bool {
    &&& in_board(tc, tr)
    &&& {
        ||| (tc == c - 2 && tr == r + 1)
        ||| (tc == c - 2 && tr == r - 1)
        ||| (tc == c + 2 && tr == r + 1)
        ||| (tc == c + 2 && tr == r - 1)
        ||| (tc == c - 1 && tr == r + 2)
        ||| (tc == c + 1 && tr == r + 2)
        ||| (tc == c - 1 && tr == r - 2)
        ||| (tc == c + 1 && tr == r - 2)
    }
}

/// Whether a king on `(c, r)` attacks `(tc, tr)`: the eight adjacent
/// squares. Castling destinations are never attack squares.
pub open spec fn king_attacks(c: int, r: int, tc: int, tr: int) -> bool {
    &&& in_board(tc, tr)
    &&& !(tc == c && tr == r)
    &&& c - 1 <= tc <= c + 1
    &&& r - 1 <= tr <= r + 1
}

/// Whether a pawn of side `s` on `(c, r)` attacks `(tc, tr)`: the two
/// diagonally forward squares, counted whether or not they are
/// occupied. A pawn on its side's first or last rank attacks nothing.
pub open spec fn pawn_attacks(s: Side, c: int, r: int, tc: int, tr: int) -> bool {
    &&& in_board(tc, tr)
    &&& 1 <= r <= 6
    &&& tr == r + (if s == Side::White {
        1int
    } else {
        -1int
    })
    &&& (tc == c - 1 || tc == c + 1)
}

/// Whether piece `p` attacks square `(tc, tr)` on board `m`.
pub open spec fn piece_attacks(m: BoardModel, p: ChessPiece, tc: int, tr: int) -> bool {
    let c = p.position.0 as int;
    let r = p.position.1 as int;
    match p.piece_type {
        PieceType::Pawn => pawn_attacks(p.side, c, r, tc, tr),
        PieceType::Rook => rook_sees(m, c, r, tc, tr),
        PieceType::Knight => knight_attacks(c, r, tc, tr),
        PieceType::Bishop => bishop_sees(m, c, r, tc, tr),
        PieceType::Queen => bishop_sees(m, c, r, tc, tr) || rook_sees(m, c, r, tc, tr),
        PieceType::King => king_attacks(c, r, tc, tr),
    }
}

/// Whether any piece of side `s` attacks square `(tc, tr)`.
pub open spec fn side_attacks(m: BoardModel, s: Side, tc: int, tr: int) -> bool {
    exists|c: int, r: int|
        in_board(c, r) && holds_side(m, c, r, s) && piece_attacks(
            m,
            #[trigger] sq(m, c, r)->Some_0,
            tc,
            tr,
        )
}

/// The squares visible from `(c, r)` along one ray, in walking
/// order: the empty squares outward up to and including the first
/// occupied square, stopping at the board edge.
#[verifier::opaque]
pub open spec fn ray_squares(m: BoardModel, c: int, r: int, dc: int, dr: int) -> Seq<
    (usize, usize),
>
    recommends
        valid_dir(dc, dr),
        in_board(c, r),
    decreases ray_measure(c, r, dc, dr),
        when valid_dir(dc, dr) && in_board(c, r)
{
    let nc = c + dc;
    let nr = r + dr;
    if !in_board(nc, nr) {
        Seq::empty()
    } else if occupied(m, nc, nr) {
        seq![(nc as usize, nr as usize)]
    } else {
        seq![(nc as usize, nr as usize)] + ray_squares(m, nc, nr, dc, dr)
    }
}

/// A rook's attack squares in generation order: the four orthogonal
/// rays, each walked outward.
#[verifier::opaque]
pub open spec fn rook_threat_squares(m: BoardModel, c: int, r: int) -> Seq<(usize, usize)> {
    ray_squares(m, c, r, -1, 0) + ray_squares(m, c, r, 1, 0) + ray_squares(m, c, r, 0, -1)
        + ray_squares(m, c, r, 0, 1)
}

/// A bishop's attack squares in generation order: the four diagonal
/// rays, each walked outward.
#[verifier::opaque]
pub open spec fn bishop_threat_squares(m: BoardModel, c: int, r: int) -> Seq<(usize, usize)> {
    ray_squares(m, c, r, -1, 1) + ray_squares(m, c, r, 1, 1) + ray_squares(m, c, r, -1, -1)
        + ray_squares(m, c, r, 1, -1)
}

/// A queen's attack squares in generation order: the diagonal rays,
/// then the orthogonal rays.
#[verifier::opaque]
pub open spec fn queen_threat_squares(m: BoardModel, c: int, r: int) -> Seq<(usize, usize)> {
    bishop_threat_squares(m, c, r) + rook_threat_squares(m, c, r)
}

/// A knight's attack squares in generation order.
#[verifier::opaque]
pub open spec fn knight_threat_squares(c: int, r: int) -> Seq<(usize, usize)> {
    (if c > 1 && r < 7 {
        seq![((c - 2) as usize, (r + 1) as usize)]
    } else {
        Seq::empty()
    }) + (if c > 1 && r > 0 {
        seq![((c - 2) as usize, (r - 1) as usize)]
    } else {
        Seq::empty()
    }) + (if c < 6 && r < 7 {
        seq![((c + 2) as usize, (r + 1) as usize)]
    } else {
        Seq::empty()
    }) + (if c < 6 && r > 0 {
        seq![((c + 2) as usize, (r - 1) as usize)]
    } else {
        Seq::empty()
    }) + (if r < 6 && c > 0 {
        seq![((c - 1) as usize, (r + 2) as usize)]
    } else {
        Seq::empty()
    }) + (if r < 6 && c < 7 {
        seq![((c + 1) as usize, (r + 2) as usize)]
    } else {
        Seq::empty()
    }) + (if r > 1 && c > 0 {
        seq![((c - 1) as usize, (r - 2) as usize)]
    } else {
        Seq::empty()
    }) + (if r > 1 && c < 7 {
        seq![((c + 1) as usize, (r - 2) as usize)]
    } else {
        Seq::empty()
    })
}

/// A king's adjacent attack squares in generation order.
#[verifier::opaque]
pub open spec fn king_threat_squares(c: int, r: int) -> Seq<(usize, usize)> {
    (if c > 0 {
        seq![((c - 1) as usize, r as usize)]
    } else {
        Seq::empty()
    }) + (if c > 0 && r > 0 {
        seq![((c - 1) as usize, (r - 1) as usize)]
    } else {
        Seq::empty()
    }) + (if c > 0 && r < 7 {
        seq![((c - 1) as usize, (r + 1) as usize)]
    } else {
        Seq::empty()
    }) + (if r > 0 {
        seq![(c as usize, (r - 1) as usize)]
    } else {
        Seq::empty()
    }) + (if r < 7 {
        seq![(c as usize, (r + 1) as usize)]
    } else {
        Seq::empty()
    }) + (if c < 7 {
        seq![((c + 1) as usize, r as usize)]
    } else {
        Seq::empty()
    }) + (if c < 7 && r > 0 {
        seq![((c + 1) as usize, (r - 1) as usize)]
    } else {
        Seq::empty()
    }) + (if c < 7 && r < 7 {
        seq![((c + 1) as usize, (r + 1) as usize)]
    } else {
        Seq::empty()
    })
}

/// The rank a side's pieces start on.
pub open spec fn home_rank(s: Side) -> int {
    if s == Side::White {
        0
    } else {
        7
    }
}

/// The row direction a side's pawns advance in.
pub open spec fn forward(s: Side) -> int {
    if s == Side::White {
        1
    } else {
        -1
    }
}

/// The rank on which a side's pawns promote.
pub open spec fn promotion_rank(s: Side) -> int {
    if s == Side::White {
        7
    } else {
        0
    }
}

/// Whether a pawn `p` may pseudo-legally move to `(tc, tr)`: a single
/// forward push onto an empty square, a double push from the home rank
/// over two empty squares, a diagonal capture of an enemy piece, or an
/// en passant capture. En passant asks that the board's en-passant
/// column be set, the pawn stand on the matching rank one column
/// away, the target square be empty, and the square behind the target
/// hold an enemy pawn (always so in a position reached through play).
pub open spec fn pawn_moveable(m: BoardModel, p: ChessPiece, tc: int, tr: int) -> bool {
    let c = p.position.0 as int;
    let r = p.position.1 as int;
    let s = p.side;
    let d = forward(s);
    ||| (tc == c && tr == r + 2 * d && r == home_rank(s) + d && !occupied(m, c, r + d) && !occupied(
        m,
        c,
        r + 2 * d,
    ))
    ||| (tc == c && tr == r + d && in_board(tc, tr) && !occupied(m, tc, tr))
    ||| ((tc == c - 1 || tc == c + 1) && tr == r + d && in_board(tc, tr) && holds_side(
        m,
        tc,
        tr,
        s.spec_opposite(),
    ))
    ||| (match m.en_passant_column {
        Some(epc) => {
            &&& r == (if s == Side::White {
                4int
            } else {
                3int
            })
            &&& (epc as int == c - 1 || epc as int == c + 1)
            &&& tc == epc as int
            &&& tr == r + d
            &&& in_board(tc, tr)
            &&& !occupied(m, tc, tr)
            &&& match sq(m, tc, r) {
                Some(q) => q.side == s.spec_opposite() && q.piece_type == PieceType::Pawn,
                None => false,
            }
        },
        None => false,
    })
}

/// The move probed when testing whether the king may pass over a
/// square on its castling path: a plain relocation of the king.
pub open spec fn king_probe_move(s: Side, col: int) -> ChessMove {
    ChessMove {
        from_square: (4, home_rank(s) as usize),
        destination: (col as usize, home_rank(s) as usize),
        move_type: MoveType::Standard,
        captures: None,
        dest_threatened: false,
        dest_defended: false,
    }
}

/// Whether side `s` may castle on the given wing: the wing's right is
/// still held, the king stands on its home square and the wing's rook
/// on its corner (guarding against captured or displaced rooks whose
/// flag was never cleared), every square strictly between them is
/// empty, the king is not in check, and no square the king passes
/// through or lands on would leave it in check.
pub open spec fn castle_ok(m: BoardModel, s: Side, kingside: bool) -> bool {
    let hr = home_rank(s);
    let flag = if s == Side::White {
        if kingside {
            m.white_castle_kingside
        } else {
            m.white_castle_queenside
        }
    } else {
        if kingside {
            m.black_castle_kingside
        } else {
            m.black_castle_queenside
        }
    };
    let rc: int = if kingside {
        7
    } else {
        0
    };
    &&& flag
    &&& (match sq(m, 4, hr) {
        Some(p) => p.side == s && p.piece_type == PieceType::King,
        None => false,
    })
    &&& (match sq(m, rc, hr) {
        Some(p) => p.side == s && p.piece_type == PieceType::Rook,
        None => false,
    })
    &&& (if kingside {
        !occupied(m, 5, hr) && !occupied(m, 6, hr)
    } else {
        !occupied(m, 1, hr) && !occupied(m, 2, hr) && !occupied(m, 3, hr)
    })
    &&& !crate::gamelogic::board::in_check(m, s)
    &&& (if kingside {
        &&& !crate::gamelogic::board::causes_self_check(m, king_probe_move(s, 5))
        &&& !crate::gamelogic::board::causes_self_check(m, king_probe_move(s, 6))
    } else {
        &&& !crate::gamelogic::board::causes_self_check(m, king_probe_move(s, 3))
        &&& !crate::gamelogic::board::causes_self_check(m, king_probe_move(s, 2))
    })
}

/// Whether piece `p` may pseudo-legally move to `(tc, tr)`: it obeys
/// its kind's movement and occupancy rules, but may still leave its
/// own king in check.
pub open spec fn moveable(m: BoardModel, p: ChessPiece, tc: int, tr: int) -> bool {
    let c = p.position.0 as int;
    let r = p.position.1 as int;
    let s = p.side;
    match p.piece_type {
        PieceType::Pawn => pawn_moveable(m, p, tc, tr),
        PieceType::Rook => rook_sees(m, c, r, tc, tr) && !holds_side(m, tc, tr, s),
        PieceType::Knight => knight_attacks(c, r, tc, tr) && !holds_side(m, tc, tr, s),
        PieceType::Bishop => bishop_sees(m, c, r, tc, tr) && !holds_side(m, tc, tr, s),
        PieceType::Queen => (bishop_sees(m, c, r, tc, tr) || rook_sees(m, c, r, tc, tr))
            && !holds_side(m, tc, tr, s),
        PieceType::King => (king_attacks(c, r, tc, tr) && !holds_side(m, tc, tr, s)) || (c == 4 && r
            == home_rank(s) && tr == home_rank(s) && ((tc == 6 && castle_ok(m, s, true)) || (tc == 2
            && castle_ok(m, s, false)))),
    }
}

/// The move record of a plain relocation to `(tc, tr)`: a Standard
/// move capturing whatever stands on the destination, tagged with
/// whether the destination is attacked by either side.
pub open spec fn standard_record(m: BoardModel, p: ChessPiece, tc: int, tr: int) -> ChessMove {
    ChessMove {
        from_square: p.position,
        destination: (tc as usize, tr as usize),
        move_type: MoveType::Standard,
        captures: if occupied(m, tc, tr) {
            Some((tc as usize, tr as usize))
        } else {
            None
        },
        dest_threatened: side_attacks(m, p.side.spec_opposite(), tc, tr),
        dest_defended: side_attacks(m, p.side, tc, tr),
    }
}

/// The move record of a pawn move to `(tc, tr)`: tagged DoubleAdvance,
/// EnPassant or Promotion as the geometry demands, with the captured
/// square of an en passant capture lying behind the destination.
#[verifier::opaque]
pub open spec fn pawn_record(m: BoardModel, p: ChessPiece, tc: int, tr: int) -> ChessMove
    recommends
        pawn_moveable(m, p, tc, tr),
{
    let c = p.position.0 as int;
    let r = p.position.1 as int;
    let s = p.side;
    let d = forward(s);
    let promo_kind = if tr == promotion_rank(s) {
        MoveType::Promotion
    } else {
        MoveType::Standard
    };
    let threatened = side_attacks(m, s.spec_opposite(), tc, tr);
    let defended = side_attacks(m, s, tc, tr);
    if tr == r + 2 * d {
        ChessMove {
            from_square: p.position,
            destination: (tc as usize, tr as usize),
            move_type: MoveType::DoubleAdvance,
            captures: None,
            dest_threatened: threatened,
            dest_defended: defended,
        }
    } else if tc == c {
        ChessMove {
            from_square: p.position,
            destination: (tc as usize, tr as usize),
            move_type: promo_kind,
            captures: None,
            dest_threatened: threatened,
            dest_defended: defended,
        }
    } else if occupied(m, tc, tr) {
        ChessMove {
            from_square: p.position,
            destination: (tc as usize, tr as usize),
            move_type: promo_kind,
            captures: Some((tc as usize, tr as usize)),
            dest_threatened: threatened,
            dest_defended: defended,
        }
    } else {
        ChessMove {
            from_square: p.position,
            destination: (tc as usize, tr as usize),
            move_type: MoveType::EnPassant,
            captures: Some((tc as usize, (tr - d) as usize)),
            dest_threatened: threatened,
            dest_defended: defended,
        }
    }
}

/// The move record of a castle: the king's relocation to its wing's
/// column, never a capture; its destination is never attacked (or the
/// move would not be offered) and always defended by the paired rook.
pub open spec fn castle_record(p: ChessPiece, tc: int, tr: int) -> ChessMove {
    ChessMove {
        from_square: p.position,
        destination: (tc as usize, tr as usize),
        move_type: MoveType::Castle,
        captures: None,
        dest_threatened: false,
        dest_defended: true,
    }
}

/// The tagged move record of a pseudo-legal move of `p` to `(tc, tr)`.
pub open spec fn pseudo_move(m: BoardModel, p: ChessPiece, tc: int, tr: int) -> ChessMove
    recommends
        moveable(m, p, tc, tr),
{
    let c = p.position.0 as int;
    let r = p.position.1 as int;
    match p.piece_type {
        PieceType::Pawn => pawn_record(m, p, tc, tr),
        PieceType::King => if king_attacks(c, r, tc, tr) {
            standard_record(m, p, tc, tr)
        } else {
            castle_record(p, tc, tr)
        },
        _ => standard_record(m, p, tc, tr),
    }
}

/// A square seen along a ray lies on the board.
pub proof fn lemma_ray_sees_in_board(
    m: BoardModel,
    c: int,
    r: int,
    dc: int,
    dr: int,
    tc: int,
    tr: int,
)
    requires
        valid_dir(dc, dr),
        in_board(c, r),
        ray_sees(m, c, r, dc, dr, tc, tr),
    ensures
        in_board(tc, tr),
    decreases ray_measure(c, r, dc, dr),
{
    let nc = c + dc;
    let nr = r + dr;
    if !(nc == tc && nr == tr) {
        lemma_ray_sees_in_board(m, nc, nr, dc, dr, tc, tr);
    }
}

/// Any attacked square lies on the board.
pub proof fn lemma_piece_attacks_in_board(m: BoardModel, p: ChessPiece, tc: int, tr: int)
    requires
        p.position.0 < 8,
        p.position.1 < 8,
        piece_attacks(m, p, tc, tr),
    ensures
        in_board(tc, tr),
{
    let c = p.position.0 as int;
    let r = p.position.1 as int;
    match p.piece_type {
        PieceType::Rook | PieceType::Bishop | PieceType::Queen => {
            if ray_sees(m, c, r, 1, 0, tc, tr) {
                lemma_ray_sees_in_board(m, c, r, 1, 0, tc, tr);
            } else if ray_sees(m, c, r, -1, 0, tc, tr) {
                lemma_ray_sees_in_board(m, c, r, -1, 0, tc, tr);
            } else if ray_sees(m, c, r, 0, 1, tc, tr) {
                lemma_ray_sees_in_board(m, c, r, 0, 1, tc, tr);
            } else if ray_sees(m, c, r, 0, -1, tc, tr) {
                lemma_ray_sees_in_board(m, c, r, 0, -1, tc, tr);
            } else if ray_sees(m, c, r, 1, 1, tc, tr) {
                lemma_ray_sees_in_board(m, c, r, 1, 1, tc, tr);
            } else if ray_sees(m, c, r, 1, -1, tc, tr) {
                lemma_ray_sees_in_board(m, c, r, 1, -1, tc, tr);
            } else if ray_sees(m, c, r, -1, 1, tc, tr) {
                lemma_ray_sees_in_board(m, c, r, -1, 1, tc, tr);
            } else {
                lemma_ray_sees_in_board(m, c, r, -1, -1, tc, tr);
            }
        },
        _ => {},
    }
}

/// Concatenation holds an element exactly when one of its parts does.
pub proof fn lemma_concat_contains<T>(a: Seq<T>, b: Seq<T>, x: T)
    ensures
        (a + b).contains(x) <==> a.contains(x) || b.contains(x),
{
    if a.contains(x) {
        let i = choose|i: int| 0 <= i < a.len() && a[i] == x;
        assert((a + b)[i] == x);
    }
    if b.contains(x) {
        let i = choose|i: int| 0 <= i < b.len() && b[i] == x;
        assert((a + b)[a.len() + i] == x);
    }
    if (a + b).contains(x) {
        let i = choose|i: int| 0 <= i < (a + b).len() && (a + b)[i] == x;
        if i < a.len() {
            assert(a[i] == x);
        } else {
            assert(b[i - a.len()] == x);
        }
    }
}

/// Walks outward from `(c, r)` along direction `(dc, dr)` and returns
/// exactly the squares visible along that ray: the empty squares up to
/// and including the first occupied square, stopping at the board edge.
fn scan_ray(board: &ChessBoard, c: usize, r: usize, dc: isize, dr: isize) -> (res: Vec<
    (usize, usize),
>)
    requires
        board.wf(),
        c < 8,
        r < 8,
        valid_dir(dc as int, dr as int),
    ensures
        forall|p: (usize, usize)|
            #[trigger] res@.contains(p) ==> p.0 < 8 && p.1 < 8 && ray_sees(
                board@,
                c as int,
                r as int,
                dc as int,
                dr as int,
                p.0 as int,
                p.1 as int,
            ),
        forall|tc: int, tr: int|
            ray_sees(board@, c as int, r as int, dc as int, dr as int, tc, tr)
                ==> #[trigger] res@.contains((tc as usize, tr as usize)),
        res@ == ray_squares(board@, c as int, r as int, dc as int, dr as int),
    decreases ray_measure(c as int, r as int, dc as int, dr as int),
{
    let nc_i = c as isize + dc;
    let nr_i = r as isize + dr;
    if nc_i < 0 || nc_i > 7 || nr_i < 0 || nr_i > 7 {
        let res: Vec<(usize, usize)> = Vec::new();
        proof {
            reveal(ray_squares);
            assert(res@ =~= ray_squares(board@, c as int, r as int, dc as int, dr as int));
        }
        return res;
    }
    let nc = nc_i as usize;
    let nr = nr_i as usize;
    let mut res: Vec<(usize, usize)> = Vec::new();
    res.push((nc, nr));
    if board.get_square_by_index(nc, nr).is_none() {
        let mut rest = scan_ray(board, nc, nr, dc, dr);
        proof {
            let ghost first = seq![(nc, nr)];
            assert(res@ == first);
        }
        let ghost res_before = res@;
        let ghost rest_view = rest@;
        res.append(&mut rest);
        proof {
            assert(res@ == res_before + rest_view);
            assert forall|p: (usize, usize)| #[trigger] res@.contains(p) implies p.0 < 8 && p.1 < 8
                && ray_sees(
                board@,
                c as int,
                r as int,
                dc as int,
                dr as int,
                p.0 as int,
                p.1 as int,
            ) by {
                lemma_concat_contains(res_before, rest_view, p);
                if res_before.contains(p) {
                    assert(p == (nc, nr));
                } else {
                    assert(rest_view.contains(p));
                }
            }
            assert forall|tc: int, tr: int|
                ray_sees(board@, c as int, r as int, dc as int, dr as int, tc, tr)
                    implies #[trigger] res@.contains((tc as usize, tr as usize)) by {
                lemma_concat_contains(res_before, rest_view, (tc as usize, tr as usize));
                if tc == nc as int && tr == nr as int {
                    assert(res_before[0] == (tc as usize, tr as usize));
                    assert(res_before.contains((tc as usize, tr as usize)));
                } else {
                    assert(ray_sees(board@, nc as int, nr as int, dc as int, dr as int, tc, tr));
                }
            }
            reveal(ray_squares);
            assert(res@ =~= ray_squares(board@, c as int, r as int, dc as int, dr as int));
        }
        res
    } else {
        proof {
            assert(res@[0] == (nc, nr));
            assert forall|p: (usize, usize)| #[trigger] res@.contains(p) implies p.0 < 8 && p.1 < 8
                && ray_sees(
                board@,
                c as int,
                r as int,
                dc as int,
                dr as int,
                p.0 as int,
                p.1 as int,
            ) by {
                assert(p == (nc, nr));
            }
            assert forall|tc: int, tr: int|
                ray_sees(board@, c as int, r as int, dc as int, dr as int, tc, tr)
                    implies #[trigger] res@.contains((tc as usize, tr as usize)) by {
                assert(tc == nc as int && tr == nr as int);
                assert(res@[0] == (tc as usize, tr as usize));
            }
            reveal(ray_squares);
            assert(res@ =~= ray_squares(board@, c as int, r as int, dc as int, dr as int));
        }
        res
    }
}

/// Appends one square, reporting exactly how membership changes.
fn push_square(v: &mut Vec<(usize, usize)>, s: (usize, usize))
    ensures
        final(v)@ == old(v)@.push(s),
        forall|y: (usize, usize)|
            #[trigger] final(v)@.contains(y) <==> old(v)@.contains(y) || y == s,
{
    proof {
        assert forall|y: (usize, usize)| old(v)@.push(s).contains(y) implies old(v)@.contains(y) || y
            == s by {
            let i = choose|i: int| 0 <= i < old(v)@.push(s).len() && old(v)@.push(s)[i] == y;
            if i < old(v)@.len() {
                assert(old(v)@[i] == y);
            }
        }
        assert forall|y: (usize, usize)| old(v)@.contains(y) || y == s implies old(v)@.push(
            s,
        ).contains(y) by {
            if old(v)@.contains(y) {
                let i = choose|i: int| 0 <= i < old(v)@.len() && old(v)@[i] == y;
                assert(old(v)@.push(s)[i] == y);
            } else {
                assert(old(v)@.push(s)[old(v)@.len() as int] == y);
            }
        }
    }
    v.push(s);
}

/// Appends a batch of squares, reporting exactly how membership
/// changes.
pub(crate) fn append_squares(v: &mut Vec<(usize, usize)>, mut other: Vec<(usize, usize)>)
    ensures
        final(v)@ == old(v)@ + other@,
        forall|y: (usize, usize)|
            #[trigger] final(v)@.contains(y) <==> old(v)@.contains(y) || other@.contains(y),
{
    let ghost before = v@;
    let ghost added = other@;
    v.append(&mut other);
    proof {
        assert forall|y: (usize, usize)| #[trigger]
            v@.contains(y) <==> before.contains(y) || added.contains(y) by {
            lemma_concat_contains(before, added, y);
        }
    }
}

/// The squares a pawn attacks: the two diagonally forward squares,
/// whether or not they are occupied; none from the first or last rank.
fn get_pawn_threats(piece: &ChessPiece, _board: &ChessBoard) -> (res: Vec<(usize, usize)>)
    requires
        piece.position.0 < 8,
        piece.position.1 < 8,
    ensures
        forall|p: (usize, usize)|
            #[trigger] res@.contains(p) ==> pawn_attacks(
                piece.side,
                piece.position.0 as int,
                piece.position.1 as int,
                p.0 as int,
                p.1 as int,
            ),
        forall|tc: int, tr: int|
            pawn_attacks(piece.side, piece.position.0 as int, piece.position.1 as int, tc, tr)
                ==> #[trigger] res@.contains((tc as usize, tr as usize)),
{
    let mut res: Vec<(usize, usize)> = Vec::new();
    let current_col = piece.position.0;
    let current_row = piece.position.1;
    if current_row % 7 == 0 {
        return res;
    }
    match piece.side {
        Side::White => {
            if current_col > 0 {
                push_square(&mut res, (current_col - 1, current_row + 1));
            }
            if current_col < 7 {
                push_square(&mut res, (current_col + 1, current_row + 1));
            }
        },
        Side::Black => {
            if current_col > 0 {
                push_square(&mut res, (current_col - 1, current_row - 1));
            }
            if current_col < 7 {
                push_square(&mut res, (current_col + 1, current_row - 1));
            }
        },
    }
    res
}

/// The squares a knight attacks: up to eight fixed offsets.
#[verifier::rlimit(100)]
#[verifier::spinoff_prover]
fn get_knight_threats(piece: &ChessPiece, _board: &ChessBoard) -> (res: Vec<(usize, usize)>)
    requires
        piece.position.0 < 8,
        piece.position.1 < 8,
    ensures
        forall|p: (usize, usize)|
            #[trigger] res@.contains(p) ==> knight_attacks(
                piece.position.0 as int,
                piece.position.1 as int,
                p.0 as int,
                p.1 as int,
            ),
        forall|tc: int, tr: int|
            knight_attacks(piece.position.0 as int, piece.position.1 as int, tc, tr)
                ==> #[trigger] res@.contains((tc as usize, tr as usize)),
        res@ == knight_threat_squares(piece.position.0 as int, piece.position.1 as int),
{
    let mut res: Vec<(usize, usize)> = Vec::new();
    let current_col = piece.position.0;
    let current_row = piece.position.1;
    let ghost c = current_col as int;
    let ghost r = current_row as int;
    if current_col > 1 {
        if current_row < 7 {
            push_square(&mut res, (current_col - 2, current_row + 1));
        }
        if current_row > 0 {
            push_square(&mut res, (current_col - 2, current_row - 1));
        }
    }
    let ghost part1 = (if c > 1 && r < 7 {
        seq![((c - 2) as usize, (r + 1) as usize)]
    } else {
        Seq::<(usize, usize)>::empty()
    }) + (if c > 1 && r > 0 {
        seq![((c - 2) as usize, (r - 1) as usize)]
    } else {
        Seq::<(usize, usize)>::empty()
    });
    proof {
        assert(res@ =~= part1);
    }
    if current_col < 6 {
        if current_row < 7 {
            push_square(&mut res, (current_col + 2, current_row + 1));
        }
        if current_row > 0 {
            push_square(&mut res, (current_col + 2, current_row - 1));
        }
    }
    let ghost part2 = part1 + (if c < 6 && r < 7 {
        seq![((c + 2) as usize, (r + 1) as usize)]
    } else {
        Seq::<(usize, usize)>::empty()
    }) + (if c < 6 && r > 0 {
        seq![((c + 2) as usize, (r - 1) as usize)]
    } else {
        Seq::<(usize, usize)>::empty()
    });
    proof {
        assert(res@ =~= part2);
    }
    if current_row < 6 {
        if current_col > 0 {
            push_square(&mut res, (current_col - 1, current_row + 2));
        }
        if current_col < 7 {
            push_square(&mut res, (current_col + 1, current_row + 2));
        }
    }
    let ghost part3 = part2 + (if r < 6 && c > 0 {
        seq![((c - 1) as usize, (r + 2) as usize)]
    } else {
        Seq::<(usize, usize)>::empty()
    }) + (if r < 6 && c < 7 {
        seq![((c + 1) as usize, (r + 2) as usize)]
    } else {
        Seq::<(usize, usize)>::empty()
    });
    proof {
        assert(res@ =~= part3);
    }
    if current_row > 1 {
        if current_col > 0 {
            push_square(&mut res, (current_col - 1, current_row - 2));
        }
        if current_col < 7 {
            push_square(&mut res, (current_col + 1, current_row - 2));
        }
    }
    proof {
        reveal(knight_threat_squares);
        assert(res@ =~= knight_threat_squares(c, r));
    }
    res
}

/// The squares a king attacks: the up-to-eight adjacent squares.
/// Castling destinations are excluded.
#[verifier::rlimit(100)]
#[verifier::spinoff_prover]
fn get_king_threats(piece: &ChessPiece, _board: &ChessBoard) -> (res: Vec<(usize, usize)>)
    requires
        piece.position.0 < 8,
        piece.position.1 < 8,
    ensures
        forall|p: (usize, usize)|
            #[trigger] res@.contains(p) ==> king_attacks(
                piece.position.0 as int,
                piece.position.1 as int,
                p.0 as int,
                p.1 as int,
            ),
        forall|tc: int, tr: int|
            king_attacks(piece.position.0 as int, piece.position.1 as int, tc, tr)
                ==> #[trigger] res@.contains((tc as usize, tr as usize)),
        res@ == king_threat_squares(piece.position.0 as int, piece.position.1 as int),
{
    let mut res: Vec<(usize, usize)> = Vec::new();
    let c = piece.position.0;
    let r = piece.position.1;
    let ghost ci = c as int;
    let ghost ri = r as int;
    if c > 0 {
        push_square(&mut res, (c - 1, r));
        if r > 0 {
            push_square(&mut res, (c - 1, r - 1));
        }
        if r < 7 {
            push_square(&mut res, (c - 1, r + 1));
        }
    }
    let ghost part1 = (if ci > 0 {
        seq![((ci - 1) as usize, ri as usize)]
    } else {
        Seq::<(usize, usize)>::empty()
    }) + (if ci > 0 && ri > 0 {
        seq![((ci - 1) as usize, (ri - 1) as usize)]
    } else {
        Seq::<(usize, usize)>::empty()
    }) + (if ci > 0 && ri < 7 {
        seq![((ci - 1) as usize, (ri + 1) as usize)]
    } else {
        Seq::<(usize, usize)>::empty()
    });
    proof {
        assert(res@ =~= part1);
    }
    if r > 0 {
        push_square(&mut res, (c, r - 1));
    }
    if r < 7 {
        push_square(&mut res, (c, r + 1));
    }
    let ghost part2 = part1 + (if ri > 0 {
        seq![(ci as usize, (ri - 1) as usize)]
    } else {
        Seq::<(usize, usize)>::empty()
    }) + (if ri < 7 {
        seq![(ci as usize, (ri + 1) as usize)]
    } else {
        Seq::<(usize, usize)>::empty()
    });
    proof {
        assert(res@ =~= part2);
    }
    if c < 7 {
        push_square(&mut res, (c + 1, r));
        if r > 0 {
            push_square(&mut res, (c + 1, r - 1));
        }
        if r < 7 {
            push_square(&mut res, (c + 1, r + 1));
        }
    }
    proof {
        reveal(king_threat_squares);
        assert(res@ =~= king_threat_squares(ci, ri));
    }
    res
}

/// The squares a rook attacks: the four orthogonal rays.
fn get_rook_threats(piece: &ChessPiece, board: &ChessBoard) -> (res: Vec<(usize, usize)>)
    requires
        board.wf(),
        piece.position.0 < 8,
        piece.position.1 < 8,
    ensures
        forall|p: (usize, usize)|
            #[trigger] res@.contains(p) ==> p.0 < 8 && p.1 < 8 && rook_sees(
                board@,
                piece.position.0 as int,
                piece.position.1 as int,
                p.0 as int,
                p.1 as int,
            ),
        forall|tc: int, tr: int|
            rook_sees(board@, piece.position.0 as int, piece.position.1 as int, tc, tr)
                ==> #[trigger] res@.contains((tc as usize, tr as usize)),
        res@ == rook_threat_squares(board@, piece.position.0 as int, piece.position.1 as int),
{
    let c = piece.position.0;
    let r = piece.position.1;
    let mut res = scan_ray(board, c, r, -1, 0);
    append_squares(&mut res, scan_ray(board, c, r, 1, 0));
    append_squares(&mut res, scan_ray(board, c, r, 0, -1));
    append_squares(&mut res, scan_ray(board, c, r, 0, 1));
    proof {
        reveal(rook_threat_squares);
        assert(res@ =~= rook_threat_squares(board@, c as int, r as int));
    }
    res
}

/// The squares a bishop attacks: the four diagonal rays.
fn get_bishop_threats(piece: &ChessPiece, board: &ChessBoard) -> (res: Vec<(usize, usize)>)
    requires
        board.wf(),
        piece.position.0 < 8,
        piece.position.1 < 8,
    ensures
        forall|p: (usize, usize)|
            #[trigger] res@.contains(p) ==> p.0 < 8 && p.1 < 8 && bishop_sees(
                board@,
                piece.position.0 as int,
                piece.position.1 as int,
                p.0 as int,
                p.1 as int,
            ),
        forall|tc: int, tr: int|
            bishop_sees(board@, piece.position.0 as int, piece.position.1 as int, tc, tr)
                ==> #[trigger] res@.contains((tc as usize, tr as usize)),
        res@ == bishop_threat_squares(board@, piece.position.0 as int, piece.position.1 as int),
{
    let c = piece.position.0;
    let r = piece.position.1;
    let mut res = scan_ray(board, c, r, -1, 1);
    append_squares(&mut res, scan_ray(board, c, r, 1, 1));
    append_squares(&mut res, scan_ray(board, c, r, -1, -1));
    append_squares(&mut res, scan_ray(board, c, r, 1, -1));
    proof {
        reveal(bishop_threat_squares);
        assert(res@ =~= bishop_threat_squares(board@, c as int, r as int));
    }
    res
}

/// The squares a queen attacks: the diagonal and the orthogonal rays.
fn get_queen_threats(piece: &ChessPiece, board: &ChessBoard) -> (res: Vec<(usize, usize)>)
    requires
        board.wf(),
        piece.position.0 < 8,
        piece.position.1 < 8,
    ensures
        forall|p: (usize, usize)|
            #[trigger] res@.contains(p) ==> p.0 < 8 && p.1 < 8 && (bishop_sees(
                board@,
                piece.position.0 as int,
                piece.position.1 as int,
                p.0 as int,
                p.1 as int,
            ) || rook_sees(
                board@,
                piece.position.0 as int,
                piece.position.1 as int,
                p.0 as int,
                p.1 as int,
            )),
        forall|tc: int, tr: int|
            bishop_sees(board@, piece.position.0 as int, piece.position.1 as int, tc, tr)
                || rook_sees(board@, piece.position.0 as int, piece.position.1 as int, tc, tr)
                ==> #[trigger] res@.contains((tc as usize, tr as usize)),
        res@ == queen_threat_squares(board@, piece.position.0 as int, piece.position.1 as int),
{
    let mut res = get_bishop_threats(piece, board);
    append_squares(&mut res, get_rook_threats(piece, board));
    proof {
        reveal(queen_threat_squares);
        reveal(rook_threat_squares);
        reveal(bishop_threat_squares);
        assert(res@ =~= queen_threat_squares(
            board@,
            piece.position.0 as int,
            piece.position.1 as int,
        ));
    }
    res
}

/// Whether applying the move would leave the mover's own king in
/// check, found by applying it to a copy of the board and testing.
fn move_would_cause_self_check(board: &ChessBoard, the_move: &ChessMove) -> (r: bool)
    requires
        board.wf(),
        crate::gamelogic::board::apply_shape_ok(board@, *the_move),
        crate::gamelogic::board::has_king(
            crate::gamelogic::board::apply_move_model(board@, *the_move),
            sq(board@, the_move.from_square.0 as int, the_move.from_square.1 as int)->Some_0.side,
        ),
    ensures
        r == crate::gamelogic::board::causes_self_check(board@, *the_move),
{
    let mut board_copy = board.duplicate();
    let applied = board_copy.perform_move(the_move);
    proof {
        assert(applied is Ok);
    }
    let piece = match board.get_square_by_index(the_move.from_square.0, the_move.from_square.1) {
        Some(p) => p,
        None => {
            proof {
                assert(false);
            }
            return false;
        },
    };
    board_copy.is_checked(piece.side)
}

/// A pseudo-legal move keeps the mover's own king on the board, and
/// the move's record satisfies the shape conditions of application.
pub proof fn lemma_moveable_preserves_king(m: BoardModel, p: ChessPiece, tc: int, tr: int)
    requires
        crate::gamelogic::board::wf_model(m),
        in_board(p.position.0 as int, p.position.1 as int),
        sq(m, p.position.0 as int, p.position.1 as int) == Some(p),
        moveable(m, p, tc, tr),
        crate::gamelogic::board::has_king(m, p.side),
    ensures
        crate::gamelogic::board::apply_shape_ok(m, pseudo_move(m, p, tc, tr)),
        crate::gamelogic::board::has_king(
            crate::gamelogic::board::apply_move_model(m, pseudo_move(m, p, tc, tr)),
            p.side,
        ),
{
    reveal(pawn_record);
    let c = p.position.0 as int;
    let r = p.position.1 as int;
    let s = p.side;
    let mv = pseudo_move(m, p, tc, tr);
    // the destination lies on the board
    match p.piece_type {
        PieceType::Rook => {
            if ray_sees(m, c, r, 1, 0, tc, tr) {
                lemma_ray_sees_in_board(m, c, r, 1, 0, tc, tr);
            } else if ray_sees(m, c, r, -1, 0, tc, tr) {
                lemma_ray_sees_in_board(m, c, r, -1, 0, tc, tr);
            } else if ray_sees(m, c, r, 0, 1, tc, tr) {
                lemma_ray_sees_in_board(m, c, r, 0, 1, tc, tr);
            } else {
                lemma_ray_sees_in_board(m, c, r, 0, -1, tc, tr);
            }
        },
        PieceType::Bishop => {
            if ray_sees(m, c, r, 1, 1, tc, tr) {
                lemma_ray_sees_in_board(m, c, r, 1, 1, tc, tr);
            } else if ray_sees(m, c, r, 1, -1, tc, tr) {
                lemma_ray_sees_in_board(m, c, r, 1, -1, tc, tr);
            } else if ray_sees(m, c, r, -1, 1, tc, tr) {
                lemma_ray_sees_in_board(m, c, r, -1, 1, tc, tr);
            } else {
                lemma_ray_sees_in_board(m, c, r, -1, -1, tc, tr);
            }
        },
        PieceType::Queen => {
            if ray_sees(m, c, r, 1, 0, tc, tr) {
                lemma_ray_sees_in_board(m, c, r, 1, 0, tc, tr);
            } else if ray_sees(m, c, r, -1, 0, tc, tr) {
                lemma_ray_sees_in_board(m, c, r, -1, 0, tc, tr);
            } else if ray_sees(m, c, r, 0, 1, tc, tr) {
                lemma_ray_sees_in_board(m, c, r, 0, 1, tc, tr);
            } else if ray_sees(m, c, r, 0, -1, tc, tr) {
                lemma_ray_sees_in_board(m, c, r, 0, -1, tc, tr);
            } else if ray_sees(m, c, r, 1, 1, tc, tr) {
                lemma_ray_sees_in_board(m, c, r, 1, 1, tc, tr);
            } else if ray_sees(m, c, r, 1, -1, tc, tr) {
                lemma_ray_sees_in_board(m, c, r, 1, -1, tc, tr);
            } else if ray_sees(m, c, r, -1, 1, tc, tr) {
                lemma_ray_sees_in_board(m, c, r, -1, 1, tc, tr);
            } else {
                lemma_ray_sees_in_board(m, c, r, -1, -1, tc, tr);
            }
        },
        _ => {},
    }
    assert(in_board(tc, tr));
    assert(crate::gamelogic::board::apply_shape_ok(m, mv));
    if p.piece_type == PieceType::King {
        assert(mv.move_type != MoveType::Promotion);
        crate::gamelogic::board::lemma_moving_king_survives(m, mv);
    } else {
        let k = crate::gamelogic::board::first_king(m, s)->Some_0;
        crate::gamelogic::board::lemma_king_scan_sound(m, s, 0, 0);
        assert(is_king_of_model(m, k.0, k.1, s));
        assert(!(k.0 == c && k.1 == r));
        assert(!holds_side(m, tc, tr, s));
        assert(!(k.0 == tc && k.1 == tr));
        crate::gamelogic::board::lemma_bystander_king_survives(m, mv, s, k.0, k.1);
    }
}

/// Whether square `(c, r)` holds the king of side `s`; a shorthand
/// used in proofs of this module.
pub open spec fn is_king_of_model(m: BoardModel, c: int, r: int, s: Side) -> bool {
    crate::gamelogic::board::is_king_of(m, c, r, s)
}

/// Appends one move, reporting exactly how membership changes.
fn push_move(v: &mut Vec<ChessMove>, mv: ChessMove)
    ensures
        final(v)@ == old(v)@.push(mv),
        forall|y: ChessMove| #[trigger] final(v)@.contains(y) <==> old(v)@.contains(y) || y == mv,
{
    proof {
        assert forall|y: ChessMove| old(v)@.push(mv).contains(y) implies old(v)@.contains(y) || y
            == mv by {
            let i = choose|i: int| 0 <= i < old(v)@.push(mv).len() && old(v)@.push(mv)[i] == y;
            if i < old(v)@.len() {
                assert(old(v)@[i] == y);
            }
        }
        assert forall|y: ChessMove| old(v)@.contains(y) || y == mv implies old(v)@.push(
            mv,
        ).contains(y) by {
            if old(v)@.contains(y) {
                let i = choose|i: int| 0 <= i < old(v)@.len() && old(v)@[i] == y;
                assert(old(v)@.push(mv)[i] == y);
            } else {
                assert(old(v)@.push(mv)[old(v)@.len() as int] == y);
            }
        }
    }
    v.push(mv);
}

/// Keeps only the squares not occupied by the given side, preserving
/// order.
fn filter_not_own(board: &ChessBoard, side: Side, squares: &Vec<(usize, usize)>) -> (res: Vec<
    (usize, usize),
>)
    requires
        board.wf(),
        forall|q: (usize, usize)| #[trigger] squares@.contains(q) ==> q.0 < 8 && q.1 < 8,
    ensures
        forall|i: int|
            #![trigger res@[i]]
            0 <= i < res@.len() ==> squares@.contains(res@[i]) && res@[i].0 < 8 && res@[i].1 < 8
                && !holds_side(board@, res@[i].0 as int, res@[i].1 as int, side),
        forall|d: (usize, usize)|
            #[trigger] squares@.contains(d) && !holds_side(board@, d.0 as int, d.1 as int, side) ==> res@.contains(d),
        res@ == squares@.filter(
            (|d: (usize, usize)| !holds_side(board@, d.0 as int, d.1 as int, side)),
        ),
{
    let ghost pred = (|d: (usize, usize)| !holds_side(board@, d.0 as int, d.1 as int, side));
    let mut res: Vec<(usize, usize)> = Vec::new();
    let mut i: usize = 0;
    while i < squares.len()
        invariant
            board.wf(),
            i <= squares@.len(),
            pred == (|d: (usize, usize)| !holds_side(board@, d.0 as int, d.1 as int, side)),
            res@ == squares@.subrange(0, i as int).filter(pred),
            forall|q: (usize, usize)| #[trigger] squares@.contains(q) ==> q.0 < 8 && q.1 < 8,
            forall|k: int|
                #![trigger res@[k]]
                0 <= k < res@.len() ==> squares@.contains(res@[k]) && res@[k].0 < 8 && res@[k].1 < 8
                    && !holds_side(board@, res@[k].0 as int, res@[k].1 as int, side),
            forall|d: (usize, usize)|
                #[trigger] squares@.contains(d) && !holds_side(board@, d.0 as int, d.1 as int, side) && (exists|k: int|
                    0 <= k < i && squares@[k] == d) ==> res@.contains(d),
        decreases squares@.len() - i,
    {
        let d = squares[i];
        proof {
            assert(squares@.contains(squares@[i as int]));
        }
        let keep = match board.get_square_by_index(d.0, d.1) {
            Some(q) => !(q.side == side),
            None => true,
        };
        let ghost res_before = res@;
        if keep {
            res.push(d);
        }
        proof {
            assert(squares@.contains(squares@[i as int]));
            if keep {
                assert(res@[res_before.len() as int] == d);
            }
            reveal(Seq::filter);
            assert(squares@.subrange(0, i as int + 1).drop_last() =~= squares@.subrange(
                0,
                i as int,
            ));
            assert(squares@.subrange(0, i as int + 1).last() == d);
            assert(keep == pred(d));
            assert(res@ == squares@.subrange(0, i as int + 1).filter(pred));
            assert forall|dd: (usize, usize)| #[trigger]
                squares@.contains(dd) && !holds_side(board@, dd.0 as int, dd.1 as int, side) && (exists|k: int|
                    0 <= k < i + 1 && squares@[k] == dd) implies res@.contains(dd) by {
                let k = choose|k: int| 0 <= k < i + 1 && squares@[k] == dd;
                if k < i {
                    assert(res_before.contains(dd));
                    let j = choose|j: int| 0 <= j < res_before.len() && res_before[j] == dd;
                    assert(res@[j] == dd);
                } else {
                    assert(dd == d);
                    assert(res@[res_before.len() as int] == d);
                }
            }
        }
        i += 1;
    }
    proof {
        assert forall|d: (usize, usize)| #[trigger]
            squares@.contains(d) && !holds_side(board@, d.0 as int, d.1 as int, side) implies res@.contains(d) by {
            let k = choose|k: int| 0 <= k < squares@.len() && squares@[k] == d;
        }
        assert(squares@.subrange(0, squares@.len() as int) =~= squares@);
    }
    res
}

/// The plain relocation moves of `piece` to each of the given
/// destinations, in order.
fn standard_moves_from(board: &ChessBoard, piece: &ChessPiece, dests: &Vec<(usize, usize)>) -> (res:
    Vec<ChessMove>)
    requires
        board.wf(),
        forall|i: int| #![trigger dests@[i]] 0 <= i < dests@.len() ==> dests@[i].0 < 8
            && dests@[i].1 < 8,
    ensures
        res@.len() == dests@.len(),
        forall|i: int|
            #![trigger res@[i]]
            0 <= i < res@.len() ==> res@[i] == standard_record(
                board@,
                *piece,
                dests@[i].0 as int,
                dests@[i].1 as int,
            ),
        forall|d: (usize, usize)|
            #[trigger] dests@.contains(d) ==> res@.contains(
                standard_record(board@, *piece, d.0 as int, d.1 as int),
            ),
        res@ == dests@.map_values(
            (|d: (usize, usize)| standard_record(board@, *piece, d.0 as int, d.1 as int)),
        ),
    decreases dests@.len(),
{
    let mut res: Vec<ChessMove> = Vec::new();
    let mut i: usize = 0;
    while i < dests.len()
        invariant
            board.wf(),
            i <= dests@.len(),
            res@.len() == i,
            forall|k: int| #![trigger dests@[k]] 0 <= k < dests@.len() ==> dests@[k].0 < 8
                && dests@[k].1 < 8,
            forall|k: int|
                #![trigger res@[k]]
                0 <= k < res@.len() ==> res@[k] == standard_record(
                    board@,
                    *piece,
                    dests@[k].0 as int,
                    dests@[k].1 as int,
                ),
        decreases dests@.len() - i,
    {
        let d = dests[i];
        let captures = match board.get_square_by_index(d.0, d.1) {
            Some(q) => Some((q.position.0, q.position.1)),
            None => None,
        };
        proof {
            board.wf_model_holds();
            match sq(board@, d.0 as int, d.1 as int) {
                Some(q) => {
                    assert(q.position.0 == d.0 && q.position.1 == d.1);
                },
                None => {},
            }
        }
        let mv = ChessMove {
            from_square: piece.position,
            destination: d,
            move_type: MoveType::Standard,
            captures,
            dest_threatened: board.is_square_threatened(piece.side.opposite(), d),
            dest_defended: board.is_square_threatened(piece.side, d),
        };
        res.push(mv);
        proof {
            assert(res@[i as int] == standard_record(board@, *piece, d.0 as int, d.1 as int));
        }
        i += 1;
    }
    proof {
        assert forall|d: (usize, usize)| #[trigger] dests@.contains(d) implies res@.contains(
            standard_record(board@, *piece, d.0 as int, d.1 as int),
        ) by {
            let k = choose|k: int| 0 <= k < dests@.len() && dests@[k] == d;
            assert(res@[k] == standard_record(board@, *piece, d.0 as int, d.1 as int));
        }
        assert(res@ =~= dests@.map_values(
            (|d: (usize, usize)| standard_record(board@, *piece, d.0 as int, d.1 as int)),
        ));
    }
    res
}

/// The pseudo-legal moves of a rook: every visible square along the
/// orthogonal rays that its own side does not occupy.
fn get_rook_moves(piece: &ChessPiece, board: &ChessBoard) -> (res: Vec<ChessMove>)
    requires
        board.wf(),
        piece.position.0 < 8,
        piece.position.1 < 8,
        piece.piece_type == PieceType::Rook,
    ensures
        forall|i: int|
            #![trigger res@[i]]
            0 <= i < res@.len() ==> moveable(
                board@,
                *piece,
                res@[i].destination.0 as int,
                res@[i].destination.1 as int,
            ) && res@[i] == pseudo_move(
                board@,
                *piece,
                res@[i].destination.0 as int,
                res@[i].destination.1 as int,
            ),
        forall|tc: int, tr: int|
            moveable(board@, *piece, tc, tr) ==> res@.contains(
                #[trigger] pseudo_move(board@, *piece, tc, tr),
            ),
        res@ == candidate_moves(board@, *piece),
{
    let threats = get_rook_threats(piece, board);
    let dests = filter_not_own(board, piece.side, &threats);
    let res = standard_moves_from(board, piece, &dests);
    proof {
        lemma_moves_from_filtered_threats(board@, *piece, threats@, dests@, res@);
        reveal(candidate_moves);
        reveal(standard_moves_of);
        assert(res@ == candidate_moves(board@, *piece));
    }
    res
}

/// The pseudo-legal moves of a bishop: every visible square along the
/// diagonal rays that its own side does not occupy.
fn get_bishop_moves(piece: &ChessPiece, board: &ChessBoard) -> (res: Vec<ChessMove>)
    requires
        board.wf(),
        piece.position.0 < 8,
        piece.position.1 < 8,
        piece.piece_type == PieceType::Bishop,
    ensures
        forall|i: int|
            #![trigger res@[i]]
            0 <= i < res@.len() ==> moveable(
                board@,
                *piece,
                res@[i].destination.0 as int,
                res@[i].destination.1 as int,
            ) && res@[i] == pseudo_move(
                board@,
                *piece,
                res@[i].destination.0 as int,
                res@[i].destination.1 as int,
            ),
        forall|tc: int, tr: int|
            moveable(board@, *piece, tc, tr) ==> res@.contains(
                #[trigger] pseudo_move(board@, *piece, tc, tr),
            ),
        res@ == candidate_moves(board@, *piece),
{
    let threats = get_bishop_threats(piece, board);
    let dests = filter_not_own(board, piece.side, &threats);
    let res = standard_moves_from(board, piece, &dests);
    proof {
        lemma_moves_from_filtered_threats(board@, *piece, threats@, dests@, res@);
        reveal(candidate_moves);
        reveal(standard_moves_of);
        assert(res@ == candidate_moves(board@, *piece));
    }
    res
}

/// The pseudo-legal moves of a queen: the bishop moves followed by
/// the rook moves.
fn get_queen_moves(piece: &ChessPiece, board: &ChessBoard) -> (res: Vec<ChessMove>)
    requires
        board.wf(),
        piece.position.0 < 8,
        piece.position.1 < 8,
        piece.piece_type == PieceType::Queen,
    ensures
        forall|i: int|
            #![trigger res@[i]]
            0 <= i < res@.len() ==> moveable(
                board@,
                *piece,
                res@[i].destination.0 as int,
                res@[i].destination.1 as int,
            ) && res@[i] == pseudo_move(
                board@,
                *piece,
                res@[i].destination.0 as int,
                res@[i].destination.1 as int,
            ),
        forall|tc: int, tr: int|
            moveable(board@, *piece, tc, tr) ==> res@.contains(
                #[trigger] pseudo_move(board@, *piece, tc, tr),
            ),
        res@ == candidate_moves(board@, *piece),
{
    let threats = get_queen_threats(piece, board);
    let dests = filter_not_own(board, piece.side, &threats);
    let res = standard_moves_from(board, piece, &dests);
    proof {
        lemma_moves_from_filtered_threats(board@, *piece, threats@, dests@, res@);
        reveal(candidate_moves);
        reveal(standard_moves_of);
        assert(res@ == candidate_moves(board@, *piece));
    }
    res
}

/// The pseudo-legal moves of a knight: its eight offsets, excluding
/// squares its own side occupies.
fn get_knight_moves(piece: &ChessPiece, board: &ChessBoard) -> (res: Vec<ChessMove>)
    requires
        board.wf(),
        piece.position.0 < 8,
        piece.position.1 < 8,
        piece.piece_type == PieceType::Knight,
    ensures
        forall|i: int|
            #![trigger res@[i]]
            0 <= i < res@.len() ==> moveable(
                board@,
                *piece,
                res@[i].destination.0 as int,
                res@[i].destination.1 as int,
            ) && res@[i] == pseudo_move(
                board@,
                *piece,
                res@[i].destination.0 as int,
                res@[i].destination.1 as int,
            ),
        forall|tc: int, tr: int|
            moveable(board@, *piece, tc, tr) ==> res@.contains(
                #[trigger] pseudo_move(board@, *piece, tc, tr),
            ),
        res@ == candidate_moves(board@, *piece),
{
    let threats = get_knight_threats(piece, board);
    let dests = filter_not_own(board, piece.side, &threats);
    let res = standard_moves_from(board, piece, &dests);
    proof {
        lemma_moves_from_filtered_threats(board@, *piece, threats@, dests@, res@);
        reveal(candidate_moves);
        reveal(standard_moves_of);
        assert(res@ == candidate_moves(board@, *piece));
    }
    res
}

/// Connects the threat-filter-record pipeline to the movability
/// relation, for the piece kinds whose moves are exactly their attack
/// squares not occupied by their own side.
proof fn lemma_moves_from_filtered_threats(
    m: BoardModel,
    p: ChessPiece,
    threats: Seq<(usize, usize)>,
    dests: Seq<(usize, usize)>,
    moves: Seq<ChessMove>,
)
    requires
        p.piece_type == PieceType::Rook || p.piece_type == PieceType::Bishop || p.piece_type
            == PieceType::Queen || p.piece_type == PieceType::Knight,
        p.position.0 < 8,
        p.position.1 < 8,
        forall|q: (usize, usize)|
            #[trigger] threats.contains(q) ==> q.0 < 8 && q.1 < 8 && piece_attacks(
                m,
                p,
                q.0 as int,
                q.1 as int,
            ),
        forall|tc: int, tr: int|
            piece_attacks(m, p, tc, tr) ==> #[trigger] threats.contains((tc as usize, tr as usize)),
        forall|i: int|
            #![trigger dests[i]]
            0 <= i < dests.len() ==> threats.contains(dests[i]) && dests[i].0 < 8 && dests[i].1 < 8
                && !holds_side(m, dests[i].0 as int, dests[i].1 as int, p.side),
        forall|d: (usize, usize)|
            #[trigger] threats.contains(d) && !holds_side(m, d.0 as int, d.1 as int, p.side)
                ==> dests.contains(d),
        moves.len() == dests.len(),
        forall|i: int|
            #![trigger moves[i]]
            0 <= i < moves.len() ==> moves[i] == standard_record(
                m,
                p,
                dests[i].0 as int,
                dests[i].1 as int,
            ),
        forall|d: (usize, usize)|
            #[trigger] dests.contains(d) ==> moves.contains(
                standard_record(m, p, d.0 as int, d.1 as int),
            ),
    ensures
        forall|i: int|
            #![trigger moves[i]]
            0 <= i < moves.len() ==> moveable(
                m,
                p,
                moves[i].destination.0 as int,
                moves[i].destination.1 as int,
            ) && moves[i] == pseudo_move(
                m,
                p,
                moves[i].destination.0 as int,
                moves[i].destination.1 as int,
            ),
        forall|tc: int, tr: int|
            moveable(m, p, tc, tr) ==> moves.contains(#[trigger] pseudo_move(m, p, tc, tr)),
{
    assert forall|i: int| 0 <= i < moves.len() implies moveable(
        m,
        p,
        #[trigger] moves[i].destination.0 as int,
        moves[i].destination.1 as int,
    ) && moves[i] == pseudo_move(
        m,
        p,
        moves[i].destination.0 as int,
        moves[i].destination.1 as int,
    ) by {
        let d = dests[i];
        assert(threats.contains(d));
        assert(piece_attacks(m, p, d.0 as int, d.1 as int));
        assert(moves[i] == standard_record(m, p, d.0 as int, d.1 as int));
        assert(moves[i].destination == (((d.0 as int) as usize), ((d.1 as int) as usize)));
        assert(moves[i].destination.0 == d.0 && moves[i].destination.1 == d.1);
    }
    assert forall|tc: int, tr: int| moveable(m, p, tc, tr) implies moves.contains(
        #[trigger] pseudo_move(m, p, tc, tr),
    ) by {
        assert(piece_attacks(m, p, tc, tr));
        lemma_piece_attacks_in_board(m, p, tc, tr);
        assert(threats.contains((tc as usize, tr as usize)));
        let d = (tc as usize, tr as usize);
        assert(d.0 as int == tc && d.1 as int == tr);
        assert(!holds_side(m, d.0 as int, d.1 as int, p.side));
        assert(dests.contains(d));
        assert(moves.contains(standard_record(m, p, d.0 as int, d.1 as int)));
        assert(standard_record(m, p, d.0 as int, d.1 as int) == pseudo_move(m, p, tc, tr));
    }
}

/// Every entry of the pawn candidate sequence is a pseudo-legal
/// pawn move tagged by its record.
#[verifier::rlimit(100)]
#[verifier::spinoff_prover]
proof fn lemma_pawn_candidates_sound(m: BoardModel, p: ChessPiece)
    requires
        crate::gamelogic::board::wf_model(m),
        p.position.0 < 8,
        p.position.1 < 8,
        p.piece_type == PieceType::Pawn,
    ensures
        forall|i: int|
            #![trigger candidate_moves(m, p)[i]]
            0 <= i < candidate_moves(m, p).len() ==> moveable(
                m,
                p,
                candidate_moves(m, p)[i].destination.0 as int,
                candidate_moves(m, p)[i].destination.1 as int,
            ) && candidate_moves(m, p)[i] == pseudo_move(
                m,
                p,
                candidate_moves(m, p)[i].destination.0 as int,
                candidate_moves(m, p)[i].destination.1 as int,
            ),
{
    reveal(candidate_moves);
    reveal(pawn_candidate_moves);
    reveal(pawn_record);
}

/// Every pseudo-legal pawn move appears in the pawn candidate
/// sequence.
#[verifier::rlimit(100)]
#[verifier::spinoff_prover]
proof fn lemma_pawn_candidates_complete(m: BoardModel, p: ChessPiece)
    requires
        crate::gamelogic::board::wf_model(m),
        p.position.0 < 8,
        p.position.1 < 8,
        p.piece_type == PieceType::Pawn,
    ensures
        forall|tc: int, tr: int|
            moveable(m, p, tc, tr) ==> candidate_moves(m, p).contains(
                #[trigger] pseudo_move(m, p, tc, tr),
            ),
{
    reveal(candidate_moves);
    reveal(pawn_candidate_moves);
    reveal(pawn_record);
    let c = p.position.0 as int;
    let r = p.position.1 as int;
    let s = p.side;
    let d = forward(s);
    let cand = candidate_moves(m, p);
    assert forall|tc: int, tr: int| moveable(m, p, tc, tr) implies cand.contains(
        #[trigger] pseudo_move(m, p, tc, tr),
    ) by {
        let x = pseudo_move(m, p, tc, tr);
        if tc == c && tr == r + 2 * d && r == home_rank(s) + d && !occupied(m, c, r + d)
            && !occupied(m, c, r + 2 * d) {
            assert(cand[0] == x);
        } else if tc == c && tr == r + d {
            let pre = (if r == home_rank(s) + d && !occupied(m, c, r + d) && !occupied(
                m,
                c,
                r + 2 * d,
            ) {
                1int
            } else {
                0int
            });
            assert(cand[pre] == x);
        } else if tc == c - 1 && tr == r + d && holds_side(m, tc, tr, s.spec_opposite()) {
            let pre = (if r == home_rank(s) + d && !occupied(m, c, r + d) && !occupied(
                m,
                c,
                r + 2 * d,
            ) {
                1int
            } else {
                0int
            }) + (if in_board(c, r + d) && !occupied(m, c, r + d) {
                1int
            } else {
                0int
            });
            assert(cand[pre] == x);
        } else if tc == c + 1 && tr == r + d && holds_side(m, tc, tr, s.spec_opposite()) {
            let pre = (if r == home_rank(s) + d && !occupied(m, c, r + d) && !occupied(
                m,
                c,
                r + 2 * d,
            ) {
                1int
            } else {
                0int
            }) + (if in_board(c, r + d) && !occupied(m, c, r + d) {
                1int
            } else {
                0int
            }) + (if c >= 1 && in_board(c - 1, r + d) && holds_side(
                m,
                c - 1,
                r + d,
                s.spec_opposite(),
            ) {
                1int
            } else {
                0int
            });
            assert(cand[pre] == x);
        } else {
            assert(cand[cand.len() - 1] == x);
        }
    }
}

/// The pseudo-legal moves of a pawn, in the order: double advance,
/// single push, capture toward column zero, capture toward column
/// seven, en passant capture; the dispatch over the pawn's side.
fn get_pawn_moves(piece: &ChessPiece, board: &ChessBoard) -> (res: Vec<ChessMove>)
    requires
        board.wf(),
        piece.position.0 < 8,
        piece.position.1 < 8,
        piece.piece_type == PieceType::Pawn,
    ensures
        forall|i: int|
            #![trigger res@[i]]
            0 <= i < res@.len() ==> moveable(
                board@,
                *piece,
                res@[i].destination.0 as int,
                res@[i].destination.1 as int,
            ) && res@[i] == pseudo_move(
                board@,
                *piece,
                res@[i].destination.0 as int,
                res@[i].destination.1 as int,
            ),
        forall|tc: int, tr: int|
            moveable(board@, *piece, tc, tr) ==> res@.contains(
                #[trigger] pseudo_move(board@, *piece, tc, tr),
            ),
        res@ == candidate_moves(board@, *piece),
{
    proof {
        board.wf_model_holds();
        lemma_pawn_candidates_sound(board@, *piece);
        lemma_pawn_candidates_complete(board@, *piece);
    }
    match piece.side {
        Side::White => get_white_pawn_moves(piece, board),
        Side::Black => get_black_pawn_moves(piece, board),
    }
}

#[verifier::rlimit(100)]
#[verifier::spinoff_prover]
fn get_white_pawn_moves(piece: &ChessPiece, board: &ChessBoard) -> (res: Vec<ChessMove>)
    requires
        board.wf(),
        piece.position.0 < 8,
        piece.position.1 < 8,
        piece.piece_type == PieceType::Pawn,
        piece.side == Side::White,
    ensures
        res@ == candidate_moves(board@, *piece),
{
    let ghost m = board@;
    let mut res: Vec<ChessMove> = Vec::new();
    let c = piece.position.0;
    let r = piece.position.1;
    let s = piece.side;

    let ghost ci = c as int;
    let ghost ri = r as int;
    let ghost fd = forward(s);
    let ghost t1 = (if ri == home_rank(s) + fd && !occupied(m, ci, ri + fd) && !occupied(
        m,
        ci,
        ri + 2 * fd,
    ) {
        seq![pawn_record(m, *piece, ci, ri + 2 * fd)]
    } else {
        Seq::<ChessMove>::empty()
    });
    let ghost t2 = (if in_board(ci, ri + fd) && !occupied(m, ci, ri + fd) {
        seq![pawn_record(m, *piece, ci, ri + fd)]
    } else {
        Seq::<ChessMove>::empty()
    });
    let ghost t3 = (if ci >= 1 && in_board(ci - 1, ri + fd) && holds_side(
        m,
        ci - 1,
        ri + fd,
        s.spec_opposite(),
    ) {
        seq![pawn_record(m, *piece, ci - 1, ri + fd)]
    } else {
        Seq::<ChessMove>::empty()
    });
    let ghost t4 = (if ci <= 6 && in_board(ci + 1, ri + fd) && holds_side(
        m,
        ci + 1,
        ri + fd,
        s.spec_opposite(),
    ) {
        seq![pawn_record(m, *piece, ci + 1, ri + fd)]
    } else {
        Seq::<ChessMove>::empty()
    });
    proof {
        board.wf_model_holds();
    }
    let home_r: usize = match s {
        Side::White => 1,
        Side::Black => 6,
    };
    let ep_r: usize = match s {
        Side::White => 4,
        Side::Black => 3,
    };
    let last_r: usize = match s {
        Side::White => 7,
        Side::Black => 0,
    };

    // double advance from the home rank over two empty squares
    if r == home_r {
        let mid_r: usize = match s {
            Side::White => 2,
            Side::Black => 5,
        };
        let dbl_r: usize = match s {
            Side::White => 3,
            Side::Black => 4,
        };
        if board.get_square_by_index(c, mid_r).is_none() && board.get_square_by_index(
            c,
            dbl_r,
        ).is_none() {
            let destination = (c, dbl_r);
            let mv = ChessMove {
                from_square: (c, r),
                destination,
                move_type: MoveType::DoubleAdvance,
                captures: None,
                dest_threatened: board.is_square_threatened(s.opposite(), destination),
                dest_defended: board.is_square_threatened(s, destination),
            };
            push_move(&mut res, mv);
            proof {
                reveal(pawn_record);
                assert(moveable(m, *piece, c as int, dbl_r as int));
                assert(mv == pseudo_move(m, *piece, c as int, dbl_r as int));
                assert(res@.contains(mv));
            }
        }
    }

    proof {
        assert(res@ =~= t1);
    }
    let has_fwd = match s {
        Side::White => r < 7,
        Side::Black => r > 0,
    };
    if has_fwd {
        let nr: usize = match s {
            Side::White => r + 1,
            Side::Black => r - 1,
        };
        // single push onto an empty square
        if board.get_square_by_index(c, nr).is_none() {
            let destination = (c, nr);
            let move_type = if nr == last_r {
                MoveType::Promotion
            } else {
                MoveType::Standard
            };
            let mv = ChessMove {
                from_square: (c, r),
                destination,
                move_type,
                captures: None,
                dest_threatened: board.is_square_threatened(s.opposite(), destination),
                dest_defended: board.is_square_threatened(s, destination),
            };
            push_move(&mut res, mv);
            proof {
                reveal(pawn_record);
                assert(moveable(m, *piece, c as int, nr as int));
                assert(mv == pseudo_move(m, *piece, c as int, nr as int));
                assert(res@.contains(mv));
            }
        }
proof {
            assert(res@ =~= t1 + t2);
        }
                // capture toward column zero
        if c >= 1 {
            let cap = board.get_square_by_index(c - 1, nr);
            let take = match cap {
                Some(q) => !(q.side == s),
                None => false,
            };
            if take {
                let destination = (c - 1, nr);
                let move_type = if nr == last_r {
                    MoveType::Promotion
                } else {
                    MoveType::Standard
                };
                let mv = ChessMove {
                    from_square: (c, r),
                    destination,
                    move_type,
                    captures: Some(destination),
                    dest_threatened: board.is_square_threatened(s.opposite(), destination),
                    dest_defended: board.is_square_threatened(s, destination),
                };
                push_move(&mut res, mv);
                proof {
                    reveal(pawn_record);
                    assert(moveable(m, *piece, c as int - 1, nr as int));
                    assert(mv == pseudo_move(m, *piece, c as int - 1, nr as int));
                    assert(res@.contains(mv));
                }
            }
        }
proof {
            assert(res@ =~= t1 + t2 + t3);
        }
                // capture toward column seven
        if c <= 6 {
            let cap = board.get_square_by_index(c + 1, nr);
            let take = match cap {
                Some(q) => !(q.side == s),
                None => false,
            };
            if take {
                let destination = (c + 1, nr);
                let move_type = if nr == last_r {
                    MoveType::Promotion
                } else {
                    MoveType::Standard
                };
                let mv = ChessMove {
                    from_square: (c, r),
                    destination,
                    move_type,
                    captures: Some(destination),
                    dest_threatened: board.is_square_threatened(s.opposite(), destination),
                    dest_defended: board.is_square_threatened(s, destination),
                };
                push_move(&mut res, mv);
                proof {
                    reveal(pawn_record);
                    assert(moveable(m, *piece, c as int + 1, nr as int));
                    assert(mv == pseudo_move(m, *piece, c as int + 1, nr as int));
                    assert(res@.contains(mv));
                }
            }
        }
proof {
            assert(res@ =~= t1 + t2 + t3 + t4);
        }
                // en passant capture: offered when the en-passant column is
        // set one column away on the matching rank, the target square
        // is empty, and the square behind it holds the enemy pawn
        if r == ep_r {
            match board.get_state_flags().en_passant_column {
                Some(epc) => {
                    let adjacent = (c >= 1 && epc == c - 1) || epc == c + 1;
                    if adjacent {
                        proof {
                            board.wf_model_holds();
                        }
                        let dest_empty = board.get_square_by_index(epc, nr).is_none();
                        let victim = board.get_square_by_index(epc, r);
                        let victim_ok = match victim {
                            Some(q) => !(q.side == s) && q.piece_type == PieceType::Pawn,
                            None => false,
                        };
                        if dest_empty && victim_ok {
                            let destination = (epc, nr);
                            let mv = ChessMove {
                                from_square: (c, r),
                                destination,
                                move_type: MoveType::EnPassant,
                                captures: Some((epc, r)),
                                dest_threatened: board.is_square_threatened(
                                    s.opposite(),
                                    destination,
                                ),
                                dest_defended: board.is_square_threatened(s, destination),
                            };
                            push_move(&mut res, mv);
                            proof {
                                reveal(pawn_record);
                                assert(moveable(m, *piece, epc as int, nr as int));
                                assert(mv == pseudo_move(m, *piece, epc as int, nr as int));
                                assert(res@.contains(mv));
                            }
                        }
                    }
                },
                None => {},
            }
        }
    }
    proof {
        reveal(candidate_moves);
        reveal(pawn_candidate_moves);
        assert(res@ =~= pawn_candidate_moves(m, *piece));
        assert(res@ =~= candidate_moves(m, *piece));
    }
    res
}

#[verifier::rlimit(100)]
#[verifier::spinoff_prover]
fn get_black_pawn_moves(piece: &ChessPiece, board: &ChessBoard) -> (res: Vec<ChessMove>)
    requires
        board.wf(),
        piece.position.0 < 8,
        piece.position.1 < 8,
        piece.piece_type == PieceType::Pawn,
        piece.side == Side::Black,
    ensures
        res@ == candidate_moves(board@, *piece),
{
    let ghost m = board@;
    let mut res: Vec<ChessMove> = Vec::new();
    let c = piece.position.0;
    let r = piece.position.1;
    let s = piece.side;

    let ghost ci = c as int;
    let ghost ri = r as int;
    let ghost fd = forward(s);
    let ghost t1 = (if ri == home_rank(s) + fd && !occupied(m, ci, ri + fd) && !occupied(
        m,
        ci,
        ri + 2 * fd,
    ) {
        seq![pawn_record(m, *piece, ci, ri + 2 * fd)]
    } else {
        Seq::<ChessMove>::empty()
    });
    let ghost t2 = (if in_board(ci, ri + fd) && !occupied(m, ci, ri + fd) {
        seq![pawn_record(m, *piece, ci, ri + fd)]
    } else {
        Seq::<ChessMove>::empty()
    });
    let ghost t3 = (if ci >= 1 && in_board(ci - 1, ri + fd) && holds_side(
        m,
        ci - 1,
        ri + fd,
        s.spec_opposite(),
    ) {
        seq![pawn_record(m, *piece, ci - 1, ri + fd)]
    } else {
        Seq::<ChessMove>::empty()
    });
    let ghost t4 = (if ci <= 6 && in_board(ci + 1, ri + fd) && holds_side(
        m,
        ci + 1,
        ri + fd,
        s.spec_opposite(),
    ) {
        seq![pawn_record(m, *piece, ci + 1, ri + fd)]
    } else {
        Seq::<ChessMove>::empty()
    });
    proof {
        board.wf_model_holds();
    }

    // double advance from the home rank over two empty squares
    if r == 6 {
        if board.get_square_by_index(c, 5).is_none() && board.get_square_by_index(c, 4).is_none() {
            let destination = (c, 4usize);
            let mv = ChessMove {
                from_square: (c, r),
                destination,
                move_type: MoveType::DoubleAdvance,
                captures: None,
                dest_threatened: board.is_square_threatened(s.opposite(), destination),
                dest_defended: board.is_square_threatened(s, destination),
            };
            push_move(&mut res, mv);
            proof {
                reveal(pawn_record);
                assert(moveable(m, *piece, c as int, 4));
                assert(mv == pseudo_move(m, *piece, c as int, 4));
            }
        }
    }

    proof {
        assert(res@ =~= t1);
    }
    if r > 0 {
        let nr: usize = r - 1;
        // single push onto an empty square
        if board.get_square_by_index(c, nr).is_none() {
            let destination = (c, nr);
            let move_type = if nr == 0 {
                MoveType::Promotion
            } else {
                MoveType::Standard
            };
            let mv = ChessMove {
                from_square: (c, r),
                destination,
                move_type,
                captures: None,
                dest_threatened: board.is_square_threatened(s.opposite(), destination),
                dest_defended: board.is_square_threatened(s, destination),
            };
            push_move(&mut res, mv);
            proof {
                reveal(pawn_record);
                assert(moveable(m, *piece, c as int, nr as int));
                assert(mv == pseudo_move(m, *piece, c as int, nr as int));
            }
        }
proof {
            assert(res@ =~= t1 + t2);
        }
                // capture toward column zero
        if c >= 1 {
            let cap = board.get_square_by_index(c - 1, nr);
            let take = match cap {
                Some(q) => !(q.side == s),
                None => false,
            };
            if take {
                let destination = (c - 1, nr);
                let move_type = if nr == 0 {
                    MoveType::Promotion
                } else {
                    MoveType::Standard
                };
                let mv = ChessMove {
                    from_square: (c, r),
                    destination,
                    move_type,
                    captures: Some(destination),
                    dest_threatened: board.is_square_threatened(s.opposite(), destination),
                    dest_defended: board.is_square_threatened(s, destination),
                };
                push_move(&mut res, mv);
                proof {
                    reveal(pawn_record);
                    assert(moveable(m, *piece, c as int - 1, nr as int));
                    assert(mv == pseudo_move(m, *piece, c as int - 1, nr as int));
                }
            }
        }
proof {
            assert(res@ =~= t1 + t2 + t3);
        }
                // capture toward column seven
        if c <= 6 {
            let cap = board.get_square_by_index(c + 1, nr);
            let take = match cap {
                Some(q) => !(q.side == s),
                None => false,
            };
            if take {
                let destination = (c + 1, nr);
                let move_type = if nr == 0 {
                    MoveType::Promotion
                } else {
                    MoveType::Standard
                };
                let mv = ChessMove {
                    from_square: (c, r),
                    destination,
                    move_type,
                    captures: Some(destination),
                    dest_threatened: board.is_square_threatened(s.opposite(), destination),
                    dest_defended: board.is_square_threatened(s, destination),
                };
                push_move(&mut res, mv);
                proof {
                    reveal(pawn_record);
                    assert(moveable(m, *piece, c as int + 1, nr as int));
                    assert(mv == pseudo_move(m, *piece, c as int + 1, nr as int));
                }
            }
        }
proof {
            assert(res@ =~= t1 + t2 + t3 + t4);
        }
                // en passant capture: offered when the en-passant column is
        // set one column away on the matching rank, the target square
        // is empty, and the square behind it holds the enemy pawn
        if r == 3 {
            match board.get_state_flags().en_passant_column {
                Some(epc) => {
                    let adjacent = (c >= 1 && epc == c - 1) || epc == c + 1;
                    if adjacent {
                        proof {
                            board.wf_model_holds();
                        }
                        let dest_empty = board.get_square_by_index(epc, nr).is_none();
                        let victim = board.get_square_by_index(epc, r);
                        let victim_ok = match victim {
                            Some(q) => !(q.side == s) && q.piece_type == PieceType::Pawn,
                            None => false,
                        };
                        if dest_empty && victim_ok {
                            let destination = (epc, nr);
                            let mv = ChessMove {
                                from_square: (c, r),
                                destination,
                                move_type: MoveType::EnPassant,
                                captures: Some((epc, r)),
                                dest_threatened: board.is_square_threatened(
                                    s.opposite(),
                                    destination,
                                ),
                                dest_defended: board.is_square_threatened(s, destination),
                            };
                            push_move(&mut res, mv);
                            proof {
                                reveal(pawn_record);
                                assert(moveable(m, *piece, epc as int, nr as int));
                                assert(mv == pseudo_move(m, *piece, epc as int, nr as int));
                            }
                        }
                    }
                },
                None => {},
            }
        }
    }
    proof {
        reveal(candidate_moves);
        reveal(pawn_candidate_moves);
        assert(res@ =~= pawn_candidate_moves(m, *piece));
        assert(res@ =~= candidate_moves(m, *piece));
    }
    res
}

/// Connects the threat-filter-record pipeline to the movability
/// relation for the king's ordinary (non-castling) moves.
proof fn lemma_king_adjacent_moves(
    m: BoardModel,
    p: ChessPiece,
    threats: Seq<(usize, usize)>,
    dests: Seq<(usize, usize)>,
    moves: Seq<ChessMove>,
)
    requires
        p.piece_type == PieceType::King,
        p.position.0 < 8,
        p.position.1 < 8,
        forall|q: (usize, usize)|
            #[trigger] threats.contains(q) ==> q.0 < 8 && q.1 < 8 && piece_attacks(
                m,
                p,
                q.0 as int,
                q.1 as int,
            ),
        forall|tc: int, tr: int|
            piece_attacks(m, p, tc, tr) ==> #[trigger] threats.contains((tc as usize, tr as usize)),
        forall|i: int|
            #![trigger dests[i]]
            0 <= i < dests.len() ==> threats.contains(dests[i]) && dests[i].0 < 8 && dests[i].1 < 8
                && !holds_side(m, dests[i].0 as int, dests[i].1 as int, p.side),
        forall|d: (usize, usize)|
            #[trigger] threats.contains(d) && !holds_side(m, d.0 as int, d.1 as int, p.side)
                ==> dests.contains(d),
        moves.len() == dests.len(),
        forall|i: int|
            #![trigger moves[i]]
            0 <= i < moves.len() ==> moves[i] == standard_record(
                m,
                p,
                dests[i].0 as int,
                dests[i].1 as int,
            ),
        forall|d: (usize, usize)|
            #[trigger] dests.contains(d) ==> moves.contains(
                standard_record(m, p, d.0 as int, d.1 as int),
            ),
    ensures
        forall|i: int|
            #![trigger moves[i]]
            0 <= i < moves.len() ==> moveable(
                m,
                p,
                moves[i].destination.0 as int,
                moves[i].destination.1 as int,
            ) && moves[i] == pseudo_move(
                m,
                p,
                moves[i].destination.0 as int,
                moves[i].destination.1 as int,
            ),
        forall|tc: int, tr: int|
            king_attacks(p.position.0 as int, p.position.1 as int, tc, tr) && !holds_side(
                m,
                tc,
                tr,
                p.side,
            ) ==> moves.contains(#[trigger] pseudo_move(m, p, tc, tr)),
{
    assert forall|i: int| 0 <= i < moves.len() implies moveable(
        m,
        p,
        #[trigger] moves[i].destination.0 as int,
        moves[i].destination.1 as int,
    ) && moves[i] == pseudo_move(
        m,
        p,
        moves[i].destination.0 as int,
        moves[i].destination.1 as int,
    ) by {
        let d = dests[i];
        assert(threats.contains(d));
        assert(piece_attacks(m, p, d.0 as int, d.1 as int));
        assert(moves[i] == standard_record(m, p, d.0 as int, d.1 as int));
        assert(moves[i].destination.0 == d.0 && moves[i].destination.1 == d.1);
    }
    assert forall|tc: int, tr: int| king_attacks(p.position.0 as int, p.position.1 as int, tc, tr)
        && !holds_side(m, tc, tr, p.side) implies moves.contains(
        #[trigger] pseudo_move(m, p, tc, tr),
    ) by {
        assert(piece_attacks(m, p, tc, tr));
        assert(threats.contains((tc as usize, tr as usize)));
        let d = (tc as usize, tr as usize);
        assert(d.0 as int == tc && d.1 as int == tr);
        assert(!holds_side(m, d.0 as int, d.1 as int, p.side));
        assert(dests.contains(d));
        assert(moves.contains(standard_record(m, p, d.0 as int, d.1 as int)));
        assert(standard_record(m, p, d.0 as int, d.1 as int) == pseudo_move(m, p, tc, tr));
    }
}

/// The pseudo-legal moves of a king: the adjacent squares its own
/// side does not occupy, then the queenside and kingside castling
/// candidates when every castling condition holds.
#[verifier::rlimit(100)]
#[verifier::spinoff_prover]
fn get_king_moves(piece: &ChessPiece, board: &ChessBoard) -> (res: Vec<ChessMove>)
    requires
        board.wf(),
        piece.position.0 < 8,
        piece.position.1 < 8,
        sq(board@, piece.position.0 as int, piece.position.1 as int) == Some(*piece),
        piece.piece_type == PieceType::King,
    ensures
        forall|i: int|
            #![trigger res@[i]]
            0 <= i < res@.len() ==> moveable(
                board@,
                *piece,
                res@[i].destination.0 as int,
                res@[i].destination.1 as int,
            ) && res@[i] == pseudo_move(
                board@,
                *piece,
                res@[i].destination.0 as int,
                res@[i].destination.1 as int,
            ),
        forall|tc: int, tr: int|
            moveable(board@, *piece, tc, tr) ==> res@.contains(
                #[trigger] pseudo_move(board@, *piece, tc, tr),
            ),
        res@ == candidate_moves(board@, *piece),
{
    let ghost m = board@;
    proof {
        board.wf_model_holds();
    }
    let threats = get_king_threats(piece, board);
    let dests = filter_not_own(board, piece.side, &threats);
    let mut res = standard_moves_from(board, piece, &dests);
    proof {
        lemma_king_adjacent_moves(m, *piece, threats@, dests@, res@);
    }
    let ghost adjacent_moves = res@;

    let c = piece.position.0;
    let r = piece.position.1;
    let side = piece.side;
    let hr: usize = match side {
        Side::White => 0,
        Side::Black => 7,
    };
    let flags = board.get_state_flags();
    let (qs_flag, ks_flag) = match side {
        Side::White => (flags.white_castle_queenside, flags.white_castle_kingside),
        Side::Black => (flags.black_castle_queenside, flags.black_castle_kingside),
    };

    if c == 4 && r == hr {
        proof {
            crate::gamelogic::board::lemma_has_king_from_cell(m, side, 4, hr as int);
        }
        let in_check_now = board.is_checked(side);
        // queenside: the king lands on column 2, the rook on column 3
        if qs_flag && !in_check_now {
            let e1 = board.get_square_by_index(1, hr).is_none();
            let e2 = board.get_square_by_index(2, hr).is_none();
            let e3 = board.get_square_by_index(3, hr).is_none();
            let rook_ok = match board.get_square_by_index(0, hr) {
                Some(q) => q.side == side && q.piece_type == PieceType::Rook,
                None => false,
            };
            if e1 && e2 && e3 && rook_ok {
                let probe3 = ChessMove {
                    from_square: (4, hr),
                    destination: (3, hr),
                    move_type: MoveType::Standard,
                    captures: None,
                    dest_threatened: false,
                    dest_defended: false,
                };
                proof {
                    assert(probe3 == king_probe_move(side, 3));
                    crate::gamelogic::board::lemma_moving_king_survives(m, probe3);
                }
                if !move_would_cause_self_check(board, &probe3) {
                    let probe2 = ChessMove {
                        from_square: (4, hr),
                        destination: (2, hr),
                        move_type: MoveType::Standard,
                        captures: None,
                        dest_threatened: false,
                        dest_defended: false,
                    };
                    proof {
                        assert(probe2 == king_probe_move(side, 2));
                        crate::gamelogic::board::lemma_moving_king_survives(m, probe2);
                    }
                    if !move_would_cause_self_check(board, &probe2) {
                        let mv = ChessMove {
                            from_square: (4, hr),
                            destination: (2, hr),
                            move_type: MoveType::Castle,
                            captures: None,
                            dest_threatened: false,
                            dest_defended: true,
                        };
                        push_move(&mut res, mv);
                        proof {
                            assert(castle_ok(m, side, false));
                            assert(moveable(m, *piece, 2, hr as int));
                            assert(mv == pseudo_move(m, *piece, 2, hr as int));
                        }
                    }
                }
            }
        }
        proof {
            assert(res@ =~= adjacent_moves + (if castle_ok(m, side, false) {
                seq![castle_record(*piece, 2, home_rank(side))]
            } else {
                Seq::<ChessMove>::empty()
            }));
        }
        // kingside: the king lands on column 6, the rook on column 5
        if ks_flag && !in_check_now {
            let e5 = board.get_square_by_index(5, hr).is_none();
            let e6 = board.get_square_by_index(6, hr).is_none();
            let rook_ok = match board.get_square_by_index(7, hr) {
                Some(q) => q.side == side && q.piece_type == PieceType::Rook,
                None => false,
            };
            if e5 && e6 && rook_ok {
                let probe5 = ChessMove {
                    from_square: (4, hr),
                    destination: (5, hr),
                    move_type: MoveType::Standard,
                    captures: None,
                    dest_threatened: false,
                    dest_defended: false,
                };
                proof {
                    assert(probe5 == king_probe_move(side, 5));
                    crate::gamelogic::board::lemma_moving_king_survives(m, probe5);
                }
                if !move_would_cause_self_check(board, &probe5) {
                    let probe6 = ChessMove {
                        from_square: (4, hr),
                        destination: (6, hr),
                        move_type: MoveType::Standard,
                        captures: None,
                        dest_threatened: false,
                        dest_defended: false,
                    };
                    proof {
                        assert(probe6 == king_probe_move(side, 6));
                        crate::gamelogic::board::lemma_moving_king_survives(m, probe6);
                    }
                    if !move_would_cause_self_check(board, &probe6) {
                        let mv = ChessMove {
                            from_square: (4, hr),
                            destination: (6, hr),
                            move_type: MoveType::Castle,
                            captures: None,
                            dest_threatened: false,
                            dest_defended: true,
                        };
                        push_move(&mut res, mv);
                        proof {
                            assert(castle_ok(m, side, true));
                            assert(moveable(m, *piece, 6, hr as int));
                            assert(mv == pseudo_move(m, *piece, 6, hr as int));
                        }
                    }
                }
            }
        }
    }
    proof {
        reveal(candidate_moves);
        reveal(standard_moves_of);
        assert(res@ =~= candidate_moves(m, *piece));
        assert forall|tc: int, tr: int| moveable(m, *piece, tc, tr) implies res@.contains(
            #[trigger] pseudo_move(m, *piece, tc, tr),
        ) by {
            let ci = c as int;
            let ri = r as int;
            if king_attacks(ci, ri, tc, tr) && !holds_side(m, tc, tr, side) {
                assert(adjacent_moves.contains(pseudo_move(m, *piece, tc, tr)));
                let j = choose|j: int|
                    0 <= j < adjacent_moves.len() && adjacent_moves[j] == pseudo_move(
                        m,
                        *piece,
                        tc,
                        tr,
                    );
                assert(res@[j] == pseudo_move(m, *piece, tc, tr));
            } else {
                assert(ci == 4 && ri == home_rank(side) && tr == home_rank(side));
                assert((tc == 6 && castle_ok(m, side, true)) || (tc == 2 && castle_ok(
                    m,
                    side,
                    false,
                )));
                assert(res@.contains(pseudo_move(m, *piece, tc, tr)));
            }
        }
    }
    res
}

/// The plain relocation moves built from a destination list: the
/// squares the mover's own side occupies are dropped, the rest become
/// Standard records, order preserved.
#[verifier::opaque]
pub open spec fn standard_moves_of(m: BoardModel, p: ChessPiece, dests: Seq<(usize, usize)>) -> Seq<
    ChessMove,
> {
    dests.filter(
        |d: (usize, usize)| !holds_side(m, d.0 as int, d.1 as int, p.side),
    ).map_values(|d: (usize, usize)| standard_record(m, p, d.0 as int, d.1 as int))
}

/// A pawn's pseudo-legal moves in generation order: double advance,
/// single push, capture toward column zero, capture toward column
/// seven, en passant capture.
#[verifier::opaque]
pub open spec fn pawn_candidate_moves(m: BoardModel, p: ChessPiece) -> Seq<ChessMove> {
    let c = p.position.0 as int;
    let r = p.position.1 as int;
    let s = p.side;
    let d = forward(s);
    (if r == home_rank(s) + d && !occupied(m, c, r + d) && !occupied(m, c, r + 2 * d) {
        seq![pawn_record(m, p, c, r + 2 * d)]
    } else {
        Seq::<ChessMove>::empty()
    }) + (if in_board(c, r + d) && !occupied(m, c, r + d) {
        seq![pawn_record(m, p, c, r + d)]
    } else {
        Seq::<ChessMove>::empty()
    }) + (if c >= 1 && in_board(c - 1, r + d) && holds_side(m, c - 1, r + d, s.spec_opposite()) {
        seq![pawn_record(m, p, c - 1, r + d)]
    } else {
        Seq::<ChessMove>::empty()
    }) + (if c <= 6 && in_board(c + 1, r + d) && holds_side(m, c + 1, r + d, s.spec_opposite()) {
        seq![pawn_record(m, p, c + 1, r + d)]
    } else {
        Seq::<ChessMove>::empty()
    }) + (match m.en_passant_column {
        Some(epc) => if r == (if s == Side::White {
            4int
        } else {
            3int
        }) && (epc as int == c - 1 || epc as int == c + 1) && in_board(epc as int, r + d)
            && !occupied(m, epc as int, r + d) && (match sq(m, epc as int, r) {
            Some(q) => q.side == s.spec_opposite() && q.piece_type == PieceType::Pawn,
            None => false,
        }) {
            seq![pawn_record(m, p, epc as int, r + d)]
        } else {
            Seq::<ChessMove>::empty()
        },
        None => Seq::<ChessMove>::empty(),
    })
}

/// Every pseudo-legal move of a piece, in generation order: its
/// kind's destinations in walking order, with a king's queenside and
/// kingside castling candidates appended.
#[verifier::opaque]
pub open spec fn candidate_moves(m: BoardModel, p: ChessPiece) -> Seq<ChessMove> {
    let c = p.position.0 as int;
    let r = p.position.1 as int;
    let s = p.side;
    match p.piece_type {
        PieceType::Pawn => pawn_candidate_moves(m, p),
        PieceType::Rook => standard_moves_of(m, p, rook_threat_squares(m, c, r)),
        PieceType::Bishop => standard_moves_of(m, p, bishop_threat_squares(m, c, r)),
        PieceType::Queen => standard_moves_of(m, p, queen_threat_squares(m, c, r)),
        PieceType::Knight => standard_moves_of(m, p, knight_threat_squares(c, r)),
        PieceType::King => standard_moves_of(m, p, king_threat_squares(c, r)) + (if c == 4 && r
            == home_rank(s) && castle_ok(m, s, false) {
            seq![castle_record(p, 2, home_rank(s))]
        } else {
            Seq::<ChessMove>::empty()
        }) + (if c == 4 && r == home_rank(s) && castle_ok(m, s, true) {
            seq![castle_record(p, 6, home_rank(s))]
        } else {
            Seq::<ChessMove>::empty()
        }),
    }
}

/// Any pseudo-legal destination lies on the board.
pub proof fn lemma_moveable_in_board(m: BoardModel, p: ChessPiece, tc: int, tr: int)
    requires
        p.position.0 < 8,
        p.position.1 < 8,
        moveable(m, p, tc, tr),
    ensures
        in_board(tc, tr),
{
    match p.piece_type {
        PieceType::Rook | PieceType::Bishop | PieceType::Queen => {
            lemma_piece_attacks_in_board(m, p, tc, tr);
        },
        _ => {},
    }
}

/// Whether moving `p` to `(tc, tr)` is legal: pseudo-legal and
/// verified not to leave the mover's own king in check.
pub open spec fn legal_move_ok(m: BoardModel, p: ChessPiece, tc: int, tr: int) -> bool {
    moveable(m, p, tc, tr) && !crate::gamelogic::board::causes_self_check(
        m,
        pseudo_move(m, p, tc, tr),
    )
}

impl ChessPiece {
    /// The pseudo-legal moves of this piece before the legality
    /// filter; the dispatch over its kind.
    fn get_unfiltered_moves(&self, board: &ChessBoard) -> (res: Vec<ChessMove>)
        requires
            board.wf(),
            self.position.0 < 8,
            self.position.1 < 8,
            sq(board@, self.position.0 as int, self.position.1 as int) == Some(*self),
        ensures
            forall|i: int|
                #![trigger res@[i]]
                0 <= i < res@.len() ==> moveable(
                    board@,
                    *self,
                    res@[i].destination.0 as int,
                    res@[i].destination.1 as int,
                ) && res@[i] == pseudo_move(
                    board@,
                    *self,
                    res@[i].destination.0 as int,
                    res@[i].destination.1 as int,
                ),
            forall|tc: int, tr: int|
                moveable(board@, *self, tc, tr) ==> res@.contains(
                    #[trigger] pseudo_move(board@, *self, tc, tr),
                ),
            res@ == candidate_moves(board@, *self),
    {
        match self.piece_type {
            PieceType::Pawn => get_pawn_moves(self, board),
            PieceType::Rook => get_rook_moves(self, board),
            PieceType::Knight => get_knight_moves(self, board),
            PieceType::Bishop => get_bishop_moves(self, board),
            PieceType::Queen => get_queen_moves(self, board),
            PieceType::King => get_king_moves(self, board),
        }
    }

    /// Every legal move of this piece: the pseudo-legal moves of its
    /// kind, with those that would leave its own king in check
    /// removed by simulating each on a copy of the board.
    pub fn get_moves(&self, board: &ChessBoard) -> (res: Vec<ChessMove>)
        requires
            board.wf(),
            self.position.0 < 8,
            self.position.1 < 8,
            sq(board@, self.position.0 as int, self.position.1 as int) == Some(*self),
            crate::gamelogic::board::has_king(board@, self.side),
        ensures
            forall|i: int|
                #![trigger res@[i]]
                0 <= i < res@.len() ==> legal_move_ok(
                    board@,
                    *self,
                    res@[i].destination.0 as int,
                    res@[i].destination.1 as int,
                ) && res@[i] == pseudo_move(
                    board@,
                    *self,
                    res@[i].destination.0 as int,
                    res@[i].destination.1 as int,
                ),
            forall|tc: int, tr: int|
                legal_move_ok(board@, *self, tc, tr) ==> res@.contains(
                    #[trigger] pseudo_move(board@, *self, tc, tr),
                ),
            res@ == candidate_moves(board@, *self).filter(
                (|mv: ChessMove| !crate::gamelogic::board::causes_self_check(board@, mv)),
            ),
    {
        let ghost m = board@;
        let unfiltered = self.get_unfiltered_moves(board);
        let ghost pred = (|mv: ChessMove| !crate::gamelogic::board::causes_self_check(m, mv));
        let mut res: Vec<ChessMove> = Vec::new();
        let mut i: usize = 0;
        while i < unfiltered.len()
            invariant
                board.wf(),
                m == board@,
                self.position.0 < 8,
                self.position.1 < 8,
                sq(m, self.position.0 as int, self.position.1 as int) == Some(*self),
                crate::gamelogic::board::has_king(m, self.side),
                i <= unfiltered@.len(),
                pred == (|mv: ChessMove| !crate::gamelogic::board::causes_self_check(m, mv)),
                unfiltered@ == candidate_moves(m, *self),
                res@ == unfiltered@.subrange(0, i as int).filter(pred),
                forall|k: int|
                    #![trigger unfiltered@[k]]
                    0 <= k < unfiltered@.len() ==> moveable(
                        m,
                        *self,
                        unfiltered@[k].destination.0 as int,
                        unfiltered@[k].destination.1 as int,
                    ) && unfiltered@[k] == pseudo_move(
                        m,
                        *self,
                        unfiltered@[k].destination.0 as int,
                        unfiltered@[k].destination.1 as int,
                    ),
                forall|k: int|
                    #![trigger res@[k]]
                    0 <= k < res@.len() ==> legal_move_ok(
                        m,
                        *self,
                        res@[k].destination.0 as int,
                        res@[k].destination.1 as int,
                    ) && res@[k] == pseudo_move(
                        m,
                        *self,
                        res@[k].destination.0 as int,
                        res@[k].destination.1 as int,
                    ),
                forall|k: int|
                    0 <= k < i && !crate::gamelogic::board::causes_self_check(
                        m,
                        #[trigger] unfiltered@[k],
                    ) ==> res@.contains(unfiltered@[k]),
            decreases unfiltered@.len() - i,
        {
            let mv = unfiltered[i];
            proof {
                reveal(pawn_record);
                board.wf_model_holds();
                lemma_moveable_preserves_king(
                    m,
                    *self,
                    mv.destination.0 as int,
                    mv.destination.1 as int,
                );
            }
            let ghost res_before = res@;
            let causes = move_would_cause_self_check(board, &mv);
            if !causes {
                push_move(&mut res, mv);
            }
            proof {
                reveal(Seq::filter);
                assert(unfiltered@.subrange(0, i as int + 1).drop_last() =~= unfiltered@.subrange(
                    0,
                    i as int,
                ));
                assert(unfiltered@.subrange(0, i as int + 1).last() == mv);
                assert(pred(mv) == !causes);
                assert(res@ == unfiltered@.subrange(0, i as int + 1).filter(pred));
            }
            i += 1;
        }
        proof {
            assert(unfiltered@.subrange(0, unfiltered@.len() as int) =~= unfiltered@);
            assert(res@ == candidate_moves(m, *self).filter(pred));
            assert forall|tc: int, tr: int| legal_move_ok(m, *self, tc, tr) implies res@.contains(
                #[trigger] pseudo_move(m, *self, tc, tr),
            ) by {
                reveal(pawn_record);
                lemma_moveable_in_board(m, *self, tc, tr);
                assert(unfiltered@.contains(pseudo_move(m, *self, tc, tr)));
                let k = choose|k: int|
                    0 <= k < unfiltered@.len() && unfiltered@[k] == pseudo_move(m, *self, tc, tr);
                assert(unfiltered@[k].destination.0 as int == tc && unfiltered@[k].destination.1
                    as int == tr);
                assert(!crate::gamelogic::board::causes_self_check(m, unfiltered@[k]));
            }
        }
        res
    }

    /// The legal move of this piece whose destination is the given
    /// square, or an error: `InvalidArgument` for an off-board square,
    /// `InvalidMove` when no legal move reaches it.
    pub fn get_specific_move(&self, board: &ChessBoard, desired_move: (usize, usize)) -> (r: Result<
        ChessMove,
        ChessError,
    >)
        requires
            board.wf(),
            self.position.0 < 8,
            self.position.1 < 8,
            sq(board@, self.position.0 as int, self.position.1 as int) == Some(*self),
            crate::gamelogic::board::has_king(board@, self.side),
        ensures
            match r {
                Ok(mv) => legal_move_ok(board@, *self, desired_move.0 as int, desired_move.1 as int)
                    && mv == pseudo_move(
                    board@,
                    *self,
                    desired_move.0 as int,
                    desired_move.1 as int,
                ),
                Err(ChessError::InvalidMove(_)) => desired_move.0 < 8 && desired_move.1 < 8
                    && !legal_move_ok(
                    board@,
                    *self,
                    desired_move.0 as int,
                    desired_move.1 as int,
                ),
                Err(ChessError::InvalidArgument(_)) => desired_move.0 >= 8 || desired_move.1 >= 8,
                _ => false,
            },
    {
        let ghost m = board@;
        let name = match crate::gamelogic::index_pair_to_name(desired_move.0, desired_move.1) {
            Ok(n) => n,
            Err(e) => {
                return Err(e);
            },
        };
        let valid_moves = self.get_moves(board);
        let mut i: usize = 0;
        while i < valid_moves.len()
            invariant
                i <= valid_moves@.len(),
                m == board@,
                self.position.0 < 8,
                self.position.1 < 8,
                forall|k: int|
                    #![trigger valid_moves@[k]]
                    0 <= k < valid_moves@.len() ==> legal_move_ok(
                        m,
                        *self,
                        valid_moves@[k].destination.0 as int,
                        valid_moves@[k].destination.1 as int,
                    ) && valid_moves@[k] == pseudo_move(
                        m,
                        *self,
                        valid_moves@[k].destination.0 as int,
                        valid_moves@[k].destination.1 as int,
                    ),
                forall|tc: int, tr: int|
                    legal_move_ok(m, *self, tc, tr) ==> valid_moves@.contains(
                        #[trigger] pseudo_move(m, *self, tc, tr),
                    ),
                forall|k: int|
                    0 <= k < i ==> !((#[trigger] valid_moves@[k]).destination.0 == desired_move.0
                        && valid_moves@[k].destination.1 == desired_move.1),
            decreases valid_moves@.len() - i,
        {
            let mv = valid_moves[i];
            if mv.destination.0 == desired_move.0 && mv.destination.1 == desired_move.1 {
                return Ok(mv);
            }
            i += 1;
        }
        proof {
            reveal(pawn_record);
            if legal_move_ok(m, *self, desired_move.0 as int, desired_move.1 as int) {
                assert(valid_moves@.contains(
                    pseudo_move(m, *self, desired_move.0 as int, desired_move.1 as int),
                ));
                let k = choose|k: int|
                    0 <= k < valid_moves@.len() && valid_moves@[k] == pseudo_move(
                        m,
                        *self,
                        desired_move.0 as int,
                        desired_move.1 as int,
                    );
                assert(valid_moves@[k].destination.0 == desired_move.0 && valid_moves@[
                    k].destination.1 == desired_move.1);
                assert(false);
            }
        }
        let mut msg = String::from_str("that square is not a valid move for the piece: ");
        msg.append(name.as_str());
        Err(ChessError::InvalidMove(msg))
    }
}

impl ChessPiece {
    /// The squares this piece attacks for check and control purposes,
    /// exactly those of the attack relation of its kind.
    pub fn get_threats(&self, board: &ChessBoard) -> (res: Vec<(usize, usize)>)
        requires
            board.wf(),
            self.position.0 < 8,
            self.position.1 < 8,
        ensures
            forall|p: (usize, usize)|
                #[trigger] res@.contains(p) ==> p.0 < 8 && p.1 < 8 && piece_attacks(
                    board@,
                    *self,
                    p.0 as int,
                    p.1 as int,
                ),
            forall|tc: int, tr: int|
                piece_attacks(board@, *self, tc, tr) ==> #[trigger] res@.contains(
                    (tc as usize, tr as usize),
                ),
    {
        match self.piece_type {
            PieceType::Pawn => get_pawn_threats(self, board),
            PieceType::Rook => get_rook_threats(self, board),
            PieceType::Knight => get_knight_threats(self, board),
            PieceType::Bishop => get_bishop_threats(self, board),
            PieceType::Queen => get_queen_threats(self, board),
            PieceType::King => get_king_threats(self, board),
        }
    }
}

} // verus!
