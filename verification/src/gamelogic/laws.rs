//! Engine-wide laws: properties of the rules engine stated and proved
//! once, over every board the contracts admit.

use vstd::prelude::*;

use crate::gamelogic::Side;
use crate::gamelogic::board::{
    BoardModel, apply_move_model, insufficient_material, kind_count, kind_count_from, pieces_of,
    wf_model,
};
use crate::gamelogic::pieces::{
    ChessPiece, PieceType, castle_ok, forward, home_rank, in_board, moveable, occupied,
    pawn_moveable, pseudo_move, sq,
};
use crate::gamelogic::{ChessMove, MoveType};

verus! {

/// A castle is never offered for a wing whose corner square is empty
/// or holds anything but the side's own rook, whatever that wing's
/// castling flag still says: a stale flag alone cannot produce a
/// castle move.
pub proof fn lemma_stale_flag_blocks_castle(m: BoardModel, s: Side, kingside: bool)
    requires
        !(match sq(
            m,
            if kingside {
                7int
            } else {
                0int
            },
            home_rank(s),
        ) {
            Some(p) => p.side == s && p.piece_type == PieceType::Rook,
            None => false,
        }),
    ensures
        !castle_ok(m, s, kingside),
        forall|p: ChessPiece, dc: int|
            ((kingside && dc == 6) || (!kingside && dc == 2)) && p.side == s && p.piece_type
                == PieceType::King && p.position.0 == 4 && p.position.1 == home_rank(s) ==> !(
            #[trigger] moveable(m, p, dc, home_rank(s))),
{
    assert forall|p: ChessPiece, dc: int|
        ((kingside && dc == 6) || (!kingside && dc == 2)) && p.side == s && p.piece_type
            == PieceType::King && p.position.0 == 4 && p.position.1 == home_rank(s) implies !(
    #[trigger] moveable(m, p, dc, home_rank(s))) by {
        assert(!crate::gamelogic::pieces::king_attacks(4, home_rank(s), dc, home_rank(s)));
    }
}

/// After a double pawn advance set the en-passant column, an enemy
/// pawn standing one column away on the matching rank has an en
/// passant move whose captured square lies one rank behind its own
/// destination; applying it empties both the capturing pawn's origin
/// and the captured pawn's true square, and lands the capturing pawn
/// on the target. (The move may still be removed by the legality
/// filter when it would expose the mover's own king.)
pub proof fn lemma_en_passant_capture(m: BoardModel, p: ChessPiece, epc: usize)
    requires
        wf_model(m),
        m.en_passant_column == Some(epc),
        p.piece_type == PieceType::Pawn,
        p.position.0 < 8,
        p.position.1 as int == (if p.side == Side::White {
            4int
        } else {
            3int
        }),
        sq(m, p.position.0 as int, p.position.1 as int) == Some(p),
        epc as int == p.position.0 as int - 1 || epc as int == p.position.0 as int + 1,
        !occupied(m, epc as int, p.position.1 as int + forward(p.side)),
        (match sq(m, epc as int, p.position.1 as int) {
            Some(q) => q.side == p.side.spec_opposite() && q.piece_type == PieceType::Pawn,
            None => false,
        }),
    ensures
        moveable(m, p, epc as int, p.position.1 as int + forward(p.side)),
        ({
            let mv = pseudo_move(m, p, epc as int, p.position.1 as int + forward(p.side));
            &&& mv.move_type == MoveType::EnPassant
            &&& mv.captures == Some((epc, p.position.1))
            &&& mv.captures->Some_0.1 as int == mv.destination.1 as int - forward(p.side)
            &&& sq(apply_move_model(m, mv), p.position.0 as int, p.position.1 as int) is None
            &&& sq(apply_move_model(m, mv), epc as int, p.position.1 as int) is None
            &&& apply_move_model(m, mv).en_passant_column is None
        }),
{
    reveal(crate::gamelogic::pieces::pawn_record);
    let c = p.position.0 as int;
    let r = p.position.1 as int;
    let d = forward(p.side);
    assert(pawn_moveable(m, p, epc as int, r + d));
    let mv = pseudo_move(m, p, epc as int, r + d);
    assert(mv.move_type == MoveType::EnPassant);
    let m2 = apply_move_model(m, mv);
    assert(sq(m2, c, r) == m2.squares[c * 8 + r]);
    assert(sq(m2, epc as int, r) == m2.squares[epc as int * 8 + r]);
}

/// Every kind count is at most the number of pieces, and the six
/// kind counts together exhaust the list.
proof fn lemma_kind_counts_partition(ps: Seq<ChessPiece>, i: int)
    requires
        0 <= i <= ps.len(),
    ensures
        kind_count_from(ps, i, PieceType::Pawn) + kind_count_from(ps, i, PieceType::Rook)
            + kind_count_from(ps, i, PieceType::Knight) + kind_count_from(
            ps,
            i,
            PieceType::Bishop,
        ) + kind_count_from(ps, i, PieceType::Queen) + kind_count_from(ps, i, PieceType::King)
            == ps.len() - i,
        forall|t: PieceType| #[trigger] kind_count_from(ps, i, t) >= 0,
    decreases ps.len() - i,
{
    if i < ps.len() {
        lemma_kind_counts_partition(ps, i + 1);
    }
}

/// A bare king facing king and rook is not an insufficient-material
/// draw: the rook is no minor piece.
pub proof fn lemma_king_rook_not_insufficient(m: BoardModel)
    requires
        pieces_of(m, Side::Black).len() == 1,
        pieces_of(m, Side::White).len() == 2,
        kind_count(m, Side::White, PieceType::King) == 1,
        kind_count(m, Side::White, PieceType::Rook) == 1,
    ensures
        !insufficient_material(m),
{
    lemma_kind_counts_partition(pieces_of(m, Side::White), 0);
    assert(kind_count(m, Side::White, PieceType::Knight) == 0 && kind_count(
        m,
        Side::White,
        PieceType::Bishop,
    ) == 0);
}

} // verus!
