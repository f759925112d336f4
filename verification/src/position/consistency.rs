//! What the generated moves keep: making any pseudo-legal move that can be made leaves a
//! consistent position consistent.
use vstd::prelude::*;

use super::{
    Position, castle_allowed, castle_checkable, castle_free_count, castle_move_of, castle_moves, castle_path,
    castle_rook_from, castle_rook_to, castling_checkable, en_passant_moves, group_moves,
    is_castle_target, king_square, lemma_squares_where_members, moved_board, normal_moves,
    pawn_group_moves, pawn_moves, pawn_targets, pawn_to_moves, piece_moves, piece_targets,
    pseudo_legal_moves, squares_of, squares_where, can_make_move,
};
use crate::bitboard::lemma_lowest_square;
use crate::castling::{CastleMove, CastleSide};
use crate::chessmove::{Move, MoveType};
use crate::piece::{Color, PieceType};

verus! {

/// No move of `s` is a castling move.
pub open spec fn no_castling(s: Seq<Move>) -> bool {
    forall|k: int| 0 <= k < s.len() ==> (#[trigger] s[k]).type_code() != MoveType::Castling as int
}

/// Every square of `tos` is on the board.
pub open spec fn on_board(tos: Seq<int>) -> bool {
    forall|k: int| 0 <= k < tos.len() ==> 0 <= #[trigger] tos[k] < 64
}

/// When `m` castles, the square its rook goes to is free: making `m` on a consistent position
/// then leaves a consistent position (see `make_move`).
pub open spec fn rook_lands_free(pos: Position, m: Move) -> bool {
    m.type_code() == MoveType::Castling as int && is_castle_target(m.to_sq())
        ==> moved_board(pos, m, castle_rook_to(m.to_sq())) is None
}

proof fn lemma_no_castling_add(a: Seq<Move>, b: Seq<Move>)
    requires
        no_castling(a),
        no_castling(b),
    ensures
        no_castling(a + b),
{
    assert forall|k: int| 0 <= k < (a + b).len() implies (#[trigger] (a + b)[k]).type_code() != MoveType::Castling as int by {
        if k < a.len() {
            assert((a + b)[k] == a[k]);
        } else {
            assert((a + b)[k] == b[k - a.len()]);
        }
    }
}

proof fn lemma_squares_on_board(p: spec_fn(int) -> bool)
    ensures
        on_board(squares_where(p, 0)),
{
    lemma_squares_where_members(p, 0);
}

proof fn lemma_on_board_rest(tos: Seq<int>)
    requires
        on_board(tos),
        tos.len() > 0,
    ensures
        on_board(tos.drop_first()),
        0 <= tos[0] < 64,
{
    assert forall|k: int| 0 <= k < tos.drop_first().len() implies 0 <= #[trigger] tos.drop_first()[k] < 64 by {
        assert(tos.drop_first()[k] == tos[k + 1]);
    }
}

proof fn lemma_normal_moves(from: int, tos: Seq<int>)
    requires
        0 <= from < 64,
        on_board(tos),
    ensures
        no_castling(normal_moves(from, tos)),
    decreases tos.len(),
{
    if tos.len() > 0 {
        lemma_on_board_rest(tos);
        lemma_normal_moves(from, tos.drop_first());
        Move::lemma_encode_fields(from, tos[0], MoveType::Normal as int, 0);
        lemma_no_castling_add(seq![Move::encode(from, tos[0], MoveType::Normal as int, 0)], normal_moves(from, tos.drop_first()));
    }
}

proof fn lemma_group_moves(pos: Position, pt: PieceType, froms: Seq<int>)
    requires
        on_board(froms),
    ensures
        no_castling(group_moves(pos, pt, froms)),
    decreases froms.len(),
{
    if froms.len() > 0 {
        lemma_on_board_rest(froms);
        lemma_group_moves(pos, pt, froms.drop_first());
        lemma_squares_on_board(piece_targets(pos, pt, froms[0]));
        lemma_normal_moves(froms[0], squares_where(piece_targets(pos, pt, froms[0]), 0));
        lemma_no_castling_add(
            normal_moves(froms[0], squares_where(piece_targets(pos, pt, froms[0]), 0)),
            group_moves(pos, pt, froms.drop_first()),
        );
    }
}

proof fn lemma_pawn_to_moves(c: Color, from: int, tos: Seq<int>)
    requires
        0 <= from < 64,
        on_board(tos),
    ensures
        no_castling(pawn_to_moves(c, from, tos)),
    decreases tos.len(),
{
    if tos.len() > 0 {
        lemma_on_board_rest(tos);
        lemma_pawn_to_moves(c, from, tos.drop_first());
        let t = tos[0];
        Move::lemma_encode_fields(from, t, MoveType::Promotion as int, 0);
        Move::lemma_encode_fields(from, t, MoveType::Promotion as int, 1);
        Move::lemma_encode_fields(from, t, MoveType::Promotion as int, 2);
        Move::lemma_encode_fields(from, t, MoveType::Promotion as int, 3);
        Move::lemma_encode_fields(from, t, MoveType::Normal as int, 0);
        let first = if crate::position::promotes(c, t) {
            seq![
                Move::encode(from, t, MoveType::Promotion as int, 0),
                Move::encode(from, t, MoveType::Promotion as int, 1),
                Move::encode(from, t, MoveType::Promotion as int, 2),
                Move::encode(from, t, MoveType::Promotion as int, 3),
            ]
        } else {
            seq![Move::encode(from, t, MoveType::Normal as int, 0)]
        };
        assert(no_castling(first));
        lemma_no_castling_add(first, pawn_to_moves(c, from, tos.drop_first()));
    }
}

proof fn lemma_pawn_group_moves(pos: Position, froms: Seq<int>)
    requires
        on_board(froms),
    ensures
        no_castling(pawn_group_moves(pos, froms)),
    decreases froms.len(),
{
    if froms.len() > 0 {
        let f = froms[0];
        lemma_on_board_rest(froms);
        lemma_pawn_group_moves(pos, froms.drop_first());
        lemma_squares_on_board(pawn_targets(pos, f));
        lemma_pawn_to_moves(pos.side(), f, squares_where(pawn_targets(pos, f), 0));
        let e = en_passant_moves(pos, f);
        if e.len() > 0 {
            let sq = pos.ep_square()->0;
            Move::lemma_encode_fields(f, sq as int, MoveType::EnPassant as int, 0);
        }
        assert(no_castling(e));
        lemma_no_castling_add(pawn_to_moves(pos.side(), f, squares_where(pawn_targets(pos, f), 0)), e);
        lemma_no_castling_add(
            pawn_to_moves(pos.side(), f, squares_where(pawn_targets(pos, f), 0)) + e,
            pawn_group_moves(pos, froms.drop_first()),
        );
    }
}

proof fn lemma_piece_moves(pos: Position, pt: PieceType)
    ensures
        no_castling(piece_moves(pos, pt)),
{
    lemma_squares_on_board(|t: int| pos.pieces_of(pos.side(), pt).has(t));
    lemma_group_moves(pos, pt, squares_of(pos.pieces_of(pos.side(), pt)));
}

/// The moves before the castling moves: those of the pieces and pawns.
pub open spec fn piece_and_pawn_moves(pos: Position) -> Seq<Move> {
    piece_moves(pos, PieceType::Bishop) + piece_moves(pos, PieceType::Rook) + piece_moves(pos, PieceType::Queen)
        + piece_moves(pos, PieceType::King) + piece_moves(pos, PieceType::Knight) + pawn_moves(pos)
}

/// Only castling moves castle: the moves of the pieces and pawns do not.
pub proof fn lemma_piece_and_pawn_moves(pos: Position)
    ensures
        no_castling(piece_and_pawn_moves(pos)),
        pseudo_legal_moves(pos) == piece_and_pawn_moves(pos) + castle_moves(pos),
{
    lemma_piece_moves(pos, PieceType::Bishop);
    lemma_piece_moves(pos, PieceType::Rook);
    lemma_piece_moves(pos, PieceType::Queen);
    lemma_piece_moves(pos, PieceType::King);
    lemma_piece_moves(pos, PieceType::Knight);
    lemma_squares_on_board(|t: int| pos.pieces_of(pos.side(), PieceType::Pawn).has(t));
    lemma_pawn_group_moves(pos, squares_of(pos.pieces_of(pos.side(), PieceType::Pawn)));
    let b = piece_moves(pos, PieceType::Bishop);
    let r = piece_moves(pos, PieceType::Rook);
    let q = piece_moves(pos, PieceType::Queen);
    let k = piece_moves(pos, PieceType::King);
    let n = piece_moves(pos, PieceType::Knight);
    let p = pawn_moves(pos);
    lemma_no_castling_add(b, r);
    lemma_no_castling_add(b + r, q);
    lemma_no_castling_add(b + r + q, k);
    lemma_no_castling_add(b + r + q + k, n);
    lemma_no_castling_add(b + r + q + k + n, p);
}

/// A castling move of the side to move, allowed on `pos`, of the king by two squares.
pub open spec fn is_castle_move_of(pos: Position, m: Move, cm: CastleMove) -> bool {
    &&& castle_allowed(pos, cm)
    &&& m == Move::encode(king_square(pos), castle_path(king_square(pos), cm, 2), MoveType::Castling as int, 0)
}

proof fn lemma_castle_moves(pos: Position, j: int)
    requires
        0 <= j < castle_moves(pos).len(),
    ensures
        exists|cm: CastleMove| #[trigger] is_castle_move_of(pos, castle_moves(pos)[j], cm),
{
    let a = castle_move_of(pos, CastleMove::WhiteKing);
    let b = castle_move_of(pos, CastleMove::WhiteQueen);
    let c = castle_move_of(pos, CastleMove::BlackKing);
    let d = castle_move_of(pos, CastleMove::BlackQueen);
    let m = castle_moves(pos)[j];
    if j < a.len() {
        assert(m == a[j]);
        assert(is_castle_move_of(pos, m, CastleMove::WhiteKing));
    } else if j < a.len() + b.len() {
        assert(m == (a + b)[j]);
        assert(m == b[j - a.len()]);
        assert(is_castle_move_of(pos, m, CastleMove::WhiteQueen));
    } else if j < a.len() + b.len() + c.len() {
        assert(m == (a + b + c)[j]);
        assert(m == c[j - a.len() - b.len()]);
        assert(is_castle_move_of(pos, m, CastleMove::BlackKing));
    } else {
        assert(m == d[j - a.len() - b.len() - c.len()]);
        assert(is_castle_move_of(pos, m, CastleMove::BlackQueen));
    }
}

/// A castling move that can be made has its rook land on a free square.
proof fn lemma_castle_rook_free(pos: Position, m: Move, cm: CastleMove)
    requires
        castle_checkable(pos, cm),
        is_castle_move_of(pos, m, cm),
        can_make_move(pos, m),
    ensures
        rook_lands_free(pos, m),
{
    let k = king_square(pos);
    lemma_lowest_square(pos.pieces_of(pos.side(), PieceType::King));
    let to = castle_path(k, cm, 2);
    assert(0 <= castle_path(k, cm, castle_free_count(cm)) < 64);
    assert(0 <= to < 64);
    Move::lemma_encode_fields(k, to, MoveType::Castling as int, 0);
    if is_castle_target(to) {
        let rt = castle_rook_to(to);
        if cm.spec_side() == CastleSide::King {
            if to == 2 || to == 58 {
                assert(moved_board(pos, m, castle_rook_from(to)) is None);
            } else {
                assert(rt == castle_path(k, cm, 1));
                assert(pos.board_at(castle_path(k, cm, 1)) is None);
            }
        } else {
            if to == 6 {
                assert(rt == castle_path(k, cm, 3));
                assert(pos.board_at(castle_path(k, cm, 3)) is None);
            } else {
                assert(rt == castle_path(k, cm, 1));
                assert(pos.board_at(castle_path(k, cm, 1)) is None);
            }
        }
    }
}

/// Every pseudo-legal move that can be made on a position whose castle moves can be checked
/// keeps it consistent when made: a castling king's rook lands on a free square.
pub proof fn lemma_generated_moves_keep_consistency(pos: Position, j: int)
    requires
        castling_checkable(pos),
        0 <= j < pseudo_legal_moves(pos).len(),
        can_make_move(pos, pseudo_legal_moves(pos)[j]),
    ensures
        rook_lands_free(pos, pseudo_legal_moves(pos)[j]),
{
    lemma_piece_and_pawn_moves(pos);
    let x = piece_and_pawn_moves(pos);
    let m = pseudo_legal_moves(pos)[j];
    if j < x.len() {
        assert(m == x[j]);
    } else {
        assert(m == castle_moves(pos)[j - x.len()]);
        lemma_castle_moves(pos, j - x.len());
        let cm = choose|cm: CastleMove| #[trigger] is_castle_move_of(pos, m, cm);
        assert(castle_checkable(pos, cm));
        lemma_castle_rook_free(pos, m, cm);
    }
}

} // verus!
