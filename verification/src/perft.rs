//! Perft (performance test): counts the leaf nodes of the tree of legal moves, to check the
//! move generator against known counts.
use vstd::prelude::*;

use crate::attacks::SliderMagics;
use crate::chessmove::Move;
use crate::piece::PieceType;
use crate::position::{
    Position, can_make_move, castling_checkable, has_king, in_check, lemma_position_after, position_after,
    pseudo_legal_moves,
};

verus! {

/// The number of positions reachable from `pos` in exactly `depth` legal moves: 1 at depth
/// 0; otherwise the sum over the pseudo-legal moves of `pos` (see `perft_sum`). A position
/// whose castle moves cannot be checked has no moves.
pub open spec fn perft_count(pos: Position, depth: nat) -> nat
    decreases depth, pseudo_legal_moves(pos).len() + 1,
{
    if depth == 0 {
        1
    } else if !castling_checkable(pos) {
        0
    } else {
        perft_sum(pos, pseudo_legal_moves(pos), depth)
    }
}

/// The counts one level below `pos` for the moves `ms`, each a move of `pos`: a move that can
/// be made and leaves the mover's king on the board and out of check contributes the count
/// of the position after it at `depth - 1`; any other move contributes nothing.
pub open spec fn perft_sum(pos: Position, ms: Seq<Move>, depth: nat) -> nat
    decreases depth, ms.len(),
{
    if ms.len() == 0 || depth == 0 {
        0
    } else {
        let m = ms.last();
        let child = position_after(pos, m);
        perft_sum(pos, ms.drop_last(), depth) + if can_make_move(pos, m) && has_king(child, pos.side())
            && !in_check(child, pos.side()) {
            perft_count(child, (depth - 1) as nat)
        } else {
            0
        }
    }
}

/// `n`, or `u64::MAX` where `n` is larger.
pub open spec fn capped(n: nat) -> nat {
    if n > u64::MAX {
        u64::MAX as nat
    } else {
        n
    }
}

/// Counts the positions reachable from `pos` in exactly `depth` legal moves: 1 at depth 0;
/// otherwise the pseudo-legal moves are made one by one, those that leave the own king in
/// check are dropped, and the counts one level deeper are added up.
///
/// A position it cannot expand (a castling right whose king is missing, or a move that
/// cannot be made on it) contributes nothing, and so does a move after which the mover has
/// no king; a count past `u64::MAX` stays there.
pub fn perft(pos: &mut Position, depth: u32, magics: &SliderMagics) -> (nodes: u64)
    requires
        magics.wf(),
    ensures
        depth == 0 ==> nodes == 1,
        nodes == capped(perft_count(*old(pos), depth as nat)),
        *final(pos) == *old(pos),
    decreases depth,
{
    if depth == 0 {
        return 1;
    }
    if !pos.castling_is_checkable(magics) {
        return 0;
    }
    let mut nodes: u64 = 0;
    let moves = pos.pseudo_legal_move_vec(magics);
    let mut idx: usize = 0;
    while idx < moves.len()
        invariant
            magics.wf(),
            idx <= moves.len(),
            moves@ == pseudo_legal_moves(*pos),
            depth > 0,
            castling_checkable(*pos),
            nodes == capped(perft_sum(*pos, moves@.take(idx as int), depth as nat)),
        decreases moves.len() - idx,
    {
        let m = moves[idx];
        let ghost before = moves@.take(idx as int);
        idx = idx + 1;
        proof {
            assert(moves@.take(idx as int).drop_last() =~= before);
            assert(moves@.take(idx as int).last() == m);
        }
        if !pos.can_make(m) {
            continue;
        }
        let mut new_pos = *pos;
        new_pos.make_move(m);
        proof {
            lemma_position_after(*pos, m, new_pos);
        }
        let mover = new_pos.side_to_move().switch();
        assert(mover == pos.side());
        if new_pos.pieces(mover, PieceType::King).0 == 0 {
            continue;
        }
        if !new_pos.is_legal(magics) {
            continue;
        }
        let below = perft(&mut new_pos, depth - 1, magics);
        nodes = nodes.saturating_add(below);
    }
    proof {
        assert(moves@.take(idx as int) =~= moves@);
    }
    nodes
}

} // verus!
