//! Search: explores the game tree with negamax and alpha-beta pruning to find the best move.
use std::sync::atomic::{AtomicBool, Ordering};
use std::sync::Arc;
use vstd::prelude::*;

use crate::attacks::SliderMagics;
use crate::chessmove::Move;
use crate::evaluation::{INF, MATE, checked_evaluation, evaluation_in_range, evaluation_spec, is_mate};
use crate::piece::PieceType;
use crate::position::{
    Position, can_make_move, castling_checkable, has_king, in_check, lemma_position_after, position_after,
    pseudo_legal_moves,
};
use crate::principal_variation::{MAX_DEPTH, PrincipalVariation};

verus! {

/// The larger of two integers.
pub open spec fn max_int(a: int, b: int) -> int {
    if a >= b {
        a
    } else {
        b
    }
}

/// The score of a position the search does not expand: its evaluation, or 0 where that does
/// not fit in 16 bits or is below `-INF`.
pub open spec fn leaf_score(pos: Position) -> int {
    if evaluation_in_range(pos) && evaluation_spec(pos) >= -INF {
        evaluation_spec(pos)
    } else {
        0
    }
}

/// Move `m` of `pos` is searched: it can be made, and after it the mover's king is on the
/// board and not in check.
pub open spec fn searched_move(pos: Position, m: Move) -> bool {
    &&& can_make_move(pos, m)
    &&& has_king(position_after(pos, m), pos.side())
    &&& !in_check(position_after(pos, m), pos.side())
}

/// One of the first `k` moves of `ms` is searched.
pub open spec fn some_searched(pos: Position, ms: Seq<Move>, k: int) -> bool
    decreases k,
{
    k > 0 && (searched_move(pos, ms[k - 1]) || some_searched(pos, ms, k - 1))
}

/// The negamax value of `pos` searched to `depth` plies at distance `ply` from the root:
/// the leaf score at depth 0; otherwise the best of the searched moves, each scored as the
/// negated value of the position after it; a side without a searched move is mated
/// (`-INF + ply`) when in check and scores 0 when not in check or without a king. A position
/// whose castle moves cannot be checked scores 0.
pub open spec fn negamax(pos: Position, depth: nat, ply: int) -> int
    decreases depth, pseudo_legal_moves(pos).len() + 1,
{
    if depth == 0 {
        leaf_score(pos)
    } else if !castling_checkable(pos) {
        0
    } else if !some_searched(pos, pseudo_legal_moves(pos), pseudo_legal_moves(pos).len() as int) {
        if has_king(pos, pos.side()) && in_check(pos, pos.side()) {
            -INF + ply
        } else {
            0
        }
    } else {
        best_child(pos, pseudo_legal_moves(pos), pseudo_legal_moves(pos).len() as int, depth, ply)
    }
}

/// The best score among the searched moves of the first `k` of `ms`, `-INF` if there is none.
pub open spec fn best_child(pos: Position, ms: Seq<Move>, k: int, depth: nat, ply: int) -> int
    decreases depth, k,
{
    if k <= 0 || depth == 0 {
        -INF
    } else {
        let prev = best_child(pos, ms, k - 1, depth, ply);
        if searched_move(pos, ms[k - 1]) {
            max_int(prev, -negamax(position_after(pos, ms[k - 1]), (depth - 1) as nat, ply + 1))
        } else {
            prev
        }
    }
}

/// More moves give a best score at least as high.
proof fn lemma_best_child_grows(pos: Position, ms: Seq<Move>, k: int, l: int, depth: nat, ply: int)
    requires
        k <= l,
    ensures
        best_child(pos, ms, k, depth, ply) <= best_child(pos, ms, l, depth, ply),
    decreases l - k,
{
    if k < l {
        lemma_best_child_grows(pos, ms, k, l - 1, depth, ply);
    }
}

/// A move searched among the first `k` is searched among the first `l >= k`.
proof fn lemma_some_searched_grows(pos: Position, ms: Seq<Move>, k: int, l: int)
    requires
        k <= l,
    ensures
        some_searched(pos, ms, k) ==> some_searched(pos, ms, l),
    decreases l - k,
{
    if k < l {
        lemma_some_searched_grows(pos, ms, k, l - 1);
    }
}

/// Scores stay between `-INF` and `INF`.
proof fn lemma_negamax_range(pos: Position, depth: nat, ply: int)
    requires
        0 <= ply,
        ply + depth <= 255,
    ensures
        -INF <= negamax(pos, depth, ply) <= INF,
    decreases depth, pseudo_legal_moves(pos).len() + 1,
{
    if depth > 0 && castling_checkable(pos) && some_searched(pos, pseudo_legal_moves(pos), pseudo_legal_moves(pos).len() as int) {
        lemma_best_child_range(pos, pseudo_legal_moves(pos), pseudo_legal_moves(pos).len() as int, depth, ply);
    }
}

proof fn lemma_best_child_range(pos: Position, ms: Seq<Move>, k: int, depth: nat, ply: int)
    requires
        0 <= ply,
        ply + depth <= 255,
        k <= pseudo_legal_moves(pos).len(),
    ensures
        -INF <= best_child(pos, ms, k, depth, ply) <= INF,
    decreases depth, k,
{
    if k > 0 && depth > 0 {
        lemma_best_child_range(pos, ms, k - 1, depth, ply);
        lemma_negamax_range(position_after(pos, ms[k - 1]), (depth - 1) as nat, ply + 1);
    }
}

/// The state of a search: the nodes visited, the best line and score of the last completed
/// depth, and a flag that stops the search when set. `halted` records whether the search has
/// seen the flag set.
pub struct Search {
    nodes: u64,
    pv: Option<PrincipalVariation>,
    score: Option<i16>,
    stop: Arc<AtomicBool>,
    halted: Ghost<bool>,
}

impl Default for Search {
    fn default() -> (s: Search)
        ensures
            s.node_count() == 0,
            s.best_line() is None,
            s.best_score() is None,
            !s.halted(),
            s.wf(),
    {
        Search { nodes: 0, pv: None, score: None, stop: Arc::new(AtomicBool::new(false)), halted: Ghost(false) }
    }
}

/// `pos` has a move that a search to `depth` plies makes: the depth is not 0, its castle
/// moves can be checked and one of its moves is searched.
pub open spec fn has_searched_move(pos: Position, depth: nat) -> bool {
    &&& depth > 0
    &&& castling_checkable(pos)
    &&& some_searched(pos, pseudo_legal_moves(pos), pseudo_legal_moves(pos).len() as int)
}

/// `line` leads to the score `v`: it starts with a searched move of `pos` whose position
/// after it, searched one ply less deep, has the negated value `v`.
pub open spec fn leads_to(pos: Position, line: Seq<Move>, v: int, depth: nat, ply: int) -> bool {
    &&& line.len() > 0
    &&& searched_move(pos, line[0])
    &&& -negamax(position_after(pos, line[0]), (depth - 1) as nat, ply + 1) == v
}

/// `line` is the best line of a search of `pos` to `depth` plies of value `v`: it leads to
/// `v` where `pos` has a searched move and `v` lies strictly between `-INF` and `INF`, and it
/// is empty where `pos` has no searched move.
pub open spec fn best_line_for(pos: Position, line: Seq<Move>, v: int, depth: nat, ply: int) -> bool {
    &&& has_searched_move(pos, depth) && -INF < v < INF ==> leads_to(pos, line, v, depth, ply)
    &&& !has_searched_move(pos, depth) ==> line.len() == 0
}

/// The line `line` was left as `before`, emptied, or starts with a searched move of `pos`.
pub open spec fn line_from(pos: Position, line: Seq<Move>, before: Seq<Move>) -> bool {
    ||| line == before
    ||| line.len() == 0
    ||| line.len() > 0 && pseudo_legal_moves(pos).contains(line[0]) && searched_move(pos, line[0])
}

/// The kept line, if any, is empty or starts with a searched move of `pos`.
pub open spec fn kept_line_from(pos: Position, line: Option<PrincipalVariation>) -> bool {
    line matches Some(l) ==> (l.view().len() > 0 ==> pseudo_legal_moves(pos).contains(l.view()[0])
        && searched_move(pos, l.view()[0]))
}

/// What alpha-beta search with the window `(alpha, beta)` returns for a position of value
/// `v`: the value itself inside the window, a bound on it outside (fail-soft).
pub open spec fn within_window(r: int, alpha: int, beta: int, v: int) -> bool {
    &&& alpha < r < beta ==> r == v
    &&& r <= alpha ==> v <= r
    &&& r >= beta ==> v >= r
}

impl Search {
    /// The number of nodes visited.
    pub closed spec fn node_count(&self) -> u64 {
        self.nodes
    }

    /// The best line of the last completed depth.
    pub closed spec fn best_line(&self) -> Option<PrincipalVariation> {
        self.pv
    }

    /// The score of the last completed depth.
    pub closed spec fn best_score(&self) -> Option<i16> {
        self.score
    }

    /// The flag that stops the search.
    pub closed spec fn stop_flag(&self) -> Arc<AtomicBool> {
        self.stop
    }

    /// The search has seen the stop flag set.
    pub closed spec fn halted(&self) -> bool {
        self.halted@
    }

    /// The best lines the search keeps are well formed, and a score comes with its line.
    pub closed spec fn wf(&self) -> bool {
        &&& self.pv matches Some(pv) ==> pv.wf()
        &&& self.score is Some ==> self.pv is Some
    }

    /// A search that stops when `stop` is set.
    pub fn new(stop: Arc<AtomicBool>) -> (s: Search)
        ensures
            s.stop_flag() == stop,
            s.node_count() == 0,
            s.best_line() is None,
            s.best_score() is None,
            !s.halted(),
            s.wf(),
    {
        Search { nodes: 0, pv: None, score: None, stop, halted: Ghost(false) }
    }

    /// The number of nodes visited so far.
    pub fn nodes(&self) -> (n: u64)
        ensures
            n == self.node_count(),
    {
        self.nodes
    }

    /// The best line of the last completed depth.
    pub fn pv(&self) -> (r: Option<PrincipalVariation>)
        requires
            self.wf(),
        ensures
            r is Some == self.best_line() is Some,
            r matches Some(line) ==> line.wf() && line.view() == self.best_line()->0.view(),
    {
        match &self.pv {
            Some(line) => Some(line.duplicate()),
            None => None,
        }
    }

    /// The score of the last completed depth.
    pub fn score(&self) -> (r: Option<i16>)
        ensures
            r == self.best_score(),
    {
        self.score
    }

    /// The stop flag is set.
    fn stopped(&mut self) -> (r: bool)
        ensures
            final(self).halted() == (old(self).halted() || r),
            final(self).stop_flag() == old(self).stop_flag(),
            final(self).node_count() == old(self).node_count(),
            final(self).best_line() == old(self).best_line(),
            final(self).best_score() == old(self).best_score(),
    {
        let r = self.stop.load(Ordering::Relaxed);
        proof {
            self.halted@ = self.halted@ || r;
        }
        r
    }

    /// Searches `pos` to `depth` plies with negamax and alpha-beta pruning and returns its
    /// score from the side to move's point of view. `pv` is filled with the best line found:
    /// when the score lies inside the window it starts with the move that gave it, and it is
    /// empty where there is no move to search.
    ///
    /// - `alpha`: the best score the side to move can guarantee so far
    /// - `beta`: the best score the opponent can guarantee so far
    /// - `ply`: the distance from the root, which makes nearer mates score higher
    ///
    /// Unless the stop flag was seen, the score of the position is its negamax value
    /// inside the window and a bound on it outside. When the stop flag is set the search
    /// returns 0 at once. Moves that cannot be made on the position are left out.
    fn alpha_beta(
        &mut self,
        pos: &Position,
        alpha: i16,
        beta: i16,
        depth: u8,
        ply: u8,
        pv: &mut PrincipalVariation,
        magics: &SliderMagics,
    ) -> (r: i16)
        requires
            magics.wf(),
            old(pv).wf(),
            -INF <= alpha < beta <= INF,
            depth <= MAX_DEPTH,
            ply + depth <= 255,
        ensures
            -INF <= r <= INF,
            final(self).best_line() == old(self).best_line(),
            final(self).best_score() == old(self).best_score(),
            old(self).halted() ==> final(self).halted(),
            !final(self).halted() ==> within_window(r as int, alpha as int, beta as int,
                negamax(*pos, depth as nat, ply as int)),
            final(pv).wf(),
            final(pv).view().len() <= max_int(old(pv).view().len() as int, depth as int),
            line_from(*pos, final(pv).view(), old(pv).view()),
            !final(self).halted() && alpha < r < beta && has_searched_move(*pos, depth as nat)
                ==> leads_to(*pos, final(pv).view(), r as int, depth as nat, ply as int),
            !final(self).halted() && !has_searched_move(*pos, depth as nat) ==> r == negamax(*pos,
                depth as nat, ply as int) && final(pv).view().len() == 0,
        decreases depth,
    {
        // Time is up, tear down directly
        if self.stopped() {
            return 0;
        }
        if self.nodes < u64::MAX {
            self.nodes = self.nodes + 1;
        }
        if depth == 0 {
            pv.clear();
            return match checked_evaluation(pos) {
                Some(v) => if v >= -INF {
                    v
                } else {
                    0
                },
                None => 0,
            };
        }
        if !pos.castling_is_checkable(magics) {
            pv.clear();
            return 0;
        }
        let ghost alpha0 = alpha as int;
        let mut alpha = alpha;
        let mut best_score: i16 = -INF;
        let mut child_pv = PrincipalVariation::default();
        let mut legal_moves: bool = false;
        let moves = pos.pseudo_legal_move_vec(magics);
        let ghost d = depth as nat;
        let ghost pl = ply as int;
        let mut idx: usize = 0;
        while idx < moves.len()
            invariant_except_break
                best_score < beta,
                !self.halted() ==> best_child(*pos, moves@, idx as int, d, pl) <= best_score,
                !self.halted() && best_score > alpha0 ==> best_child(*pos, moves@, idx as int, d, pl)
                    == best_score,
                !self.halted() && best_score > alpha0 ==> leads_to(*pos, pv.view(), best_score as int, d, pl),
            invariant
                magics.wf(),
                idx <= moves.len(),
                moves@ == pseudo_legal_moves(*pos),
                castling_checkable(*pos),
                1 <= depth <= MAX_DEPTH,
                d == depth as nat,
                pl == ply as int,
                ply + depth <= 255,
                -INF <= alpha0 < beta <= INF,
                -INF <= best_score <= INF,
                alpha as int == max_int(alpha0, best_score as int),
                pv.wf(),
                pv.view().len() <= max_int(old(pv).view().len() as int, depth as int),
                line_from(*pos, pv.view(), old(pv).view()),
                child_pv.wf(),
                child_pv.view().len() <= depth - 1,
                self.best_line() == old(self).best_line(),
                self.best_score() == old(self).best_score(),
                old(self).halted() ==> self.halted(),
                !self.halted() ==> legal_moves == some_searched(*pos, moves@, idx as int),
                !legal_moves ==> best_score == -INF,
            ensures
                best_score < beta ==> idx == moves.len(),
                best_score < beta && !self.halted() ==> best_child(*pos, moves@, idx as int, d, pl)
                    <= best_score,
                best_score < beta && !self.halted() && best_score > alpha0 ==> best_child(*pos,
                    moves@, idx as int, d, pl) == best_score,
                best_score >= beta ==> legal_moves,
                best_score >= beta && !self.halted() ==> best_child(*pos, moves@, idx as int, d, pl)
                    >= best_score,
                best_score < beta && !self.halted() && best_score > alpha0 ==> leads_to(*pos, pv.view(),
                    best_score as int, d, pl),
            decreases moves.len() - idx,
        {
            // Time is up, tear down directly
            if self.stopped() {
                return 0;
            }
            let m = moves[idx];
            let ghost k = idx as int;
            idx = idx + 1;
            proof {
                assert(moves@[k] == m);
            }
            if !pos.can_make(m) {
                continue;
            }
            // Make the move on a copy; go on only if the new position is legal
            let mut new_pos = *pos;
            new_pos.make_move(m);
            proof {
                lemma_position_after(*pos, m, new_pos);
            }
            let mover = new_pos.side_to_move().switch();
            assert(mover == pos.side());
            if new_pos.pieces(mover, PieceType::King).0 == 0 {
                continue;
            }
            if !new_pos.is_legal(magics) {
                continue;
            }
            legal_moves = true;
            proof {
                assert(moves@.contains(m));
                assert(searched_move(*pos, m));
            }
            let ghost best_before = best_score as int;
            let ghost alpha_before = alpha as int;
            let child_score = self.alpha_beta(&new_pos, -beta, -alpha, depth - 1, ply + 1, &mut child_pv, magics);
            let score = -child_score;
            proof {
                if !self.halted() {
                    let v = negamax(new_pos, (d - 1) as nat, pl + 1);
                    assert(searched_move(*pos, m));
                    assert(best_child(*pos, moves@, k + 1, d, pl) == max_int(best_child(*pos, moves@, k, d, pl), -v));
                    assert(within_window(child_score as int, -beta as int, -alpha_before, v));
                }
            }
            // A better result than the best so far becomes the best; if it also beats the
            // guaranteed score alpha, it becomes alpha and the line is taken over
            if score > best_score {
                best_score = score;
                if score > alpha {
                    pv.update(m, &child_pv);
                    alpha = score;
                }
            }
            // The opponent will not allow a score of beta or more: prune the rest
            if score >= beta {
                break;
            }
        }
        proof {
            if !self.halted() {
                lemma_best_child_grows(*pos, moves@, idx as int, moves@.len() as int, d, pl);
                lemma_some_searched_grows(*pos, moves@, idx as int, moves@.len() as int);
            }
        }
        // No legal moves: checkmate or stalemate, and no line
        if !legal_moves {
            pv.clear();
            if pos.pieces(pos.side_to_move(), PieceType::King).0 == 0 {
                return 0;
            }
            return if pos.is_check(magics) {
                -INF + ply as i16
            } else {
                0
            };
        }
        best_score
    }

    /// Searches `pos` to `depth` plies. Unless the stop flag is set when it is done, the score
    /// and the best line are kept and the score is returned: the negamax value of `pos`,
    /// unless the stop flag was seen.
    pub fn search_depth(&mut self, pos: &Position, depth: u8, magics: &SliderMagics) -> (r: Option<i16>)
        requires
            magics.wf(),
            old(self).wf(),
            depth <= MAX_DEPTH,
        ensures
            final(self).wf(),
            old(self).halted() ==> final(self).halted(),
            !final(self).halted() ==> r is Some,
            !final(self).halted() ==> r == Some(negamax(*pos, depth as nat, 0) as i16),
            r matches Some(score) ==> -INF <= score <= INF && final(self).best_score() == Some(score)
                && final(self).best_line() is Some,
            r is Some ==> kept_line_from(*pos, final(self).best_line()),
            !final(self).halted() ==> best_line_for(*pos, final(self).best_line()->0.view(), negamax(*pos,
                depth as nat, 0), depth as nat, 0),
            r is None ==> final(self).best_score() == old(self).best_score() && final(self).best_line() == old(self).best_line(),
    {
        let mut pv = PrincipalVariation::default();
        let score = self.alpha_beta(pos, -INF, INF, depth, 0, &mut pv, magics);
        proof {
            lemma_negamax_range(*pos, depth as nat, 0);
        }
        if self.stopped() {
            return None;
        }
        self.score = Some(score);
        self.pv = Some(pv);
        Some(score)
    }

    /// The depth iterative deepening searches after the search of `depth` gave `result`, or
    /// `None` where it stops: the stop flag was seen (no result), the score is a mate, or
    /// `depth` is the last depth `max_depth`.
    pub fn next_depth(depth: u8, result: Option<i16>, max_depth: u8) -> (r: Option<u8>)
        ensures
            r == match result {
                None => None,
                Some(score) => if score >= MATE || score <= -MATE || depth >= max_depth {
                    None
                } else {
                    Some((depth + 1) as u8)
                },
            },
    {
        match result {
            None => None,
            Some(score) => if is_mate(score) || depth >= max_depth {
                None
            } else {
                Some(depth + 1)
            },
        }
    }

    /// Iterative deepening: searches `pos` to depth 1, 2, ... up to `max_depth`, keeping the
    /// result of each completed depth, and stops early when the stop flag is set or a mate is
    /// found.
    pub fn iterative_search(&mut self, pos: &Position, max_depth: u8, magics: &SliderMagics)
        requires
            magics.wf(),
            old(self).wf(),
            max_depth <= MAX_DEPTH,
        ensures
            final(self).wf(),
            !final(self).halted() && max_depth >= 1 ==> final(self).best_score() is Some,
            !final(self).halted() && max_depth >= 1 ==> exists|d: int| 1 <= d <= max_depth
                && final(self).best_score() == Some(#[trigger] negamax(*pos, d as nat, 0) as i16)
                && (d == max_depth || negamax(*pos, d as nat, 0) >= MATE || negamax(*pos, d as nat, 0) <= -MATE)
                && best_line_for(*pos, final(self).best_line()->0.view(), negamax(*pos, d as nat, 0), d as nat, 0)
                && forall|e: int| 1 <= e < d ==> -MATE < #[trigger] negamax(*pos, e as nat, 0) < MATE,
            final(self).best_line() == old(self).best_line() || kept_line_from(*pos, final(self).best_line()),
    {
        if max_depth == 0 {
            return;
        }
        let mut depth: u8 = 1;
        loop
            invariant
                magics.wf(),
                self.wf(),
                1 <= depth <= max_depth,
                max_depth <= MAX_DEPTH,
                depth > 1 && !self.halted() ==> self.best_score() is Some,
                depth > 1 && !self.halted() ==> self.best_score() == Some(negamax(*pos, (depth - 1) as nat, 0) as i16)
                    && best_line_for(*pos, self.best_line()->0.view(), negamax(*pos, (depth - 1) as nat, 0), (depth - 1) as nat, 0),
                self.best_line() == old(self).best_line() || kept_line_from(*pos, self.best_line()),
                !self.halted() ==> forall|e: int| 1 <= e < depth ==> -MATE < #[trigger] negamax(*pos, e as nat, 0) < MATE,
            decreases max_depth - depth,
        {
            let result = self.search_depth(pos, depth, magics);
            match Self::next_depth(depth, result, max_depth) {
                Some(next) => {
                    proof {
                        if !self.halted() {
                            lemma_negamax_range(*pos, depth as nat, 0);
                            assert(negamax(*pos, depth as nat, 0) == result->0);
                            assert forall|e: int| 1 <= e < next implies -MATE < #[trigger] negamax(*pos, e as nat, 0) < MATE by {
                                if e == depth {
                                    assert(negamax(*pos, depth as nat, 0) == result->0);
                                }
                            }
                        }
                    }
                    depth = next;
                },
                None => {
                    proof {
                        if !self.halted() {
                            lemma_negamax_range(*pos, depth as nat, 0);
                            let d = depth as int;
                            assert(self.best_score() == Some(negamax(*pos, d as nat, 0) as i16));
                            assert(negamax(*pos, d as nat, 0) == result->0);
                        }
                    }
                    return;
                },
            }
        }
    }
}

} // verus!
