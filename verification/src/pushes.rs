//! Pawn pushes: the squares pawns can move to without capturing.
use vstd::prelude::*;

use crate::bitboard::{Bitboard, RANK_4, RANK_5};
use crate::bits::{bit_rank_line, group_bits, lemma_line_constants};
use crate::piece::Color;
use crate::square::rank_of;

verus! {

broadcast use group_bits;

/// A pawn of `color` on `from` can advance one square to `to`, which is free.
pub open spec fn single_push_to(color: Color, pawns: Bitboard, occupied: Bitboard, to: int) -> bool {
    &&& 0 <= to < 64
    &&& !occupied.has(to)
    &&& match color {
        Color::White => pawns.has(to - 8),
        Color::Black => pawns.has(to + 8),
    }
}

/// A pawn of `color` on its second rank can advance two squares to `to`; both squares are
/// free.
pub open spec fn double_push_to(color: Color, pawns: Bitboard, occupied: Bitboard, to: int) -> bool {
    &&& 0 <= to < 64
    &&& !occupied.has(to)
    &&& match color {
        Color::White => rank_of(to) == 3 && !occupied.has(to - 8) && pawns.has(to - 16),
        Color::Black => rank_of(to) == 4 && !occupied.has(to + 8) && pawns.has(to + 16),
    }
}

/// All squares the pawns of `color` can be pushed to: one square forward onto a free square,
/// or two squares forward from the starting rank over free squares.
pub fn pushes(color: Color, pawns: Bitboard, occupied: Bitboard) -> (r: Bitboard)
    ensures
        forall|t: int| #[trigger] r.has(t) == (single_push_to(color, pawns, occupied, t)
            || double_push_to(color, pawns, occupied, t)),
{
    let s = single_push(color, pawns, occupied);
    let d = double_push(color, pawns, occupied);
    let r = Bitboard(s.0 | d.0);
    assert forall|t: int| #[trigger] r.has(t) == (single_push_to(color, pawns, occupied, t)
        || double_push_to(color, pawns, occupied, t)) by {
        assert(s.has(t) == single_push_to(color, pawns, occupied, t));
        assert(d.has(t) == double_push_to(color, pawns, occupied, t));
    }
    r
}

fn single_push(color: Color, pawns: Bitboard, occupied: Bitboard) -> (r: Bitboard)
    ensures
        forall|t: int| #[trigger] r.has(t) == single_push_to(color, pawns, occupied, t),
{
    let step = match color {
        Color::White => pawns.north_one(),
        Color::Black => pawns.south_one(),
    };
    let r = Bitboard(step.0 & !occupied.0);
    assert forall|t: int| #[trigger] r.has(t) == single_push_to(color, pawns, occupied, t) by {
        assert(step.has(t) == (match color {
            Color::White => 8 <= t < 64 && pawns.has(t - 8),
            Color::Black => 0 <= t && pawns.has(t + 8),
        }));
    }
    r
}

fn double_push(color: Color, pawns: Bitboard, occupied: Bitboard) -> (r: Bitboard)
    ensures
        forall|t: int| #[trigger] r.has(t) == double_push_to(color, pawns, occupied, t),
{
    proof {
        lemma_line_constants();
    }
    let single = single_push(color, pawns, occupied);
    match color {
        Color::White => {
            let n = single.north_one();
            let r = Bitboard(n.0 & !occupied.0 & RANK_4);
            assert forall|t: int| #[trigger] r.has(t) == double_push_to(color, pawns, occupied, t) by {
                bit_rank_line(3, t);
                assert(n.has(t) == (8 <= t < 64 && single.has(t - 8)));
                assert(single.has(t - 8) == single_push_to(color, pawns, occupied, t - 8));
            }
            r
        },
        Color::Black => {
            let s = single.south_one();
            let r = Bitboard(s.0 & !occupied.0 & RANK_5);
            assert forall|t: int| #[trigger] r.has(t) == double_push_to(color, pawns, occupied, t) by {
                bit_rank_line(4, t);
                assert(s.has(t) == (0 <= t && single.has(t + 8)));
                assert(single.has(t + 8) == single_push_to(color, pawns, occupied, t + 8));
            }
            r
        },
    }
}

} // verus!
