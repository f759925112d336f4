//! Static evaluation: the material balance seen from the side to move.
use vstd::prelude::*;

use crate::bitboard::{lemma_pop_below_bound, popcount};
use crate::piece::{Color, PieceType};
use crate::position::Position;

verus! {

/// A score above every evaluation: a mate is scored relative to it.
pub const INF: i16 = 32767i16;

/// The number of plies a mate score can be away from `INF`.
pub const MAX_PLIES: i16 = 100i16;

/// The smallest score of a mate: scores of at least `MATE` (or at most `-MATE`) are mates.
pub const MATE: i16 = 32667i16;

/// The value of a piece type in centipawns: pawn 100, knight 300, bishop 300, rook 500,
/// queen 900, king 0.
pub open spec fn piece_value(pt: PieceType) -> int {
    match pt {
        PieceType::Pawn => 100,
        PieceType::Knight => 300,
        PieceType::Bishop => 300,
        PieceType::Rook => 500,
        PieceType::Queen => 900,
        PieceType::King => 0,
    }
}

/// The piece type with index `k` (pawn 0 up to king 5).
pub open spec fn type_at(k: int) -> PieceType {
    if k == 0 {
        PieceType::Pawn
    } else if k == 1 {
        PieceType::Knight
    } else if k == 2 {
        PieceType::Bishop
    } else if k == 3 {
        PieceType::Rook
    } else if k == 4 {
        PieceType::Queen
    } else {
        PieceType::King
    }
}

/// The value of the white pieces of type `pt` minus that of the black ones.
pub open spec fn material_term(pos: Position, pt: PieceType) -> int {
    piece_value(pt) * (popcount(pos.pieces_of(Color::White, pt).0) - popcount(pos.pieces_of(Color::Black, pt).0))
}

/// The material balance (white minus black) over the first `k` piece types.
pub open spec fn material_upto(pos: Position, k: int) -> int
    decreases k,
{
    if k <= 0 {
        0
    } else {
        material_upto(pos, k - 1) + material_term(pos, type_at(k - 1))
    }
}

/// The material balance, white minus black.
pub open spec fn material(pos: Position) -> int {
    material_upto(pos, 6)
}

/// The evaluation of `pos`: the material balance from the side to move's point of view.
pub open spec fn evaluation_spec(pos: Position) -> int {
    match pos.side() {
        Color::White => material(pos),
        Color::Black => -material(pos),
    }
}

/// The evaluation can be computed in 16 bits: every term, every partial sum and the result
/// fit in an `i16`.
pub open spec fn evaluation_in_range(pos: Position) -> bool {
    &&& forall|k: int| 0 <= k < 6 ==> i16::MIN <= #[trigger] material_term(pos, type_at(k)) <= i16::MAX
    &&& forall|k: int| 0 <= k <= 6 ==> i16::MIN <= #[trigger] material_upto(pos, k) <= i16::MAX
    &&& i16::MIN <= evaluation_spec(pos) <= i16::MAX
}

/// The number of pieces of color `c` and type `pt` on `pos`.
pub open spec fn count(pos: Position, c: Color, pt: PieceType) -> int {
    popcount(pos.pieces_of(c, pt).0) as int
}

/// The evaluation counts a pawn 100, a knight 300, a bishop 300, a rook 500, a queen 900 and
/// a king nothing: it is the difference of those sums over the white and the black pieces,
/// seen from the side to move.
pub proof fn lemma_evaluation_values(pos: Position)
    ensures
        evaluation_spec(pos) == ({
            let white_minus_black = 100 * (count(pos, Color::White, PieceType::Pawn) - count(pos, Color::Black, PieceType::Pawn))
                + 300 * (count(pos, Color::White, PieceType::Knight) - count(pos, Color::Black, PieceType::Knight))
                + 300 * (count(pos, Color::White, PieceType::Bishop) - count(pos, Color::Black, PieceType::Bishop))
                + 500 * (count(pos, Color::White, PieceType::Rook) - count(pos, Color::Black, PieceType::Rook))
                + 900 * (count(pos, Color::White, PieceType::Queen) - count(pos, Color::Black, PieceType::Queen));
            if pos.side() == Color::White {
                white_minus_black
            } else {
                -white_minus_black
            }
        }),
{
    assert(material_upto(pos, 0) == 0);
    assert(material_upto(pos, 1) == material_term(pos, PieceType::Pawn));
    assert(material_upto(pos, 2) == material_upto(pos, 1) + material_term(pos, PieceType::Knight));
    assert(material_upto(pos, 3) == material_upto(pos, 2) + material_term(pos, PieceType::Bishop));
    assert(material_upto(pos, 4) == material_upto(pos, 3) + material_term(pos, PieceType::Rook));
    assert(material_upto(pos, 5) == material_upto(pos, 4) + material_term(pos, PieceType::Queen));
    assert(material_upto(pos, 6) == material_upto(pos, 5) + material_term(pos, PieceType::King));
    assert(material_term(pos, PieceType::King) == 0);
}

/// The value of piece type `pt`.
fn piece_type_value(pt: PieceType) -> (v: i16)
    ensures
        v == piece_value(pt),
{
    match pt {
        PieceType::Pawn => 100,
        PieceType::Knight => 300,
        PieceType::Bishop => 300,
        PieceType::Rook => 500,
        PieceType::Queen => 900,
        PieceType::King => 0,
    }
}

/// The evaluation of `pos`, or `None` where it does not fit in 16 bits.
pub fn checked_evaluation(pos: &Position) -> (r: Option<i16>)
    ensures
        r is Some == evaluation_in_range(*pos),
        r matches Some(v) ==> v == evaluation_spec(*pos),
{
    let all = PieceType::all();
    let mut r: i16 = 0;
    let mut k: usize = 0;
    while k < 6
        invariant
            k <= 6,
            forall|i: int| 0 <= i < 6 ==> #[trigger] all[i] as int == i,
            r == material_upto(*pos, k as int),
            forall|j: int| 0 <= j < k ==> i16::MIN <= #[trigger] material_term(*pos, type_at(j)) <= i16::MAX,
            forall|j: int| 0 <= j <= k ==> i16::MIN <= #[trigger] material_upto(*pos, j) <= i16::MAX,
        decreases 6 - k,
    {
        let pt = all[k];
        assert(pt == type_at(k as int));
        let white = pos.pieces(Color::White, pt).population_count();
        let black = pos.pieces(Color::Black, pt).population_count();
        proof {
            lemma_pop_below_bound(pos.pieces_of(Color::White, pt).0, 64);
            lemma_pop_below_bound(pos.pieces_of(Color::Black, pt).0, 64);
        }
        let diff = white as i32 - black as i32;
        let value = piece_type_value(pt) as i32;
        assert(-64 <= diff <= 64 && 0 <= value <= 900 ==> -57600 <= value * diff <= 57600) by (nonlinear_arith);
        let term = value * diff;
        assert(term == material_term(*pos, type_at(k as int)));
        if term < -32768 || term > 32767 {
            return None;
        }
        let sum = r as i32 + term;
        if sum < -32768 || sum > 32767 {
            assert(material_upto(*pos, k + 1) == sum);
            return None;
        }
        r = sum as i16;
        k = k + 1;
    }
    match pos.side_to_move() {
        Color::White => Some(r),
        Color::Black => {
            if r == i16::MIN {
                None
            } else {
                Some(-r)
            }
        },
    }
}

/// The evaluation of `pos`: the material balance in centipawns (pawn 100, knight and bishop
/// 300, rook 500, queen 900) from the side to move's point of view.
pub fn evaluation(pos: &Position) -> (v: i16)
    requires
        evaluation_in_range(*pos),
    ensures
        v == evaluation_spec(*pos),
{
    match checked_evaluation(pos) {
        Some(v) => v,
        None => 0,
    }
}

/// A score is a mate score: at least `MATE` for the side that mates, at most `-MATE` for
/// the side that is mated.
pub fn is_mate(score: i16) -> (r: bool)
    ensures
        r == (score >= MATE || score <= -MATE),
{
    score >= MATE || score <= -MATE
}

} // verus!
