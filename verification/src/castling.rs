//! Castling rights and castle moves for chess positions.
//!
//! [`Castling`] is a set of castling rights, one bit per right:
//! bit 0 white king-side, bit 1 white queen-side, bit 2 black king-side, bit 3 black queen-side.
//! [`CastleMove`] is one specific castling move and [`CastleSide`] tells king-side from
//! queen-side.
use vstd::prelude::*;
use vstd::std_specs::convert::FromSpecImpl;

use crate::piece::Color;

verus! {

/// A set of castling rights, stored as bitflags.
#[derive(Debug, Clone, Copy, PartialEq, Eq, Structural)]
pub struct Castling(u8);

/// The bit of a single castling right.
pub open spec fn right_bit(cm: CastleMove) -> u8 {
    match cm {
        CastleMove::WhiteKing => 1u8,
        CastleMove::WhiteQueen => 2u8,
        CastleMove::BlackKing => 4u8,
        CastleMove::BlackQueen => 8u8,
    }
}

proof fn bv_rights(a: u8, c: u8)
    by (bit_vector)
    ensures
        c != 0u8 ==> (a | c) & c != 0u8,
        (a & !c) & c == 0u8,
{
}

impl Castling {
    /// The bits of the set of rights.
    pub closed spec fn bits(self) -> u8 {
        self.0
    }

    /// No castling rights.
    pub fn none() -> (r: Castling)
        ensures
            r.bits() == 0,
    {
        Castling(0)
    }

    /// White can castle king-side.
    pub fn white_king() -> (r: Castling)
        ensures
            r.bits() == 1,
    {
        Castling(1)
    }

    /// White can castle queen-side.
    pub fn white_queen() -> (r: Castling)
        ensures
            r.bits() == 2,
    {
        Castling(2)
    }

    /// Black can castle king-side.
    pub fn black_king() -> (r: Castling)
        ensures
            r.bits() == 4,
    {
        Castling(4)
    }

    /// Black can castle queen-side.
    pub fn black_queen() -> (r: Castling)
        ensures
            r.bits() == 8,
    {
        Castling(8)
    }

    /// All castling rights.
    pub fn any() -> (r: Castling)
        ensures
            r.bits() == 15,
    {
        Castling(15)
    }

    /// Returns `true` if `self` has any of the rights in `castling` set.
    pub fn contains(self, castling: Castling) -> (r: bool)
        ensures
            r == (self.bits() & castling.bits() != 0),
    {
        self.0 & castling.0 != 0
    }

    /// Returns the rights from both `self` and `castling`.
    pub fn add(self, castling: Castling) -> (r: Castling)
        ensures
            r.bits() == self.bits() | castling.bits(),
    {
        Castling(self.0 | castling.0)
    }

    /// Returns the rights of `self` without those in `castling`.
    pub fn remove(self, castling: Castling) -> (r: Castling)
        ensures
            r.bits() == self.bits() & !castling.bits(),
    {
        Castling(self.0 & !castling.0)
    }

    /// The rights of the set built from the bits `b`.
    pub closed spec fn from_bits(b: u8) -> Castling {
        Castling(b)
    }
}

/// The set built from the bits `b` has the bits `b`.
pub broadcast proof fn lemma_from_bits(b: u8)
    ensures
        #[trigger] Castling::from_bits(b).bits() == b,
{
}

/// A set of rights is determined by its bits.
pub proof fn lemma_bits_determine(a: Castling, b: Castling)
    ensures
        a.bits() == b.bits() ==> a == b,
{
}

/// A right that was added is contained afterwards, and one that was removed is not, whatever
/// the set held before.
pub proof fn lemma_add_remove(x: Castling, c: Castling)
    ensures
        c.bits() != 0 ==> (x.bits() | c.bits()) & c.bits() != 0,
        (x.bits() & !c.bits()) & c.bits() == 0,
{
    bv_rights(x.bits(), c.bits());
}

/// The set `s` holds the single right of the castle move `cm`.
pub open spec fn has_right(s: Castling, cm: CastleMove) -> bool {
    s.bits() & right_bit(cm) != 0
}

proof fn bv_contains(x: u8, y: u8, z: u8)
    by (bit_vector)
    ensures
        x < 16u8 ==> (x & y != 0u8 <==> (x & 1u8 != 0u8 && y & 1u8 != 0u8) || (x & 2u8 != 0u8 && y & 2u8
            != 0u8) || (x & 4u8 != 0u8 && y & 4u8 != 0u8) || (x & 8u8 != 0u8 && y & 8u8 != 0u8)),
        (x & (y | z) != 0u8) == (x & y != 0u8 || x & z != 0u8),
        0u8 & y == 0u8,
        x < 16u8 && y < 16u8 ==> (x | y) < 16u8 && (x & !y) < 16u8,
{
}

/// What `contains` answers: a set of rights (one built from the four single rights, so below
/// 16) contains another exactly when both hold one of the four single rights; it contains a
/// union when it contains either part; the empty set contains nothing; and the rights stay
/// below 16 under `add` and `remove`.
pub proof fn lemma_contains_rights(s: Castling, a: Castling, b: Castling)
    requires
        s.bits() < 16,
    ensures
        (s.bits() & a.bits() != 0) <==> exists|cm: CastleMove| #[trigger] has_right(s, cm) && has_right(a, cm),
        (s.bits() & (a.bits() | b.bits()) != 0) == ((s.bits() & a.bits() != 0) || (s.bits() & b.bits() != 0)),
        Castling::from_bits(0).bits() & a.bits() == 0,
        a.bits() < 16 && b.bits() < 16 ==> (a.bits() | b.bits()) < 16 && (a.bits() & !b.bits()) < 16,
{
    bv_contains(s.bits(), a.bits(), b.bits());
    bv_contains(a.bits(), b.bits(), 0u8);
    if s.bits() & a.bits() != 0 {
        if s.bits() & 1u8 != 0u8 && a.bits() & 1u8 != 0u8 {
            assert(has_right(s, CastleMove::WhiteKing) && has_right(a, CastleMove::WhiteKing));
        } else if s.bits() & 2u8 != 0u8 && a.bits() & 2u8 != 0u8 {
            assert(has_right(s, CastleMove::WhiteQueen) && has_right(a, CastleMove::WhiteQueen));
        } else if s.bits() & 4u8 != 0u8 && a.bits() & 4u8 != 0u8 {
            assert(has_right(s, CastleMove::BlackKing) && has_right(a, CastleMove::BlackKing));
        } else {
            assert(has_right(s, CastleMove::BlackQueen) && has_right(a, CastleMove::BlackQueen));
        }
    }
    if exists|cm: CastleMove| #[trigger] has_right(s, cm) && has_right(a, cm) {
        let cm = choose|cm: CastleMove| #[trigger] has_right(s, cm) && has_right(a, cm);
        assert(s.bits() & a.bits() != 0);
    }
}

proof fn bv_remove(x: u8, y: u8, r: u8, q: u8)
    by (bit_vector)
    requires
        r == 1u8 || r == 2u8 || r == 4u8 || r == 8u8,
        q == 1u8 || q == 2u8 || q == 4u8 || q == 8u8,
    ensures
        ((x & !y) & r != 0u8) == (x & r != 0u8 && y & r == 0u8),
        15u8 & r != 0u8,
        (q & r == 0u8) == (q != r),
{
}

/// What `remove` leaves: a single right is held after removing `c` exactly when it was held
/// and `c` does not hold it; removing a castle move's own right from all rights leaves exactly
/// the other three.
pub proof fn lemma_remove_rights(s: Castling, c: Castling, cm: CastleMove)
    ensures
        ((s.bits() & !c.bits()) & right_bit(cm) != 0) == (has_right(s, cm) && !has_right(c, cm)),
        forall|other: CastleMove| #![trigger right_bit(other)] ((15u8 & !right_bit(cm)) & right_bit(other) != 0) == (other != cm),
{
    bv_remove(s.bits(), c.bits(), right_bit(cm), right_bit(cm));
    assert forall|other: CastleMove| #![trigger right_bit(other)] ((15u8 & !right_bit(cm)) & right_bit(other) != 0) == (other
        != cm) by {
        bv_remove(15u8, right_bit(cm), right_bit(other), right_bit(cm));
        assert((right_bit(cm) == right_bit(other)) == (cm == other));
    }
}

impl Default for Castling {
    fn default() -> (r: Castling)
        ensures
            r.bits() == 0,
    {
        Castling(0)
    }
}

impl From<CastleMove> for Castling {
    fn from(value: CastleMove) -> (r: Castling)
        ensures
            r.bits() == right_bit(value),
    {
        match value {
            CastleMove::WhiteKing => Castling(1),
            CastleMove::WhiteQueen => Castling(2),
            CastleMove::BlackKing => Castling(4),
            CastleMove::BlackQueen => Castling(8),
        }
    }
}

impl FromSpecImpl<CastleMove> for Castling {
    open spec fn obeys_from_spec() -> bool {
        true
    }

    open spec fn from_spec(v: CastleMove) -> Castling {
        Castling::from_bits(right_bit(v))
    }
}

/// King-side or queen-side.
#[derive(Debug, Clone, Copy, PartialEq, Eq, Structural)]
pub enum CastleSide {
    King,
    Queen,
}

/// One specific castling move.
#[derive(Debug, Clone, Copy, PartialEq, Eq, Structural)]
pub enum CastleMove {
    WhiteKing,
    WhiteQueen,
    BlackKing,
    BlackQueen,
}

impl CastleMove {
    /// The number of castle moves.
    pub const NUM: usize = 4;

    /// All castle moves: white king-side, white queen-side, black king-side, black queen-side.
    pub fn all() -> (r: [CastleMove; 4])
        ensures
            r[0] == CastleMove::WhiteKing,
            r[1] == CastleMove::WhiteQueen,
            r[2] == CastleMove::BlackKing,
            r[3] == CastleMove::BlackQueen,
    {
        [CastleMove::WhiteKing, CastleMove::WhiteQueen, CastleMove::BlackKing, CastleMove::BlackQueen]
    }

    /// The right that allows this castle move.
    pub fn right(self) -> (r: Castling)
        ensures
            r.bits() == right_bit(self),
    {
        match self {
            CastleMove::WhiteKing => Castling(1),
            CastleMove::WhiteQueen => Castling(2),
            CastleMove::BlackKing => Castling(4),
            CastleMove::BlackQueen => Castling(8),
        }
    }

    /// The color that performs this castling move.
    #[verifier::when_used_as_spec(spec_color)]
    pub fn color(self) -> (c: Color)
        ensures
            c == self.spec_color(),
    {
        match self {
            CastleMove::WhiteKing | CastleMove::WhiteQueen => Color::White,
            CastleMove::BlackKing | CastleMove::BlackQueen => Color::Black,
        }
    }

    /// The color that castles.
    pub open spec fn spec_color(self) -> Color {
        match self {
            CastleMove::WhiteKing | CastleMove::WhiteQueen => Color::White,
            CastleMove::BlackKing | CastleMove::BlackQueen => Color::Black,
        }
    }

    /// The side of the board (king-side or queen-side).
    #[verifier::when_used_as_spec(spec_side)]
    pub fn side(self) -> (s: CastleSide)
        ensures
            s == self.spec_side(),
    {
        match self {
            CastleMove::WhiteKing | CastleMove::BlackKing => CastleSide::King,
            CastleMove::WhiteQueen | CastleMove::BlackQueen => CastleSide::Queen,
        }
    }

    /// The side the king castles to.
    pub open spec fn spec_side(self) -> CastleSide {
        match self {
            CastleMove::WhiteKing | CastleMove::BlackKing => CastleSide::King,
            CastleMove::WhiteQueen | CastleMove::BlackQueen => CastleSide::Queen,
        }
    }
}

} // verus!
