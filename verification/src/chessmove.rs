//! Moves, packed into 32 bits.
//!
//! Bits 0-5 hold the source square, bits 6-11 the destination square, bits 12-13 the move
//! type, bits 14-15 the promotion piece type (knight, bishop, rook, queen) and bits 16-31 a
//! score used to order moves.
use vstd::prelude::*;

use crate::piece::PieceType;
use crate::square::{Square, square_name};
use crate::text::push_char;

verus! {

/// The kind of a move: normal, promotion, en passant capture or castling.
#[derive(Debug, Clone, Copy, PartialEq, Eq, Structural)]
pub enum MoveType {
    Normal,
    Promotion,
    EnPassant,
    Castling,
}

impl MoveType {
    /// The number of move types.
    pub const NUM: usize = 4;

    /// The move type with number `v`.
    pub fn new(v: u8) -> (mt: MoveType)
        requires
            v < 4,
        ensures
            mt as u8 == v,
    {
        match v {
            0 => MoveType::Normal,
            1 => MoveType::Promotion,
            2 => MoveType::EnPassant,
            _ => MoveType::Castling,
        }
    }
}

/// A move packed into 32 bits (see the module documentation).
#[derive(Debug, Clone, Copy, PartialEq, Eq, Structural)]
pub struct Move(u32);

/// The code of the promotion field for a promotion piece type.
pub open spec fn promotion_code(promotion: Option<PieceType>) -> int {
    match promotion {
        None => 0,
        Some(pt) => (pt as int - 1) % 4,
    }
}

proof fn bv_fields(x: u32, f: u32, t: u32, mt: u32, p: u32, s: u32)
    by (bit_vector)
    requires
        f < 64,
        t < 64,
        mt < 4,
        p < 4,
        s < 65536,
    ensures
        x & 63u32 == x % 64,
        (x >> 6u32) & 63u32 == (x / 64) % 64,
        (x >> 12u32) & 3u32 == (x / 4096) % 4,
        (x >> 14u32) & 3u32 == (x / 16384) % 4,
        x >> 16u32 == x / 65536,
        0u32 | f | (t << 6u32) | (mt << 12u32) | (p << 14u32) == f + 64 * t + 4096 * mt + 16384 * p,
        0u32 | f | (t << 6u32) | (mt << 12u32) == f + 64 * t + 4096 * mt,
{
}

proof fn bv_set_score(x: u32, s: u32)
    by (bit_vector)
    requires
        s < 65536,
    ensures
        ((x & !0xFFFF0000u32) | (s << 16u32)) % 64 == x % 64,
        (((x & !0xFFFF0000u32) | (s << 16u32)) / 64) % 64 == (x / 64) % 64,
        (((x & !0xFFFF0000u32) | (s << 16u32)) / 4096) % 4 == (x / 4096) % 4,
        (((x & !0xFFFF0000u32) | (s << 16u32)) / 16384) % 4 == (x / 16384) % 4,
        ((x & !0xFFFF0000u32) | (s << 16u32)) / 65536 == s,
{
}

/// The letter of promotion code `code`: knight, bishop, rook, queen.
pub open spec fn promotion_char(code: int) -> char {
    if code == 0 {
        'n'
    } else if code == 1 {
        'b'
    } else if code == 2 {
        'r'
    } else {
        'q'
    }
}

/// The text of a move in coordinate notation: source and destination square, and for a
/// promotion the letter of the new piece (`e2e4`, `a7a8q`).
pub open spec fn move_text(m: Move) -> Seq<char> {
    square_name(m.from_sq()) + square_name(m.to_sq()) + if m.type_code() == MoveType::Promotion as int {
        seq![promotion_char(m.promo_code())]
    } else {
        Seq::<char>::empty()
    }
}

impl Move {
    /// The source square index.
    pub closed spec fn from_sq(self) -> int {
        (self.0 as int) % 64
    }

    /// The destination square index.
    pub closed spec fn to_sq(self) -> int {
        (self.0 as int / 64) % 64
    }

    /// The number of the move type.
    pub closed spec fn type_code(self) -> int {
        (self.0 as int / 4096) % 4
    }

    /// The promotion field: 0 knight, 1 bishop, 2 rook, 3 queen.
    pub closed spec fn promo_code(self) -> int {
        (self.0 as int / 16384) % 4
    }

    /// The score field.
    pub closed spec fn score_bits(self) -> int {
        self.0 as int / 65536
    }

    /// The fields are within their ranges.
    pub proof fn lemma_field_ranges(self)
        ensures
            0 <= self.from_sq() < 64,
            0 <= self.to_sq() < 64,
            0 <= self.type_code() < 4,
            0 <= self.promo_code() < 4,
            0 <= self.score_bits() < 65536,
    {
    }

    /// The move with the given fields and score 0.
    pub closed spec fn encode(from: int, to: int, type_code: int, promo_code: int) -> Move {
        Move((from + 64 * to + 4096 * type_code + 16384 * promo_code) as u32)
    }

    /// The fields of an encoded move are the ones it was encoded from.
    pub proof fn lemma_encode_fields(from: int, to: int, type_code: int, promo_code: int)
        requires
            0 <= from < 64,
            0 <= to < 64,
            0 <= type_code < 4,
            0 <= promo_code < 4,
        ensures
            Move::encode(from, to, type_code, promo_code).from_sq() == from,
            Move::encode(from, to, type_code, promo_code).to_sq() == to,
            Move::encode(from, to, type_code, promo_code).type_code() == type_code,
            Move::encode(from, to, type_code, promo_code).promo_code() == promo_code,
            Move::encode(from, to, type_code, promo_code).score_bits() == 0,
    {
        let x = from + 64 * to + 4096 * type_code + 16384 * promo_code;
        assert(0 <= x < 65536);
        assert((x as u32) as int == x);
        assert(x % 64 == from && (x / 64) % 64 == to && (x / 4096) % 4 == type_code && (x / 16384) % 4 == promo_code
            && x / 65536 == 0) by (nonlinear_arith)
            requires
                x == from + 64 * to + 4096 * type_code + 16384 * promo_code,
                0 <= from < 64,
                0 <= to < 64,
                0 <= type_code < 4,
                0 <= promo_code < 4,
        ;
    }

    /// A promotion move gives back the piece type it promotes to: knight, bishop, rook or
    /// queen.
    pub proof fn lemma_promotion_roundtrip(from: int, to: int, pt: PieceType)
        requires
            0 <= from < 64,
            0 <= to < 64,
            pt != PieceType::Pawn,
            pt != PieceType::King,
        ensures
            Move::encode(from, to, MoveType::Promotion as int, promotion_code(Some(pt))).type_code()
                == MoveType::Promotion as int,
            Move::encode(from, to, MoveType::Promotion as int, promotion_code(Some(pt))).promo_code() + 1 == pt as int,
    {
        Move::lemma_encode_fields(from, to, MoveType::Promotion as int, promotion_code(Some(pt)));
    }

    /// The move with all fields zero: from a1 to a1, a normal move with score 0.
    pub fn null() -> (m: Move)
        ensures
            m.from_sq() == 0,
            m.to_sq() == 0,
            m.type_code() == 0,
            m.promo_code() == 0,
            m.score_bits() == 0,
    {
        Move(0)
    }

    /// Packs a move. A promotion to a king is stored as a promotion to a knight.
    pub fn new(from: Square, to: Square, move_type: MoveType, promotion: Option<PieceType>) -> (m: Move)
        requires
            promotion != Some(PieceType::Pawn),
        ensures
            m.from_sq() == from as int,
            m.to_sq() == to as int,
            m.type_code() == move_type as int,
            m.promo_code() == promotion_code(promotion),
            m.score_bits() == 0,
            m == Move::encode(from as int, to as int, move_type as int, promotion_code(promotion)),
    {
        let f = from as u32;
        let t = to as u32;
        let mt = move_type as u32;
        let mut m: u32 = 0;
        m = m | f;
        m = m | (t << 6u32);
        m = m | (mt << 12u32);
        match promotion {
            Some(pt) => {
                let p = ((pt.code() as u32) - 2) % 4;
                proof {
                    bv_fields(0, f, t, mt, p, 0);
                }
                m = m | (p << 14u32);
            },
            None => {
                proof {
                    bv_fields(0, f, t, mt, 0, 0);
                }
            },
        }
        Move(m)
    }

    /// The source square.
    pub fn from(self) -> (sq: Square)
        ensures
            sq as int == self.from_sq(),
    {
        proof {
            bv_fields(self.0, 0, 0, 0, 0, 0);
        }
        Square::new((self.0 & 63u32) as u8)
    }

    /// The destination square.
    pub fn to(self) -> (sq: Square)
        ensures
            sq as int == self.to_sq(),
    {
        proof {
            bv_fields(self.0, 0, 0, 0, 0, 0);
        }
        Square::new(((self.0 >> 6u32) & 63u32) as u8)
    }

    /// The type of the move.
    pub fn move_type(self) -> (mt: MoveType)
        ensures
            mt as int == self.type_code(),
    {
        proof {
            bv_fields(self.0, 0, 0, 0, 0, 0);
        }
        MoveType::new(((self.0 >> 12u32) & 3u32) as u8)
    }

    /// The piece type to promote to, for a promotion move.
    pub fn promotion(self) -> (r: Option<PieceType>)
        ensures
            self.type_code() == MoveType::Promotion as int ==> (r matches Some(pt) && pt as int == self.promo_code() + 1),
            self.type_code() != MoveType::Promotion as int ==> r is None,
    {
        proof {
            bv_fields(self.0, 0, 0, 0, 0, 0);
        }
        let bits = ((self.0 >> 14u32) & 3u32) as u8;
        if self.move_type() == MoveType::Promotion {
            Some(PieceType::new(bits + 2))
        } else {
            None
        }
    }

    /// The score used to order moves.
    pub fn score(self) -> (s: u16)
        ensures
            s as int == self.score_bits(),
    {
        proof {
            bv_fields(self.0, 0, 0, 0, 0, 0);
        }
        (self.0 >> 16u32) as u16
    }

    /// Replaces the score and keeps the other fields.
    pub fn set_score(&mut self, score: u16)
        ensures
            final(self).score_bits() == score as int,
            final(self).from_sq() == old(self).from_sq(),
            final(self).to_sq() == old(self).to_sq(),
            final(self).type_code() == old(self).type_code(),
            final(self).promo_code() == old(self).promo_code(),
    {
        proof {
            bv_set_score(self.0, score as u32);
        }
        self.0 = (self.0 & !0xFFFF0000u32) | ((score as u32) << 16u32);
    }
}


impl Move {
    /// The move in coordinate notation (`e2e4`, `a7a8q`).
    pub fn to_str(self) -> (s: String)
        ensures
            s@ == move_text(self),
    {
        let mut s = String::new();
        let from = self.from();
        let to = self.to();
        push_char(&mut s, from.file().to_char());
        push_char(&mut s, from.rank().to_char());
        push_char(&mut s, to.file().to_char());
        push_char(&mut s, to.rank().to_char());
        if self.move_type() == MoveType::Promotion {
            proof {
                bv_fields(self.0, 0, 0, 0, 0, 0);
            }
            let code = (self.0 >> 14u32) & 3u32;
            let c = if code == 0 {
                'n'
            } else if code == 1 {
                'b'
            } else if code == 2 {
                'r'
            } else {
                'q'
            };
            push_char(&mut s, c);
        }
        assert(s@ =~= move_text(self));
        s
    }
}

} // verus!
