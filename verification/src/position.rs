//! Chess positions: where the pieces stand, whose move it is, castling rights, the en passant
//! square and the move counters; moves are made on them and generated from them.
use vstd::prelude::*;

pub mod consistency;
pub mod fen;
pub mod roundtrip;

use crate::attacks::{
    bishop_attacks, king_attacks, king_reach, knight_attacks, knight_reach, pawn_attacks, pawn_reach,
    queen_attacks, rook_attacks, slider_reach, Slider, SliderMagics,
};
use crate::bitboard::{Bitboard, lemma_nonzero_has, lowest_square};
use crate::bits::{bit, group_bits};
use crate::castling::{CastleMove, CastleSide, Castling, right_bit};
use crate::piece::{Color, Piece, PieceType, make_piece};
use crate::chessmove::{Move, MoveType, move_text};
use crate::chessmovelist::{CAPACITY, MoveList};
use crate::pushes::{double_push_to, pushes, single_push_to};
use crate::square::{Rank, Square, rank_of, square_name};

verus! {

broadcast use group_bits;

/// A chess position: the pieces, as a board of squares and as bitboards by color and type,
/// the side to move, the castling rights, the en passant square, the half move clock and the
/// number of plies played.
#[derive(Debug, Clone, Copy, PartialEq)]
pub struct Position {
    pieces_by_color: [Bitboard; 2],
    pieces: [[Bitboard; 6]; 2],
    occupied: Bitboard,
    board: [Option<Piece>; 64],
    side_to_move: Color,
    castling: Castling,
    en_passant: Option<Square>,
    half_move_clock: u8,
    ply: u8,
}

/// `p` is a piece of color `c` and type `pt`.
pub open spec fn is_piece(p: Option<Piece>, c: Color, pt: PieceType) -> bool {
    p matches Some(q) && q.color() == c && q.piece_type() == pt
}

/// `p` is a piece of color `c`.
pub open spec fn is_color(p: Option<Piece>, c: Color) -> bool {
    p matches Some(q) && q.color() == c
}

/// The type of the piece that starts on file `f` of the first or last rank.
pub open spec fn back_rank_type(f: int) -> PieceType {
    if f == 0 || f == 7 {
        PieceType::Rook
    } else if f == 1 || f == 6 {
        PieceType::Knight
    } else if f == 2 || f == 5 {
        PieceType::Bishop
    } else if f == 3 {
        PieceType::Queen
    } else {
        PieceType::King
    }
}

/// The piece on the square with index `i` in the starting position.
pub open spec fn start_piece(i: int) -> Option<Piece> {
    if 0 <= i < 8 {
        Some(make_piece(Color::White, back_rank_type(i)))
    } else if 8 <= i < 16 {
        Some(Piece::WhitePawn)
    } else if 48 <= i < 56 {
        Some(Piece::BlackPawn)
    } else if 56 <= i < 64 {
        Some(make_piece(Color::Black, back_rank_type(i - 56)))
    } else {
        None
    }
}

/// The piece on square `i` of the starting position.
fn start_piece_at(i: u8) -> (p: Option<Piece>)
    requires
        i < 64,
    ensures
        p == start_piece(i as int),
{
    let back = if i % 8 == 0 || i % 8 == 7 {
        PieceType::Rook
    } else if i % 8 == 1 || i % 8 == 6 {
        PieceType::Knight
    } else if i % 8 == 2 || i % 8 == 5 {
        PieceType::Bishop
    } else if i % 8 == 3 {
        PieceType::Queen
    } else {
        PieceType::King
    };
    if i < 8 {
        Some(Piece::new_from_color_and_type(Color::White, back))
    } else if i < 16 {
        Some(Piece::WhitePawn)
    } else if i < 48 {
        None
    } else if i < 56 {
        Some(Piece::BlackPawn)
    } else {
        Some(Piece::new_from_color_and_type(Color::Black, back))
    }
}

impl Position {
    /// The piece on the square with index `i`, if any.
    pub closed spec fn board_at(&self, i: int) -> Option<Piece> {
        self.board@[i]
    }

    /// The squares of the pieces of color `c` and type `pt`.
    pub closed spec fn pieces_of(&self, c: Color, pt: PieceType) -> Bitboard {
        self.pieces[c as int][pt as int]
    }

    /// The squares of the pieces of color `c`.
    pub closed spec fn color_bb(&self, c: Color) -> Bitboard {
        self.pieces_by_color[c as int]
    }

    /// The squares holding a piece.
    pub closed spec fn occupied_bb(&self) -> Bitboard {
        self.occupied
    }

    /// The side to move.
    pub closed spec fn side(&self) -> Color {
        self.side_to_move
    }

    /// The castling rights.
    pub closed spec fn rights(&self) -> Castling {
        self.castling
    }

    /// The square a pawn can capture en passant on.
    pub closed spec fn ep_square(&self) -> Option<Square> {
        self.en_passant
    }

    /// The half move clock: plies since the last capture or pawn move.
    pub closed spec fn clock(&self) -> u8 {
        self.half_move_clock
    }

    /// The number of plies played.
    pub closed spec fn plies(&self) -> u8 {
        self.ply
    }

    /// Side to move, castling rights, en passant square and counters agree.
    pub open spec fn same_state(&self, other: &Position) -> bool {
        &&& self.side() == other.side()
        &&& self.rights() == other.rights()
        &&& self.ep_square() == other.ep_square()
        &&& self.clock() == other.clock()
        &&& self.plies() == other.plies()
    }

    /// The bitboards agree with the board: a piece's square is in the bitboards of its color
    /// and type, of its color and of all occupied squares, and in no other.
    pub open spec fn wf(&self) -> bool {
        &&& forall|i: int, c: Color, pt: PieceType| #[trigger] self.pieces_of(c, pt).has(i)
            == (0 <= i < 64 && is_piece(self.board_at(i), c, pt))
        &&& forall|i: int, c: Color| #[trigger] self.color_bb(c).has(i) == (0 <= i < 64 && is_color(self.board_at(i), c))
        &&& forall|i: int| #[trigger] self.occupied_bb().has(i) == (0 <= i < 64 && self.board_at(i) is Some)
    }

    /// The side to move.
    pub fn side_to_move(&self) -> (c: Color)
        ensures
            c == self.side(),
    {
        self.side_to_move
    }

    /// The squares of the pieces of color `c` and type `pt`.
    pub fn pieces(&self, c: Color, pt: PieceType) -> (b: Bitboard)
        ensures
            b == self.pieces_of(c, pt),
    {
        self.pieces[c as usize][pt as usize]
    }

    /// The piece on `square`.
    pub fn get_piece(&self, square: Square) -> (p: Piece)
        requires
            self.board_at(square as int) is Some,
        ensures
            Some(p) == self.board_at(square as int),
    {
        self.board[square as usize].unwrap()
    }

    /// Puts `piece` on `square`. The square is added to the piece's bitboards; a piece that
    /// stood there before is overwritten on the board only.
    pub fn set_piece(&mut self, piece: Piece, square: Square)
        ensures
            forall|i: int| 0 <= i < 64 ==> #[trigger] final(self).board_at(i) == if i == square as int {
                Some(piece)
            } else {
                old(self).board_at(i)
            },
            forall|c: Color, pt: PieceType, t: int| #[trigger] final(self).pieces_of(c, pt).has(t)
                == (old(self).pieces_of(c, pt).has(t) || (c == piece.color() && pt == piece.piece_type() && t == square as int)),
            forall|c: Color, t: int| #[trigger] final(self).color_bb(c).has(t)
                == (old(self).color_bb(c).has(t) || (c == piece.color() && t == square as int)),
            forall|t: int| #[trigger] final(self).occupied_bb().has(t) == (old(self).occupied_bb().has(t) || t == square as int),
            final(self).same_state(old(self)),
            old(self).wf() && old(self).board_at(square as int) is None ==> final(self).wf(),
    {
        let bb = Bitboard::from_square(square);
        let c = piece.color() as usize;
        let pt = piece.piece_type() as usize;
        self.pieces_by_color[c] = Bitboard(self.pieces_by_color[c].0 | bb.0);
        self.pieces[c][pt] = Bitboard(self.pieces[c][pt].0 | bb.0);
        self.occupied = Bitboard(self.occupied.0 | bb.0);
        self.board[square as usize] = Some(piece);
        proof {
            assert forall|c2: Color, pt2: PieceType, t: int| #[trigger] self.pieces_of(c2, pt2).has(t)
                == (old(self).pieces_of(c2, pt2).has(t) || (c2 == piece.color() && pt2 == piece.piece_type() && t == square as int)) by {
                assert(bb.has(t) == (t == square as int));
                if c2 as usize != c || pt2 as usize != pt {
                    assert(self.pieces[c2 as int][pt2 as int] == old(self).pieces[c2 as int][pt2 as int]);
                }
            }
            assert forall|c2: Color, t: int| #[trigger] self.color_bb(c2).has(t)
                == (old(self).color_bb(c2).has(t) || (c2 == piece.color() && t == square as int)) by {
                assert(bb.has(t) == (t == square as int));
            }
            assert forall|t: int| #[trigger] self.occupied_bb().has(t) == (old(self).occupied_bb().has(t) || t == square as int) by {
                assert(bb.has(t) == (t == square as int));
            }
        }
    }

    /// Removes the piece on `square` and returns it.
    pub fn delete_piece(&mut self, square: Square) -> (p: Piece)
        requires
            old(self).board_at(square as int) is Some,
        ensures
            Some(p) == old(self).board_at(square as int),
            forall|i: int| 0 <= i < 64 ==> #[trigger] final(self).board_at(i) == if i == square as int {
                None
            } else {
                old(self).board_at(i)
            },
            forall|c: Color, pt: PieceType, t: int| #[trigger] final(self).pieces_of(c, pt).has(t)
                == (old(self).pieces_of(c, pt).has(t) && !(c == p.color() && pt == p.piece_type() && t == square as int)),
            forall|c: Color, t: int| #[trigger] final(self).color_bb(c).has(t)
                == (old(self).color_bb(c).has(t) && !(c == p.color() && t == square as int)),
            forall|t: int| #[trigger] final(self).occupied_bb().has(t) == (old(self).occupied_bb().has(t) && t != square as int),
            final(self).same_state(old(self)),
            old(self).wf() ==> final(self).wf(),
    {
        let bb = Bitboard::from_square(square);
        let nbb = !bb.0;
        let piece = self.board[square as usize].unwrap();
        let c = piece.color() as usize;
        let pt = piece.piece_type() as usize;
        self.pieces_by_color[c] = Bitboard(self.pieces_by_color[c].0 & nbb);
        self.pieces[c][pt] = Bitboard(self.pieces[c][pt].0 & nbb);
        self.occupied = Bitboard(self.occupied.0 & nbb);
        self.board[square as usize] = None;
        proof {
            assert forall|c2: Color, pt2: PieceType, t: int| #[trigger] self.pieces_of(c2, pt2).has(t)
                == (old(self).pieces_of(c2, pt2).has(t) && !(c2 == piece.color() && pt2 == piece.piece_type() && t == square as int)) by {
                assert(bb.has(t) == (t == square as int));
                if c2 as usize != c || pt2 as usize != pt {
                    assert(self.pieces[c2 as int][pt2 as int] == old(self).pieces[c2 as int][pt2 as int]);
                }
            }
            assert forall|c2: Color, t: int| #[trigger] self.color_bb(c2).has(t)
                == (old(self).color_bb(c2).has(t) && !(c2 == piece.color() && t == square as int)) by {
                assert(bb.has(t) == (t == square as int));
            }
            assert forall|t: int| #[trigger] self.occupied_bb().has(t) == (old(self).occupied_bb().has(t) && t != square as int) by {
                assert(bb.has(t) == (t == square as int));
            }
        }
        piece
    }

    /// Moves the piece on `from_square` to `to_square` and returns it.
    pub fn move_piece(&mut self, from_square: Square, to_square: Square) -> (p: Piece)
        requires
            old(self).board_at(from_square as int) is Some,
        ensures
            Some(p) == old(self).board_at(from_square as int),
            forall|i: int| 0 <= i < 64 ==> #[trigger] final(self).board_at(i) == if i == to_square as int {
                Some(p)
            } else if i == from_square as int {
                None
            } else {
                old(self).board_at(i)
            },
            forall|c: Color, pt: PieceType, t: int| #[trigger] final(self).pieces_of(c, pt).has(t)
                == ((old(self).pieces_of(c, pt).has(t) && !(c == p.color() && pt == p.piece_type() && t == from_square as int))
                || (c == p.color() && pt == p.piece_type() && t == to_square as int)),
            forall|c: Color, t: int| #[trigger] final(self).color_bb(c).has(t)
                == ((old(self).color_bb(c).has(t) && !(c == p.color() && t == from_square as int))
                || (c == p.color() && t == to_square as int)),
            forall|t: int| #[trigger] final(self).occupied_bb().has(t) == ((old(self).occupied_bb().has(t)
                && t != from_square as int) || t == to_square as int),
            final(self).same_state(old(self)),
            old(self).wf() && (old(self).board_at(to_square as int) is None || from_square == to_square) ==> final(self).wf(),
    {
        let ghost before = *self;
        let piece = self.delete_piece(from_square);
        let ghost mid = *self;
        self.set_piece(piece, to_square);
        assert forall|c: Color, pt: PieceType, t: int| #[trigger] self.pieces_of(c, pt).has(t)
            == ((before.pieces_of(c, pt).has(t) && !(c == piece.color() && pt == piece.piece_type() && t == from_square as int))
            || (c == piece.color() && pt == piece.piece_type() && t == to_square as int)) by {
            assert(mid.pieces_of(c, pt).has(t) == (before.pieces_of(c, pt).has(t) && !(c == piece.color() && pt
                == piece.piece_type() && t == from_square as int)));
        }
        assert forall|c: Color, t: int| #[trigger] self.color_bb(c).has(t)
            == ((before.color_bb(c).has(t) && !(c == piece.color() && t == from_square as int))
            || (c == piece.color() && t == to_square as int)) by {
            assert(mid.color_bb(c).has(t) == (before.color_bb(c).has(t) && !(c == piece.color() && t == from_square as int)));
        }
        assert forall|t: int| #[trigger] self.occupied_bb().has(t) == ((before.occupied_bb().has(t)
            && t != from_square as int) || t == to_square as int) by {
            assert(mid.occupied_bb().has(t) == (before.occupied_bb().has(t) && t != from_square as int));
        }
        piece
    }
}


/// Consistency carries over to a position with the same board and bitboards.
proof fn lemma_wf_carries(a: Position, b: Position)
    requires
        a.pieces == b.pieces,
        a.pieces_by_color == b.pieces_by_color,
        a.occupied == b.occupied,
        a.board == b.board,
        a.wf(),
    ensures
        b.wf(),
{
    assert forall|i: int, c: Color, pt: PieceType| #[trigger] b.pieces_of(c, pt).has(i)
        == (0 <= i < 64 && is_piece(b.board_at(i), c, pt)) by {
        assert(a.pieces_of(c, pt).has(i) == (0 <= i < 64 && is_piece(a.board_at(i), c, pt)));
    }
    assert forall|i: int, c: Color| #[trigger] b.color_bb(c).has(i) == (0 <= i < 64 && is_color(b.board_at(i), c)) by {
        assert(a.color_bb(c).has(i) == (0 <= i < 64 && is_color(a.board_at(i), c)));
    }
    assert forall|i: int| #[trigger] b.occupied_bb().has(i) == (0 <= i < 64 && b.board_at(i) is Some) by {
        assert(a.occupied_bb().has(i) == (0 <= i < 64 && a.board_at(i) is Some));
    }
}

/// Consistency depends only on the board and the bitboards.
proof fn lemma_wf_same_pieces(a: Position, b: Position)
    requires
        a.pieces == b.pieces,
        a.pieces_by_color == b.pieces_by_color,
        a.occupied == b.occupied,
        a.board == b.board,
    ensures
        a.wf() == b.wf(),
        forall|i: int| #[trigger] a.board_at(i) == b.board_at(i),
        forall|c: Color, pt: PieceType| #[trigger] a.pieces_of(c, pt) == b.pieces_of(c, pt),
        forall|c: Color| #[trigger] a.color_bb(c) == b.color_bb(c),
        a.occupied_bb() == b.occupied_bb(),
{
    if a.wf() {
        lemma_wf_carries(a, b);
    }
    if b.wf() {
        lemma_wf_carries(b, a);
    }
}

impl Default for Position {
    fn default() -> (pos: Position)
        ensures
            pos.wf(),
            forall|i: int| 0 <= i < 64 ==> #[trigger] pos.board_at(i) is None,
            pos.side() == Color::White,
            pos.rights().bits() == 0,
            pos.ep_square() is None,
            pos.clock() == 0,
            pos.plies() == 0,
    {
        let pos = Position {
            pieces_by_color: [Bitboard(0); 2],
            pieces: [[Bitboard(0); 6]; 2],
            occupied: Bitboard(0),
            board: [None; 64],
            side_to_move: Color::White,
            castling: Castling::none(),
            en_passant: None,
            half_move_clock: 0,
            ply: 0,
        };
        assert forall|i: int, c: Color, pt: PieceType| #[trigger] pos.pieces_of(c, pt).has(i)
            == (0 <= i < 64 && is_piece(pos.board_at(i), c, pt)) by {
            assert(pos.pieces[c as int][pt as int] == Bitboard(0));
        }
        pos
    }
}

/// A piece of `color` on `t` attacks `s`, seen from `s`: `t` holds a king, knight, pawn,
/// bishop, rook or queen of `color` that the pattern of that piece, launched from `s`,
/// reaches (a pawn of `color` on `t` attacks `s` when a pawn of the other color on `s`
/// would attack `t`).
pub open spec fn attacker(pos: Position, s: int, color: Color, t: int) -> bool {
    let occ = pos.occupied_bb();
    ||| king_reach(s, t) && pos.pieces_of(color, PieceType::King).has(t)
    ||| knight_reach(s, t) && pos.pieces_of(color, PieceType::Knight).has(t)
    ||| pawn_reach(color.spec_switch(), s, t) && pos.pieces_of(color, PieceType::Pawn).has(t)
    ||| slider_reach(Slider::Bishop, s, occ, t) && pos.pieces_of(color, PieceType::Bishop).has(t)
    ||| slider_reach(Slider::Rook, s, occ, t) && pos.pieces_of(color, PieceType::Rook).has(t)
    ||| (slider_reach(Slider::Bishop, s, occ, t) || slider_reach(Slider::Rook, s, occ, t))
        && pos.pieces_of(color, PieceType::Queen).has(t)
}

/// `s` is attacked by a piece of `color`.
pub open spec fn attacked(pos: Position, s: int, color: Color) -> bool {
    exists|t: int| #[trigger] attacker(pos, s, color, t)
}

/// The king of `color` (the one on the smallest square, should there be several) is
/// attacked.
pub open spec fn in_check(pos: Position, color: Color) -> bool {
    attacked(pos, lowest_square(pos.pieces_of(color, PieceType::King)), color.spec_switch())
}

/// `color` has a king on the board.
pub open spec fn has_king(pos: Position, color: Color) -> bool {
    pos.pieces_of(color, PieceType::King).0 != 0
}

impl Position {
    /// The starting position of a game.
    pub fn starting_position() -> (pos: Position)
        ensures
            pos.wf(),
            forall|i: int| 0 <= i < 64 ==> #[trigger] pos.board_at(i) == start_piece(i),
            pos.side() == Color::White,
            pos.rights().bits() == 15,
            pos.ep_square() is None,
            pos.clock() == 0,
            pos.plies() == 0,
    {
        let mut pos = Position {
            pieces_by_color: [Bitboard(0); 2],
            pieces: [[Bitboard(0); 6]; 2],
            occupied: Bitboard(0),
            board: [None; 64],
            side_to_move: Color::White,
            castling: Castling::any(),
            en_passant: None,
            half_move_clock: 0,
            ply: 0,
        };
        assert forall|i: int, c: Color, pt: PieceType| #[trigger] pos.pieces_of(c, pt).has(i)
            == (0 <= i < 64 && is_piece(pos.board_at(i), c, pt)) by {
            assert(pos.pieces[c as int][pt as int] == Bitboard(0));
        }
        let mut i: u8 = 0;
        while i < 64
            invariant
                i <= 64,
                pos.wf(),
                forall|j: int| 0 <= j < 64 ==> #[trigger] pos.board_at(j) == if j < i {
                    start_piece(j)
                } else {
                    None
                },
                pos.side() == Color::White,
                pos.rights().bits() == 15,
                pos.ep_square() is None,
                pos.clock() == 0,
                pos.plies() == 0,
            decreases 64 - i,
        {
            match start_piece_at(i) {
                Some(piece) => pos.set_piece(piece, Square::new(i)),
                None => {},
            }
            i = i + 1;
        }
        pos
    }

    /// The pieces of `color` that attack `square`.
    fn square_attacked_by_color(&self, square: Square, color: Color, magics: &SliderMagics) -> (r: Bitboard)
        requires
            magics.wf(),
        ensures
            forall|t: int| #[trigger] r.has(t) == attacker(*self, square as int, color, t),
    {
        let s = square as usize;
        let c = color as usize;
        let ka = king_attacks(square);
        let k = Bitboard(ka.0 & self.pieces[c][PieceType::King as usize].0);
        let na = knight_attacks(square);
        let n = Bitboard(na.0 & self.pieces[c][PieceType::Knight as usize].0);
        // "Which pawns of `color` attack `square`?"
        // Pawn attacks are asymmetric: a white pawn on d3 attacks e4, but not vice versa.
        // To find attacking pawns, look in the opposite direction.
        let origin = Bitboard::from_square(square);
        let pa = pawn_attacks(color.switch(), origin);
        let p = Bitboard(pa.0 & self.pieces[c][PieceType::Pawn as usize].0);
        let ba = bishop_attacks(magics, square, self.occupied);
        let b = Bitboard(ba.0 & self.pieces[c][PieceType::Bishop as usize].0);
        let ra = rook_attacks(magics, square, self.occupied);
        let r = Bitboard(ra.0 & self.pieces[c][PieceType::Rook as usize].0);
        let qa = queen_attacks(magics, square, self.occupied);
        let q = Bitboard(qa.0 & self.pieces[c][PieceType::Queen as usize].0);
        let result = Bitboard(k.0 | n.0 | p.0 | b.0 | r.0 | q.0);
        assert forall|t: int| #[trigger] result.has(t) == attacker(*self, square as int, color, t) by {
            assert(ka.has(t) == king_reach(square as int, t));
            assert(na.has(t) == knight_reach(square as int, t));
            assert(pa.has(t) == exists|u: int| #[trigger] origin.has(u) && pawn_reach(color.switch(), u, t));
            if pawn_reach(color.switch(), square as int, t) {
                assert(origin.has(square as int));
            }
            if pa.has(t) {
                let u = choose|u: int| #[trigger] origin.has(u) && pawn_reach(color.switch(), u, t);
                assert(origin.has(u) == (u == square as int));
            }
            assert(ba.has(t) == slider_reach(Slider::Bishop, square as int, self.occupied, t));
            assert(ra.has(t) == slider_reach(Slider::Rook, square as int, self.occupied, t));
            assert(qa.has(t) == (slider_reach(Slider::Bishop, square as int, self.occupied, t)
                || slider_reach(Slider::Rook, square as int, self.occupied, t)));
        }
        result
    }

    /// The king of `color` is attacked.
    fn color_in_check(&self, color: Color, magics: &SliderMagics) -> (r: bool)
        requires
            magics.wf(),
            has_king(*self, color),
        ensures
            r == in_check(*self, color),
    {
        let sq = self.pieces[color as usize][PieceType::King as usize].lsb_square().unwrap();
        let attackers = self.square_attacked_by_color(sq, color.switch(), magics);
        proof {
            let s = sq as int;
            let opp = color.spec_switch();
            if attacked(*self, s, opp) {
                let t = choose|t: int| #[trigger] attacker(*self, s, opp, t);
                assert(attackers.has(t));
            }
            if attackers.0 != 0 {
                if forall|i: int| 0 <= i < 64 ==> !bit(attackers.0, i) {
                    crate::bits::bit_none_is_zero(attackers.0);
                }
                let i = choose|i: int| 0 <= i < 64 && bit(attackers.0, i);
                assert(attackers.has(i));
                assert(attacker(*self, s, opp, i));
            }
        }
        attackers.0 != 0
    }

    /// The side to move is in check.
    pub fn is_check(&self, magics: &SliderMagics) -> (r: bool)
        requires
            magics.wf(),
            has_king(*self, self.side()),
        ensures
            r == in_check(*self, self.side()),
    {
        self.color_in_check(self.side_to_move, magics)
    }

    /// The side that just moved did not leave its king in check.
    pub fn is_legal(&self, magics: &SliderMagics) -> (r: bool)
        requires
            magics.wf(),
            has_king(*self, self.side().spec_switch()),
        ensures
            r == !in_check(*self, self.side().spec_switch()),
    {
        !self.color_in_check(self.side_to_move.switch(), magics)
    }
}


/// The square `j` steps from `k` toward the side of `cm`.
pub open spec fn castle_path(k: int, cm: CastleMove, j: int) -> int {
    match cm.spec_side() {
        CastleSide::King => k + j,
        CastleSide::Queen => k - j,
    }
}

/// The number of squares between king and rook that must be empty for `cm`.
pub open spec fn castle_free_count(cm: CastleMove) -> int {
    match cm.spec_side() {
        CastleSide::King => 2,
        CastleSide::Queen => 3,
    }
}

/// The square of the king of the side to move.
pub open spec fn king_square(pos: Position) -> int {
    lowest_square(pos.pieces_of(pos.side(), PieceType::King))
}

/// Castling with `cm` is allowed: the right is still there, it is `cm`'s color to move, the
/// king is not in check, the squares between king and rook are empty and the two squares the
/// king crosses are not attacked.
pub open spec fn castle_allowed(pos: Position, cm: CastleMove) -> bool {
    let k = king_square(pos);
    &&& pos.rights().bits() & right_bit(cm) != 0
    &&& cm.spec_color() == pos.side()
    &&& !in_check(pos, pos.side())
    &&& forall|j: int| 1 <= j <= castle_free_count(cm) ==> #[trigger] pos.board_at(castle_path(k, cm, j)) is None
    &&& forall|j: int| 1 <= j <= 2 ==> !attacked(pos, #[trigger] castle_path(k, cm, j), pos.side().spec_switch())
}

/// What checking `cm` needs: when the right is there and it is `cm`'s color to move, a king
/// of that color, and, when it is not in check, room on the board on `cm`'s side of it.
pub open spec fn castle_checkable(pos: Position, cm: CastleMove) -> bool {
    pos.rights().bits() & right_bit(cm) != 0 && cm.spec_color() == pos.side() ==> {
        &&& has_king(pos, pos.side())
        &&& !in_check(pos, pos.side()) ==> 0 <= castle_path(king_square(pos), cm, castle_free_count(cm)) < 64
    }
}

/// The castling rule: the side to move may castle with `cm` exactly when it still has the
/// right of `cm`, `cm` is a move of its color, its king (on square `k`) is not in check, the
/// squares between king and rook are empty (`k + 1`, `k + 2` king-side; `k - 1`, `k - 2`,
/// `k - 3` queen-side) and neither square the king moves over and onto is attacked by the
/// other side (`k + 1`, `k + 2` king-side; `k - 1`, `k - 2` queen-side).
pub proof fn lemma_castle_rule(pos: Position, cm: CastleMove)
    ensures
        castle_allowed(pos, cm) == {
            let k = king_square(pos);
            let other = pos.side().spec_switch();
            &&& pos.rights().bits() & right_bit(cm) != 0
            &&& cm.spec_color() == pos.side()
            &&& !in_check(pos, pos.side())
            &&& if cm == CastleMove::WhiteKing || cm == CastleMove::BlackKing {
                &&& pos.board_at(k + 1) is None
                &&& pos.board_at(k + 2) is None
                &&& !attacked(pos, k + 1, other)
                &&& !attacked(pos, k + 2, other)
            } else {
                &&& pos.board_at(k - 1) is None
                &&& pos.board_at(k - 2) is None
                &&& pos.board_at(k - 3) is None
                &&& !attacked(pos, k - 1, other)
                &&& !attacked(pos, k - 2, other)
            }
        },
{
    let k = king_square(pos);
    let other = pos.side().spec_switch();
    if cm == CastleMove::WhiteKing || cm == CastleMove::BlackKing {
        assert(castle_path(k, cm, 1) == k + 1 && castle_path(k, cm, 2) == k + 2);
    } else {
        assert(castle_path(k, cm, 1) == k - 1 && castle_path(k, cm, 2) == k - 2 && castle_path(k, cm, 3) == k - 3);
    }
}

impl Position {
    /// Whether the side to move can castle with `castle_move` (see `castle_allowed`).
    pub fn can_do_castle_move(&self, castle_move: CastleMove, magics: &SliderMagics) -> (r: bool)
        requires
            magics.wf(),
            castle_checkable(*self, castle_move),
        ensures
            r == castle_allowed(*self, castle_move),
    {
        // King and one of the Rooks hasn't moved, so castling in possible in theory
        if !self.castling.contains(castle_move.right()) {
            return false;
        }

        // Correct color to castle
        if castle_move.color() != self.side_to_move {
            return false;
        }

        let queen_side = castle_move.side() == CastleSide::Queen;

        // Can not castle, if in check
        if self.is_check(magics) {
            return false;
        }

        let mut square = self.pieces[self.side_to_move as usize][PieceType::King as usize].lsb_square().unwrap();
        let ghost k = square as int;
        let ghost cm = castle_move;
        let mut attacked_files: u8 = 2;
        let mut free_files: u8 = if queen_side {
            3
        } else {
            2
        };
        let ghost mut j: int = 0;
        while attacked_files > 0 || free_files > 0
            invariant
                magics.wf(),
                cm == castle_move,
                self.rights().bits() & right_bit(cm) != 0,
                cm.spec_color() == self.side(),
                !in_check(*self, self.side()),
                k == king_square(*self),
                0 <= castle_path(k, cm, castle_free_count(cm)) < 64,
                0 <= k < 64,
                queen_side == (cm.spec_side() == CastleSide::Queen),
                0 <= j <= castle_free_count(cm),
                square as int == castle_path(k, cm, j),
                attacked_files as int == if j < 2 { 2 - j } else { 0 },
                free_files as int == castle_free_count(cm) - j,
                forall|i: int| 1 <= i <= j ==> #[trigger] self.board_at(castle_path(k, cm, i)) is None,
                forall|i: int| 1 <= i <= j && i <= 2 ==> !attacked(*self, #[trigger] castle_path(k, cm, i), self.side().spec_switch()),
            decreases castle_free_count(cm) - j,
        {
            // Check the next square, either in queen or in king side direction
            square = if queen_side {
                square.previous()
            } else {
                square.next()
            };
            proof {
                j = j + 1;
            }

            // Check, if there is a piece in between
            if free_files > 0 {
                if self.board[square as usize].is_some() {
                    assert(self.board_at(castle_path(k, cm, j)) is Some);
                    return false;
                }
                free_files = free_files - 1;
            }

            // Check, if a square in beween is attacked
            if attacked_files > 0 {
                let attackers = self.square_attacked_by_color(square, self.side_to_move.switch(), magics);
                proof {
                    lemma_nonzero_has(attackers);
                    let opp = self.side().spec_switch();
                    let sqi = square as int;
                    if attacked(*self, sqi, opp) {
                        let t = choose|t: int| #[trigger] attacker(*self, sqi, opp, t);
                        assert(attackers.has(t));
                    }
                    if attackers.0 != 0 {
                        let t = choose|t: int| #[trigger] attackers.has(t);
                        assert(attacker(*self, sqi, opp, t));
                    }
                }
                if attackers.0 != 0 {
                    assert(attacked(*self, castle_path(k, cm, j), self.side().spec_switch()));
                    return false;
                }
                attacked_files = attacked_files - 1;
            }
        }
        true
    }
}


/// Whether `to` is a square a king castles to: c1, g1, c8 or g8.
pub open spec fn is_castle_target(to: int) -> bool {
    to == 2 || to == 6 || to == 58 || to == 62
}

/// The square the rook leaves when the king castles to `to`.
pub open spec fn castle_rook_from(to: int) -> int {
    if to == 2 {
        0
    } else if to == 6 {
        7
    } else if to == 58 {
        56
    } else {
        63
    }
}

/// The square the rook goes to when the king castles to `to`.
pub open spec fn castle_rook_to(to: int) -> int {
    if to == 2 {
        3
    } else if to == 6 {
        5
    } else if to == 58 {
        59
    } else {
        61
    }
}

/// The square behind `to`, seen from the side to move: where a pawn captured en passant
/// stands, and the square a pawn double step passes over.
pub open spec fn behind(pos: Position, to: int) -> int {
    match pos.side() {
        Color::White => to - 8,
        Color::Black => to + 8,
    }
}

/// The piece type a promotion move promotes to.
pub open spec fn promotion_type(m: Move) -> PieceType {
    if m.promo_code() == 0 {
        PieceType::Knight
    } else if m.promo_code() == 1 {
        PieceType::Bishop
    } else if m.promo_code() == 2 {
        PieceType::Rook
    } else {
        PieceType::Queen
    }
}

/// The board after the moving piece went from the source to the destination square, any
/// piece there being captured.
pub open spec fn moved_board(pos: Position, m: Move, i: int) -> Option<Piece> {
    if i == m.to_sq() {
        pos.board_at(m.from_sq())
    } else if i == m.from_sq() {
        None
    } else {
        pos.board_at(i)
    }
}

/// The board after move `m`: the moving piece goes to its destination, a castling king
/// brings its rook along, an en passant capture removes the pawn behind the destination and
/// a promotion replaces the pawn.
pub open spec fn board_after(pos: Position, m: Move, i: int) -> Option<Piece> {
    let t = m.to_sq();
    if m.type_code() == MoveType::Castling as int && is_castle_target(t) {
        if i == castle_rook_to(t) {
            moved_board(pos, m, castle_rook_from(t))
        } else if i == castle_rook_from(t) {
            None
        } else {
            moved_board(pos, m, i)
        }
    } else if m.type_code() == MoveType::EnPassant as int {
        if i == behind(pos, t) {
            None
        } else {
            moved_board(pos, m, i)
        }
    } else if m.type_code() == MoveType::Promotion as int {
        if i == t {
            Some(make_piece(pos.side(), promotion_type(m)))
        } else {
            moved_board(pos, m, i)
        }
    } else {
        moved_board(pos, m, i)
    }
}

/// The moving piece is a pawn.
pub open spec fn moves_pawn(pos: Position, m: Move) -> bool {
    pos.board_at(m.from_sq()) matches Some(p) && p.spec_piece_type() == PieceType::Pawn
}

/// The move captures or moves a pawn, which resets the half move clock.
pub open spec fn resets_clock(pos: Position, m: Move) -> bool {
    pos.board_at(m.to_sq()) is Some || moves_pawn(pos, m)
}

/// The move is a pawn's double step, which sets the en passant square.
pub open spec fn is_double_step(pos: Position, m: Move) -> bool {
    moves_pawn(pos, m) && (m.from_sq() - m.to_sq() == 16 || m.to_sq() - m.from_sq() == 16)
}

/// The castling rights after a piece left or arrived on `sq`: a1, h1, a8 and h8 lose the
/// rook's right, e1 and e8 both rights of their color.
pub open spec fn rights_after_square(bits: u8, sq: int) -> u8 {
    if sq == 0 {
        bits & !2u8
    } else if sq == 7 {
        bits & !1u8
    } else if sq == 56 {
        bits & !8u8
    } else if sq == 63 {
        bits & !4u8
    } else if sq == 4 {
        (bits & !2u8) & !1u8
    } else if sq == 60 {
        (bits & !8u8) & !4u8
    } else {
        bits
    }
}

/// The inputs `make_move` accepts: a piece on the source square, a destination elsewhere,
/// en passant and double step squares on the board, a rook to bring along when castling,
/// and counters that do not overflow.
pub open spec fn can_make_move(pos: Position, m: Move) -> bool {
    let t = m.to_sq();
    &&& pos.board_at(m.from_sq()) is Some
    &&& m.from_sq() != t
    &&& is_double_step(pos, m) ==> 0 <= behind(pos, t) < 64
    &&& m.type_code() == MoveType::Castling as int && is_castle_target(t) ==> moved_board(pos, m, castle_rook_from(t)) is Some
    &&& m.type_code() == MoveType::EnPassant as int ==> 0 <= behind(pos, t) < 64 && moved_board(pos, m, behind(pos, t)) is Some
    &&& pos.plies() < 255
    &&& !resets_clock(pos, m) ==> pos.clock() < 255
}

/// `p` is what making move `m` on `pos` leaves: the board after the move, the other side to
/// move, one more ply, the half move clock reset by a capture or a pawn move and counted up
/// otherwise, the castling rights of the two squares removed, and the en passant square
/// behind a pawn's double step.
pub open spec fn successor_state(pos: Position, m: Move, p: Position) -> bool {
    &&& forall|i: int| 0 <= i < 64 ==> #[trigger] p.board_at(i) == board_after(pos, m, i)
    &&& p.side() == pos.side().spec_switch()
    &&& p.plies() == pos.plies() + 1
    &&& p.clock() == if resets_clock(pos, m) {
        0
    } else {
        pos.clock() + 1
    }
    &&& p.rights().bits() == rights_after_square(rights_after_square(pos.rights().bits(), m.from_sq()), m.to_sq())
    &&& if is_double_step(pos, m) {
        p.ep_square() matches Some(e) && e as int == behind(pos, m.to_sq())
    } else {
        p.ep_square() is None
    }
}

/// Squares holding a piece of color `c` and type `pt`.
pub open spec fn piece_sel(c: Color, pt: PieceType) -> spec_fn(Option<Piece>) -> bool {
    |o: Option<Piece>| is_piece(o, c, pt)
}

/// Squares holding a piece of color `c`.
pub open spec fn color_sel(c: Color) -> spec_fn(Option<Piece>) -> bool {
    |o: Option<Piece>| is_color(o, c)
}

/// Squares holding a piece.
pub open spec fn any_sel() -> spec_fn(Option<Piece>) -> bool {
    |o: Option<Piece>| o is Some
}

/// Bit `t` of a bitboard that selects the pieces `sel`, with bit `was` before, after the piece
/// on the destination of `m` was removed and the moving piece went from the source to the
/// destination: each step clears or sets the bit of the square of the piece it handles,
/// whatever the other bits hold.
pub open spec fn moved_bit(pos: Position, m: Move, was: bool, t: int, sel: spec_fn(Option<Piece>) -> bool) -> bool {
    let f = m.from_sq();
    let to = m.to_sq();
    let mover = pos.board_at(f);
    let captured = was && !(t == to && sel(pos.board_at(to)));
    (captured && !(t == f && sel(mover))) || (t == to && sel(mover))
}

/// Bit `t` of a bitboard that selects the pieces `sel`, with bit `was` before making `m` on
/// `pos`: after `moved_bit`, a castling king's rook leaves its square for its new one, a pawn
/// captured en passant leaves its square, and a promoting pawn is replaced by the new piece of
/// the side to move.
pub open spec fn bit_after(pos: Position, m: Move, was: bool, t: int, sel: spec_fn(Option<Piece>) -> bool) -> bool {
    let to = m.to_sq();
    let b = moved_bit(pos, m, was, t, sel);
    if m.type_code() == MoveType::Castling as int && is_castle_target(to) {
        let rook = moved_board(pos, m, castle_rook_from(to));
        (b && !(t == castle_rook_from(to) && sel(rook))) || (t == castle_rook_to(to) && sel(rook))
    } else if m.type_code() == MoveType::EnPassant as int {
        b && !(t == behind(pos, to) && sel(moved_board(pos, m, behind(pos, to))))
    } else if m.type_code() == MoveType::Promotion as int {
        (b && !(t == to && sel(pos.board_at(m.from_sq())))) || (t == to && sel(
            Some(make_piece(pos.side(), promotion_type(m))),
        ))
    } else {
        b
    }
}

/// `p` is exactly what making `m` on `pos` leaves: the state of `successor_state`, and each
/// bitboard changed square by square by the pieces the move handles (`bit_after`), also where
/// the bitboards of `pos` disagree with its board.
pub open spec fn successor(pos: Position, m: Move, p: Position) -> bool {
    &&& successor_state(pos, m, p)
    &&& forall|c: Color, pt: PieceType, t: int| 0 <= t < 64 ==> #[trigger] p.pieces_of(c, pt).has(t) == bit_after(
        pos, m, pos.pieces_of(c, pt).has(t), t, piece_sel(c, pt))
    &&& forall|c: Color, t: int| 0 <= t < 64 ==> #[trigger] p.color_bb(c).has(t) == bit_after(
        pos, m, pos.color_bb(c).has(t), t, color_sel(c))
    &&& forall|t: int| 0 <= t < 64 ==> #[trigger] p.occupied_bb().has(t) == bit_after(
        pos, m, pos.occupied_bb().has(t), t, any_sel())
}

/// The position that making `m` on `pos` leaves (see `successor`).
pub open spec fn position_after(pos: Position, m: Move) -> Position {
    choose|p: Position| successor(pos, m, p)
}

/// Two positions with the same board, bitboards, side to move, castling rights, en passant
/// square and counters are the same position.
pub proof fn lemma_positions_equal(p: Position, q: Position)
    requires
        forall|i: int| 0 <= i < 64 ==> #[trigger] p.board_at(i) == q.board_at(i),
        forall|c: Color, pt: PieceType, i: int| 0 <= i < 64 ==> #[trigger] p.pieces_of(c, pt).has(i) == q.pieces_of(c, pt).has(i),
        forall|c: Color, i: int| 0 <= i < 64 ==> #[trigger] p.color_bb(c).has(i) == q.color_bb(c).has(i),
        forall|i: int| 0 <= i < 64 ==> #[trigger] p.occupied_bb().has(i) == q.occupied_bb().has(i),
        p.same_state(&q),
    ensures
        p == q,
{
    assert forall|c: Color, pt: PieceType| #[trigger] p.pieces_of(c, pt) == q.pieces_of(c, pt) by {
        assert forall|i: int| 0 <= i < 64 implies bit(p.pieces_of(c, pt).0, i) == bit(q.pieces_of(c, pt).0, i) by {
            assert(p.pieces_of(c, pt).has(i) == q.pieces_of(c, pt).has(i));
        }
        crate::bits::bit_ext(p.pieces_of(c, pt).0, q.pieces_of(c, pt).0);
    }
    assert forall|c: Color| #[trigger] p.color_bb(c) == q.color_bb(c) by {
        assert forall|i: int| 0 <= i < 64 implies bit(p.color_bb(c).0, i) == bit(q.color_bb(c).0, i) by {
            assert(p.color_bb(c).has(i) == q.color_bb(c).has(i));
        }
        crate::bits::bit_ext(p.color_bb(c).0, q.color_bb(c).0);
    }
    assert forall|i: int| 0 <= i < 64 implies bit(p.occupied_bb().0, i) == bit(q.occupied_bb().0, i) by {
        assert(p.occupied_bb().has(i) == q.occupied_bb().has(i));
    }
    crate::bits::bit_ext(p.occupied_bb().0, q.occupied_bb().0);
    broadcast use vstd::array::axiom_array_ext_equal;
    assert forall|c: int| 0 <= c < 2 implies p.pieces[c] == q.pieces[c] by {
        let col = if c == 0 { Color::White } else { Color::Black };
        assert(col as int == c);
        assert forall|t: int| 0 <= t < 6 implies p.pieces[c][t] == q.pieces[c][t] by {
            let pt = if t == 0 {
                PieceType::Pawn
            } else if t == 1 {
                PieceType::Knight
            } else if t == 2 {
                PieceType::Bishop
            } else if t == 3 {
                PieceType::Rook
            } else if t == 4 {
                PieceType::Queen
            } else {
                PieceType::King
            };
            assert(pt as int == t);
            assert(p.pieces_of(col, pt) == q.pieces_of(col, pt));
        }
        assert(p.pieces[c] =~= q.pieces[c]);
    }
    assert(p.pieces =~= q.pieces);
    assert(p.pieces_by_color[0] == q.pieces_by_color[0]) by {
        assert(p.color_bb(Color::White) == q.color_bb(Color::White));
    }
    assert(p.pieces_by_color[1] == q.pieces_by_color[1]) by {
        assert(p.color_bb(Color::Black) == q.color_bb(Color::Black));
    }
    assert(p.pieces_by_color =~= q.pieces_by_color);
    assert(p.board =~= q.board) by {
        assert forall|i: int| 0 <= i < 64 implies p.board[i] == q.board[i] by {
            assert(p.board_at(i) == q.board_at(i));
        }
    }
}

/// The position that making `m` on `pos` leaves is `position_after(pos, m)`.
pub proof fn lemma_position_after(pos: Position, m: Move, p: Position)
    requires
        successor(pos, m, p),
    ensures
        position_after(pos, m) == p,
{
    let q = position_after(pos, m);
    assert(successor(pos, m, q));
    assert forall|i: int| 0 <= i < 64 implies #[trigger] p.board_at(i) == q.board_at(i) by {
        assert(p.board_at(i) == board_after(pos, m, i));
        assert(q.board_at(i) == board_after(pos, m, i));
    }
    assert forall|c: Color, pt: PieceType, i: int| 0 <= i < 64 implies #[trigger] p.pieces_of(c, pt).has(i)
        == q.pieces_of(c, pt).has(i) by {
        assert(p.pieces_of(c, pt).has(i) == bit_after(pos, m, pos.pieces_of(c, pt).has(i), i, piece_sel(c, pt)));
        assert(q.pieces_of(c, pt).has(i) == bit_after(pos, m, pos.pieces_of(c, pt).has(i), i, piece_sel(c, pt)));
    }
    assert forall|c: Color, i: int| 0 <= i < 64 implies #[trigger] p.color_bb(c).has(i) == q.color_bb(c).has(i) by {
        assert(p.color_bb(c).has(i) == bit_after(pos, m, pos.color_bb(c).has(i), i, color_sel(c)));
        assert(q.color_bb(c).has(i) == bit_after(pos, m, pos.color_bb(c).has(i), i, color_sel(c)));
    }
    assert forall|i: int| 0 <= i < 64 implies #[trigger] p.occupied_bb().has(i) == q.occupied_bb().has(i) by {
        assert(p.occupied_bb().has(i) == bit_after(pos, m, pos.occupied_bb().has(i), i, any_sel()));
        assert(q.occupied_bb().has(i) == bit_after(pos, m, pos.occupied_bb().has(i), i, any_sel()));
    }
    if is_double_step(pos, m) {
        assert(p.ep_square() matches Some(e) && e as int == behind(pos, m.to_sq()));
        assert(q.ep_square() matches Some(e) && e as int == behind(pos, m.to_sq()));
        let pe = p.ep_square()->0;
        let qe = q.ep_square()->0;
        assert(pe as int == qe as int);
    }
    crate::castling::lemma_bits_determine(p.rights(), q.rights());
    lemma_positions_equal(p, q);
}

/// The castling rights after a piece moved off or onto `sq`.
fn rights_after_leaving(castling: Castling, sq: Square) -> (r: Castling)
    ensures
        r.bits() == rights_after_square(castling.bits(), sq as int),
{
    match sq {
        Square::A1 => castling.remove(Castling::white_queen()),
        Square::H1 => castling.remove(Castling::white_king()),
        Square::A8 => castling.remove(Castling::black_queen()),
        Square::H8 => castling.remove(Castling::black_king()),
        Square::E1 => castling.remove(Castling::white_queen()).remove(Castling::white_king()),
        Square::E8 => castling.remove(Castling::black_queen()).remove(Castling::black_king()),
        _ => castling,
    }
}

impl Position {
    /// Makes move `m`, which need not be legal.
    #[verifier::rlimit(60)]
    pub fn make_move(&mut self, m: Move)
        requires
            can_make_move(*old(self), m),
        ensures
            forall|i: int| 0 <= i < 64 ==> #[trigger] final(self).board_at(i) == board_after(*old(self), m, i),
            final(self).side() == old(self).side().spec_switch(),
            final(self).plies() == old(self).plies() + 1,
            final(self).clock() == if resets_clock(*old(self), m) {
                0
            } else {
                old(self).clock() + 1
            },
            final(self).rights().bits() == rights_after_square(rights_after_square(old(self).rights().bits(), m.from_sq()), m.to_sq()),
            is_double_step(*old(self), m) ==> (final(self).ep_square() matches Some(e) && e as int == behind(*old(self), m.to_sq())),
            !is_double_step(*old(self), m) ==> final(self).ep_square() is None,
            old(self).wf() && (m.type_code() == MoveType::Castling as int && is_castle_target(m.to_sq())
                ==> moved_board(*old(self), m, castle_rook_to(m.to_sq())) is None) ==> final(self).wf(),
            successor(*old(self), m, *final(self)),
    {
        let ghost pos0 = *self;
        let mut reset_half_move_clock = false;
        let from = m.from();
        let to = m.to();
        proof {
            m.lemma_field_ranges();
        }

        // Update en passant
        self.en_passant = None;
        proof {
            lemma_wf_same_pieces(pos0, *self);
        }

        // Remove target piece
        if self.board[to as usize].is_some() {
            self.delete_piece(to);
            reset_half_move_clock = true;
        }
        let ghost pos1 = *self;

        // Update castling
        self.castling = rights_after_leaving(self.castling, from);
        self.castling = rights_after_leaving(self.castling, to);
        assert forall|i: int| 0 <= i < 64 implies #[trigger] self.board_at(i) == if i == to as int {
            None
        } else {
            pos0.board_at(i)
        } by {
            assert(self.board_at(i) == pos1.board_at(i));
        }
        proof {
            lemma_wf_same_pieces(pos1, *self);
        }

        // Move piece
        let p = self.move_piece(from, to);
        let ghost pos2 = *self;
        proof {
            assert forall|c: Color, pt: PieceType, t: int| 0 <= t < 64 implies #[trigger] pos2.pieces_of(c, pt).has(t)
                == moved_bit(pos0, m, pos0.pieces_of(c, pt).has(t), t, piece_sel(c, pt)) by {
                assert(pos1.pieces_of(c, pt).has(t) == (pos0.pieces_of(c, pt).has(t) && !(t == to as int && is_piece(
                    pos0.board_at(to as int), c, pt))));
            }
            assert forall|c: Color, t: int| 0 <= t < 64 implies #[trigger] pos2.color_bb(c).has(t)
                == moved_bit(pos0, m, pos0.color_bb(c).has(t), t, color_sel(c)) by {
                assert(pos1.color_bb(c).has(t) == (pos0.color_bb(c).has(t) && !(t == to as int && is_color(
                    pos0.board_at(to as int), c))));
            }
            assert forall|t: int| 0 <= t < 64 implies #[trigger] pos2.occupied_bb().has(t)
                == moved_bit(pos0, m, pos0.occupied_bb().has(t), t, any_sel()) by {
                assert(pos1.occupied_bb().has(t) == (pos0.occupied_bb().has(t) && !(t == to as int && pos0.board_at(
                    to as int) is Some)));
            }
        }
        assert forall|i: int| 0 <= i < 64 implies #[trigger] self.board_at(i) == moved_board(pos0, m, i) by {}
        if p.piece_type() == PieceType::Pawn {
            reset_half_move_clock = true;
            let f = from as u8;
            let t = to as u8;
            let diff: u8 = if f > t {
                f - t
            } else {
                t - f
            };
            if diff == 16 {
                let en_passant = match self.side_to_move {
                    Color::White => Square::new(t - 8),
                    Color::Black => Square::new(t + 8),
                };
                self.en_passant = Some(en_passant);
            }
        }
        let ghost pos3 = *self;
        proof {
            lemma_wf_same_pieces(pos2, *self);
        }
        assert forall|i: int| 0 <= i < 64 implies #[trigger] self.board_at(i) == moved_board(pos0, m, i) by {
            assert(self.board_at(i) == pos2.board_at(i));
        }

        // custom handling for special move types
        let ghost wf_cond = m.type_code() == MoveType::Castling as int && is_castle_target(m.to_sq())
            ==> moved_board(pos0, m, castle_rook_to(m.to_sq())) is None;
        match m.move_type() {
            MoveType::Normal => {},
            MoveType::Castling => {
                match to {
                    Square::C1 => {
                        self.move_piece(Square::A1, Square::D1);
                    },
                    Square::G1 => {
                        self.move_piece(Square::H1, Square::F1);
                    },
                    Square::C8 => {
                        self.move_piece(Square::A8, Square::D8);
                    },
                    Square::G8 => {
                        self.move_piece(Square::H8, Square::F8);
                    },
                    _ => {},
                };
            },
            MoveType::EnPassant => {
                let pawn_to_remove = match self.side_to_move {
                    Color::White => Square::new(to as u8 - 8),
                    Color::Black => Square::new(to as u8 + 8),
                };
                self.delete_piece(pawn_to_remove);
            },
            MoveType::Promotion => {
                self.delete_piece(to);
                let promo = m.promotion().unwrap();
                let piece = Piece::new_from_color_and_type(self.side_to_move, promo);
                self.set_piece(piece, to);
                assert(promo == promotion_type(m));
            },
        }
        assert forall|i: int| 0 <= i < 64 implies #[trigger] self.board_at(i) == board_after(pos0, m, i) by {
            assert(pos3.board_at(i) == moved_board(pos0, m, i));
            if m.type_code() == MoveType::Castling as int && is_castle_target(m.to_sq()) {
                assert(pos3.board_at(castle_rook_from(m.to_sq())) == moved_board(pos0, m, castle_rook_from(m.to_sq())));
            }
        }
        assert(pos3.wf() && wf_cond ==> self.wf()) by {
            if m.type_code() == MoveType::Castling as int && is_castle_target(m.to_sq()) {
                assert(pos3.board_at(castle_rook_to(m.to_sq())) == moved_board(pos0, m, castle_rook_to(m.to_sq())));
            }
        }
        proof {
            let ghost tq = m.to_sq();
            let ghost rf = castle_rook_from(tq);
            let ghost bh = behind(pos0, tq);
            assert(pos3.board_at(rf) == moved_board(pos0, m, rf));
            assert(0 <= bh < 64 ==> pos3.board_at(bh) == moved_board(pos0, m, bh));
            assert(pos3.board_at(tq) == pos0.board_at(m.from_sq()));
            assert forall|c: Color, pt: PieceType, t: int| 0 <= t < 64 implies #[trigger] self.pieces_of(c, pt).has(t)
                == bit_after(pos0, m, pos0.pieces_of(c, pt).has(t), t, piece_sel(c, pt)) by {
                assert(pos3.pieces_of(c, pt) == pos2.pieces_of(c, pt));
                assert(pos2.pieces_of(c, pt).has(t) == moved_bit(pos0, m, pos0.pieces_of(c, pt).has(t), t, piece_sel(c, pt)));
            }
            assert forall|c: Color, t: int| 0 <= t < 64 implies #[trigger] self.color_bb(c).has(t)
                == bit_after(pos0, m, pos0.color_bb(c).has(t), t, color_sel(c)) by {
                assert(pos3.color_bb(c) == pos2.color_bb(c));
                assert(pos2.color_bb(c).has(t) == moved_bit(pos0, m, pos0.color_bb(c).has(t), t, color_sel(c)));
            }
            assert forall|t: int| 0 <= t < 64 implies #[trigger] self.occupied_bb().has(t)
                == bit_after(pos0, m, pos0.occupied_bb().has(t), t, any_sel()) by {
                assert(pos3.occupied_bb() == pos2.occupied_bb());
                assert(pos2.occupied_bb().has(t) == moved_bit(pos0, m, pos0.occupied_bb().has(t), t, any_sel()));
            }
        }
        let ghost pos4 = *self;

        self.ply = self.ply + 1;
        self.side_to_move = self.side_to_move.switch();
        self.half_move_clock = if reset_half_move_clock {
            0
        } else {
            self.half_move_clock + 1
        };
        assert forall|i: int| 0 <= i < 64 implies #[trigger] self.board_at(i) == pos4.board_at(i) by {}
        proof {
            lemma_wf_same_pieces(pos4, *self);
            assert forall|c: Color, pt: PieceType, t: int| 0 <= t < 64 implies #[trigger] self.pieces_of(c, pt).has(t)
                == bit_after(pos0, m, pos0.pieces_of(c, pt).has(t), t, piece_sel(c, pt)) by {
                assert(self.pieces_of(c, pt) == pos4.pieces_of(c, pt));
            }
            assert forall|c: Color, t: int| 0 <= t < 64 implies #[trigger] self.color_bb(c).has(t)
                == bit_after(pos0, m, pos0.color_bb(c).has(t), t, color_sel(c)) by {
                assert(self.color_bb(c) == pos4.color_bb(c));
            }
            assert forall|t: int| 0 <= t < 64 implies #[trigger] self.occupied_bb().has(t)
                == bit_after(pos0, m, pos0.occupied_bb().has(t), t, any_sel()) by {
                assert(self.occupied_bb() == pos4.occupied_bb());
            }
        }
    }
}


/// The squares with index in `i..64` that satisfy `p`, in increasing order.
pub open spec fn squares_where(p: spec_fn(int) -> bool, i: int) -> Seq<int>
    decreases 64 - i,
{
    if i < 0 || i >= 64 {
        seq![]
    } else if p(i) {
        seq![i] + squares_where(p, i + 1)
    } else {
        squares_where(p, i + 1)
    }
}

/// The squares of `b` in increasing order.
pub open spec fn squares_of(b: Bitboard) -> Seq<int> {
    squares_where(|t: int| b.has(t), 0)
}

/// Squares without `p` below `j` do not change the list from `i` on.
proof fn lemma_squares_skip(p: spec_fn(int) -> bool, i: int, j: int)
    requires
        0 <= i <= j <= 64,
        forall|t: int| i <= t < j ==> !#[trigger] p(t),
    ensures
        squares_where(p, i) == squares_where(p, j),
    decreases j - i,
{
    if i < j {
        lemma_squares_skip(p, i + 1, j);
    }
}

/// Predicates that agree from `i` on list the same squares from `i` on.
proof fn lemma_squares_agree(p: spec_fn(int) -> bool, q: spec_fn(int) -> bool, i: int)
    requires
        0 <= i <= 64,
        forall|t: int| i <= t < 64 ==> #[trigger] p(t) == q(t),
    ensures
        squares_where(p, i) == squares_where(q, i),
    decreases 64 - i,
{
    if i < 64 {
        lemma_squares_agree(p, q, i + 1);
    }
}

/// Taking the lowest square off a bitboard takes the first square off its list.
proof fn lemma_squares_pop(b: Bitboard, rest: Bitboard, s: int)
    requires
        b.has(s),
        forall|t: int| 0 <= t < s ==> !#[trigger] b.has(t),
        forall|t: int| #[trigger] rest.has(t) == (b.has(t) && t != s),
    ensures
        squares_of(b) == seq![s] + squares_of(rest),
{
    let p = |t: int| b.has(t);
    let q = |t: int| rest.has(t);
    lemma_squares_skip(p, 0, s);
    assert(squares_where(p, s) == seq![s] + squares_where(p, s + 1));
    assert forall|t: int| 0 <= t < s + 1 implies !#[trigger] q(t) by {
        assert(rest.has(t) == (b.has(t) && t != s));
    }
    lemma_squares_skip(q, 0, s + 1);
    assert forall|t: int| s + 1 <= t < 64 implies #[trigger] p(t) == q(t) by {
        assert(rest.has(t) == (b.has(t) && t != s));
    }
    lemma_squares_agree(p, q, s + 1);
}

/// An empty bitboard lists no squares.
proof fn lemma_squares_empty(b: Bitboard)
    requires
        b.0 == 0,
    ensures
        squares_of(b) == Seq::<int>::empty(),
{
    let p = |t: int| b.has(t);
    lemma_squares_skip(p, 0, 64);
}

/// The list of a bitboard depends only on its squares.
proof fn lemma_squares_of_pred(b: Bitboard, p: spec_fn(int) -> bool)
    requires
        forall|t: int| 0 <= t < 64 ==> b.has(t) == #[trigger] p(t),
    ensures
        squares_of(b) == squares_where(p, 0),
{
    lemma_squares_agree(|t: int| b.has(t), p, 0);
}

/// Normal moves from `from` to each of `tos`, in order.
pub open spec fn normal_moves(from: int, tos: Seq<int>) -> Seq<Move>
    decreases tos.len(),
{
    if tos.len() == 0 {
        seq![]
    } else {
        seq![Move::encode(from, tos[0], MoveType::Normal as int, 0)] + normal_moves(from, tos.drop_first())
    }
}

/// A piece of type `pt` (other than a pawn) on `f` attacks `t` on a board occupied by `occ`.
pub open spec fn piece_reach(pt: PieceType, f: int, occ: Bitboard, t: int) -> bool {
    match pt {
        PieceType::Bishop => slider_reach(Slider::Bishop, f, occ, t),
        PieceType::Rook => slider_reach(Slider::Rook, f, occ, t),
        PieceType::Queen => slider_reach(Slider::Bishop, f, occ, t) || slider_reach(Slider::Rook, f, occ, t),
        PieceType::King => king_reach(f, t),
        _ => knight_reach(f, t),
    }
}

/// The squares a piece of type `pt` of the side to move on `f` can move to: those it attacks
/// that hold no piece of its own color.
pub open spec fn piece_targets(pos: Position, pt: PieceType, f: int) -> spec_fn(int) -> bool {
    |t: int| piece_reach(pt, f, pos.occupied_bb(), t) && !pos.color_bb(pos.side()).has(t)
}

/// The normal moves of the pieces of type `pt` on the squares `froms`, square by square.
pub open spec fn group_moves(pos: Position, pt: PieceType, froms: Seq<int>) -> Seq<Move>
    decreases froms.len(),
{
    if froms.len() == 0 {
        seq![]
    } else {
        normal_moves(froms[0], squares_where(piece_targets(pos, pt, froms[0]), 0)) + group_moves(pos, pt, froms.drop_first())
    }
}

/// The moves of the pieces of type `pt` of the side to move.
pub open spec fn piece_moves(pos: Position, pt: PieceType) -> Seq<Move> {
    group_moves(pos, pt, squares_of(pos.pieces_of(pos.side(), pt)))
}

impl Position {
    /// The attack set of a piece of type `pt` (other than a pawn) on `from`.
    fn piece_attacks(pt: PieceType, from: Square, occupied: Bitboard, magics: &SliderMagics) -> (r: Bitboard)
        requires
            magics.wf(),
            pt != PieceType::Pawn,
        ensures
            forall|t: int| #[trigger] r.has(t) == piece_reach(pt, from as int, occupied, t),
    {
        match pt {
            PieceType::Bishop => bishop_attacks(magics, from, occupied),
            PieceType::Rook => rook_attacks(magics, from, occupied),
            PieceType::Queen => queen_attacks(magics, from, occupied),
            PieceType::King => king_attacks(from),
            _ => knight_attacks(from),
        }
    }

    /// Appends a normal move from every square of `froms` to every square it attacks among
    /// `destinations`.
    #[verifier::spinoff_prover]
    #[verifier::rlimit(30)]
    fn generate_move_helper(
        &self,
        moves: &mut Vec<Move>,
        froms: Bitboard,
        pt: PieceType,
        magics: &SliderMagics,
    )
        requires
            magics.wf(),
            pt != PieceType::Pawn,
            froms == self.pieces_of(self.side(), pt),
        ensures
            final(moves)@ == old(moves)@ + piece_moves(*self, pt),
    {
        let occupied = self.occupied;
        let destinations = Bitboard(!self.pieces_by_color[self.side_to_move as usize].0);
        let mut froms = froms;
        let ghost target = old(moves)@ + piece_moves(*self, pt);
        loop
            invariant
                magics.wf(),
                pt != PieceType::Pawn,
                occupied == self.occupied_bb(),
                forall|t: int| #[trigger] destinations.has(t) == (0 <= t < 64 && !self.color_bb(self.side()).has(t)),
                moves@ + group_moves(*self, pt, squares_of(froms)) == target,
            ensures
                moves@ == target,
            decreases squares_of(froms).len(),
        {
            let ghost before = froms;
            match froms.pop_lsb_square() {
                Some(from) => {
                    let ghost f = from as int;
                    proof {
                        lemma_squares_pop(before, froms, f);
                    }
                    let ghost rest = squares_of(froms);
                    let attacked = Self::piece_attacks(pt, from, occupied, magics);
                    let mut tos = Bitboard(attacked.0 & destinations.0);
                    proof {
                        assert forall|t: int| 0 <= t < 64 implies tos.has(t) == piece_targets(*self, pt, f)(t) by {
                            assert(attacked.has(t) == piece_reach(pt, f, occupied, t));
                            assert(destinations.has(t) == (0 <= t < 64 && !self.color_bb(self.side()).has(t)));
                        }
                        lemma_squares_of_pred(tos, piece_targets(*self, pt, f));
                        let l = seq![f] + rest;
                        assert(l.drop_first() =~= rest);
                        assert(group_moves(*self, pt, l) == normal_moves(f, squares_of(tos)) + group_moves(*self, pt, rest));
                        assert(moves@ + (normal_moves(f, squares_of(tos)) + group_moves(*self, pt, rest))
                            =~= moves@ + normal_moves(f, squares_of(tos)) + group_moves(*self, pt, rest));
                    }
                    loop
                        invariant
                                        moves@ + normal_moves(f, squares_of(tos)) + group_moves(*self, pt, rest) == target,
                                        f == from as int,
                        ensures
                                        moves@ + group_moves(*self, pt, rest) == target,
                        decreases squares_of(tos).len(),
                    {
                        let ghost tos_before = tos;
                        match tos.pop_lsb_square() {
                            Some(to) => {
                                proof {
                                    lemma_squares_pop(tos_before, tos, to as int);
                                    let l = squares_of(tos_before);
                                    assert(l.drop_first() =~= squares_of(tos));
                                    assert(normal_moves(f, l) == seq![Move::encode(f, to as int, MoveType::Normal as int, 0)]
                                        + normal_moves(f, squares_of(tos)));
                                    assert(moves@ + seq![Move::encode(f, to as int, MoveType::Normal as int, 0)]
                                        + normal_moves(f, squares_of(tos)) + group_moves(*self, pt, rest)
                                        =~= moves@ + normal_moves(f, l) + group_moves(*self, pt, rest));
                                }
                                moves.push(Move::new(from, to, MoveType::Normal, None));
                            },
                            None => {
                                proof {
                                    lemma_squares_empty(tos_before);
                                    assert(normal_moves(f, squares_of(tos_before)) =~= Seq::<Move>::empty());
                                    assert(moves@ + Seq::<Move>::empty() =~= moves@);
                                }
                                break;
                            },
                        }
                    }
                    proof {
                        assert(squares_of(before).drop_first() =~= rest);
                    }
                },
                None => {
                    proof {
                        lemma_squares_empty(before);
                        assert(moves@ + Seq::<Move>::empty() =~= moves@);
                    }
                    break;
                },
            }
        }
    }
}


/// A pawn of `color` on `f` can advance to `t` without capturing: one square onto a free
/// square, or two squares from its starting rank over two free squares.
pub open spec fn pawn_push_reach(color: Color, f: int, occ: Bitboard, t: int) -> bool {
    &&& 0 <= t < 64
    &&& !occ.has(t)
    &&& match color {
        Color::White => t == f + 8 || (t == f + 16 && rank_of(t) == 3 && !occ.has(f + 8)),
        Color::Black => t == f - 8 || (t == f - 16 && rank_of(t) == 4 && !occ.has(f - 8)),
    }
}

/// The squares a pawn of the side to move on `f` can go to, en passant aside: the squares it
/// attacks that hold a piece of the other color, and the squares it can advance to.
pub open spec fn pawn_targets(pos: Position, f: int) -> spec_fn(int) -> bool {
    |t: int| (pawn_reach(pos.side(), f, t) && pos.color_bb(pos.side().spec_switch()).has(t))
        || pawn_push_reach(pos.side(), f, pos.occupied_bb(), t)
}

/// A pawn of color `c` arriving on `t` promotes: `t` is on the last rank seen from `c`.
pub open spec fn promotes(c: Color, t: int) -> bool {
    match c {
        Color::White => rank_of(t) == 7,
        Color::Black => rank_of(t) == 0,
    }
}

/// The moves of a pawn of color `c` from `f` to each of `tos`, in order: four promotions
/// (knight, bishop, rook, queen) where it promotes, one normal move elsewhere.
pub open spec fn pawn_to_moves(c: Color, f: int, tos: Seq<int>) -> Seq<Move>
    decreases tos.len(),
{
    if tos.len() == 0 {
        seq![]
    } else {
        let t = tos[0];
        let first = if promotes(c, t) {
            seq![
                Move::encode(f, t, MoveType::Promotion as int, 0),
                Move::encode(f, t, MoveType::Promotion as int, 1),
                Move::encode(f, t, MoveType::Promotion as int, 2),
                Move::encode(f, t, MoveType::Promotion as int, 3),
            ]
        } else {
            seq![Move::encode(f, t, MoveType::Normal as int, 0)]
        };
        first + pawn_to_moves(c, f, tos.drop_first())
    }
}

/// The en passant capture of a pawn of the side to move on `f`, if it attacks the en passant
/// square.
pub open spec fn en_passant_moves(pos: Position, f: int) -> Seq<Move> {
    match pos.ep_square() {
        Some(e) => if pawn_reach(pos.side(), f, e as int) {
            seq![Move::encode(f, e as int, MoveType::EnPassant as int, 0)]
        } else {
            seq![]
        },
        None => seq![],
    }
}

/// The moves of the pawns of the side to move on the squares `froms`, square by square.
pub open spec fn pawn_group_moves(pos: Position, froms: Seq<int>) -> Seq<Move>
    decreases froms.len(),
{
    if froms.len() == 0 {
        seq![]
    } else {
        let f = froms[0];
        pawn_to_moves(pos.side(), f, squares_where(pawn_targets(pos, f), 0)) + en_passant_moves(pos, f)
            + pawn_group_moves(pos, froms.drop_first())
    }
}

/// The moves of the pawns of the side to move.
pub open spec fn pawn_moves(pos: Position) -> Seq<Move> {
    pawn_group_moves(pos, squares_of(pos.pieces_of(pos.side(), PieceType::Pawn)))
}

/// The castling move `cm` as a move of the king two squares toward the rook, if allowed.
pub open spec fn castle_move_of(pos: Position, cm: CastleMove) -> Seq<Move> {
    if castle_allowed(pos, cm) {
        let k = king_square(pos);
        seq![Move::encode(k, castle_path(k, cm, 2), MoveType::Castling as int, 0)]
    } else {
        seq![]
    }
}

/// The castling moves of the side to move, in the order white king side, white queen side,
/// black king side, black queen side.
pub open spec fn castle_moves(pos: Position) -> Seq<Move> {
    castle_move_of(pos, CastleMove::WhiteKing) + castle_move_of(pos, CastleMove::WhiteQueen)
        + castle_move_of(pos, CastleMove::BlackKing) + castle_move_of(pos, CastleMove::BlackQueen)
}

/// The pseudo-legal moves of the side to move, in the order they are generated: bishops,
/// rooks, queens, king, knights, pawns, castling. A pseudo-legal move may leave the own king
/// in check.
pub open spec fn pseudo_legal_moves(pos: Position) -> Seq<Move> {
    piece_moves(pos, PieceType::Bishop) + piece_moves(pos, PieceType::Rook) + piece_moves(pos, PieceType::Queen)
        + piece_moves(pos, PieceType::King) + piece_moves(pos, PieceType::Knight) + pawn_moves(pos)
        + castle_moves(pos)
}

/// Every castle move can be checked on the position (see `castle_checkable`).
pub open spec fn castling_checkable(pos: Position) -> bool {
    &&& castle_checkable(pos, CastleMove::WhiteKing)
    &&& castle_checkable(pos, CastleMove::WhiteQueen)
    &&& castle_checkable(pos, CastleMove::BlackKing)
    &&& castle_checkable(pos, CastleMove::BlackQueen)
}

/// Every square listed from `i` on satisfies `p` and lies in `i..64`.
proof fn lemma_squares_where_members(p: spec_fn(int) -> bool, i: int)
    requires
        0 <= i,
    ensures
        forall|k: int| 0 <= k < squares_where(p, i).len() ==> i <= #[trigger] squares_where(p, i)[k] < 64
            && p(squares_where(p, i)[k]),
    decreases 64 - i,
{
    if i < 64 {
        lemma_squares_where_members(p, i + 1);
        if p(i) {
            let l = squares_where(p, i);
            assert forall|k: int| 0 <= k < l.len() implies i <= #[trigger] l[k] < 64 && p(l[k]) by {
                if k > 0 {
                    assert(l[k] == squares_where(p, i + 1)[k - 1]);
                }
            }
        }
    }
}

impl Position {
    /// Appends the moves of the pawns of the side to move: captures and pushes, with the four
    /// promotions on the last rank, then the en passant capture of each pawn.
    fn generate_pawn_moves(&self, moves: &mut Vec<Move>)
        ensures
            final(moves)@ == old(moves)@ + pawn_moves(*self),
    {
        let color = self.side_to_move;
        let them = self.pieces_by_color[color.switch() as usize];
        let occupied = self.occupied;
        let en_passant = self.en_passant;
        let mut froms = self.pieces[color as usize][PieceType::Pawn as usize];
        let ghost target = old(moves)@ + pawn_moves(*self);
        loop
            invariant
                color == self.side(),
                them == self.color_bb(self.side().spec_switch()),
                occupied == self.occupied_bb(),
                en_passant == self.ep_square(),
                moves@ + pawn_group_moves(*self, squares_of(froms)) == target,
            ensures
                moves@ == target,
            decreases squares_of(froms).len(),
        {
            let ghost before = froms;
            match froms.pop_lsb_square() {
                Some(from) => {
                    let ghost f = from as int;
                    proof {
                        lemma_squares_pop(before, froms, f);
                    }
                    let ghost rest = squares_of(froms);
                    let origin = Bitboard::from_square(from);
                    let pa = pawn_attacks(color, origin);
                    let pu = pushes(color, origin, occupied);
                    let mut tos = Bitboard((pa.0 & them.0) | pu.0);
                    proof {
                        assert forall|t: int| #[trigger] pa.has(t) == pawn_reach(color, f, t) by {
                            assert(pa.has(t) == exists|u: int| #[trigger] origin.has(u) && pawn_reach(color, u, t));
                            if pawn_reach(color, f, t) {
                                assert(origin.has(f));
                            }
                            if pa.has(t) {
                                let u = choose|u: int| #[trigger] origin.has(u) && pawn_reach(color, u, t);
                                assert(origin.has(u) == (u == f));
                            }
                        }
                        assert forall|t: int| 0 <= t < 64 implies tos.has(t) == pawn_targets(*self, f)(t) by {
                            assert(pa.has(t) == pawn_reach(color, f, t));
                            assert(pu.has(t) == (single_push_to(color, origin, occupied, t)
                                || double_push_to(color, origin, occupied, t)));
                            assert(origin.has(t - 8) == (t - 8 == f));
                            assert(origin.has(t + 8) == (t + 8 == f));
                            assert(origin.has(t - 16) == (t - 16 == f));
                            assert(origin.has(t + 16) == (t + 16 == f));
                        }
                        lemma_squares_of_pred(tos, pawn_targets(*self, f));
                        let l = seq![f] + rest;
                        assert(l.drop_first() =~= rest);
                        let a = pawn_to_moves(color, f, squares_of(tos));
                        let b = en_passant_moves(*self, f);
                        let c = pawn_group_moves(*self, rest);
                        assert(pawn_group_moves(*self, l) == a + b + c);
                        assert(moves@ + (a + b + c) =~= moves@ + a + b + c);
                    }
                    loop
                        invariant
                            color == self.side(),
                            moves@ + pawn_to_moves(color, f, squares_of(tos)) + en_passant_moves(*self, f)
                                + pawn_group_moves(*self, rest) == target,
                            f == from as int,
                        ensures
                            moves@ + en_passant_moves(*self, f) + pawn_group_moves(*self, rest) == target,
                        decreases squares_of(tos).len(),
                    {
                        let ghost tos_before = tos;
                        let ghost m0 = moves@;
                        match tos.pop_lsb_square() {
                            Some(to) => {
                                let ghost t = to as int;
                                let ghost l = squares_of(tos_before);
                                proof {
                                    lemma_squares_pop(tos_before, tos, t);
                                    assert(l.drop_first() =~= squares_of(tos));
                                }
                                let r = to.rank();
                                let promoting = match color {
                                    Color::White => r == Rank::R8,
                                    Color::Black => r == Rank::R1,
                                };
                                if promoting {
                                    moves.push(Move::new(from, to, MoveType::Promotion, Some(PieceType::Knight)));
                                    moves.push(Move::new(from, to, MoveType::Promotion, Some(PieceType::Bishop)));
                                    moves.push(Move::new(from, to, MoveType::Promotion, Some(PieceType::Rook)));
                                    moves.push(Move::new(from, to, MoveType::Promotion, Some(PieceType::Queen)));
                                } else {
                                    moves.push(Move::new(from, to, MoveType::Normal, None));
                                }
                                proof {
                                    assert(promoting == promotes(color, t));
                                    let first = moves@.subrange(m0.len() as int, moves@.len() as int);
                                    assert(moves@ =~= m0 + first);
                                    assert(pawn_to_moves(color, f, l) == first + pawn_to_moves(color, f, squares_of(tos)));
                                    let e = en_passant_moves(*self, f);
                                    let g = pawn_group_moves(*self, rest);
                                    let p2 = pawn_to_moves(color, f, squares_of(tos));
                                    assert(m0 + (first + p2) + e + g =~= moves@ + p2 + e + g);
                                }
                            },
                            None => {
                                proof {
                                    lemma_squares_empty(tos_before);
                                    assert(pawn_to_moves(color, f, squares_of(tos_before)) =~= Seq::<Move>::empty());
                                    assert(moves@ + Seq::<Move>::empty() =~= moves@);
                                }
                                break;
                            },
                        }
                    }
                    // En passant
                    match en_passant {
                        Some(e) => {
                            let ep = Bitboard::from_square(e);
                            let hit = Bitboard(pa.0 & ep.0);
                            proof {
                                assert(pa.has(e as int) == pawn_reach(color, f, e as int));
                                assert(ep.has(e as int));
                                assert(hit.has(e as int) == (pa.has(e as int) && ep.has(e as int)));
                                assert(en_passant == self.ep_square());
                                lemma_nonzero_has(hit);
                                if pawn_reach(color, f, e as int) {
                                    assert(hit.has(e as int));
                                }
                            }
                            if hit.0 != 0 {
                                let ghost m1 = moves@;
                                moves.push(Move::new(from, e, MoveType::EnPassant, None));
                                proof {
                                    let w = choose|i: int| #[trigger] hit.has(i);
                                    assert(ep.has(w));
                                    assert(en_passant_moves(*self, f) == seq![Move::encode(f, e as int, MoveType::EnPassant as int, 0)]);
                                    assert(m1 + en_passant_moves(*self, f) =~= moves@);
                                }
                            } else {
                                proof {
                                    assert(en_passant_moves(*self, f) =~= Seq::<Move>::empty());
                                    assert(moves@ + Seq::<Move>::empty() =~= moves@);
                                }
                            }
                        },
                        None => {
                            proof {
                                assert(moves@ + Seq::<Move>::empty() =~= moves@);
                            }
                        },
                    }
                },
                None => {
                    proof {
                        lemma_squares_empty(before);
                        assert(moves@ + Seq::<Move>::empty() =~= moves@);
                    }
                    break;
                },
            }
        }
    }
}


impl Position {
    /// Appends the castling move `castle_move` if it is allowed.
    fn generate_castle_move(&self, moves: &mut Vec<Move>, castle_move: CastleMove, magics: &SliderMagics)
        requires
            magics.wf(),
            castle_checkable(*self, castle_move),
        ensures
            final(moves)@ == old(moves)@ + castle_move_of(*self, castle_move),
    {
        if self.can_do_castle_move(castle_move, magics) {
            let from = self.pieces[self.side_to_move as usize][PieceType::King as usize].lsb_square().unwrap();
            let to = match castle_move.side() {
                CastleSide::King => from.next().next(),
                CastleSide::Queen => from.previous().previous(),
            };
            let ghost m0 = moves@;
            moves.push(Move::new(from, to, MoveType::Castling, None));
            assert(moves@ =~= m0 + castle_move_of(*self, castle_move));
        } else {
            assert(moves@ =~= old(moves)@ + castle_move_of(*self, castle_move));
        }
    }

    /// Appends the castling moves of the side to move.
    fn generate_castling_moves(&self, moves: &mut Vec<Move>, magics: &SliderMagics)
        requires
            magics.wf(),
            castling_checkable(*self),
        ensures
            final(moves)@ == old(moves)@ + castle_moves(*self),
    {
        let all = CastleMove::all();
        self.generate_castle_move(moves, all[0], magics);
        self.generate_castle_move(moves, all[1], magics);
        self.generate_castle_move(moves, all[2], magics);
        self.generate_castle_move(moves, all[3], magics);
        assert(moves@ =~= old(moves)@ + castle_moves(*self));
    }

    /// The pseudo-legal moves of the side to move, in generation order.
    pub fn pseudo_legal_move_vec(&self, magics: &SliderMagics) -> (moves: Vec<Move>)
        requires
            magics.wf(),
            castling_checkable(*self),
        ensures
            moves@ == pseudo_legal_moves(*self),
    {
        let mut moves: Vec<Move> = Vec::new();
        let side = self.side_to_move as usize;
        self.generate_move_helper(&mut moves, self.pieces[side][PieceType::Bishop as usize], PieceType::Bishop, magics);
        self.generate_move_helper(&mut moves, self.pieces[side][PieceType::Rook as usize], PieceType::Rook, magics);
        self.generate_move_helper(&mut moves, self.pieces[side][PieceType::Queen as usize], PieceType::Queen, magics);
        self.generate_move_helper(&mut moves, self.pieces[side][PieceType::King as usize], PieceType::King, magics);
        self.generate_move_helper(&mut moves, self.pieces[side][PieceType::Knight as usize], PieceType::Knight, magics);
        self.generate_pawn_moves(&mut moves);
        self.generate_castling_moves(&mut moves, magics);
        assert(moves@ =~= pseudo_legal_moves(*self));
        moves
    }

    /// Appends the pseudo-legal moves of the side to move: bishops, rooks, queens, king,
    /// knights, pawns, castling. The list must have room for all of them.
    pub fn generate_moves(&self, moves: &mut MoveList, magics: &SliderMagics)
        requires
            magics.wf(),
            castling_checkable(*self),
            old(moves).wf(),
            old(moves).view().len() + pseudo_legal_moves(*self).len() <= CAPACITY,
        ensures
            final(moves).wf(),
            final(moves).view() == old(moves).view() + pseudo_legal_moves(*self),
    {
        let generated = self.pseudo_legal_move_vec(magics);
        let mut i: usize = 0;
        while i < generated.len()
            invariant
                i <= generated.len(),
                generated@ == pseudo_legal_moves(*self),
                moves.wf(),
                moves.view() == old(moves).view() + generated@.take(i as int),
                old(moves).view().len() + generated@.len() <= CAPACITY,
            decreases generated.len() - i,
        {
            moves.push(generated[i]);
            assert(generated@.take(i + 1) =~= generated@.take(i as int).push(generated@[i as int]));
            i = i + 1;
        }
        assert(generated@.take(i as int) =~= generated@);
    }

    /// Whether every castle move can be checked on this position (see `castle_checkable`):
    /// wherever a castling right of the side to move is set, it has a king, and when that king
    /// is not in check there are enough squares beside it.
    pub fn castling_is_checkable(&self, magics: &SliderMagics) -> (r: bool)
        requires
            magics.wf(),
        ensures
            r == castling_checkable(*self),
    {
        let all = CastleMove::all();
        let mut i: usize = 0;
        while i < 4
            invariant
                i <= 4,
                magics.wf(),
                all[0] == CastleMove::WhiteKing,
                all[1] == CastleMove::WhiteQueen,
                all[2] == CastleMove::BlackKing,
                all[3] == CastleMove::BlackQueen,
                forall|j: int| 0 <= j < i ==> castle_checkable(*self, #[trigger] all[j]),
            decreases 4 - i,
        {
            let cm = all[i];
            if self.castling.contains(cm.right()) && cm.color() == self.side_to_move {
                let kings = self.pieces[self.side_to_move as usize][PieceType::King as usize];
                if kings.0 == 0 {
                    return false;
                }
                if !self.is_check(magics) {
                    let k = kings.lsb_square().unwrap();
                    let fits = match cm.side() {
                        CastleSide::King => (k as u8) < 62,
                        CastleSide::Queen => (k as u8) >= 3,
                    };
                    if !fits {
                        return false;
                    }
                }
            }
            i = i + 1;
        }
        assert(castle_checkable(*self, all[0]));
        assert(castle_checkable(*self, all[1]));
        assert(castle_checkable(*self, all[2]));
        assert(castle_checkable(*self, all[3]));
        true
    }
}


impl Position {
    /// What `moved_board` holds on `sq`.
    fn moved_piece_at(&self, from: Square, to: Square, sq: u8) -> (r: Option<Piece>)
        requires
            sq < 64,
        ensures
            forall|m: Move| m.from_sq() == from as int && m.to_sq() == to as int ==> r == moved_board(*self, m, sq as int),
    {
        if sq == to as u8 {
            self.board[from as usize]
        } else if sq == from as u8 {
            None
        } else {
            self.board[sq as usize]
        }
    }

    /// Whether `m` can be made on this position (see `can_make_move`).
    pub fn can_make(&self, m: Move) -> (r: bool)
        ensures
            r == can_make_move(*self, m),
    {
        let from = m.from();
        let to = m.to();
        let f = from as u8;
        let t = to as u8;
        let mover = self.board[from as usize];
        let piece = match mover {
            Some(p) => p,
            None => {
                return false;
            },
        };
        if f == t {
            return false;
        }
        if self.ply >= 255 {
            return false;
        }
        let pawn = piece.piece_type() == PieceType::Pawn;
        assert(pawn == moves_pawn(*self, m));
        if !(self.board[to as usize].is_some() || pawn) && self.half_move_clock >= 255 {
            return false;
        }
        let behind_ok = match self.side_to_move {
            Color::White => t >= 8,
            Color::Black => t < 56,
        };
        let behind_sq: u8 = if behind_ok {
            match self.side_to_move {
                Color::White => t - 8,
                Color::Black => t + 8,
            }
        } else {
            0
        };
        assert(behind_ok == (0 <= behind(*self, t as int) < 64));
        assert(behind_ok ==> behind_sq == behind(*self, t as int));
        let double = pawn && (f > t && f - t == 16 || t > f && t - f == 16);
        assert(double == is_double_step(*self, m));
        if double && !behind_ok {
            return false;
        }
        match m.move_type() {
            MoveType::Castling => {
                if t == 2 || t == 6 || t == 58 || t == 62 {
                    let rook_from: u8 = if t == 2 {
                        0
                    } else if t == 6 {
                        7
                    } else if t == 58 {
                        56
                    } else {
                        63
                    };
                    if self.moved_piece_at(from, to, rook_from).is_none() {
                        return false;
                    }
                }
            },
            MoveType::EnPassant => {
                if !behind_ok {
                    return false;
                }
                if self.moved_piece_at(from, to, behind_sq).is_none() {
                    return false;
                }
            },
            _ => {},
        }
        true
    }
}


/// The piece type a promotion letter stands for: `n`, `b`, `r` or `q`.
pub open spec fn promotion_of_char(c: char) -> Option<PieceType> {
    if c == 'n' {
        Some(PieceType::Knight)
    } else if c == 'b' {
        Some(PieceType::Bishop)
    } else if c == 'r' {
        Some(PieceType::Rook)
    } else if c == 'q' {
        Some(PieceType::Queen)
    } else {
        None
    }
}

/// The move the text `s` in coordinate notation (`e2e4`, `e7e8q`) names on `pos`, or the
/// message of the first problem. With a promotion letter it is a promotion; otherwise a
/// king moving two squares castles, a pawn moving to the en passant square captures en
/// passant, and any other move is normal.
pub open spec fn uci_move(pos: Position, s: Seq<char>) -> Result<Move, Seq<char>> {
    if s.len() != 4 && s.len() != 5 {
        Err("invalid move length"@)
    } else {
        match crate::square::parse_square(s.subrange(0, 2)) {
            Err(e) => Err(e),
            Ok(f) => match crate::square::parse_square(s.subrange(2, 4)) {
                Err(e) => Err(e),
                Ok(t) => if s.len() == 5 {
                    match promotion_of_char(s[4]) {
                        None => Err("invalid promotion piece"@),
                        Some(pt) => Ok(Move::encode(f, t, MoveType::Promotion as int, pt as int - 1)),
                    }
                } else {
                    match pos.board_at(f) {
                        None => Err("no piece on the source square"@),
                        Some(p) => {
                            let mt = if p.spec_piece_type() == PieceType::King && (t - f == 2 || f - t == 2) {
                                MoveType::Castling
                            } else if p.spec_piece_type() == PieceType::Pawn && (pos.ep_square() matches Some(e) && e as int == t) {
                                MoveType::EnPassant
                            } else {
                                MoveType::Normal
                            };
                            Ok(Move::encode(f, t, mt as int, 0))
                        },
                    }
                },
            },
        }
    }
}

/// Reading a promotion in coordinate notation: the letters `n`, `b`, `r` and `q` after the
/// two squares promote to a knight, bishop, rook and queen, whatever the position; and the
/// text a promotion move is written as reads back as that move.
pub proof fn lemma_uci_promotion(pos: Position, f: int, t: int, code: int)
    requires
        0 <= f < 64,
        0 <= t < 64,
        0 <= code < 4,
    ensures
        forall|c: char| #![trigger seq![c]] (c == 'n' || c == 'b' || c == 'r' || c == 'q') ==> (uci_move(pos,
            square_name(f) + square_name(t) + seq![c]) matches Ok(m) && m.from_sq() == f && m.to_sq() == t
            && m.type_code() == MoveType::Promotion as int && promotion_type(m) == (if c == 'n' {
            PieceType::Knight
        } else if c == 'b' {
            PieceType::Bishop
        } else if c == 'r' {
            PieceType::Rook
        } else {
            PieceType::Queen
        })),
        uci_move(pos, move_text(Move::encode(f, t, MoveType::Promotion as int, code))) == Ok::<Move, Seq<char>>(
            Move::encode(f, t, MoveType::Promotion as int, code)),
{
    crate::position::roundtrip::lemma_square_name_roundtrip(f);
    crate::position::roundtrip::lemma_square_name_roundtrip(t);
    crate::square::lemma_square_parts(f);
    crate::square::lemma_square_parts(t);
    assert forall|c: char| #![trigger seq![c]] (c == 'n' || c == 'b' || c == 'r' || c == 'q') implies (uci_move(pos,
        square_name(f) + square_name(t) + seq![c]) matches Ok(m) && m.from_sq() == f && m.to_sq() == t
        && m.type_code() == MoveType::Promotion as int && promotion_type(m) == (if c == 'n' {
        PieceType::Knight
    } else if c == 'b' {
        PieceType::Bishop
    } else if c == 'r' {
        PieceType::Rook
    } else {
        PieceType::Queen
    })) by {
        let s = square_name(f) + square_name(t) + seq![c];
        assert(s.subrange(0, 2) =~= square_name(f));
        assert(s.subrange(2, 4) =~= square_name(t));
        assert(s[4] == c);
        let pt = promotion_of_char(c)->0;
        Move::lemma_encode_fields(f, t, MoveType::Promotion as int, pt as int - 1);
    }
    let m = Move::encode(f, t, MoveType::Promotion as int, code);
    Move::lemma_encode_fields(f, t, MoveType::Promotion as int, code);
    let s = move_text(m);
    assert(s =~= square_name(f) + square_name(t) + seq![crate::chessmove::promotion_char(code)]);
    assert(s.subrange(0, 2) =~= square_name(f));
    assert(s.subrange(2, 4) =~= square_name(t));
}

impl Position {
    /// Reads a move in coordinate notation (`e2e4`, `e7e8q`) on this position.
    #[verifier::rlimit(40)]
    #[verifier::spinoff_prover]
    #[verifier::rlimit(80)]
    pub fn move_from_string(&self, s: &str) -> (r: Result<Move, &'static str>)
        ensures
            match r {
                Ok(m) => uci_move(*self, s@) == Ok::<Move, Seq<char>>(m),
                Err(e) => uci_move(*self, s@) == Err::<Move, Seq<char>>(e@),
            },
    {
        let cs = crate::text::chars_of(s);
        let ghost parsed = uci_move(*self, s@);
        if cs.len() != 4 && cs.len() != 5 {
            return Err("invalid move length");
        }
        let from = match Square::from_chars(s.substring_char(0, 2)) {
            Ok(sq) => sq,
            Err(e) => {
                return Err(e);
            },
        };
        let to = match Square::from_chars(s.substring_char(2, 4)) {
            Ok(sq) => sq,
            Err(e) => {
                return Err(e);
            },
        };
        if cs.len() == 5 {
            let promotion = match cs[4] {
                'n' => PieceType::Knight,
                'b' => PieceType::Bishop,
                'r' => PieceType::Rook,
                'q' => PieceType::Queen,
                _ => {
                    return Err("invalid promotion piece");
                },
            };
            assert(promotion_of_char(s@[4]) == Some(promotion));
            return Ok(Move::new(from, to, MoveType::Promotion, Some(promotion)));
        }
        let piece = match self.board[from as usize] {
            Some(p) => p,
            None => {
                return Err("no piece on the source square");
            },
        };
        let f = from as u8;
        let t = to as u8;
        let pt = piece.piece_type();
        let move_type = if pt == PieceType::King && (f > t && f - t == 2 || t > f && t - f == 2) {
            MoveType::Castling
        } else if pt == PieceType::Pawn && (match self.en_passant {
            Some(e) => e as u8 == t,
            None => false,
        }) {
            MoveType::EnPassant
        } else {
            MoveType::Normal
        };
        Ok(Move::new(from, to, move_type, None))
    }
}

} // verus!
