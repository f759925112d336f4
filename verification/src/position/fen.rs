//! Reading and writing positions in Forsyth-Edwards Notation (FEN).
//!
//! A FEN string has six fields separated by spaces: the piece placement from rank 8 down to
//! rank 1 (piece letters, digits for runs of empty squares, `/` between ranks), the side to
//! move (`w` or `b`), the castling rights (`KQkq` or `-`), the en passant square (or `-`),
//! the half move clock and the number of the full move.
use vstd::prelude::*;

use super::Position;
use crate::piece::{Color, Piece, PieceType, char_piece, is_piece_char, lemma_char_piece, piece_char};
use crate::square::Square;
use crate::text::{
    decimal_chars, push_char, push_decimal, push_str, chars_of, digit_value, field_bounds, is_digit, lemma_split_no_space, parse_u8, parse_u8_spec, split_spaces,
};

verus! {

/// The square a placement text `t` read from square `start` points at before its `n`-th
/// character: a digit skips that many squares, a slash goes back two ranks (from just past
/// the end of one rank to the start of the next one down) and a piece letter moves on by one.
pub open spec fn cursor_from(start: int, t: Seq<char>, n: int) -> int
    decreases n,
{
    if n <= 0 {
        start
    } else {
        let c = t[n - 1];
        let sq = cursor_from(start, t, n - 1);
        if is_digit(c) {
            sq + digit_value(c)
        } else if c == '/' {
            sq - 16
        } else {
            sq + 1
        }
    }
}

/// The square the placement field `t` points at before its `n`-th character; reading starts
/// on a8.
pub open spec fn placement_cursor(t: Seq<char>, n: int) -> int {
    cursor_from(56, t, n)
}

/// A character of the placement field: a digit, a slash or a piece letter.
pub open spec fn placement_char(c: char) -> bool {
    is_digit(c) || c == '/' || is_piece_char(c)
}

/// The first `n` characters of `t` are placement characters.
pub open spec fn placement_prefix_ok(t: Seq<char>, n: int) -> bool {
    forall|k: int| 0 <= k < n ==> placement_char(#[trigger] t[k])
}

/// Every character of the placement field `t` is a placement character.
pub open spec fn placement_ok(t: Seq<char>) -> bool {
    placement_prefix_ok(t, t.len() as int)
}

/// Reading `c` with the cursor on `sq` stays within what the cursor (a byte) holds, and a
/// piece letter is read on a square of the board.
pub open spec fn step_in_range(c: char, sq: int) -> bool {
    if is_digit(c) {
        sq + digit_value(c) <= 255
    } else if c == '/' {
        sq >= 16
    } else if is_piece_char(c) {
        sq < 64
    } else {
        true
    }
}

/// Every step of reading `t`, up to its first character that is not a placement character,
/// is in range.
pub open spec fn placement_in_range(t: Seq<char>) -> bool {
    forall|n: int| 0 <= n < t.len() && placement_prefix_ok(t, n) ==> #[trigger] step_in_range(t[n], placement_cursor(t, n))
}

/// No two piece letters of `t` are read on the same square.
pub open spec fn placement_distinct(t: Seq<char>) -> bool {
    forall|j: int, k: int| 0 <= j < k < t.len() && is_piece_char(#[trigger] t[j]) && is_piece_char(#[trigger] t[k])
        ==> placement_cursor(t, j) != placement_cursor(t, k)
}

/// The piece the first `n` characters of `t`, read from square `start`, leave on square `i`:
/// the last one read there.
pub open spec fn placed_from(start: int, t: Seq<char>, n: int, i: int) -> Option<Piece>
    decreases n,
{
    if n <= 0 {
        None
    } else if is_piece_char(t[n - 1]) && cursor_from(start, t, n - 1) == i {
        Some(char_piece(t[n - 1]))
    } else {
        placed_from(start, t, n - 1, i)
    }
}

/// The piece the first `n` characters of `t` leave on square `i`.
pub open spec fn placed_at(t: Seq<char>, n: int, i: int) -> Option<Piece> {
    placed_from(56, t, n, i)
}

/// Some piece satisfying `p` is read on square `i` among the first `n` characters of `t`,
/// read from square `start`.
pub open spec fn ever_from(start: int, t: Seq<char>, n: int, i: int, p: spec_fn(Piece) -> bool) -> bool
    decreases n,
{
    if n <= 0 {
        false
    } else {
        (is_piece_char(t[n - 1]) && cursor_from(start, t, n - 1) == i && p(char_piece(t[n - 1])))
            || ever_from(start, t, n - 1, i, p)
    }
}

/// Some piece satisfying `p` is read on square `i` among the first `n` characters of `t`.
pub open spec fn ever_placed(t: Seq<char>, n: int, i: int, p: spec_fn(Piece) -> bool) -> bool {
    ever_from(56, t, n, i, p)
}

/// Pieces of color `c` and type `pt`.
pub open spec fn of_kind(c: Color, pt: PieceType) -> spec_fn(Piece) -> bool {
    |p: Piece| p.spec_color() == c && p.spec_piece_type() == pt
}

/// Pieces of color `c`.
pub open spec fn of_color(c: Color) -> spec_fn(Piece) -> bool {
    |p: Piece| p.spec_color() == c
}

/// Any piece.
pub open spec fn any_piece() -> spec_fn(Piece) -> bool {
    |p: Piece| true
}

/// The board and bitboards of `pos` are those the first `n` characters of `t` set up: each
/// square holds the last piece read on it, and a bitboard holds every square some piece of
/// its kind was read on.
pub open spec fn placed(pos: Position, t: Seq<char>, n: int) -> bool {
    &&& forall|i: int| 0 <= i < 64 ==> #[trigger] pos.board_at(i) == placed_at(t, n, i)
    &&& forall|c: Color, pt: PieceType, i: int| #[trigger] pos.pieces_of(c, pt).has(i) == ever_placed(t, n, i, of_kind(c, pt))
    &&& forall|c: Color, i: int| #[trigger] pos.color_bb(c).has(i) == ever_placed(t, n, i, of_color(c))
    &&& forall|i: int| #[trigger] pos.occupied_bb().has(i) == ever_placed(t, n, i, any_piece())
}

/// A piece is left on a square only where one was read.
proof fn lemma_placed_at_some(t: Seq<char>, n: int, i: int)
    requires
        placed_at(t, n, i) is Some,
    ensures
        exists|j: int| 0 <= j < n && is_piece_char(#[trigger] t[j]) && placement_cursor(t, j) == i,
    decreases n,
{
    if n > 0 {
        if is_piece_char(t[n - 1]) && placement_cursor(t, n - 1) == i {
            assert(is_piece_char(t[n - 1]));
        } else {
            lemma_placed_at_some(t, n - 1, i);
            let j = choose|j: int| 0 <= j < n - 1 && is_piece_char(#[trigger] t[j]) && placement_cursor(t, j) == i;
            assert(is_piece_char(t[j]));
        }
    }
}

/// The empty position is what no characters set up.
proof fn lemma_placed_start(pos: Position, t: Seq<char>)
    requires
        pos.wf(),
        forall|i: int| 0 <= i < 64 ==> #[trigger] pos.board_at(i) is None,
    ensures
        placed(pos, t, 0),
{
    assert forall|c: Color, pt: PieceType, i: int| #[trigger] pos.pieces_of(c, pt).has(i) == ever_placed(t, 0, i, of_kind(c, pt)) by {
        if 0 <= i < 64 {
            assert(pos.board_at(i) is None);
        }
    }
    assert forall|c: Color, i: int| #[trigger] pos.color_bb(c).has(i) == ever_placed(t, 0, i, of_color(c)) by {
        if 0 <= i < 64 {
            assert(pos.board_at(i) is None);
        }
    }
    assert forall|i: int| #[trigger] pos.occupied_bb().has(i) == ever_placed(t, 0, i, any_piece()) by {
        if 0 <= i < 64 {
            assert(pos.board_at(i) is None);
        }
    }
}

impl Position {
    /// Reads the placement field `cs[from, to)` onto the empty position `self`.
    fn read_placement(&mut self, cs: &Vec<char>, from: usize, to: usize) -> (r: Result<(), &'static str>)
        requires
            from <= to <= cs.len(),
            placement_in_range(cs@.subrange(from as int, to as int)),
            forall|k: int| from <= k < to ==> cs@[k] != ' ',
            old(self).wf(),
            forall|i: int| 0 <= i < 64 ==> #[trigger] old(self).board_at(i) is None,
        ensures
            final(self).same_state(old(self)),
            r is Ok == placement_ok(cs@.subrange(from as int, to as int)),
            r matches Err(e) ==> e@ == "invalid piece char"@,
            r is Ok ==> placed(*final(self), cs@.subrange(from as int, to as int), to - from),
            r is Ok && placement_distinct(cs@.subrange(from as int, to as int)) ==> final(self).wf(),
    {
        let ghost t = cs@.subrange(from as int, to as int);
        proof {
            lemma_placed_start(*self, t);
        }
        let mut sq: u8 = 56;
        let mut k = from;
        while k < to
            invariant
                from <= k <= to <= cs.len(),
                t == cs@.subrange(from as int, to as int),
                placement_in_range(t),
                forall|j: int| from <= j < to ==> cs@[j] != ' ',
                sq as int == placement_cursor(t, k - from),
                placement_prefix_ok(t, k - from),
                placed(*self, t, k - from),
                placement_distinct(t) ==> self.wf(),
                self.same_state(old(self)),
            decreases to - k,
        {
            let ghost n = k - from;
            let c = cs[k];
            assert(t[n] == c);
            assert(step_in_range(t[n], placement_cursor(t, n)));
            let ghost before = *self;
            if '0' <= c && c <= '9' {
                let d = (c as u32 - '0' as u32) as u8;
                sq = sq + d;
            } else if c == '/' {
                sq = sq - 16;
            } else {
                let piece = match Piece::from_char(c) {
                    Ok(p) => p,
                    Err(e) => {
                        assert(!placement_ok(t)) by {
                            assert(!placement_char(t[n]));
                        }
                        return Err(e);
                    },
                };
                proof {
                    lemma_char_piece(piece);
                    if placement_distinct(t) {
                        if placed_at(t, n, sq as int) is Some {
                            lemma_placed_at_some(t, n, sq as int);
                            let j = choose|j: int| 0 <= j < n && is_piece_char(#[trigger] t[j]) && placement_cursor(t, j) == sq as int;
                            assert(is_piece_char(t[j]) && is_piece_char(t[n]));
                        }
                        assert(self.board_at(sq as int) is None);
                    }
                }
                self.set_piece(piece, Square::new(sq));
                sq = sq + 1;
                proof {
                    assert(piece == char_piece(c));
                    assert forall|c2: Color, pt: PieceType, i: int| #[trigger] self.pieces_of(c2, pt).has(i)
                        == ever_placed(t, n + 1, i, of_kind(c2, pt)) by {
                        assert(before.pieces_of(c2, pt).has(i) == ever_placed(t, n, i, of_kind(c2, pt)));
                    }
                    assert forall|c2: Color, i: int| #[trigger] self.color_bb(c2).has(i) == ever_placed(t, n + 1, i, of_color(c2)) by {
                        assert(before.color_bb(c2).has(i) == ever_placed(t, n, i, of_color(c2)));
                    }
                    assert forall|i: int| #[trigger] self.occupied_bb().has(i) == ever_placed(t, n + 1, i, any_piece()) by {
                        assert(before.occupied_bb().has(i) == ever_placed(t, n, i, any_piece()));
                    }
                }
            }
            k = k + 1;
            proof {
                assert(placement_char(t[n]));
                assert(placement_prefix_ok(t, n + 1));
                if !is_piece_char(c) {
                    assert forall|c2: Color, pt: PieceType, i: int| #[trigger] self.pieces_of(c2, pt).has(i)
                        == ever_placed(t, n + 1, i, of_kind(c2, pt)) by {
                        assert(before.pieces_of(c2, pt).has(i) == ever_placed(t, n, i, of_kind(c2, pt)));
                    }
                    assert forall|c2: Color, i: int| #[trigger] self.color_bb(c2).has(i) == ever_placed(t, n + 1, i, of_color(c2)) by {
                        assert(before.color_bb(c2).has(i) == ever_placed(t, n, i, of_color(c2)));
                    }
                    assert forall|i: int| #[trigger] self.occupied_bb().has(i) == ever_placed(t, n + 1, i, any_piece()) by {
                        assert(before.occupied_bb().has(i) == ever_placed(t, n, i, any_piece()));
                    }
                }
            }
        }
        Ok(())
    }
}


/// A castling letter: `K`, `Q`, `k` or `q`.
pub open spec fn is_castle_char(c: char) -> bool {
    c == 'K' || c == 'Q' || c == 'k' || c == 'q'
}

/// The right a castling letter stands for.
pub open spec fn castle_char_bit(c: char) -> u8 {
    if c == 'K' {
        1
    } else if c == 'Q' {
        2
    } else if c == 'k' {
        4
    } else if c == 'q' {
        8
    } else {
        0
    }
}

/// The index of the first `-` in `t` at or after `k`, or the length of `t`.
pub open spec fn dash_from(t: Seq<char>, k: int) -> int
    decreases t.len() - k,
{
    if k >= t.len() {
        t.len() as int
    } else if t[k] == '-' {
        k
    } else {
        dash_from(t, k + 1)
    }
}

/// The castling field is read up to its first `-`; what comes before must be castling
/// letters.
pub open spec fn castling_field_ok(t: Seq<char>) -> bool {
    forall|k: int| 0 <= k < dash_from(t, 0) ==> is_castle_char(#[trigger] t[k])
}

/// The rights of the first `n` letters of the castling field `t`.
pub open spec fn castling_bits(t: Seq<char>, n: int) -> u8
    decreases n,
{
    if n <= 0 {
        0
    } else {
        castling_bits(t, n - 1) | castle_char_bit(t[n - 1])
    }
}

/// Without a `-` in `[k, n)` the first one from `k` on is the first one from `n` on.
pub proof fn lemma_dash_from(t: Seq<char>, k: int, n: int)
    requires
        0 <= k <= n <= t.len(),
        forall|j: int| k <= j < n ==> #[trigger] t[j] != '-',
    ensures
        dash_from(t, k) == dash_from(t, n),
        dash_from(t, n) >= n,
    decreases n - k,
{
    if k < n {
        lemma_dash_from(t, k + 1, n);
    } else {
        lemma_dash_at_least(t, n);
    }
}

/// The first `-` from `k` on is not before `k`.
pub proof fn lemma_dash_at_least(t: Seq<char>, k: int)
    requires
        0 <= k <= t.len(),
    ensures
        k <= dash_from(t, k) <= t.len(),
    decreases t.len() - k,
{
    if k < t.len() && t[k] != '-' {
        lemma_dash_at_least(t, k + 1);
    }
}

/// The side to move a field names: `w` or `b`.
pub open spec fn side_of_field(t: Seq<char>) -> Option<Color> {
    if t == seq!['w'] {
        Some(Color::White)
    } else if t == seq!['b'] {
        Some(Color::Black)
    } else {
        None
    }
}

/// What the en passant field reads as: `-` for no square, else a square name.
pub open spec fn ep_of_field(t: Seq<char>) -> Result<Option<int>, Seq<char>> {
    if t == seq!['-'] {
        Ok(None)
    } else {
        match crate::square::parse_square(t) {
            Ok(s) => Ok(Some(s)),
            Err(e) => Err(e),
        }
    }
}

impl Position {
    /// Reads the castling field `cs[from, to)`.
    fn read_castling(cs: &Vec<char>, from: usize, to: usize) -> (r: Result<crate::castling::Castling, &'static str>)
        requires
            from <= to <= cs.len(),
        ensures
            r is Ok == castling_field_ok(cs@.subrange(from as int, to as int)),
            r matches Err(e) ==> e@ == "invalid castling token"@,
            r matches Ok(c) ==> c.bits() == castling_bits(cs@.subrange(from as int, to as int),
                dash_from(cs@.subrange(from as int, to as int), 0)),
    {
        let ghost t = cs@.subrange(from as int, to as int);
        let mut castling = crate::castling::Castling::none();
        let mut k = from;
        while k < to
            invariant
                from <= k <= to <= cs.len(),
                t == cs@.subrange(from as int, to as int),
                forall|j: int| 0 <= j < k - from ==> #[trigger] t[j] != '-' && is_castle_char(t[j]),
                castling.bits() == castling_bits(t, k - from),
            decreases to - k,
        {
            let ghost n = k - from;
            let c = cs[k];
            assert(t[n] == c);
            let add = match c {
                'K' => crate::castling::Castling::white_king(),
                'Q' => crate::castling::Castling::white_queen(),
                'k' => crate::castling::Castling::black_king(),
                'q' => crate::castling::Castling::black_queen(),
                '-' => {
                    proof {
                        lemma_dash_from(t, 0, n);
                    }
                    return Ok(castling);
                },
                _ => {
                    proof {
                        lemma_dash_from(t, 0, n);
                        lemma_dash_at_least(t, n + 1);
                        assert(dash_from(t, n) == dash_from(t, n + 1));
                    }
                    return Err("invalid castling token");
                },
            };
            castling = castling.add(add);
            k = k + 1;
        }
        proof {
            lemma_dash_from(t, 0, t.len() as int);
        }
        Ok(castling)
    }
}


/// The message of the first problem with the fields `f` of a FEN string, if any.
pub open spec fn fen_error(f: Seq<Seq<char>>) -> Option<Seq<char>> {
    if f.len() != 6 {
        Some("Invalid number of tokens"@)
    } else if !placement_ok(f[0]) {
        Some("invalid piece char"@)
    } else if side_of_field(f[1]) is None {
        Some("Invalid side to move"@)
    } else if !castling_field_ok(f[2]) {
        Some("invalid castling token"@)
    } else if ep_of_field(f[3]) is Err {
        Some(ep_of_field(f[3])->Err_0)
    } else if parse_u8_spec(f[4]) is None {
        Some("invalid half move clock"@)
    } else if parse_u8_spec(f[5]) is None {
        Some("invalid number of full moves"@)
    } else {
        None
    }
}

/// Reading `fen` stays in range: the placement cursor stays within a byte and pieces on the
/// board, and a string that reads without problems numbers its full move from 1 to 127, so
/// that the ply count fits in a byte.
pub open spec fn fen_in_range(fen: Seq<char>) -> bool {
    let f = split_spaces(fen);
    f.len() == 6 ==> {
        &&& placement_in_range(f[0])
        &&& fen_error(f) is None ==> (parse_u8_spec(f[5]) matches Some(n) && 1 <= n <= 127)
    }
}

/// `pos` is the position the fields `f` describe: the placement, the side to move, the
/// castling rights, the en passant square, the half move clock, and the ply count of the
/// full move number (two plies per full move, starting at 0 with white to move in move 1).
/// The position is consistent when no two pieces are placed on one square.
pub open spec fn fen_position(f: Seq<Seq<char>>, pos: Position) -> bool {
    &&& placed(pos, f[0], f[0].len() as int)
    &&& placement_distinct(f[0]) ==> pos.wf()
    &&& side_of_field(f[1]) == Some(pos.side())
    &&& pos.rights().bits() == castling_bits(f[2], dash_from(f[2], 0))
    &&& ep_of_field(f[3]) == Ok::<Option<int>, Seq<char>>(match pos.ep_square() {
        Some(s) => Some(s as int),
        None => None,
    })
    &&& parse_u8_spec(f[4]) == Some(pos.clock())
    &&& parse_u8_spec(f[5]) matches Some(n) && pos.plies() == 2 * n - (if pos.side() == Color::White {
        2int
    } else {
        1int
    })
}

impl Position {
    /// Reads a position from a FEN string. Fails with a message on the first field that
    /// cannot be read.
    pub fn from_fen(fen: &str) -> (r: Result<Position, &'static str>)
        requires
            fen_in_range(fen@),
        ensures
            match r {
                Ok(pos) => fen_error(split_spaces(fen@)) is None && fen_position(split_spaces(fen@), pos),
                Err(e) => fen_error(split_spaces(fen@)) == Some(e@),
            },
    {
        let cs = chars_of(fen);
        let b = field_bounds(&cs);
        let ghost f = split_spaces(fen@);
        if b.len() != 6 {
            return Err("Invalid number of tokens");
        }
        proof {
            lemma_split_no_space(fen@);
            assert forall|k: int| 0 <= k < 6 implies cs@.subrange(#[trigger] b[k].0 as int, b[k].1 as int) == f[k] by {}
        }

        // Pieces
        let mut pos = Position::default();
        let (s0, e0) = b[0];
        proof {
            assert forall|k: int| s0 <= k < e0 implies cs@[k] != ' ' by {
                assert(cs@[k] == f[0][k - s0]);
            }
        }
        match pos.read_placement(&cs, s0, e0) {
            Ok(()) => {},
            Err(e) => {
                return Err(e);
            },
        }
        let ghost placed_pos = pos;

        // Side to move
        let (s1, e1) = b[1];
        assert(s1 <= e1 <= cs.len()) by {
            assert(b[1].0 <= b[1].1 <= cs.len());
        }
        if e1 - s1 == 1 && cs[s1] == 'w' {
            assert(f[1] =~= seq!['w']);
            pos.side_to_move = Color::White;
        } else if e1 - s1 == 1 && cs[s1] == 'b' {
            assert(f[1] =~= seq!['b']);
            pos.side_to_move = Color::Black;
        } else {
            assert(f[1] != seq!['w'] && f[1] != seq!['b']) by {
                if f[1] == seq!['w'] || f[1] == seq!['b'] {
                    assert(f[1][0] == cs@[s1 as int]);
                }
            }
            return Err("Invalid side to move");
        }

        // Castling
        let (s2, e2) = b[2];
        match Self::read_castling(&cs, s2, e2) {
            Ok(c) => {
                pos.castling = c;
            },
            Err(e) => {
                return Err(e);
            },
        }

        // En passant
        let (s3, e3) = b[3];
        assert(s3 <= e3 <= cs.len()) by {
            assert(b[3].0 <= b[3].1 <= cs.len());
        }
        if e3 - s3 == 1 && cs[s3] == '-' {
            assert(f[3] =~= seq!['-']);
            pos.en_passant = None;
        } else {
            assert(f[3] != seq!['-']) by {
                if f[3] == seq!['-'] {
                    assert(f[3][0] == cs@[s3 as int]);
                }
            }
            let name = fen.substring_char(s3, e3);
            match Square::from_chars(name) {
                Ok(sq) => {
                    pos.en_passant = Some(sq);
                },
                Err(e) => {
                    return Err(e);
                },
            }
        }

        // Half move clock
        let (s4, e4) = b[4];
        match parse_u8(&cs, s4, e4) {
            Some(n) => {
                pos.half_move_clock = n;
            },
            None => {
                return Err("invalid half move clock");
            },
        }

        // Plies
        let (s5, e5) = b[5];
        let number_of_full_moves = match parse_u8(&cs, s5, e5) {
            Some(n) => n,
            None => {
                return Err("invalid number of full moves");
            },
        };
        pos.ply = 2 * number_of_full_moves - 1;
        if pos.side_to_move == Color::White {
            pos.ply = pos.ply - 1;
        }
        proof {
            super::lemma_wf_same_pieces(placed_pos, pos);
            let t = f[0];
            let n = t.len() as int;
            assert forall|c: Color, pt: PieceType, i: int| #[trigger] pos.pieces_of(c, pt).has(i)
                == ever_placed(t, n, i, of_kind(c, pt)) by {
                assert(placed_pos.pieces_of(c, pt) == pos.pieces_of(c, pt));
            }
            assert forall|c: Color, i: int| #[trigger] pos.color_bb(c).has(i) == ever_placed(t, n, i, of_color(c)) by {
                assert(placed_pos.color_bb(c) == pos.color_bb(c));
            }
            assert forall|i: int| 0 <= i < 64 implies #[trigger] pos.board_at(i) == placed_at(t, n, i) by {
                assert(placed_pos.board_at(i) == pos.board_at(i));
            }
            assert(placed(pos, t, n));
            assert(fen_position(f, pos));
        }
        Ok(pos)
    }
}


/// The FEN text of a run of `empty` empty squares: its length, if there are any.
pub open spec fn run_chars(empty: nat) -> Seq<char> {
    if empty > 0 {
        decimal_chars(empty)
    } else {
        Seq::<char>::empty()
    }
}

/// The FEN text of rank `r` from file `f` on, with `empty` empty squares counted before
/// file `f` and not yet written.
pub open spec fn rank_chars(pos: Position, r: int, f: int, empty: nat) -> Seq<char>
    decreases 8 - f,
{
    let pending = run_chars(empty);
    if f >= 8 {
        pending
    } else {
        match pos.board_at(8 * r + f) {
            None => rank_chars(pos, r, f + 1, empty + 1),
            Some(p) => pending + seq![piece_char(p)] + rank_chars(pos, r, f + 1, 0),
        }
    }
}

/// The FEN text of ranks `r` down to 1 (rank index 0), separated by slashes.
pub open spec fn placement_chars(pos: Position, r: int) -> Seq<char>
    decreases r,
{
    if r <= 0 {
        rank_chars(pos, 0, 0, 0)
    } else {
        rank_chars(pos, r, 0, 0) + seq!['/'] + placement_chars(pos, r - 1)
    }
}

/// The FEN text of castling rights `bits`: `-` for none, else the letters of the rights held.
pub open spec fn castling_chars(bits: u8) -> Seq<char> {
    if bits == 0 {
        seq!['-']
    } else {
        (if bits & 1 != 0 { seq!['K'] } else { Seq::<char>::empty() })
            + (if bits & 2 != 0 { seq!['Q'] } else { Seq::<char>::empty() })
            + (if bits & 4 != 0 { seq!['k'] } else { Seq::<char>::empty() })
            + (if bits & 8 != 0 { seq!['q'] } else { Seq::<char>::empty() })
    }
}

/// The FEN text of the en passant square: `-` or the square's name.
pub open spec fn ep_chars(ep: Option<Square>) -> Seq<char> {
    match ep {
        None => seq!['-'],
        Some(sq) => crate::square::square_name(sq as int),
    }
}

/// The FEN text of `pos`; the full move number is half the ply count plus one.
pub open spec fn fen_chars(pos: Position) -> Seq<char> {
    placement_chars(pos, 7) + (if pos.side() == Color::White {
        seq![' ', 'w', ' ']
    } else {
        seq![' ', 'b', ' ']
    }) + castling_chars(pos.rights().bits()) + seq![' '] + ep_chars(pos.ep_square()) + seq![' ']
        + decimal_chars(pos.clock() as nat) + seq![' '] + decimal_chars((pos.plies() / 2 + 1) as nat)
}

impl Position {
    /// Appends the FEN text of rank `r`.
    fn push_rank(&self, s: &mut String, r: u8)
        requires
            r < 8,
        ensures
            final(s)@ == old(s)@ + rank_chars(*self, r as int, 0, 0),
    {
        let mut empty_count: u8 = 0;
        let mut f: u8 = 0;
        while f < 8
            invariant
                r < 8,
                f <= 8,
                empty_count <= f,
                s@ + rank_chars(*self, r as int, f as int, empty_count as nat) == old(s)@ + rank_chars(*self, r as int, 0, 0),
            decreases 8 - f,
        {
            let ghost s0 = s@;
            let ghost e0 = empty_count;
            match self.board[(8 * r + f) as usize] {
                None => {
                    empty_count = empty_count + 1;
                },
                Some(piece) => {
                    if empty_count > 0 {
                        push_decimal(s, empty_count);
                        empty_count = 0;
                    }
                    push_char(s, piece.to_char());
                    assert(s@ + rank_chars(*self, r as int, f + 1, 0) =~= s0 + rank_chars(*self, r as int, f as int,
                        e0 as nat)) by {
                        assert(self.board_at(8 * r + f) == Some(piece));
                    }
                },
            }
            f = f + 1;
        }
        if empty_count > 0 {
            push_decimal(s, empty_count);
        }
        assert(s@ =~= old(s)@ + rank_chars(*self, r as int, 0, 0));
    }

    /// Writes the position in FEN.
    pub fn to_fen(&self) -> (s: String)
        ensures
            s@ == fen_chars(*self),
    {
        let mut s = String::new();

        // Pieces
        let mut r: u8 = 8;
        while r > 0
            invariant
                r <= 8,
                s@ + (if r > 0 {
                    placement_chars(*self, r - 1)
                } else {
                    Seq::<char>::empty()
                }) == placement_chars(*self, 7),
            decreases r,
        {
            r = r - 1;
            let ghost s0 = s@;
            self.push_rank(&mut s, r);
            if r != 0 {
                push_char(&mut s, '/');
                assert(s@ + placement_chars(*self, r - 1) =~= s0 + placement_chars(*self, r as int));
            } else {
                assert(s@ + Seq::<char>::empty() =~= s0 + placement_chars(*self, r as int));
            }
        }
        assert(s@ + Seq::<char>::empty() =~= s@);
        let ghost placement = s@;

        // Side to move
        match self.side_to_move {
            Color::White => push_str(&mut s, " w "),
            Color::Black => push_str(&mut s, " b "),
        }
        proof {
            reveal_strlit(" w ");
            reveal_strlit(" b ");
        }
        let ghost side = s@;

        // Castling
        let c = self.castling;
        let none = crate::castling::Castling::none();
        proof {
            crate::castling::lemma_bits_determine(c, none);
        }
        if c == none {
            push_char(&mut s, '-');
        } else {
            if c.contains(crate::castling::Castling::white_king()) {
                push_char(&mut s, 'K');
            }
            if c.contains(crate::castling::Castling::white_queen()) {
                push_char(&mut s, 'Q');
            }
            if c.contains(crate::castling::Castling::black_king()) {
                push_char(&mut s, 'k');
            }
            if c.contains(crate::castling::Castling::black_queen()) {
                push_char(&mut s, 'q');
            }
        }
        push_char(&mut s, ' ');
        let ghost castling = s@;
        assert(side =~= placement + (if self.side() == Color::White {
            seq![' ', 'w', ' ']
        } else {
            seq![' ', 'b', ' ']
        }));
        assert(castling =~= side + castling_chars(self.rights().bits()) + seq![' ']);

        // En passant
        match self.en_passant {
            None => push_char(&mut s, '-'),
            Some(sq) => push_str(&mut s, sq.to_str().as_str()),
        }
        let ghost epc = s@;
        assert(epc =~= castling + ep_chars(self.ep_square()));
        push_char(&mut s, ' ');

        // Half move clock and full move number
        push_decimal(&mut s, self.half_move_clock);
        push_char(&mut s, ' ');
        push_decimal(&mut s, self.ply / 2 + 1);
        assert(s@ =~= fen_chars(*self));
        s
    }
}


impl Position {
    /// Whether reading `fen` stays in range (see `fen_in_range`), which `from_fen` needs.
    pub fn fen_fits(fen: &str) -> (r: bool)
        ensures
            r == fen_in_range(fen@),
    {
        let cs = chars_of(fen);
        let b = field_bounds(&cs);
        let ghost f = split_spaces(fen@);
        if b.len() != 6 {
            return true;
        }
        proof {
            assert forall|k: int| 0 <= k < 6 implies cs@.subrange(#[trigger] b[k].0 as int, b[k].1 as int) == f[k] by {}
        }

        // Placement: the steps up to the first character that is not a placement character
        let (s0, e0) = b[0];
        let ghost t = f[0];
        let mut sq: u32 = 56;
        let mut k = s0;
        let mut valid = true;
        while k < e0
            invariant_except_break
                valid,
            invariant
                s0 <= k <= e0 <= cs.len(),
                cs@ == fen@,
                f == split_spaces(fen@),
                f.len() == 6,
                b.len() == 6,
                forall|j: int| 0 <= j < 6 ==> cs@.subrange(#[trigger] b[j].0 as int, b[j].1 as int) == f[j],
                forall|j: int| 0 <= j < 6 ==> #[trigger] b[j].0 <= b[j].1 <= cs.len(),
                t == f[0],
                t == cs@.subrange(s0 as int, e0 as int),
                sq as int == placement_cursor(t, k - s0),
                sq <= 255,
                placement_prefix_ok(t, k - s0),
                forall|j: int| 0 <= j < k - s0 ==> #[trigger] step_in_range(t[j], placement_cursor(t, j)),
            ensures
                valid ==> k == e0,
                !valid ==> k < e0 && !placement_char(t[k - s0]) && placement_prefix_ok(t, k - s0),
                forall|j: int| 0 <= j < k - s0 ==> #[trigger] step_in_range(t[j], placement_cursor(t, j)),
            decreases e0 - k,
        {
            let ghost n = k - s0;
            let c = cs[k];
            assert(t[n] == c);
            if '0' <= c && c <= '9' {
                let d = c as u32 - '0' as u32;
                if sq + d > 255 {
                    assert(!step_in_range(t[n], placement_cursor(t, n)));
                    assert(!placement_in_range(t));
                    return false;
                }
                sq = sq + d;
            } else if c == '/' {
                if sq < 16 {
                    assert(!step_in_range(t[n], placement_cursor(t, n)));
                    assert(!placement_in_range(t));
                    return false;
                }
                sq = sq - 16;
            } else if c == 'P' || c == 'N' || c == 'B' || c == 'R' || c == 'Q' || c == 'K' || c == 'p' || c == 'n'
                || c == 'b' || c == 'r' || c == 'q' || c == 'k' {
                if sq >= 64 {
                    assert(!step_in_range(t[n], placement_cursor(t, n)));
                    assert(!placement_in_range(t));
                    return false;
                }
                sq = sq + 1;
            } else {
                valid = false;
                break;
            }
            k = k + 1;
            assert(placement_prefix_ok(t, n + 1));
        }
        proof {
            if valid {
                assert(placement_in_range(t));
            } else {
                let n = k - s0;
                assert forall|m: int| 0 <= m < t.len() && placement_prefix_ok(t, m) implies #[trigger] step_in_range(t[m], placement_cursor(t, m)) by {
                    if m > n {
                        assert(placement_char(t[n]));
                    }
                }
                assert(!placement_ok(t));
            }
        }
        if !valid {
            return true;
        }

        // The other fields: the full move number matters once all of them read
        let (s1, e1) = b[1];
        assert(s1 <= e1 <= cs.len()) by {
            assert(b[1].0 <= b[1].1 <= cs.len());
        }
        assert(cs@.subrange(s1 as int, e1 as int) == f[1]) by {
            assert(cs@.subrange(b[1].0 as int, b[1].1 as int) == f[1]);
        }
        if !(e1 - s1 == 1 && (cs[s1] == 'w' || cs[s1] == 'b')) {
            let ghost t1 = cs@.subrange(s1 as int, e1 as int);
            assert(t1.len() == e1 - s1);
            assert(t1.len() == 1 ==> t1[0] == cs@[s1 as int]);
            assert(t1 != seq!['w'] && t1 != seq!['b']) by {
                if t1 == seq!['w'] || t1 == seq!['b'] {
                    assert(t1.len() == 1);
                    assert(t1[0] == cs@[s1 as int]);
                }
            }
            assert(side_of_field(f[1]) is None);
            return true;
        }
        assert(side_of_field(f[1]) is Some) by {
            assert(f[1] =~= seq![cs@[s1 as int]]);
        }
        let (s2, e2) = b[2];
        if Self::read_castling(&cs, s2, e2).is_err() {
            return true;
        }
        let (s3, e3) = b[3];
        assert(s3 <= e3 <= cs.len()) by {
            assert(b[3].0 <= b[3].1 <= cs.len());
        }
        if !(e3 - s3 == 1 && cs[s3] == '-') {
            assert(f[3] != seq!['-']) by {
                if f[3] == seq!['-'] {
                    assert(f[3][0] == cs@[s3 as int]);
                }
            }
            if Square::from_chars(fen.substring_char(s3, e3)).is_err() {
                return true;
            }
        } else {
            assert(f[3] =~= seq!['-']);
        }
        let (s4, e4) = b[4];
        if parse_u8(&cs, s4, e4).is_none() {
            return true;
        }
        let (s5, e5) = b[5];
        match parse_u8(&cs, s5, e5) {
            None => true,
            Some(n) => 1 <= n && n <= 127,
        }
    }
}

} // verus!
