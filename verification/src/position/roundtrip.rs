//! Reading the FEN text of a position gives the position back.
use vstd::prelude::*;

use super::Position;
use super::fen::{
    placement_ok,
    castle_char_bit, castling_bits, castling_chars, castling_field_ok, cursor_from, dash_from, ep_chars,
    ep_of_field, ever_from, fen_chars, fen_error, fen_in_range, fen_position, is_castle_char, of_color,
    of_kind, any_piece, placed, placed_from, placement_char, placement_chars, placement_in_range,
    placement_prefix_ok, rank_chars, run_chars, side_of_field, step_in_range, lemma_dash_from,
};
use crate::piece::{Color, Piece, PieceType, is_piece_char, lemma_char_piece, piece_char};
use crate::square::{file_char, file_of, parse_square, rank_char, rank_of, square_name};
use crate::text::{
    decimal_chars, digit_value, is_digit, lemma_decimal_chars_digits, lemma_parse_decimal,
    lemma_split_join, lemma_split_single, parse_u8_spec, split_spaces,
};

verus! {

/// Square `i` of `pos` holds a piece satisfying `p`.
pub open spec fn holds(pos: Position, i: int, p: spec_fn(Piece) -> bool) -> bool {
    match pos.board_at(i) {
        Some(q) => p(q),
        None => false,
    }
}

/// Every character of `t`, read from square `start`, is a placement character read in range.
pub open spec fn reads_well(start: int, t: Seq<char>) -> bool {
    forall|n: int| 0 <= n < t.len() ==> placement_char(#[trigger] t[n]) && step_in_range(t[n], cursor_from(start, t, n))
}

proof fn lemma_cursor_prefix(s: int, a: Seq<char>, b: Seq<char>, n: int)
    requires
        0 <= n <= a.len(),
    ensures
        cursor_from(s, a + b, n) == cursor_from(s, a, n),
    decreases n,
{
    if n > 0 {
        lemma_cursor_prefix(s, a, b, n - 1);
        assert((a + b)[n - 1] == a[n - 1]);
    }
}

proof fn lemma_cursor_concat(s: int, a: Seq<char>, b: Seq<char>, n: int)
    requires
        0 <= n <= b.len(),
    ensures
        cursor_from(s, a + b, a.len() + n) == cursor_from(cursor_from(s, a, a.len() as int), b, n),
    decreases n,
{
    if n == 0 {
        lemma_cursor_prefix(s, a, b, a.len() as int);
    } else {
        lemma_cursor_concat(s, a, b, n - 1);
        assert((a + b)[a.len() + n - 1] == b[n - 1]);
    }
}

proof fn lemma_placed_prefix(s: int, a: Seq<char>, b: Seq<char>, n: int, i: int)
    requires
        0 <= n <= a.len(),
    ensures
        placed_from(s, a + b, n, i) == placed_from(s, a, n, i),
        ever_from(s, a + b, n, i, any_piece()) == ever_from(s, a, n, i, any_piece()),
    decreases n,
{
    if n > 0 {
        lemma_placed_prefix(s, a, b, n - 1, i);
        lemma_cursor_prefix(s, a, b, n - 1);
        assert((a + b)[n - 1] == a[n - 1]);
    }
}

proof fn lemma_ever_prefix(s: int, a: Seq<char>, b: Seq<char>, n: int, i: int, p: spec_fn(Piece) -> bool)
    requires
        0 <= n <= a.len(),
    ensures
        ever_from(s, a + b, n, i, p) == ever_from(s, a, n, i, p),
    decreases n,
{
    if n > 0 {
        lemma_ever_prefix(s, a, b, n - 1, i, p);
        lemma_cursor_prefix(s, a, b, n - 1);
        assert((a + b)[n - 1] == a[n - 1]);
    }
}

proof fn lemma_placed_concat(s: int, a: Seq<char>, b: Seq<char>, n: int, i: int)
    requires
        0 <= n <= b.len(),
    ensures
        placed_from(s, a + b, a.len() + n, i) == match placed_from(cursor_from(s, a, a.len() as int), b, n, i) {
            Some(p) => Some(p),
            None => placed_from(s, a, a.len() as int, i),
        },
    decreases n,
{
    if n == 0 {
        lemma_placed_prefix(s, a, b, a.len() as int, i);
    } else {
        lemma_placed_concat(s, a, b, n - 1, i);
        lemma_cursor_concat(s, a, b, n - 1);
        assert((a + b)[a.len() + n - 1] == b[n - 1]);
    }
}

proof fn lemma_ever_concat(s: int, a: Seq<char>, b: Seq<char>, n: int, i: int, p: spec_fn(Piece) -> bool)
    requires
        0 <= n <= b.len(),
    ensures
        ever_from(s, a + b, a.len() + n, i, p) == (ever_from(cursor_from(s, a, a.len() as int), b, n, i, p)
            || ever_from(s, a, a.len() as int, i, p)),
    decreases n,
{
    if n == 0 {
        lemma_ever_prefix(s, a, b, a.len() as int, i, p);
    } else {
        lemma_ever_concat(s, a, b, n - 1, i, p);
        lemma_cursor_concat(s, a, b, n - 1);
        assert((a + b)[a.len() + n - 1] == b[n - 1]);
    }
}

proof fn lemma_reads_well_concat(s: int, a: Seq<char>, b: Seq<char>)
    requires
        reads_well(s, a),
        reads_well(cursor_from(s, a, a.len() as int), b),
    ensures
        reads_well(s, a + b),
{
    assert forall|n: int| 0 <= n < (a + b).len() implies placement_char(#[trigger] (a + b)[n])
        && step_in_range((a + b)[n], cursor_from(s, a + b, n)) by {
        if n < a.len() {
            lemma_cursor_prefix(s, a, b, n);
            assert((a + b)[n] == a[n]);
        } else {
            lemma_cursor_concat(s, a, b, n - a.len());
            assert((a + b)[n] == b[n - a.len()]);
        }
    }
}

/// Reading a run of `e` empty squares (1 to 8) as one digit.
proof fn lemma_digit_run(start: int, e: nat)
    requires
        1 <= e <= 8,
        0 <= start,
        start + e <= 255,
    ensures
        decimal_chars(e) == seq![crate::text::digit_char_of(e as int)],
        reads_well(start, decimal_chars(e)),
        cursor_from(start, decimal_chars(e), 1) == start + e,
        forall|i: int| #[trigger] placed_from(start, decimal_chars(e), 1, i) is None,
        forall|i: int, p: spec_fn(Piece) -> bool| !#[trigger] ever_from(start, decimal_chars(e), 1, i, p),
{
    let d = decimal_chars(e);
    let c = crate::text::digit_char_of(e as int);
    assert(is_digit(c) && digit_value(c) == e);
    assert(d[0] == c);
    assert(cursor_from(start, d, 0) == start);
    assert(placement_char(d[0]));
    assert(!is_piece_char(c));
    assert forall|i: int| #[trigger] placed_from(start, d, 1, i) is None by {
        assert(placed_from(start, d, 0, i) is None);
    }
    assert forall|i: int, p: spec_fn(Piece) -> bool| !#[trigger] ever_from(start, d, 1, i, p) by {
        assert(!ever_from(start, d, 0, i, p));
    }
}

/// A piece letter read after a run that places nothing: the run and the letter read in
/// range from `s0` and place just the piece, on the square the run ends on.
proof fn lemma_run_then_piece(s0: int, pending: Seq<char>, q: Piece, sq: int)
    requires
        0 <= sq < 64,
        reads_well(s0, pending),
        cursor_from(s0, pending, pending.len() as int) == sq,
        forall|i: int| #[trigger] placed_from(s0, pending, pending.len() as int, i) is None,
        forall|i: int, p: spec_fn(Piece) -> bool| !#[trigger] ever_from(s0, pending, pending.len() as int, i, p),
    ensures
        reads_well(s0, pending + seq![piece_char(q)]),
        cursor_from(s0, pending + seq![piece_char(q)], pending.len() as int + 1) == sq + 1,
        forall|i: int| #[trigger] placed_from(s0, pending + seq![piece_char(q)], pending.len() as int + 1, i)
            == if i == sq {
                Some(q)
            } else {
                None
            },
        forall|i: int, p: spec_fn(Piece) -> bool| #[trigger] ever_from(s0, pending + seq![piece_char(q)], pending.len() as int + 1, i, p)
            == (i == sq && p(q)),
{
    let pc = seq![piece_char(q)];
    lemma_char_piece(q);
    assert(pc[0] == piece_char(q));
    assert(cursor_from(sq, pc, 0) == sq);
    assert(reads_well(sq, pc));
    lemma_reads_well_concat(s0, pending, pc);
    lemma_cursor_concat(s0, pending, pc, 1);
    assert forall|i: int| #[trigger] placed_from(s0, pending + pc, pending.len() as int + 1, i) == if i == sq {
        Some(q)
    } else {
        None
    } by {
        lemma_placed_concat(s0, pending, pc, 1, i);
        assert(placed_from(sq, pc, 0, i) is None);
    }
    assert forall|i: int, p: spec_fn(Piece) -> bool| #[trigger] ever_from(s0, pending + pc, pending.len() as int + 1, i, p)
        == (i == sq && p(q)) by {
        lemma_ever_concat(s0, pending, pc, 1, i, p);
        assert(!ever_from(sq, pc, 0, i, p));
    }
}

/// The pending run before file `f`: `e` empty squares, written as a digit when there are any.
proof fn lemma_pending(s0: int, e: nat)
    requires
        0 <= s0,
        s0 + e <= 64,
        e <= 8,
    ensures
        reads_well(s0, run_chars(e)),
        cursor_from(s0, run_chars(e),
            (run_chars(e)).len() as int) == s0 + e,
        forall|i: int| #[trigger] placed_from(s0, run_chars(e),
            (run_chars(e)).len() as int, i) is None,
        forall|i: int, p: spec_fn(Piece) -> bool| !#[trigger] ever_from(s0, run_chars(e),
            (run_chars(e)).len() as int, i, p),
{
    if e > 0 {
        lemma_digit_run(s0, e);
    }
}

/// Joining what a piece and the rest of its rank place.
proof fn lemma_rank_join(pos: Position, r: int, f: int, e: nat, q: Piece, a: Seq<char>, rest: Seq<char>)
    requires
        0 <= r < 8,
        0 <= e <= f < 8,
        pos.board_at(8 * r + f) == Some(q),
        forall|j: int| f - e <= j < f ==> #[trigger] pos.board_at(8 * r + j) is None,
        reads_well(8 * r + f - e, a),
        cursor_from(8 * r + f - e, a, a.len() as int) == 8 * r + f + 1,
        forall|i: int| #[trigger] placed_from(8 * r + f - e, a, a.len() as int, i) == if i == 8 * r + f {
            Some(q)
        } else {
            None
        },
        forall|i: int, p: spec_fn(Piece) -> bool| #[trigger] ever_from(8 * r + f - e, a, a.len() as int, i, p)
            == (i == 8 * r + f && p(q)),
        reads_well(8 * r + f + 1, rest),
        cursor_from(8 * r + f + 1, rest, rest.len() as int) == 8 * r + 8,
        forall|i: int| #[trigger] placed_from(8 * r + f + 1, rest, rest.len() as int, i) == if 8 * r + f + 1 <= i < 8 * r + 8 {
            pos.board_at(i)
        } else {
            None
        },
        forall|i: int, p: spec_fn(Piece) -> bool| #[trigger] ever_from(8 * r + f + 1, rest, rest.len() as int, i, p)
            == (8 * r + f + 1 <= i < 8 * r + 8 && holds(pos, i, p)),
    ensures
        reads_well(8 * r + f - e, a + rest),
        cursor_from(8 * r + f - e, a + rest, (a + rest).len() as int) == 8 * r + 8,
        forall|i: int| #[trigger] placed_from(8 * r + f - e, a + rest, (a + rest).len() as int, i)
            == if 8 * r + f - e <= i < 8 * r + 8 {
                pos.board_at(i)
            } else {
                None
            },
        forall|i: int, p: spec_fn(Piece) -> bool| #[trigger] ever_from(8 * r + f - e, a + rest, (a + rest).len() as int, i, p)
            == (8 * r + f - e <= i < 8 * r + 8 && holds(pos, i, p)),
{
    let s0 = 8 * r + f - e;
    lemma_reads_well_concat(s0, a, rest);
    lemma_cursor_concat(s0, a, rest, rest.len() as int);
    assert forall|i: int| #[trigger] placed_from(s0, a + rest, (a + rest).len() as int, i) == if s0 <= i < 8 * r + 8 {
        pos.board_at(i)
    } else {
        None
    } by {
        lemma_placed_concat(s0, a, rest, rest.len() as int, i);
        if s0 <= i < 8 * r + f {
            assert(pos.board_at(8 * r + (i - 8 * r)) is None);
        }
    }
    assert forall|i: int, p: spec_fn(Piece) -> bool| #[trigger] ever_from(s0, a + rest, (a + rest).len() as int, i, p)
        == (s0 <= i < 8 * r + 8 && holds(pos, i, p)) by {
        lemma_ever_concat(s0, a, rest, rest.len() as int, i, p);
        if s0 <= i < 8 * r + f {
            assert(pos.board_at(8 * r + (i - 8 * r)) is None);
        }
    }
}

/// Reading the FEN text of rank `r` from file `f` on, with `e` empty squares pending, from
/// the square `e` before file `f`: it reads in range, ends past the rank, and places exactly
/// the pieces of the rank from there on.
proof fn lemma_rank(pos: Position, r: int, f: int, e: nat)
    requires
        0 <= r < 8,
        0 <= e <= f <= 8,
        forall|j: int| f - e <= j < f ==> #[trigger] pos.board_at(8 * r + j) is None,
    ensures
        reads_well(8 * r + f - e, rank_chars(pos, r, f, e)),
        cursor_from(8 * r + f - e, rank_chars(pos, r, f, e), rank_chars(pos, r, f, e).len() as int) == 8 * r + 8,
        forall|i: int| #[trigger] placed_from(8 * r + f - e, rank_chars(pos, r, f, e), rank_chars(pos, r, f, e).len() as int, i)
            == if 8 * r + f - e <= i < 8 * r + 8 {
                pos.board_at(i)
            } else {
                None
            },
        forall|i: int, p: spec_fn(Piece) -> bool| #[trigger] ever_from(8 * r + f - e, rank_chars(pos, r, f, e),
            rank_chars(pos, r, f, e).len() as int, i, p)
            == (8 * r + f - e <= i < 8 * r + 8 && holds(pos, i, p)),
    decreases 8 - f,
{
    let s0 = 8 * r + f - e;
    let pending = run_chars(e);
    if f >= 8 {
        lemma_pending(s0, e);
        assert forall|i: int| s0 <= i < 8 * r + 8 implies pos.board_at(i) is None by {
            assert(pos.board_at(8 * r + (i - 8 * r)) is None);
        }
    } else {
        match pos.board_at(8 * r + f) {
            None => {
                lemma_rank(pos, r, f + 1, e + 1);
            },
            Some(q) => {
                lemma_rank(pos, r, f + 1, 0);
                lemma_pending(s0, e);
                lemma_run_then_piece(s0, pending, q, 8 * r + f);
                let a = pending + seq![piece_char(q)];
                let rest = rank_chars(pos, r, f + 1, 0);
                assert(rank_chars(pos, r, f, e) == a + rest);
                lemma_rank_join(pos, r, f, e, q, a, rest);
            },
        }
    }
}


/// A rank followed by a slash: the slash reads in range and goes two ranks back.
proof fn lemma_rank_then_slash(pos: Position, r: int)
    requires
        1 <= r < 8,
    ensures
        reads_well(8 * r, rank_chars(pos, r, 0, 0) + seq!['/']),
        cursor_from(8 * r, rank_chars(pos, r, 0, 0) + seq!['/'], rank_chars(pos, r, 0, 0).len() as int + 1) == 8 * r - 8,
        forall|i: int| #[trigger] placed_from(8 * r, rank_chars(pos, r, 0, 0) + seq!['/'], rank_chars(pos, r, 0, 0).len() as int + 1, i)
            == if 8 * r <= i < 8 * r + 8 {
                pos.board_at(i)
            } else {
                None
            },
        forall|i: int, p: spec_fn(Piece) -> bool| #[trigger] ever_from(8 * r, rank_chars(pos, r, 0, 0) + seq!['/'],
            rank_chars(pos, r, 0, 0).len() as int + 1, i, p) == (8 * r <= i < 8 * r + 8 && holds(pos, i, p)),
{
    let rk = rank_chars(pos, r, 0, 0);
    let sl = seq!['/'];
    lemma_rank(pos, r, 0, 0);
    assert(sl[0] == '/');
    assert(cursor_from(8 * r + 8, sl, 0) == 8 * r + 8);
    assert(reads_well(8 * r + 8, sl));
    lemma_reads_well_concat(8 * r, rk, sl);
    lemma_cursor_concat(8 * r, rk, sl, 1);
    assert forall|i: int| #[trigger] placed_from(8 * r, rk + sl, rk.len() as int + 1, i) == if 8 * r <= i < 8 * r + 8 {
        pos.board_at(i)
    } else {
        None
    } by {
        lemma_placed_concat(8 * r, rk, sl, 1, i);
        assert(placed_from(8 * r + 8, sl, 0, i) is None);
    }
    assert forall|i: int, p: spec_fn(Piece) -> bool| #[trigger] ever_from(8 * r, rk + sl, rk.len() as int + 1, i, p)
        == (8 * r <= i < 8 * r + 8 && holds(pos, i, p)) by {
        lemma_ever_concat(8 * r, rk, sl, 1, i, p);
        assert(!ever_from(8 * r + 8, sl, 0, i, p));
    }
}

/// Reading the FEN text of ranks `r` down to the first one, from the start of rank `r`: it
/// reads in range and places exactly the pieces of those ranks.
#[verifier::spinoff_prover]
#[verifier::rlimit(40)]
proof fn lemma_placement(pos: Position, r: int)
    requires
        0 <= r < 8,
    ensures
        reads_well(8 * r, placement_chars(pos, r)),
        forall|i: int| #[trigger] placed_from(8 * r, placement_chars(pos, r), placement_chars(pos, r).len() as int, i)
            == if 0 <= i < 8 * r + 8 {
                pos.board_at(i)
            } else {
                None
            },
        forall|i: int, p: spec_fn(Piece) -> bool| #[trigger] ever_from(8 * r, placement_chars(pos, r),
            placement_chars(pos, r).len() as int, i, p) == (0 <= i < 8 * r + 8 && holds(pos, i, p)),
    decreases r,
{
    if r == 0 {
        lemma_rank(pos, 0, 0, 0);
    } else {
        lemma_placement(pos, r - 1);
        lemma_rank_then_slash(pos, r);
        let a = rank_chars(pos, r, 0, 0) + seq!['/'];
        let q = placement_chars(pos, r - 1);
        assert(placement_chars(pos, r) == a + q);
        lemma_reads_well_concat(8 * r, a, q);
        assert forall|i: int| #[trigger] placed_from(8 * r, a + q, (a + q).len() as int, i) == if 0 <= i < 8 * r + 8 {
            pos.board_at(i)
        } else {
            None
        } by {
            lemma_placed_concat(8 * r, a, q, q.len() as int, i);
        }
        assert forall|i: int, p: spec_fn(Piece) -> bool| #[trigger] ever_from(8 * r, a + q, (a + q).len() as int, i, p)
            == (0 <= i < 8 * r + 8 && holds(pos, i, p)) by {
            lemma_ever_concat(8 * r, a, q, q.len() as int, i, p);
        }
    }
}


proof fn bv_or(x: u8, y: u8, z: u8)
    by (bit_vector)
    ensures
        x | 0u8 == x,
        0u8 | x == x,
        (x | y) | z == x | (y | z),
{
}

proof fn bv_rights(b: u8)
    by (bit_vector)
    requires
        b < 16,
    ensures
        (((if b & 1u8 != 0u8 { 1u8 } else { 0u8 }) | (if b & 2u8 != 0u8 { 2u8 } else { 0u8 }))
            | (if b & 4u8 != 0u8 { 4u8 } else { 0u8 })) | (if b & 8u8 != 0u8 { 8u8 } else { 0u8 }) == b,
{
}

proof fn lemma_castling_bits_prefix(a: Seq<char>, b: Seq<char>, n: int)
    requires
        0 <= n <= a.len(),
    ensures
        castling_bits(a + b, n) == castling_bits(a, n),
    decreases n,
{
    if n > 0 {
        lemma_castling_bits_prefix(a, b, n - 1);
        assert((a + b)[n - 1] == a[n - 1]);
    }
}

proof fn lemma_castling_bits_concat(a: Seq<char>, b: Seq<char>, n: int)
    requires
        0 <= n <= b.len(),
    ensures
        castling_bits(a + b, a.len() + n) == castling_bits(a, a.len() as int) | castling_bits(b, n),
    decreases n,
{
    if n == 0 {
        lemma_castling_bits_prefix(a, b, a.len() as int);
        bv_or(castling_bits(a, a.len() as int), 0, 0);
    } else {
        lemma_castling_bits_concat(a, b, n - 1);
        assert((a + b)[a.len() + n - 1] == b[n - 1]);
        bv_or(castling_bits(a, a.len() as int), castling_bits(b, n - 1), castle_char_bit(b[n - 1]));
    }
}

/// The text of one castling right, if it is held.
spec fn right_chars(held: bool, c: char) -> Seq<char> {
    if held {
        seq![c]
    } else {
        Seq::<char>::empty()
    }
}

proof fn lemma_right_chars(held: bool, c: char)
    requires
        is_castle_char(c),
    ensures
        castling_bits(right_chars(held, c), right_chars(held, c).len() as int) == if held {
            castle_char_bit(c)
        } else {
            0u8
        },
{
    if held {
        bv_or(castle_char_bit(c), 0, 0);
        assert(castling_bits(seq![c], 0) == 0u8);
    }
}

/// The castling text of rights below 16 reads back as those rights.
proof fn lemma_castling_roundtrip(bits: u8)
    requires
        bits < 16,
    ensures
        castling_field_ok(castling_chars(bits)),
        castling_bits(castling_chars(bits), dash_from(castling_chars(bits), 0)) == bits,
        forall|k: int| 0 <= k < castling_chars(bits).len() ==> #[trigger] castling_chars(bits)[k] != ' ',
{
    let t = castling_chars(bits);
    if bits == 0 {
        assert(t[0] == '-');
        assert(dash_from(t, 0) == 0);
    } else {
        let a = right_chars(bits & 1 != 0, 'K');
        let b = right_chars(bits & 2 != 0, 'Q');
        let c = right_chars(bits & 4 != 0, 'k');
        let d = right_chars(bits & 8 != 0, 'q');
        assert(t =~= a + b + c + d);
        assert forall|k: int| 0 <= k < t.len() implies #[trigger] is_castle_char(t[k]) by {
            if k < a.len() {
                assert(t[k] == a[k]);
            } else if k < a.len() + b.len() {
                assert(t[k] == (a + b)[k]);
                assert(t[k] == b[k - a.len()]);
            } else if k < a.len() + b.len() + c.len() {
                assert(t[k] == (a + b + c)[k]);
                assert(t[k] == c[k - a.len() - b.len()]);
            } else {
                assert(t[k] == d[k - a.len() - b.len() - c.len()]);
            }
        }
        assert forall|j: int| 0 <= j < t.len() implies #[trigger] t[j] != '-' by {
            assert(is_castle_char(t[j]));
        }
        lemma_dash_from(t, 0, t.len() as int);
        lemma_right_chars(bits & 1 != 0, 'K');
        lemma_right_chars(bits & 2 != 0, 'Q');
        lemma_right_chars(bits & 4 != 0, 'k');
        lemma_right_chars(bits & 8 != 0, 'q');
        lemma_castling_bits_concat(a, b, b.len() as int);
        lemma_castling_bits_concat(a + b, c, c.len() as int);
        lemma_castling_bits_concat(a + b + c, d, d.len() as int);
        bv_rights(bits);
    }
}

/// The name of a square reads back as the square, and is neither `-` nor holds a space.
pub proof fn lemma_square_name_roundtrip(sq: int)
    requires
        0 <= sq < 64,
    ensures
        parse_square(square_name(sq)) == Ok::<int, Seq<char>>(sq),
        square_name(sq) != seq!['-'],
        forall|k: int| 0 <= k < square_name(sq).len() ==> #[trigger] square_name(sq)[k] != ' ',
{
    crate::square::lemma_square_parts(sq);
    assert(square_name(sq)[0] == file_char(file_of(sq)));
    assert(square_name(sq)[1] == rank_char(rank_of(sq)));
}


/// The fields of the FEN text of `pos`.
proof fn lemma_fen_fields(pos: Position)
    requires
        pos.rights().bits() < 16,
    ensures
        split_spaces(fen_chars(pos)) == seq![
            placement_chars(pos, 7),
            if pos.side() == Color::White { seq!['w'] } else { seq!['b'] },
            castling_chars(pos.rights().bits()),
            ep_chars(pos.ep_square()),
            decimal_chars(pos.clock() as nat),
            decimal_chars((pos.plies() / 2 + 1) as nat),
        ],
{
    let p = placement_chars(pos, 7);
    let sd = if pos.side() == Color::White { seq!['w'] } else { seq!['b'] };
    let c = castling_chars(pos.rights().bits());
    let e = ep_chars(pos.ep_square());
    let d1 = decimal_chars(pos.clock() as nat);
    let d2 = decimal_chars((pos.plies() / 2 + 1) as nat);
    let sp = seq![' '];
    lemma_placement(pos, 7);
    assert forall|k: int| 0 <= k < p.len() implies #[trigger] p[k] != ' ' by {
        assert(placement_char(p[k]));
    }
    assert forall|k: int| 0 <= k < sd.len() implies #[trigger] sd[k] != ' ' by {}
    lemma_castling_roundtrip(pos.rights().bits());
    match pos.ep_square() {
        Some(sq) => {
            lemma_square_name_roundtrip(sq as int);
        },
        None => {},
    }
    assert forall|k: int| 0 <= k < e.len() implies #[trigger] e[k] != ' ' by {}
    lemma_decimal_chars_digits(pos.clock() as nat);
    lemma_decimal_chars_digits((pos.plies() / 2 + 1) as nat);
    assert forall|k: int| 0 <= k < d1.len() implies #[trigger] d1[k] != ' ' by {
        assert(is_digit(d1[k]));
    }
    assert forall|k: int| 0 <= k < d2.len() implies #[trigger] d2[k] != ' ' by {
        assert(is_digit(d2[k]));
    }
    lemma_split_single(p);
    lemma_split_single(sd);
    lemma_split_single(c);
    lemma_split_single(e);
    lemma_split_single(d1);
    lemma_split_single(d2);
    let x1 = p + sp + sd;
    let x2 = x1 + sp + c;
    let x3 = x2 + sp + e;
    let x4 = x3 + sp + d1;
    let x5 = x4 + sp + d2;
    assert(fen_chars(pos) =~= x5);
    lemma_split_join(p, sd);
    lemma_split_join(x1, c);
    lemma_split_join(x2, e);
    lemma_split_join(x3, d1);
    lemma_split_join(x4, d2);
    assert(split_spaces(x5) =~= seq![p, sd, c, e, d1, d2]);
}

/// Reading the FEN text of a consistent position gives the position back: the text reads in
/// range and without problems, and its fields describe `pos`. This holds where the text
/// says everything about `pos`: castling rights among the four, a ply count whose parity
/// matches the side to move, and a full move number of at most 127.
pub proof fn lemma_fen_roundtrip(pos: Position)
    requires
        fen_writable(pos),
    ensures
        fen_in_range(fen_chars(pos)),
        fen_error(split_spaces(fen_chars(pos))) is None,
        fen_position(split_spaces(fen_chars(pos)), pos),
{
    lemma_fen_fields(pos);
    let f = split_spaces(fen_chars(pos));
    let p = placement_chars(pos, 7);
    lemma_placement(pos, 7);
    // The placement
    assert(placement_ok(p)) by {
        assert forall|k: int| 0 <= k < p.len() implies placement_char(#[trigger] p[k]) by {}
    }
    assert(placement_in_range(p)) by {
        assert forall|n: int| 0 <= n < p.len() && placement_prefix_ok(p, n) implies #[trigger] step_in_range(p[n],
            super::fen::placement_cursor(p, n)) by {
            assert(placement_char(p[n]));
        }
    }
    assert(placed(pos, p, p.len() as int)) by {
        assert forall|c: Color, pt: PieceType, i: int| #[trigger] pos.pieces_of(c, pt).has(i)
            == super::fen::ever_placed(p, p.len() as int, i, of_kind(c, pt)) by {
            assert(ever_from(56, p, p.len() as int, i, of_kind(c, pt)) == (0 <= i < 64 && holds(pos, i, of_kind(c, pt))));
        }
        assert forall|c: Color, i: int| #[trigger] pos.color_bb(c).has(i) == super::fen::ever_placed(p, p.len() as int, i, of_color(c)) by {
            assert(ever_from(56, p, p.len() as int, i, of_color(c)) == (0 <= i < 64 && holds(pos, i, of_color(c))));
        }
        assert forall|i: int| #[trigger] pos.occupied_bb().has(i) == super::fen::ever_placed(p, p.len() as int, i, any_piece()) by {
            assert(ever_from(56, p, p.len() as int, i, any_piece()) == (0 <= i < 64 && holds(pos, i, any_piece())));
        }
        assert forall|i: int| 0 <= i < 64 implies #[trigger] pos.board_at(i) == super::fen::placed_at(p, p.len() as int, i) by {
            assert(placed_from(56, p, p.len() as int, i) == pos.board_at(i));
        }
    }
    // The castling rights and the en passant square
    lemma_castling_roundtrip(pos.rights().bits());
    match pos.ep_square() {
        Some(sq) => {
            lemma_square_name_roundtrip(sq as int);
        },
        None => {},
    }
    // The counters
    lemma_parse_decimal(pos.clock());
    let n = (pos.plies() / 2 + 1) as u8;
    assert(n as nat == (pos.plies() / 2 + 1) as nat);
    lemma_parse_decimal(n);
    assert(fen_error(f) is None);
    assert(f[0] == p);
    assert(side_of_field(f[1]) == Some(pos.side())) by {
        let w = seq!['w'];
        let b = seq!['b'];
        assert(w[0] != b[0]);
        assert(w != b);
        if pos.side() == Color::White {
            assert(f[1] == w);
        } else {
            assert(f[1] == b);
        }
    }
    assert(pos.rights().bits() == castling_bits(f[2], dash_from(f[2], 0)));
    assert(ep_of_field(f[3]) == Ok::<Option<int>, Seq<char>>(match pos.ep_square() {
        Some(s) => Some(s as int),
        None => None,
    }));
    assert(parse_u8_spec(f[4]) == Some(pos.clock()));
    assert(parse_u8_spec(f[5]) == Some(n));
    assert(pos.plies() == 2 * n - (if pos.side() == Color::White { 2int } else { 1int }));
}

/// The FEN text of a rank depends on the pieces of the board alone.
proof fn lemma_rank_chars_board(p: Position, q: Position, r: int, f: int, empty: nat)
    requires
        0 <= r < 8,
        0 <= f,
        forall|i: int| 0 <= i < 64 ==> #[trigger] p.board_at(i) == q.board_at(i),
    ensures
        rank_chars(p, r, f, empty) == rank_chars(q, r, f, empty),
    decreases 8 - f,
{
    if f < 8 {
        assert(p.board_at(8 * r + f) == q.board_at(8 * r + f));
        lemma_rank_chars_board(p, q, r, f + 1, empty + 1);
        lemma_rank_chars_board(p, q, r, f + 1, 0);
    }
}

/// The FEN text of the placement depends on the pieces of the board alone.
proof fn lemma_placement_chars_board(p: Position, q: Position, r: int)
    requires
        0 <= r < 8,
        forall|i: int| 0 <= i < 64 ==> #[trigger] p.board_at(i) == q.board_at(i),
    ensures
        placement_chars(p, r) == placement_chars(q, r),
    decreases r,
{
    lemma_rank_chars_board(p, q, r, 0, 0);
    if r > 0 {
        lemma_placement_chars_board(p, q, r - 1);
    }
}

/// The position can be written as FEN text and read back: it is consistent, its castling
/// rights are among the four, its ply count has the parity of the side to move and its full
/// move number is at most 127.
pub open spec fn fen_writable(pos: Position) -> bool {
    &&& pos.wf()
    &&& pos.rights().bits() < 16
    &&& pos.plies() <= 253
    &&& pos.plies() % 2 == if pos.side() == Color::White {
        0int
    } else {
        1int
    }
}

/// A canonical FEN text: the text the writer produces for such a position. Each rank writes a
/// run of empty squares as one digit, the castling field is `-` or the letters `KQkq` held, in
/// that order, the en passant field is `-` or a square name, and the counters are plain
/// decimals.
pub open spec fn canonical_fen(s: Seq<char>) -> bool {
    exists|pos: Position| fen_writable(pos) && fen_chars(pos) == s
}

/// Writing back a position read from a canonical FEN text gives the text again: the text
/// reads in range and without problems, and every position `q` it describes is written as
/// the same text.
pub proof fn lemma_fen_rewrite(s: Seq<char>, q: Position)
    requires
        canonical_fen(s),
        fen_position(split_spaces(s), q),
    ensures
        fen_in_range(s),
        fen_error(split_spaces(s)) is None,
        fen_chars(q) == s,
{
    let pos = choose|pos: Position| fen_writable(pos) && fen_chars(pos) == s;
    lemma_fen_roundtrip(pos);
    let f = split_spaces(fen_chars(pos));
    assert forall|i: int| 0 <= i < 64 implies #[trigger] q.board_at(i) == pos.board_at(i) by {
        assert(q.board_at(i) == super::fen::placed_at(f[0], f[0].len() as int, i));
        assert(pos.board_at(i) == super::fen::placed_at(f[0], f[0].len() as int, i));
    }
    lemma_placement_chars_board(q, pos, 7);
    assert(q.side() == pos.side());
    assert(q.rights().bits() == pos.rights().bits());
    assert(ep_chars(q.ep_square()) == ep_chars(pos.ep_square()));
    assert(q.clock() == pos.clock());
    assert(q.plies() == pos.plies());
}

} // verus!
