//! Attack sets: the squares a piece on a square attacks.
//!
//! Knights, kings and pawns attack fixed patterns. Bishops, rooks and queens slide along rays
//! until the edge of the board or the first occupied square, which is attacked too.
use vstd::prelude::*;

use crate::bitboard::Bitboard;
use crate::magic::{lemma_magic_lookup, Magic};
use crate::bits::{bit, group_bits};
use crate::piece::Color;
use crate::square::{Square, file_of, rank_of};

verus! {

broadcast use group_bits;

/// The absolute value of `x`.
pub open spec fn abs(x: int) -> int {
    if x < 0 {
        -x
    } else {
        x
    }
}

/// A knight on `s` attacks `t`: one file and two ranks away, or two files and one rank.
pub open spec fn knight_reach(s: int, t: int) -> bool {
    let df = abs(file_of(t) - file_of(s));
    let dr = abs(rank_of(t) - rank_of(s));
    &&& 0 <= s < 64
    &&& 0 <= t < 64
    &&& ((df == 1 && dr == 2) || (df == 2 && dr == 1))
}

/// A king on `s` attacks `t`: a neighboring square.
pub open spec fn king_reach(s: int, t: int) -> bool {
    let df = abs(file_of(t) - file_of(s));
    let dr = abs(rank_of(t) - rank_of(s));
    &&& 0 <= s < 64
    &&& 0 <= t < 64
    &&& df <= 1
    &&& dr <= 1
    &&& s != t
}

/// A pawn of `color` on `s` attacks `t`: one rank forward and one file aside.
pub open spec fn pawn_reach(color: Color, s: int, t: int) -> bool {
    &&& 0 <= s < 64
    &&& 0 <= t < 64
    &&& abs(file_of(t) - file_of(s)) == 1
    &&& match color {
        Color::White => rank_of(t) == rank_of(s) + 1,
        Color::Black => rank_of(t) == rank_of(s) - 1,
    }
}

/// The knight's targets as offsets of the square index, each with the files it needs.
proof fn lemma_knight_offsets(s: int, t: int)
    requires
        0 <= s < 64,
    ensures
        knight_reach(s, t) == (0 <= t < 64 && (
            (t == s + 15 && file_of(s) >= 1 && rank_of(s) <= 5)
            || (t == s + 17 && file_of(s) <= 6 && rank_of(s) <= 5)
            || (t == s - 15 && file_of(s) <= 6 && rank_of(s) >= 2)
            || (t == s - 17 && file_of(s) >= 1 && rank_of(s) >= 2)
            || (t == s + 6 && file_of(s) >= 2 && rank_of(s) <= 6)
            || (t == s + 10 && file_of(s) <= 5 && rank_of(s) <= 6)
            || (t == s - 6 && file_of(s) <= 5 && rank_of(s) >= 1)
            || (t == s - 10 && file_of(s) >= 2 && rank_of(s) >= 1))),
{
}

/// The squares a knight on `sq` attacks.
pub fn knight_attacks(sq: Square) -> (r: Bitboard)
    ensures
        forall|t: int| #[trigger] r.has(t) == knight_reach(sq as int, t),
{
    let ghost s = sq as int;
    let bb = Bitboard::from_square(sq);
    let east = bb.east_one();
    let west = bb.west_one();
    assert forall|u: int| #[trigger] west.has(u) == (u == s - 1 && file_of(s) >= 1) by {
        assert(bb.has(u + 1) == (u + 1 == s));
    }
    assert forall|u: int| #[trigger] east.has(u) == (u == s + 1 && file_of(s) <= 6) by {
        assert(bb.has(u - 1) == (u - 1 == s));
    }

    // 1 west or east and 2 north or south
    let we = west.0 | east.0;
    let att1 = we << 16u64 | we >> 16u64;
    assert forall|t: int| #[trigger] bit(att1, t) == (0 <= t < 64 && (
        (t == s + 15 && file_of(s) >= 1) || (t == s + 17 && file_of(s) <= 6)
        || (t == s - 17 && file_of(s) >= 1) || (t == s - 15 && file_of(s) <= 6))) by {
        assert(west.has(t - 16) == (t - 16 == s - 1 && file_of(s) >= 1));
        assert(east.has(t - 16) == (t - 16 == s + 1 && file_of(s) <= 6));
        assert(west.has(t + 16) == (t + 16 == s - 1 && file_of(s) >= 1));
        assert(east.has(t + 16) == (t + 16 == s + 1 && file_of(s) <= 6));
    }

    let west2 = west.west_one();
    let east2 = east.east_one();
    assert forall|u: int| #[trigger] west2.has(u) == (u == s - 2 && file_of(s) >= 2) by {
        assert(west.has(u + 1) == (u + 1 == s - 1 && file_of(s) >= 1));
    }
    assert forall|u: int| #[trigger] east2.has(u) == (u == s + 2 && file_of(s) <= 5) by {
        assert(east.has(u - 1) == (u - 1 == s + 1 && file_of(s) <= 6));
    }
    let we2 = Bitboard(west2.0 | east2.0);
    let n2 = we2.north_one();
    let s2 = we2.south_one();
    let att2 = n2.0 | s2.0;
    assert forall|t: int| #[trigger] bit(att2, t) == (0 <= t < 64 && (
        (t == s + 6 && file_of(s) >= 2) || (t == s + 10 && file_of(s) <= 5)
        || (t == s - 10 && file_of(s) >= 2) || (t == s - 6 && file_of(s) <= 5))) by {
        assert(n2.has(t) == (8 <= t < 64 && we2.has(t - 8)));
        assert(s2.has(t) == (0 <= t && we2.has(t + 8)));
        assert(west2.has(t - 8) == (t - 8 == s - 2 && file_of(s) >= 2));
        assert(east2.has(t - 8) == (t - 8 == s + 2 && file_of(s) <= 5));
        assert(west2.has(t + 8) == (t + 8 == s - 2 && file_of(s) >= 2));
        assert(east2.has(t + 8) == (t + 8 == s + 2 && file_of(s) <= 5));
    }
    let r = Bitboard(att1 | att2);
    assert forall|t: int| #[trigger] r.has(t) == knight_reach(s, t) by {
        lemma_knight_offsets(s, t);
        assert(bit(att1, t) == bit(att1, t));
        assert(bit(att2, t) == bit(att2, t));
    }
    r
}

/// The king's targets as offsets of the square index, each with the files it needs.
proof fn lemma_king_offsets(s: int, t: int)
    requires
        0 <= s < 64,
    ensures
        king_reach(s, t) == (0 <= t < 64 && (
            (t == s - 1 && file_of(s) >= 1)
            || (t == s + 1 && file_of(s) <= 6)
            || (t == s + 8 && rank_of(s) <= 6)
            || (t == s + 7 && file_of(s) >= 1 && rank_of(s) <= 6)
            || (t == s + 9 && file_of(s) <= 6 && rank_of(s) <= 6)
            || (t == s - 8 && rank_of(s) >= 1)
            || (t == s - 9 && file_of(s) >= 1 && rank_of(s) >= 1)
            || (t == s - 7 && file_of(s) <= 6 && rank_of(s) >= 1))),
{
}

/// The squares a king on `sq` attacks.
pub fn king_attacks(sq: Square) -> (r: Bitboard)
    ensures
        forall|t: int| #[trigger] r.has(t) == king_reach(sq as int, t),
{
    let ghost s = sq as int;
    let bb = Bitboard::from_square(sq);
    let w = bb.west_one();
    let e = bb.east_one();
    assert forall|u: int| #[trigger] w.has(u) == (u == s - 1 && file_of(s) >= 1) by {
        assert(bb.has(u + 1) == (u + 1 == s));
    }
    assert forall|u: int| #[trigger] e.has(u) == (u == s + 1 && file_of(s) <= 6) by {
        assert(bb.has(u - 1) == (u - 1 == s));
    }
    let attacks = Bitboard(w.0 | e.0);
    let bb2 = Bitboard(bb.0 | attacks.0);
    assert forall|u: int| #[trigger] bb2.has(u) == (u == s || (u == s - 1 && file_of(s) >= 1)
        || (u == s + 1 && file_of(s) <= 6)) by {
        assert(bb.has(u) == (u == s));
        assert(w.has(u) == (u == s - 1 && file_of(s) >= 1));
        assert(e.has(u) == (u == s + 1 && file_of(s) <= 6));
    }
    let n = bb2.north_one();
    let so = bb2.south_one();
    let r = Bitboard(attacks.0 | n.0 | so.0);
    assert forall|t: int| #[trigger] r.has(t) == king_reach(s, t) by {
        lemma_king_offsets(s, t);
        assert(w.has(t) == (t == s - 1 && file_of(s) >= 1));
        assert(e.has(t) == (t == s + 1 && file_of(s) <= 6));
        assert(n.has(t) == (8 <= t < 64 && bb2.has(t - 8)));
        assert(so.has(t) == (0 <= t && bb2.has(t + 8)));
        assert(bb2.has(t - 8) == (t - 8 == s || (t - 8 == s - 1 && file_of(s) >= 1)
            || (t - 8 == s + 1 && file_of(s) <= 6)));
        assert(bb2.has(t + 8) == (t + 8 == s || (t + 8 == s - 1 && file_of(s) >= 1)
            || (t + 8 == s + 1 && file_of(s) <= 6)));
    }
    r
}

/// The squares the pawns of `color` attack.
pub fn pawn_attacks(color: Color, pawns: Bitboard) -> (r: Bitboard)
    ensures
        forall|t: int| #[trigger] r.has(t) == exists|s: int| #[trigger] pawns.has(s) && pawn_reach(color, s, t),
{
    match color {
        Color::White => {
            let a = pawns.north_west_one();
            let b = pawns.north_east_one();
            let r = Bitboard(a.0 | b.0);
            assert forall|t: int| #[trigger] r.has(t) == exists|s: int| #[trigger] pawns.has(s) && pawn_reach(color, s, t) by {
                assert(a.has(t) == (0 <= t < 64 && file_of(t) != 7 && pawns.has(t - 7)));
                assert(b.has(t) == (0 <= t < 64 && file_of(t) != 0 && pawns.has(t - 9)));
                if exists|s: int| #[trigger] pawns.has(s) && pawn_reach(color, s, t) {
                    let s = choose|s: int| #[trigger] pawns.has(s) && pawn_reach(color, s, t);
                    assert(s == t - 7 || s == t - 9);
                }
                if a.has(t) {
                    assert(pawns.has(t - 7) && pawn_reach(color, t - 7, t));
                }
                if b.has(t) {
                    assert(pawns.has(t - 9) && pawn_reach(color, t - 9, t));
                }
            }
            r
        },
        Color::Black => {
            let a = pawns.south_west_one();
            let b = pawns.south_east_one();
            let r = Bitboard(a.0 | b.0);
            assert forall|t: int| #[trigger] r.has(t) == exists|s: int| #[trigger] pawns.has(s) && pawn_reach(color, s, t) by {
                assert(a.has(t) == (0 <= t && file_of(t) != 7 && pawns.has(t + 9)));
                assert(b.has(t) == (0 <= t && file_of(t) != 0 && pawns.has(t + 7)));
                if exists|s: int| #[trigger] pawns.has(s) && pawn_reach(color, s, t) {
                    let s = choose|s: int| #[trigger] pawns.has(s) && pawn_reach(color, s, t);
                    assert(s == t + 7 || s == t + 9);
                }
                if a.has(t) {
                    assert(pawns.has(t + 9) && pawn_reach(color, t + 9, t));
                }
                if b.has(t) {
                    assert(pawns.has(t + 7) && pawn_reach(color, t + 7, t));
                }
            }
            r
        },
    }
}


/// A direction a slider moves in.
#[derive(Clone, Copy, PartialEq, Eq, Debug, Structural)]
pub enum Direction {
    North,
    South,
    West,
    East,
    NorthWest,
    NorthEast,
    SouthWest,
    SouthEast,
}

/// The file reached from `s` after `k` steps in direction `d`.
pub open spec fn ray_file(s: int, d: Direction, k: int) -> int {
    match d {
        Direction::North | Direction::South => file_of(s),
        Direction::West | Direction::NorthWest | Direction::SouthWest => file_of(s) - k,
        Direction::East | Direction::NorthEast | Direction::SouthEast => file_of(s) + k,
    }
}

/// The rank reached from `s` after `k` steps in direction `d`.
pub open spec fn ray_rank(s: int, d: Direction, k: int) -> int {
    match d {
        Direction::West | Direction::East => rank_of(s),
        Direction::North | Direction::NorthWest | Direction::NorthEast => rank_of(s) + k,
        Direction::South | Direction::SouthWest | Direction::SouthEast => rank_of(s) - k,
    }
}

/// The square `k` steps from `s` in direction `d` is on the board.
pub open spec fn ray_on_board(s: int, d: Direction, k: int) -> bool {
    0 <= ray_file(s, d, k) < 8 && 0 <= ray_rank(s, d, k) < 8
}

/// The index of the square `k` steps from `s` in direction `d`.
pub open spec fn ray_sq(s: int, d: Direction, k: int) -> int {
    8 * ray_rank(s, d, k) + ray_file(s, d, k)
}

/// How many steps from `s` in direction `d` lead to the file (or rank) of `t`.
pub open spec fn ray_index(s: int, d: Direction, t: int) -> int {
    match d {
        Direction::North => rank_of(t) - rank_of(s),
        Direction::South => rank_of(s) - rank_of(t),
        Direction::West | Direction::NorthWest | Direction::SouthWest => file_of(s) - file_of(t),
        Direction::East | Direction::NorthEast | Direction::SouthEast => file_of(t) - file_of(s),
    }
}

/// `t` lies on the ray from `s` in direction `d`, at most `n` steps away.
pub open spec fn on_ray_within(s: int, d: Direction, t: int, n: int) -> bool {
    let j = ray_index(s, d, t);
    1 <= j <= n && ray_on_board(s, d, j) && ray_sq(s, d, j) == t
}

/// A slider on `s` moving in direction `d` attacks `t` on a board occupied by `occupied`:
/// `t` is on the ray and no square before it on the ray is occupied.
pub open spec fn ray_attacks(s: int, occupied: Bitboard, d: Direction, t: int) -> bool {
    let j = ray_index(s, d, t);
    &&& 1 <= j
    &&& ray_on_board(s, d, j)
    &&& ray_sq(s, d, j) == t
    &&& forall|i: int| 1 <= i < j ==> !occupied.has(#[trigger] ray_sq(s, d, i))
}

/// The coordinates of a square index.
proof fn lemma_coords(rank: int, file: int)
    requires
        0 <= rank < 8,
        0 <= file < 8,
    ensures
        file_of(8 * rank + file) == file,
        rank_of(8 * rank + file) == rank,
        0 <= 8 * rank + file < 64,
{
}

/// Facts about consecutive squares of a ray.
proof fn lemma_ray_step(s: int, d: Direction, k: int)
    requires
        0 <= s < 64,
        0 <= k,
        ray_on_board(s, d, k),
    ensures
        ray_on_board(ray_sq(s, d, k), d, 1) == ray_on_board(s, d, k + 1),
        ray_on_board(s, d, k + 1) ==> ray_sq(ray_sq(s, d, k), d, 1) == ray_sq(s, d, k + 1),
        ray_on_board(s, d, k + 1) ==> ray_index(s, d, ray_sq(s, d, k + 1)) == k + 1,
        ray_on_board(s, d, k + 1) ==> k + 1 <= 7,
        !ray_on_board(s, d, k + 1) ==> forall|j: int| j > k ==> !#[trigger] ray_on_board(s, d, j),
{
    lemma_coords(ray_rank(s, d, k), ray_file(s, d, k));
    lemma_coords(rank_of(s), file_of(s));
    if ray_on_board(s, d, k + 1) {
        lemma_coords(ray_rank(s, d, k + 1), ray_file(s, d, k + 1));
    }
}

/// The squares of a ray are distinct and on the board up to the first one that is not.
proof fn lemma_ray_prefix(s: int, d: Direction, i: int, j: int)
    requires
        0 <= s < 64,
        1 <= i <= j,
        ray_on_board(s, d, j),
    ensures
        ray_on_board(s, d, i),
        0 <= ray_sq(s, d, i) < 64,
        ray_index(s, d, ray_sq(s, d, i)) == i,
{
    lemma_coords(rank_of(s), file_of(s));
    lemma_coords(ray_rank(s, d, i), ray_file(s, d, i));
}

impl Direction {
    /// The change of the square index for one step in this direction.
    pub open spec fn offset(self) -> int {
        ray_sq(0, self, 1) - ray_sq(0, self, 0)
    }

    /// Moves every square of `bb` one step in this direction; squares that would leave the
    /// board are dropped.
    pub fn step(self, bb: Bitboard) -> (r: Bitboard)
        ensures
            forall|t: int| #[trigger] r.has(t) == (bb.has(t - self.offset()) && ray_on_board(t - self.offset(), self, 1)),
    {
        let r = match self {
            Direction::North => bb.north_one(),
            Direction::South => bb.south_one(),
            Direction::West => bb.west_one(),
            Direction::East => bb.east_one(),
            Direction::NorthWest => bb.north_west_one(),
            Direction::NorthEast => bb.north_east_one(),
            Direction::SouthWest => bb.south_west_one(),
            Direction::SouthEast => bb.south_east_one(),
        };
        assert forall|t: int| #[trigger] r.has(t) == (bb.has(t - self.offset()) && ray_on_board(t - self.offset(), self, 1)) by {
            assert(r.has(t) == r.has(t));
            assert(bb.has(t - self.offset()) ==> 0 <= t - self.offset() < 64);
        }
        r
    }
}

/// The squares a slider on `sq` attacks in direction `d`.
fn ray_attack_set(sq: Square, occupied: Bitboard, d: Direction) -> (r: Bitboard)
    ensures
        forall|t: int| #[trigger] r.has(t) == ray_attacks(sq as int, occupied, d, t),
{
    let ghost s = sq as int;
    let mut attacks = Bitboard::empty();
    let mut bb = Bitboard::from_square(sq);
    let ghost mut k: int = 0;
    proof {
        lemma_coords(rank_of(s), file_of(s));
    }
    loop
        invariant_except_break
            forall|t: int| #[trigger] attacks.has(t) == on_ray_within(s, d, t, k),
        invariant
            0 <= s < 64,
            0 <= k <= 7,
            ray_on_board(s, d, k),
            forall|x: int| #[trigger] bb.has(x) == (x == ray_sq(s, d, k)),
            forall|i: int| 1 <= i <= k ==> !occupied.has(#[trigger] ray_sq(s, d, i)),
        ensures
            forall|t: int| #[trigger] attacks.has(t) == ray_attacks(s, occupied, d, t),
        decreases 7 - k,
    {
        let ghost x = ray_sq(s, d, k);
        let next = d.step(bb);
        proof {
            lemma_ray_step(s, d, k);
            assert forall|t: int| #[trigger] next.has(t) == (ray_on_board(s, d, k + 1) && t == ray_sq(s, d, k + 1)) by {
                assert(bb.has(t - d.offset()) == (t - d.offset() == x));
            }
        }
        if next.0 == 0 {
            proof {
                if ray_on_board(s, d, k + 1) {
                    assert(next.has(ray_sq(s, d, k + 1)));
                }
                assert forall|t: int| #[trigger] attacks.has(t) == ray_attacks(s, occupied, d, t) by {
                    let j = ray_index(s, d, t);
                    if 1 <= j <= k && ray_on_board(s, d, j) && ray_sq(s, d, j) == t {
                        assert forall|i: int| 1 <= i < j implies !occupied.has(#[trigger] ray_sq(s, d, i)) by {}
                    }
                    if j > k {
                        assert(!ray_on_board(s, d, j));
                    }
                }
            }
            break;
        }
        proof {
            if !ray_on_board(s, d, k + 1) {
                assert forall|i: int| 0 <= i < 64 implies !bit(next.0, i) by {
                    assert(!next.has(i));
                }
                crate::bits::bit_none_is_zero(next.0);
            }
            lemma_ray_prefix(s, d, k + 1, k + 1);
        }
        let old_attacks = attacks;
        attacks = Bitboard(attacks.0 | next.0);
        if next.0 & occupied.0 != 0 {
            proof {
                let y = ray_sq(s, d, k + 1);
                if !occupied.has(y) {
                    assert forall|i: int| 0 <= i < 64 implies !bit(next.0 & occupied.0, i) by {
                        assert(next.has(i) == (i == y));
                    }
                    crate::bits::bit_none_is_zero(next.0 & occupied.0);
                }
                assert forall|t: int| #[trigger] attacks.has(t) == ray_attacks(s, occupied, d, t) by {
                    let j = ray_index(s, d, t);
                    assert(old_attacks.has(t) == on_ray_within(s, d, t, k));
                    assert(next.has(t) == (t == y));
                    if 1 <= j <= k + 1 && ray_on_board(s, d, j) && ray_sq(s, d, j) == t {
                        assert forall|i: int| 1 <= i < j implies !occupied.has(#[trigger] ray_sq(s, d, i)) by {}
                    }
                    if j > k + 1 && ray_on_board(s, d, j) {
                        assert(occupied.has(ray_sq(s, d, k + 1)));
                    }
                }
            }
            break;
        }
        proof {
            let y = ray_sq(s, d, k + 1);
            assert(!occupied.has(y)) by {
                if occupied.has(y) {
                    assert(next.has(y));
                    assert(Bitboard(next.0 & occupied.0).has(y));
                }
            }
            assert forall|t: int| #[trigger] attacks.has(t) == on_ray_within(s, d, t, k + 1) by {
                assert(old_attacks.has(t) == on_ray_within(s, d, t, k));
                assert(next.has(t) == (t == y));
            }
        }
        bb = next;
        proof {
            k = k + 1;
        }
    }
    attacks
}

/// A slider on `s` moving in any of the directions `dirs` attacks `t`.
pub open spec fn rays_attack(s: int, occupied: Bitboard, dirs: Seq<Direction>, t: int) -> bool {
    exists|i: int| 0 <= i < dirs.len() && #[trigger] ray_attacks(s, occupied, dirs[i], t)
}

/// The squares a slider on `sq` attacks, moving in any of `directions`.
pub fn sliding_attacks(sq: Square, occupied: Bitboard, directions: &[Direction]) -> (r: Bitboard)
    ensures
        forall|t: int| #[trigger] r.has(t) == rays_attack(sq as int, occupied, directions@, t),
{
    let ghost s = sq as int;
    let mut attacks = Bitboard::empty();
    let mut n: usize = 0;
    while n < directions.len()
        invariant
            s == sq as int,
            n <= directions@.len(),
            forall|t: int| #[trigger] attacks.has(t) == rays_attack(s, occupied, directions@.take(n as int), t),
        decreases directions@.len() - n,
    {
        let d = directions[n];
        let ray = ray_attack_set(sq, occupied, d);
        let old_attacks = attacks;
        attacks = Bitboard(attacks.0 | ray.0);
        assert forall|t: int| #[trigger] attacks.has(t) == rays_attack(s, occupied, directions@.take(n + 1), t) by {
            let before = directions@.take(n as int);
            let after = directions@.take(n + 1);
            assert(ray.has(t) == ray_attacks(s, occupied, d, t));
            assert(old_attacks.has(t) == rays_attack(s, occupied, before, t));
            assert(after[n as int] == d);
            if ray_attacks(s, occupied, d, t) {
                assert(ray_attacks(s, occupied, after[n as int], t));
            }
            if rays_attack(s, occupied, before, t) {
                let i = choose|i: int| 0 <= i < before.len() && #[trigger] ray_attacks(s, occupied, before[i], t);
                assert(after[i] == before[i]);
            }
            if rays_attack(s, occupied, after, t) {
                let i = choose|i: int| 0 <= i < after.len() && #[trigger] ray_attacks(s, occupied, after[i], t);
                if i < n {
                    assert(after[i] == before[i]);
                }
            }
        }
        n = n + 1;
    }
    assert(directions@.take(directions@.len() as int) =~= directions@);
    attacks
}


/// The directions a bishop slides in.
pub open spec fn bishop_directions() -> Seq<Direction> {
    seq![Direction::NorthWest, Direction::SouthWest, Direction::NorthEast, Direction::SouthEast]
}

/// The directions a rook slides in.
pub open spec fn rook_directions() -> Seq<Direction> {
    seq![Direction::North, Direction::South, Direction::West, Direction::East]
}

/// The squares a bishop on `sq` attacks on a board occupied by `occupied`, found by walking
/// the rays.
pub fn bishop_attacks_slow(sq: Square, occupied: Bitboard) -> (r: Bitboard)
    ensures
        forall|t: int| #[trigger] r.has(t) == rays_attack(sq as int, occupied, bishop_directions(), t),
{
    let dirs = [Direction::NorthWest, Direction::SouthWest, Direction::NorthEast, Direction::SouthEast];
    assert(dirs@ =~= bishop_directions());
    sliding_attacks(sq, occupied, dirs.as_slice())
}

/// The squares a rook on `sq` attacks on a board occupied by `occupied`, found by walking the
/// rays.
pub fn rook_attacks_slow(sq: Square, occupied: Bitboard) -> (r: Bitboard)
    ensures
        forall|t: int| #[trigger] r.has(t) == rays_attack(sq as int, occupied, rook_directions(), t),
{
    let dirs = [Direction::North, Direction::South, Direction::West, Direction::East];
    assert(dirs@ =~= rook_directions());
    sliding_attacks(sq, occupied, dirs.as_slice())
}

/// A sliding piece: a bishop or a rook. A queen slides as both.
#[derive(Clone, Copy, PartialEq, Eq, Debug, Structural)]
pub enum Slider {
    Bishop,
    Rook,
}

/// The directions a slider moves in.
pub open spec fn slider_directions(slider: Slider) -> Seq<Direction> {
    match slider {
        Slider::Bishop => bishop_directions(),
        Slider::Rook => rook_directions(),
    }
}

/// A `slider` on `s` attacks `t` on a board occupied by `occupied`.
pub open spec fn slider_reach(slider: Slider, s: int, occupied: Bitboard, t: int) -> bool {
    rays_attack(s, occupied, slider_directions(slider), t)
}

impl Slider {
    /// The squares this slider attacks from `sq` on a board occupied by `occupied`.
    pub fn attacks_slow(self, sq: Square, occupied: Bitboard) -> (r: Bitboard)
        ensures
            forall|t: int| #[trigger] r.has(t) == slider_reach(self, sq as int, occupied, t),
    {
        match self {
            Slider::Bishop => bishop_attacks_slow(sq, occupied),
            Slider::Rook => rook_attacks_slow(sq, occupied),
        }
    }
}

/// `u` is on an edge of the board that does not run through `s`: the first or last rank when
/// `s` is not on it, or the a- or h-file when `s` is not on it.
pub open spec fn edge_square(s: int, u: int) -> bool {
    ||| ((rank_of(u) == 0 || rank_of(u) == 7) && rank_of(u) != rank_of(s))
    ||| ((file_of(u) == 0 || file_of(u) == 7) && file_of(u) != file_of(s))
}

/// `u` can block a `slider` on `s`: it is attacked on the empty board and is not on an edge
/// away from `s`, where a ray ends anyway.
pub open spec fn relevant(slider: Slider, s: int, u: int) -> bool {
    slider_reach(slider, s, Bitboard(0), u) && !edge_square(s, u)
}

/// A square strictly before the end of a ray is attacked on the empty board and is not on an
/// edge away from the ray's start.
proof fn lemma_ray_interior(s: int, d: Direction, i: int, j: int)
    requires
        0 <= s < 64,
        1 <= i < j,
        ray_on_board(s, d, j),
    ensures
        ray_attacks(s, Bitboard(0), d, ray_sq(s, d, i)),
        !edge_square(s, ray_sq(s, d, i)),
{
    broadcast use crate::bits::bit_zero;

    lemma_ray_prefix(s, d, i, j);
    lemma_coords(ray_rank(s, d, i), ray_file(s, d, i));
    lemma_coords(rank_of(s), file_of(s));
}

/// Whether a slider attacks a square depends only on the occupancy of its relevant squares.
pub proof fn lemma_relevant_occupancy(slider: Slider, s: int, occupied: u64, mask: u64, t: int)
    requires
        0 <= s < 64,
        forall|u: int| #[trigger] bit(mask, u) == relevant(slider, s, u),
    ensures
        slider_reach(slider, s, Bitboard(occupied), t) == slider_reach(slider, s, Bitboard(occupied & mask), t),
{
    let dirs = slider_directions(slider);
    let occ = Bitboard(occupied);
    let occ_m = Bitboard(occupied & mask);
    assert forall|k: int| 0 <= k < dirs.len() implies #[trigger] ray_attacks(s, occ, dirs[k], t) == ray_attacks(s, occ_m, dirs[k], t) by {
        let d = dirs[k];
        let j = ray_index(s, d, t);
        if 1 <= j && ray_on_board(s, d, j) && ray_sq(s, d, j) == t {
            assert forall|i: int| 1 <= i < j implies occ.has(#[trigger] ray_sq(s, d, i)) == occ_m.has(ray_sq(s, d, i)) by {
                lemma_ray_interior(s, d, i, j);
                let u = ray_sq(s, d, i);
                assert(ray_attacks(s, Bitboard(0), dirs[k], u));
                assert(slider_reach(slider, s, Bitboard(0), u));
                assert(bit(mask, u));
            }
        }
    }
    if slider_reach(slider, s, occ, t) {
        let k = choose|k: int| 0 <= k < dirs.len() && #[trigger] ray_attacks(s, occ, dirs[k], t);
        assert(ray_attacks(s, occ_m, dirs[k], t));
    }
    if slider_reach(slider, s, occ_m, t) {
        let k = choose|k: int| 0 <= k < dirs.len() && #[trigger] ray_attacks(s, occ_m, dirs[k], t);
        assert(ray_attacks(s, occ, dirs[k], t));
    }
}

/// A slider always attacks the neighboring square toward the center of the board, whatever
/// the occupancy, and that square is relevant.
pub proof fn lemma_slider_neighbor(slider: Slider, s: int, occupied: Bitboard) -> (t: int)
    requires
        0 <= s < 64,
    ensures
        0 <= t < 64,
        slider_reach(slider, s, occupied, t),
        relevant(slider, s, t),
{
    lemma_coords(rank_of(s), file_of(s));
    let d = match slider {
        Slider::Bishop => if rank_of(s) < 4 {
            if file_of(s) < 4 {
                Direction::NorthEast
            } else {
                Direction::NorthWest
            }
        } else {
            if file_of(s) < 4 {
                Direction::SouthEast
            } else {
                Direction::SouthWest
            }
        },
        Slider::Rook => if rank_of(s) < 4 {
            Direction::North
        } else {
            Direction::South
        },
    };
    let dirs = slider_directions(slider);
    let k: int = match d {
        Direction::NorthWest => 0,
        Direction::SouthWest => 1,
        Direction::NorthEast => 2,
        Direction::SouthEast => 3,
        Direction::North => 0,
        Direction::South => 1,
        Direction::West => 2,
        Direction::East => 3,
    };
    assert(dirs[k] == d);
    let t = ray_sq(s, d, 1);
    lemma_ray_prefix(s, d, 1, 1);
    lemma_coords(ray_rank(s, d, 1), ray_file(s, d, 1));
    assert(ray_attacks(s, occupied, dirs[k], t));
    assert(slider_reach(slider, s, occupied, t));
    assert(ray_attacks(s, Bitboard(0), dirs[k], t));
    assert(slider_reach(slider, s, Bitboard(0), t));
    t
}


const BISHOP_SEED: u64 = 281954;
const ROOK_SEED: u64 = 121146;

/// The magic tables of bishops and rooks for all squares.
pub struct SliderMagics {
    bishop: Vec<Magic>,
    rook: Vec<Magic>,
}

impl SliderMagics {
    /// A valid magic for every square and both sliders.
    pub closed spec fn wf(&self) -> bool {
        &&& self.bishop.len() == 64
        &&& self.rook.len() == 64
        &&& forall|i: int| 0 <= i < 64 ==> #[trigger] self.bishop@[i].valid(Slider::Bishop, i)
        &&& forall|i: int| 0 <= i < 64 ==> #[trigger] self.rook@[i].valid(Slider::Rook, i)
    }
}

/// Finds the magics of rooks and then of bishops, each with its fixed seed. `None` when the
/// random search gave up for some square.
pub fn init() -> (r: Option<SliderMagics>)
    ensures
        r matches Some(m) ==> m.wf(),
{
    let rook = match Magic::init_magics(Slider::Rook, ROOK_SEED) {
        Some(v) => v,
        None => {
            return None;
        },
    };
    let bishop = match Magic::init_magics(Slider::Bishop, BISHOP_SEED) {
        Some(v) => v,
        None => {
            return None;
        },
    };
    Some(SliderMagics { bishop, rook })
}

/// The squares a bishop on `sq` attacks on a board occupied by `occupied`, looked up in the
/// magic table.
pub fn bishop_attacks(magics: &SliderMagics, sq: Square, occupied: Bitboard) -> (r: Bitboard)
    requires
        magics.wf(),
    ensures
        forall|t: int| #[trigger] r.has(t) == slider_reach(Slider::Bishop, sq as int, occupied, t),
{
    let magic = &magics.bishop[sq as usize];
    proof {
        assert(magic.valid(Slider::Bishop, sq as int));
        lemma_magic_lookup(magic, Slider::Bishop, sq as int, occupied.0);
    }
    let idx = magic.index(occupied);
    magic.attacks[idx]
}

/// The squares a rook on `sq` attacks on a board occupied by `occupied`, looked up in the
/// magic table.
pub fn rook_attacks(magics: &SliderMagics, sq: Square, occupied: Bitboard) -> (r: Bitboard)
    requires
        magics.wf(),
    ensures
        forall|t: int| #[trigger] r.has(t) == slider_reach(Slider::Rook, sq as int, occupied, t),
{
    let magic = &magics.rook[sq as usize];
    proof {
        assert(magic.valid(Slider::Rook, sq as int));
        lemma_magic_lookup(magic, Slider::Rook, sq as int, occupied.0);
    }
    let idx = magic.index(occupied);
    magic.attacks[idx]
}

/// The squares a queen on `sq` attacks: those of a bishop and those of a rook.
pub fn queen_attacks(magics: &SliderMagics, sq: Square, occupied: Bitboard) -> (r: Bitboard)
    requires
        magics.wf(),
    ensures
        forall|t: int| #[trigger] r.has(t) == (slider_reach(Slider::Bishop, sq as int, occupied, t)
            || slider_reach(Slider::Rook, sq as int, occupied, t)),
{
    let b = bishop_attacks(magics, sq, occupied);
    let r = rook_attacks(magics, sq, occupied);
    let q = Bitboard(b.0 | r.0);
    assert forall|t: int| #[trigger] q.has(t) == (slider_reach(Slider::Bishop, sq as int, occupied, t)
        || slider_reach(Slider::Rook, sq as int, occupied, t)) by {
        assert(b.has(t) == slider_reach(Slider::Bishop, sq as int, occupied, t));
        assert(r.has(t) == slider_reach(Slider::Rook, sq as int, occupied, t));
    }
    q
}

} // verus!
