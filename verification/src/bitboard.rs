//! Bitboards: sets of squares, one bit per square index.
use vstd::prelude::*;
use vstd::std_specs::ops::{BitAndSpecImpl, BitOrSpecImpl, NotSpecImpl, ShlSpecImpl, ShrSpecImpl, MulSpecImpl};
use core::ops::{BitAnd, BitOr, Mul, Not, Shl, Shr};

use crate::bits::{bit, bit_ext, bit_none_is_zero, group_bits, is_subset, lemma_next_subset, lemma_next_subset_bounds};
use vstd::arithmetic::power2::{lemma2_to64, lemma_pow2_unfold, pow2};
use vstd::relations::injective_on;
use vstd::set_lib::{lemma_map_size, lemma_set_disjoint_lens};
use crate::square::{Square, file_of};
use vstd::std_specs::bits::axiom_u64_trailing_zeros;

verus! {

broadcast use group_bits;

/// A set of squares, one bit per square: bit `i` stands for the square with index `i` (a1 is 0,
/// h1 is 7, a8 is 56).
#[derive(Debug, Clone, Copy, PartialEq, Eq, Structural)]
pub struct Bitboard(pub u64);

/// The squares of each rank and file, and of all files but the a-file and the h-file.
pub const RANK_1: u64 = 0x00000000000000ffu64;
pub const RANK_2: u64 = 0x000000000000ff00u64;
pub const RANK_3: u64 = 0x0000000000ff0000u64;
pub const RANK_4: u64 = 0x00000000ff000000u64;
pub const RANK_5: u64 = 0x000000ff00000000u64;
pub const RANK_6: u64 = 0x0000ff0000000000u64;
pub const RANK_7: u64 = 0x00ff000000000000u64;
pub const RANK_8: u64 = 0xff00000000000000u64;
pub const FILE_A: u64 = 0x0101010101010101u64;
pub const FILE_B: u64 = 0x0202020202020202u64;
pub const FILE_C: u64 = 0x0404040404040404u64;
pub const FILE_D: u64 = 0x0808080808080808u64;
pub const FILE_E: u64 = 0x1010101010101010u64;
pub const FILE_F: u64 = 0x2020202020202020u64;
pub const FILE_G: u64 = 0x4040404040404040u64;
pub const FILE_H: u64 = 0x8080808080808080u64;
pub const NOT_FILE_A: u64 = 0xfefefefefefefefeu64;
pub const NOT_FILE_H: u64 = 0x7f7f7f7f7f7f7f7fu64;

/// The number of set bits of `x` among bits `0..n`.
pub open spec fn pop_below(x: u64, n: int) -> nat
    decreases n,
{
    if n <= 0 {
        0
    } else {
        pop_below(x, n - 1) + if bit(x, n - 1) {
            1nat
        } else {
            0nat
        }
    }
}

/// At most `n` of the bits below `n` are set.
pub proof fn lemma_pop_below_bound(x: u64, n: int)
    requires
        0 <= n,
    ensures
        pop_below(x, n) <= n,
    decreases n,
{
    if n > 0 {
        lemma_pop_below_bound(x, n - 1);
    }
}

/// The sets within `m` that hold no square from `n` up.
pub open spec fn subsets_below(m: u64, n: int) -> Set<Bitboard> {
    Set::new(|b: Bitboard| forall|u: int| #[trigger] bit(b.0, u) ==> bit(m, u) && u < n)
}

/// There are `2^k` sets within `m` below `n`, where `k` is the number of bits of `m` below `n`:
/// each bit of `m` either is in a set or is not.
pub proof fn lemma_subsets_below_count(m: u64, n: int)
    requires
        0 <= n <= 64,
    ensures
        subsets_below(m, n).finite(),
        subsets_below(m, n).len() == pow2(pop_below(m, n)),
    decreases n,
{
    broadcast use group_bits;

    if n == 0 {
        assert(subsets_below(m, 0) =~= set![Bitboard(0)]) by {
            assert forall|b: Bitboard| subsets_below(m, 0).contains(b) implies b == Bitboard(0) by {
                assert forall|i: int| 0 <= i < 64 implies !bit(b.0, i) by {
                    if bit(b.0, i) {
                        assert(i < 0);
                    }
                }
                bit_none_is_zero(b.0);
            }
        }
        lemma2_to64();
    } else {
        let k = n - 1;
        lemma_subsets_below_count(m, k);
        let prev = subsets_below(m, k);
        let sb = 1u64 << (k as u64);
        if bit(m, k) {
            let f = |x: Bitboard| Bitboard(x.0 | sb);
            let up = prev.map(f);
            assert forall|x: Bitboard| #[trigger] up.contains(x) implies bit(x.0, k) && subsets_below(m, n).contains(x) by {
                let y = choose|y: Bitboard| prev.contains(y) && f(y) == x;
                assert(bit(x.0, k));
            }
            assert(subsets_below(m, n) =~= prev + up) by {
                assert forall|x: Bitboard| subsets_below(m, n).contains(x) implies #[trigger] (prev + up).contains(x) by {
                    if !bit(x.0, k) {
                        assert(prev.contains(x));
                    } else {
                        let y = Bitboard(x.0 & !sb);
                        assert(prev.contains(y));
                        assert forall|i: int| 0 <= i < 64 implies bit(y.0 | sb, i) == bit(x.0, i) by {}
                        bit_ext(y.0 | sb, x.0);
                        assert(f(y) == x);
                        assert(up.contains(x));
                    }
                }
            }
            assert(injective_on(f, prev)) by {
                assert forall|x1: Bitboard, x2: Bitboard| prev.contains(x1) && prev.contains(x2) && #[trigger] f(x1)
                    == #[trigger] f(x2) implies x1 == x2 by {
                    assert forall|i: int| 0 <= i < 64 implies bit(x1.0, i) == bit(x2.0, i) by {
                        assert(bit(f(x1).0, i) == bit(f(x2).0, i));
                    }
                    bit_ext(x1.0, x2.0);
                }
            }
            lemma_map_size(prev, up, f);
            assert(prev.disjoint(up));
            lemma_set_disjoint_lens(prev, up);
            lemma_pow2_unfold(pop_below(m, n));
        } else {
            assert(subsets_below(m, n) =~= prev);
        }
    }
}

/// The number of set bits of `x`.
pub open spec fn popcount(x: u64) -> nat {
    pop_below(x, 64)
}

/// The square with the smallest index in `b`.
pub open spec fn lowest_square(b: Bitboard) -> int {
    choose|s: int| b.has(s) && forall|t: int| 0 <= t < s ==> !b.has(t)
}

/// Some square from `i` on is in the set and none below `i`: there is a lowest square.
proof fn lemma_first_from(b: Bitboard, i: int)
    requires
        0 <= i <= 64,
        exists|j: int| i <= j < 64 && #[trigger] b.has(j),
        forall|t: int| 0 <= t < i ==> !#[trigger] b.has(t),
    ensures
        exists|s: int| b.has(s) && forall|t: int| 0 <= t < s ==> !#[trigger] b.has(t),
    decreases 64 - i,
{
    if b.has(i) {
        assert(b.has(i) && forall|t: int| 0 <= t < i ==> !#[trigger] b.has(t));
    } else {
        let j = choose|j: int| i <= j < 64 && #[trigger] b.has(j);
        assert(i + 1 <= j);
        lemma_first_from(b, i + 1);
    }
}

/// A nonempty set holds its lowest square, which is on the board and has no square of the
/// set below it.
pub proof fn lemma_lowest_square(b: Bitboard)
    requires
        b.0 != 0,
    ensures
        b.has(lowest_square(b)),
        0 <= lowest_square(b) < 64,
        forall|t: int| 0 <= t < lowest_square(b) ==> !#[trigger] b.has(t),
{
    lemma_nonzero_has(b);
    let i = choose|i: int| #[trigger] b.has(i);
    assert(0 <= i < 64);
    lemma_first_from(b, 0);
}

/// A word is nonzero exactly when some square is in the set.
pub proof fn lemma_nonzero_has(b: Bitboard)
    ensures
        (b.0 != 0) == exists|i: int| #[trigger] b.has(i),
{
    if b.0 != 0 {
        if forall|i: int| 0 <= i < 64 ==> !bit(b.0, i) {
            crate::bits::bit_none_is_zero(b.0);
        }
        let i = choose|i: int| 0 <= i < 64 && bit(b.0, i);
        assert(b.has(i));
    } else {
        assert forall|i: int| !#[trigger] b.has(i) by {}
    }
}

impl Bitboard {
    /// Square `t` (an index) is in the set.
    pub open spec fn has(self, t: int) -> bool {
        bit(self.0, t)
    }

    /// The empty set.
    pub fn empty() -> (r: Bitboard)
        ensures
            r.0 == 0,
            forall|t: int| !#[trigger] r.has(t),
    {
        Bitboard(0)
    }

    /// The set holding only square a1.
    pub fn one() -> (r: Bitboard)
        ensures
            r.0 == 1,
            forall|t: int| #[trigger] r.has(t) == (t == 0),
    {
        proof {
            assert(1u64 << 0u64 == 1u64) by (bit_vector);
        }
        Bitboard(1)
    }

    /// Every square moves one rank up; those on the eighth rank leave the board.
    pub fn north_one(self) -> (r: Bitboard)
        ensures
            forall|t: int| #[trigger] r.has(t) == (8 <= t < 64 && self.has(t - 8)),
    {
        Bitboard(self.0 << 8u64)
    }

    /// Every square moves one rank down; those on the first rank leave the board.
    pub fn south_one(self) -> (r: Bitboard)
        ensures
            forall|t: int| #[trigger] r.has(t) == (0 <= t && self.has(t + 8)),
    {
        Bitboard(self.0 >> 8u64)
    }

    /// Every square moves one file to the left; those on the a-file leave the board.
    pub fn west_one(self) -> (r: Bitboard)
        ensures
            forall|t: int| #[trigger] r.has(t) == (0 <= t && file_of(t) != 7 && self.has(t + 1)),
    {
        Bitboard((self.0 & NOT_FILE_A) >> 1u64)
    }

    /// Every square moves one file to the right; those on the h-file leave the board.
    pub fn east_one(self) -> (r: Bitboard)
        ensures
            forall|t: int| #[trigger] r.has(t) == (0 <= t < 64 && file_of(t) != 0 && self.has(t - 1)),
    {
        Bitboard((self.0 & NOT_FILE_H) << 1u64)
    }

    /// The set moved one square up and one to the left; squares leaving the board drop out.
    pub fn north_west_one(self) -> (r: Bitboard)
        ensures
            forall|t: int| #[trigger] r.has(t) == (0 <= t < 64 && file_of(t) != 7 && self.has(t - 7)),
    {
        let n = self.north_one();
        let r = n.west_one();
        assert forall|t: int| #[trigger] r.has(t) == (0 <= t < 64 && file_of(t) != 7 && self.has(t - 7)) by {
            assert(n.has(t + 1) == (8 <= t + 1 < 64 && self.has(t + 1 - 8)));
        }
        r
    }

    /// The set moved one square up and one to the right; squares leaving the board drop out.
    pub fn north_east_one(self) -> (r: Bitboard)
        ensures
            forall|t: int| #[trigger] r.has(t) == (0 <= t < 64 && file_of(t) != 0 && self.has(t - 9)),
    {
        let n = self.north_one();
        let r = n.east_one();
        assert forall|t: int| #[trigger] r.has(t) == (0 <= t < 64 && file_of(t) != 0 && self.has(t - 9)) by {
            assert(n.has(t - 1) == (8 <= t - 1 < 64 && self.has(t - 1 - 8)));
        }
        r
    }

    /// The set moved one square down and one to the left; squares leaving the board drop out.
    pub fn south_west_one(self) -> (r: Bitboard)
        ensures
            forall|t: int| #[trigger] r.has(t) == (0 <= t && file_of(t) != 7 && self.has(t + 9)),
    {
        let n = self.south_one();
        let r = n.west_one();
        assert forall|t: int| #[trigger] r.has(t) == (0 <= t && file_of(t) != 7 && self.has(t + 9)) by {
            assert(n.has(t + 1) == (0 <= t + 1 && self.has(t + 1 + 8)));
        }
        r
    }

    /// The set moved one square down and one to the right; squares leaving the board drop out.
    pub fn south_east_one(self) -> (r: Bitboard)
        ensures
            forall|t: int| #[trigger] r.has(t) == (0 <= t && file_of(t) != 0 && self.has(t + 7)),
    {
        let n = self.south_one();
        let r = n.east_one();
        assert forall|t: int| #[trigger] r.has(t) == (0 <= t && file_of(t) != 0 && self.has(t + 7)) by {
            assert(n.has(t - 1) == (0 <= t - 1 && self.has(t - 1 + 8)));
        }
        r
    }

    /// The set holding only `sq`.
    pub fn from_square(sq: Square) -> (r: Bitboard)
        ensures
            forall|t: int| #[trigger] r.has(t) == (t == sq as int),
            r.0 == 1u64 << (sq as u64),
    {
        Bitboard(1u64 << (sq as u64))
    }

    /// All subsets of the set, in increasing order of their words, starting with the empty set.
    pub fn subsets(self) -> (r: Vec<Bitboard>)
        ensures
            r.len() >= 1,
            r[0].0 == 0,
            forall|i: int| 0 <= i < r.len() ==> is_subset(#[trigger] r[i].0, self.0),
            forall|i: int, j: int| 0 <= i < j < r.len() ==> #[trigger] r[i].0 < #[trigger] r[j].0,
            forall|t: u64| is_subset(t, self.0) ==> #[trigger] r@.contains(Bitboard(t)),
            r.len() == pow2(popcount(self.0)),
    {
        let m = self.0;
        let mut v: Vec<Bitboard> = Vec::new();
        let mut current: u64 = 0;
        proof {
            lemma_next_subset_bounds(0, m);
        }
        loop
            invariant_except_break
                forall|i: int| 0 <= i < v.len() ==> #[trigger] v[i].0 < current,
            invariant
                is_subset(current, m),
                v.len() == 0 ==> current == 0,
                v.len() > 0 ==> v[0].0 == 0,
                forall|i: int| 0 <= i < v.len() ==> is_subset(#[trigger] v[i].0, m),
                forall|i: int, j: int| 0 <= i < j < v.len() ==> #[trigger] v[i].0 < #[trigger] v[j].0,
                forall|t: u64| is_subset(t, m) && t < current ==> #[trigger] v@.contains(Bitboard(t)),
            ensures
                v.len() >= 1,
                v[0].0 == 0,
                forall|i: int| 0 <= i < v.len() ==> is_subset(#[trigger] v[i].0, m),
                forall|i: int, j: int| 0 <= i < j < v.len() ==> #[trigger] v[i].0 < #[trigger] v[j].0,
                forall|t: u64| is_subset(t, m) ==> #[trigger] v@.contains(Bitboard(t)),
            decreases m - current,
        {
            let ghost old_v = v@;
            v.push(Bitboard(current));
            assert(v@[v.len() - 1] == Bitboard(current));
            assert forall|t: u64| is_subset(t, m) && t < current implies #[trigger] v@.contains(Bitboard(t)) by {
                assert(old_v.contains(Bitboard(t)));
                let k = choose|k: int| 0 <= k < old_v.len() && old_v[k] == Bitboard(t);
                assert(v@[k] == Bitboard(t));
            }
            let next = current.wrapping_sub(m) & m;
            proof {
                lemma_next_subset_bounds(current, m);
            }
            if next == 0 {
                proof {
                    if current != m {
                        assert(current < m);
                        lemma_next_subset(current, m, m);
                    }
                    assert forall|t: u64| is_subset(t, m) implies #[trigger] v@.contains(Bitboard(t)) by {
                        lemma_next_subset_bounds(t, m);
                        if t == current {
                        } else {
                            assert(t < current);
                        }
                    }
                }
                break;
            }
            proof {
                if current == m {
                    assert(false);
                }
                assert(current < m);
                lemma_next_subset(current, m, m);
                assert forall|t: u64| is_subset(t, m) && t < next implies #[trigger] v@.contains(Bitboard(t)) by {
                    if current < t {
                        lemma_next_subset(current, m, t);
                    }
                }
            }
            current = next;
        }
        proof {
            broadcast use group_bits;

            lemma_subsets_below_count(m, 64);
            assert(v@.no_duplicates()) by {
                assert forall|i: int, j: int| 0 <= i < v.len() && 0 <= j < v.len() && i != j implies v@[i] != v@[j] by {
                    if i < j {
                        assert(v[i].0 < v[j].0);
                    } else {
                        assert(v[j].0 < v[i].0);
                    }
                }
            }
            assert(v@.to_set() =~= subsets_below(m, 64)) by {
                assert forall|b: Bitboard| #[trigger] v@.to_set().contains(b) implies subsets_below(m, 64).contains(b) by {
                    let i = choose|i: int| 0 <= i < v.len() && v@[i] == b;
                    assert(is_subset(v[i].0, m));
                    assert forall|u: int| #[trigger] bit(b.0, u) implies bit(m, u) && u < 64 by {
                        assert(!bit(b.0 & !m, u));
                    }
                }
                assert forall|b: Bitboard| subsets_below(m, 64).contains(b) implies #[trigger] v@.to_set().contains(b) by {
                    assert forall|i: int| 0 <= i < 64 implies !bit(b.0 & !m, i) by {}
                    bit_none_is_zero(b.0 & !m);
                    assert(v@.contains(Bitboard(b.0)));
                }
            }
            v@.unique_seq_to_set();
        }
        v
    }

    /// The square with the smallest index in the set, if any.
    pub fn lsb_square(self) -> (r: Option<Square>)
        ensures
            r is None <==> self.0 == 0,
            r matches Some(sq) ==> self.has(sq as int) && (forall|t: int| 0 <= t < sq as int ==> !self.has(t))
                && sq as int == lowest_square(self),
    {
        broadcast use axiom_u64_trailing_zeros;

        if self.0 == 0 {
            None
        } else {
            let tz = self.0.trailing_zeros();
            proof {
                assert forall|t: int| 0 <= t < tz as int implies !self.has(t) by {
                    let j = t as u64;
                    assert((self.0 >> j) & 1u64 == 0u64);
                }
                assert(self.has(tz as int));
                let l = lowest_square(self);
                assert(self.has(l) && forall|t: int| 0 <= t < l ==> !self.has(t));
                if l < tz as int {
                    assert(!self.has(l));
                }
                if l > tz as int {
                    assert(!self.has(tz as int));
                }
            }
            Some(Square::new(tz as u8))
        }
    }

    /// Removes the square with the smallest index from the set and returns it.
    pub fn pop_lsb_square(&mut self) -> (r: Option<Square>)
        ensures
            r is None <==> old(self).0 == 0,
            r is None ==> final(self).0 == 0,
            r matches Some(sq) ==> old(self).has(sq as int)
                && (forall|t: int| 0 <= t < sq as int ==> !old(self).has(t))
                && sq as int == lowest_square(*old(self))
                && (forall|t: int| #[trigger] final(self).has(t) == (old(self).has(t) && t != sq as int)),
    {
        let r = self.lsb_square();
        match r {
            Some(sq) => {
                let b = Bitboard::from_square(sq);
                self.0 = self.0 & !b.0;
            },
            None => {},
        }
        r
    }

    /// The number of squares in the set.
    pub fn population_count(self) -> (r: u32)
        ensures
            r == popcount(self.0),
    {
        let x = self.0;
        let mut count: u32 = 0;
        let mut i: u64 = 0;
        while i < 64
            invariant
                i <= 64,
                count == pop_below(x, i as int),
            decreases 64 - i,
        {
            proof {
                lemma_pop_below_bound(x, i as int);
            }
            if (x >> i) & 1 == 1 {
                count = count + 1;
            }
            i = i + 1;
        }
        count
    }
}

impl BitAnd for Bitboard {
    type Output = Bitboard;

    fn bitand(self, rhs: Bitboard) -> (r: Bitboard) {
        Bitboard(self.0 & rhs.0)
    }
}

impl BitAndSpecImpl for Bitboard {
    open spec fn obeys_bitand_spec() -> bool {
        true
    }

    open spec fn bitand_req(self, rhs: Bitboard) -> bool {
        true
    }

    open spec fn bitand_spec(self, rhs: Bitboard) -> Bitboard {
        Bitboard(self.0 & rhs.0)
    }
}

impl BitOr for Bitboard {
    type Output = Bitboard;

    fn bitor(self, rhs: Bitboard) -> (r: Bitboard) {
        Bitboard(self.0 | rhs.0)
    }
}

impl BitOrSpecImpl for Bitboard {
    open spec fn obeys_bitor_spec() -> bool {
        true
    }

    open spec fn bitor_req(self, rhs: Bitboard) -> bool {
        true
    }

    open spec fn bitor_spec(self, rhs: Bitboard) -> Bitboard {
        Bitboard(self.0 | rhs.0)
    }
}

impl Not for Bitboard {
    type Output = Bitboard;

    fn not(self) -> (r: Bitboard) {
        Bitboard(!self.0)
    }
}

impl NotSpecImpl for Bitboard {
    open spec fn obeys_not_spec() -> bool {
        true
    }

    open spec fn not_req(self) -> bool {
        true
    }

    open spec fn not_spec(self) -> Bitboard {
        Bitboard(!self.0)
    }
}

impl Shl for Bitboard {
    type Output = Bitboard;

    fn shl(self, rhs: Bitboard) -> (r: Bitboard) {
        Bitboard(self.0 << rhs.0)
    }
}

impl ShlSpecImpl for Bitboard {
    open spec fn obeys_shl_spec() -> bool {
        true
    }

    open spec fn shl_req(self, rhs: Bitboard) -> bool {
        rhs.0 < 64
    }

    open spec fn shl_spec(self, rhs: Bitboard) -> Bitboard {
        Bitboard(self.0 << rhs.0)
    }
}

impl Shr for Bitboard {
    type Output = Bitboard;

    fn shr(self, rhs: Bitboard) -> (r: Bitboard) {
        Bitboard(self.0 >> rhs.0)
    }
}

impl ShrSpecImpl for Bitboard {
    open spec fn obeys_shr_spec() -> bool {
        true
    }

    open spec fn shr_req(self, rhs: Bitboard) -> bool {
        rhs.0 < 64
    }

    open spec fn shr_spec(self, rhs: Bitboard) -> Bitboard {
        Bitboard(self.0 >> rhs.0)
    }
}

impl Shl<u32> for Bitboard {
    type Output = Bitboard;

    fn shl(self, rhs: u32) -> (r: Bitboard) {
        Bitboard(self.0 << rhs)
    }
}

impl ShlSpecImpl<u32> for Bitboard {
    open spec fn obeys_shl_spec() -> bool {
        true
    }

    open spec fn shl_req(self, rhs: u32) -> bool {
        rhs < 64
    }

    open spec fn shl_spec(self, rhs: u32) -> Bitboard {
        Bitboard(self.0 << rhs)
    }
}

impl Shr<u32> for Bitboard {
    type Output = Bitboard;

    fn shr(self, rhs: u32) -> (r: Bitboard) {
        Bitboard(self.0 >> rhs)
    }
}

impl ShrSpecImpl<u32> for Bitboard {
    open spec fn obeys_shr_spec() -> bool {
        true
    }

    open spec fn shr_req(self, rhs: u32) -> bool {
        rhs < 64
    }

    open spec fn shr_spec(self, rhs: u32) -> Bitboard {
        Bitboard(self.0 >> rhs)
    }
}

impl Mul for Bitboard {
    type Output = Bitboard;

    fn mul(self, rhs: Bitboard) -> (r: Bitboard) {
        Bitboard(self.0.wrapping_mul(rhs.0))
    }
}

impl MulSpecImpl for Bitboard {
    open spec fn obeys_mul_spec() -> bool {
        true
    }

    open spec fn mul_req(self, rhs: Bitboard) -> bool {
        true
    }

    open spec fn mul_spec(self, rhs: Bitboard) -> Bitboard {
        Bitboard(self.0.wrapping_mul(rhs.0))
    }
}

} // verus!
