//! Bit-level facts about `u64` words, used to reason about bitboards square by square.
use vstd::prelude::*;

verus! {

/// Whether bit `i` (counted from the least significant bit) of `x` is set.
pub open spec fn bit(x: u64, i: int) -> bool {
    0 <= i < 64 && (x >> (i as u64)) & 1u64 == 1u64
}

/// `s` holds no bit outside `m`.
pub open spec fn is_subset(s: u64, m: u64) -> bool {
    s & !m == 0u64
}

proof fn bv_logic(a: u64, b: u64, t: u64)
    by (bit_vector)
    requires
        t < 64,
    ensures
        ((a & b) >> t) & 1u64 == 1u64 <==> ((a >> t) & 1u64 == 1u64 && (b >> t) & 1u64 == 1u64),
        ((a | b) >> t) & 1u64 == 1u64 <==> ((a >> t) & 1u64 == 1u64 || (b >> t) & 1u64 == 1u64),
        ((!a) >> t) & 1u64 == 1u64 <==> !((a >> t) & 1u64 == 1u64),
        (0u64 >> t) & 1u64 != 1u64,
{
}

proof fn bv_single(s: u64, t: u64)
    by (bit_vector)
    requires
        s < 64,
        t < 64,
    ensures
        ((1u64 << s) >> t) & 1u64 == 1u64 <==> s == t,
{
}

proof fn bv_shifts(b: u64, t: u64)
    by (bit_vector)
    requires
        t < 64,
    ensures
        ((b << 8u64) >> t) & 1u64 == 1u64 <==> (t >= 8 && (b >> ((t - 8u64) as u64)) & 1u64 == 1u64),
        ((b >> 8u64) >> t) & 1u64 == 1u64 <==> (t < 56 && (b >> ((t + 8u64) as u64)) & 1u64 == 1u64),
        (((b & 0xfefefefefefefefeu64) >> 1u64) >> t) & 1u64 == 1u64 <==> (t % 8 != 7 && (b >> ((t + 1u64) as u64)) & 1u64 == 1u64),
        (((b & 0x7f7f7f7f7f7f7f7fu64) << 1u64) >> t) & 1u64 == 1u64 <==> (t % 8 != 0 && (b >> ((t - 1u64) as u64)) & 1u64 == 1u64),
        ((b << 16u64) >> t) & 1u64 == 1u64 <==> (t >= 16 && (b >> ((t - 16u64) as u64)) & 1u64 == 1u64),
        ((b >> 16u64) >> t) & 1u64 == 1u64 <==> (t < 48 && (b >> ((t + 16u64) as u64)) & 1u64 == 1u64),
{
}

proof fn bv_ext(a: u64, b: u64)
    by (bit_vector)
    requires
        ((a >> 0u64) & 1u64 == 1u64) == ((b >> 0u64) & 1u64 == 1u64),
        ((a >> 1u64) & 1u64 == 1u64) == ((b >> 1u64) & 1u64 == 1u64),
        ((a >> 2u64) & 1u64 == 1u64) == ((b >> 2u64) & 1u64 == 1u64),
        ((a >> 3u64) & 1u64 == 1u64) == ((b >> 3u64) & 1u64 == 1u64),
        ((a >> 4u64) & 1u64 == 1u64) == ((b >> 4u64) & 1u64 == 1u64),
        ((a >> 5u64) & 1u64 == 1u64) == ((b >> 5u64) & 1u64 == 1u64),
        ((a >> 6u64) & 1u64 == 1u64) == ((b >> 6u64) & 1u64 == 1u64),
        ((a >> 7u64) & 1u64 == 1u64) == ((b >> 7u64) & 1u64 == 1u64),
        ((a >> 8u64) & 1u64 == 1u64) == ((b >> 8u64) & 1u64 == 1u64),
        ((a >> 9u64) & 1u64 == 1u64) == ((b >> 9u64) & 1u64 == 1u64),
        ((a >> 10u64) & 1u64 == 1u64) == ((b >> 10u64) & 1u64 == 1u64),
        ((a >> 11u64) & 1u64 == 1u64) == ((b >> 11u64) & 1u64 == 1u64),
        ((a >> 12u64) & 1u64 == 1u64) == ((b >> 12u64) & 1u64 == 1u64),
        ((a >> 13u64) & 1u64 == 1u64) == ((b >> 13u64) & 1u64 == 1u64),
        ((a >> 14u64) & 1u64 == 1u64) == ((b >> 14u64) & 1u64 == 1u64),
        ((a >> 15u64) & 1u64 == 1u64) == ((b >> 15u64) & 1u64 == 1u64),
        ((a >> 16u64) & 1u64 == 1u64) == ((b >> 16u64) & 1u64 == 1u64),
        ((a >> 17u64) & 1u64 == 1u64) == ((b >> 17u64) & 1u64 == 1u64),
        ((a >> 18u64) & 1u64 == 1u64) == ((b >> 18u64) & 1u64 == 1u64),
        ((a >> 19u64) & 1u64 == 1u64) == ((b >> 19u64) & 1u64 == 1u64),
        ((a >> 20u64) & 1u64 == 1u64) == ((b >> 20u64) & 1u64 == 1u64),
        ((a >> 21u64) & 1u64 == 1u64) == ((b >> 21u64) & 1u64 == 1u64),
        ((a >> 22u64) & 1u64 == 1u64) == ((b >> 22u64) & 1u64 == 1u64),
        ((a >> 23u64) & 1u64 == 1u64) == ((b >> 23u64) & 1u64 == 1u64),
        ((a >> 24u64) & 1u64 == 1u64) == ((b >> 24u64) & 1u64 == 1u64),
        ((a >> 25u64) & 1u64 == 1u64) == ((b >> 25u64) & 1u64 == 1u64),
        ((a >> 26u64) & 1u64 == 1u64) == ((b >> 26u64) & 1u64 == 1u64),
        ((a >> 27u64) & 1u64 == 1u64) == ((b >> 27u64) & 1u64 == 1u64),
        ((a >> 28u64) & 1u64 == 1u64) == ((b >> 28u64) & 1u64 == 1u64),
        ((a >> 29u64) & 1u64 == 1u64) == ((b >> 29u64) & 1u64 == 1u64),
        ((a >> 30u64) & 1u64 == 1u64) == ((b >> 30u64) & 1u64 == 1u64),
        ((a >> 31u64) & 1u64 == 1u64) == ((b >> 31u64) & 1u64 == 1u64),
        ((a >> 32u64) & 1u64 == 1u64) == ((b >> 32u64) & 1u64 == 1u64),
        ((a >> 33u64) & 1u64 == 1u64) == ((b >> 33u64) & 1u64 == 1u64),
        ((a >> 34u64) & 1u64 == 1u64) == ((b >> 34u64) & 1u64 == 1u64),
        ((a >> 35u64) & 1u64 == 1u64) == ((b >> 35u64) & 1u64 == 1u64),
        ((a >> 36u64) & 1u64 == 1u64) == ((b >> 36u64) & 1u64 == 1u64),
        ((a >> 37u64) & 1u64 == 1u64) == ((b >> 37u64) & 1u64 == 1u64),
        ((a >> 38u64) & 1u64 == 1u64) == ((b >> 38u64) & 1u64 == 1u64),
        ((a >> 39u64) & 1u64 == 1u64) == ((b >> 39u64) & 1u64 == 1u64),
        ((a >> 40u64) & 1u64 == 1u64) == ((b >> 40u64) & 1u64 == 1u64),
        ((a >> 41u64) & 1u64 == 1u64) == ((b >> 41u64) & 1u64 == 1u64),
        ((a >> 42u64) & 1u64 == 1u64) == ((b >> 42u64) & 1u64 == 1u64),
        ((a >> 43u64) & 1u64 == 1u64) == ((b >> 43u64) & 1u64 == 1u64),
        ((a >> 44u64) & 1u64 == 1u64) == ((b >> 44u64) & 1u64 == 1u64),
        ((a >> 45u64) & 1u64 == 1u64) == ((b >> 45u64) & 1u64 == 1u64),
        ((a >> 46u64) & 1u64 == 1u64) == ((b >> 46u64) & 1u64 == 1u64),
        ((a >> 47u64) & 1u64 == 1u64) == ((b >> 47u64) & 1u64 == 1u64),
        ((a >> 48u64) & 1u64 == 1u64) == ((b >> 48u64) & 1u64 == 1u64),
        ((a >> 49u64) & 1u64 == 1u64) == ((b >> 49u64) & 1u64 == 1u64),
        ((a >> 50u64) & 1u64 == 1u64) == ((b >> 50u64) & 1u64 == 1u64),
        ((a >> 51u64) & 1u64 == 1u64) == ((b >> 51u64) & 1u64 == 1u64),
        ((a >> 52u64) & 1u64 == 1u64) == ((b >> 52u64) & 1u64 == 1u64),
        ((a >> 53u64) & 1u64 == 1u64) == ((b >> 53u64) & 1u64 == 1u64),
        ((a >> 54u64) & 1u64 == 1u64) == ((b >> 54u64) & 1u64 == 1u64),
        ((a >> 55u64) & 1u64 == 1u64) == ((b >> 55u64) & 1u64 == 1u64),
        ((a >> 56u64) & 1u64 == 1u64) == ((b >> 56u64) & 1u64 == 1u64),
        ((a >> 57u64) & 1u64 == 1u64) == ((b >> 57u64) & 1u64 == 1u64),
        ((a >> 58u64) & 1u64 == 1u64) == ((b >> 58u64) & 1u64 == 1u64),
        ((a >> 59u64) & 1u64 == 1u64) == ((b >> 59u64) & 1u64 == 1u64),
        ((a >> 60u64) & 1u64 == 1u64) == ((b >> 60u64) & 1u64 == 1u64),
        ((a >> 61u64) & 1u64 == 1u64) == ((b >> 61u64) & 1u64 == 1u64),
        ((a >> 62u64) & 1u64 == 1u64) == ((b >> 62u64) & 1u64 == 1u64),
        ((a >> 63u64) & 1u64 == 1u64) == ((b >> 63u64) & 1u64 == 1u64),
    ensures
        a == b,
{
}

pub broadcast proof fn bit_and(a: u64, b: u64, i: int)
    ensures
        #[trigger] bit(a & b, i) == (bit(a, i) && bit(b, i)),
{
    if 0 <= i < 64 {
        bv_logic(a, b, i as u64);
    }
}

pub broadcast proof fn bit_or(a: u64, b: u64, i: int)
    ensures
        #[trigger] bit(a | b, i) == (bit(a, i) || bit(b, i)),
{
    if 0 <= i < 64 {
        bv_logic(a, b, i as u64);
    }
}

pub broadcast proof fn bit_not(a: u64, i: int)
    ensures
        #[trigger] bit(!a, i) == (0 <= i < 64 && !bit(a, i)),
{
    if 0 <= i < 64 {
        bv_logic(a, a, i as u64);
    }
}

pub broadcast proof fn bit_zero(i: int)
    ensures
        !#[trigger] bit(0u64, i),
{
    if 0 <= i < 64 {
        bv_logic(0, 0, i as u64);
    }
}

pub broadcast proof fn bit_single(s: u64, i: int)
    requires
        s < 64,
    ensures
        #[trigger] bit(1u64 << s, i) == (i == s),
{
    if 0 <= i < 64 {
        bv_single(s, i as u64);
    }
}

pub broadcast proof fn bit_shl8(b: u64, i: int)
    ensures
        #[trigger] bit(b << 8u64, i) == (8 <= i < 64 && bit(b, i - 8)),
{
    if 0 <= i < 64 {
        bv_shifts(b, i as u64);
    }
}

pub broadcast proof fn bit_shr8(b: u64, i: int)
    ensures
        #[trigger] bit(b >> 8u64, i) == (0 <= i < 56 && bit(b, i + 8)),
{
    if 0 <= i < 64 {
        bv_shifts(b, i as u64);
    }
}

pub broadcast proof fn bit_shl16(b: u64, i: int)
    ensures
        #[trigger] bit(b << 16u64, i) == (16 <= i < 64 && bit(b, i - 16)),
{
    if 0 <= i < 64 {
        bv_shifts(b, i as u64);
    }
}

pub broadcast proof fn bit_shr16(b: u64, i: int)
    ensures
        #[trigger] bit(b >> 16u64, i) == (0 <= i < 48 && bit(b, i + 16)),
{
    if 0 <= i < 64 {
        bv_shifts(b, i as u64);
    }
}

pub broadcast proof fn bit_west(b: u64, i: int)
    ensures
        #[trigger] bit((b & 0xfefefefefefefefeu64) >> 1u64, i) == (0 <= i < 64 && i % 8 != 7 && bit(b, i + 1)),
{
    if 0 <= i < 64 {
        bv_shifts(b, i as u64);
    }
}

pub broadcast proof fn bit_east(b: u64, i: int)
    ensures
        #[trigger] bit((b & 0x7f7f7f7f7f7f7f7fu64) << 1u64, i) == (0 <= i < 64 && i % 8 != 0 && bit(b, i - 1)),
{
    if 0 <= i < 64 {
        bv_shifts(b, i as u64);
    }
}

/// Two words with the same bits are equal.
pub proof fn bit_ext(a: u64, b: u64)
    requires
        forall|i: int| 0 <= i < 64 ==> bit(a, i) == bit(b, i),
    ensures
        a == b,
{
    assert(bit(a, 0) == bit(b, 0));
    assert(bit(a, 1) == bit(b, 1));
    assert(bit(a, 2) == bit(b, 2));
    assert(bit(a, 3) == bit(b, 3));
    assert(bit(a, 4) == bit(b, 4));
    assert(bit(a, 5) == bit(b, 5));
    assert(bit(a, 6) == bit(b, 6));
    assert(bit(a, 7) == bit(b, 7));
    assert(bit(a, 8) == bit(b, 8));
    assert(bit(a, 9) == bit(b, 9));
    assert(bit(a, 10) == bit(b, 10));
    assert(bit(a, 11) == bit(b, 11));
    assert(bit(a, 12) == bit(b, 12));
    assert(bit(a, 13) == bit(b, 13));
    assert(bit(a, 14) == bit(b, 14));
    assert(bit(a, 15) == bit(b, 15));
    assert(bit(a, 16) == bit(b, 16));
    assert(bit(a, 17) == bit(b, 17));
    assert(bit(a, 18) == bit(b, 18));
    assert(bit(a, 19) == bit(b, 19));
    assert(bit(a, 20) == bit(b, 20));
    assert(bit(a, 21) == bit(b, 21));
    assert(bit(a, 22) == bit(b, 22));
    assert(bit(a, 23) == bit(b, 23));
    assert(bit(a, 24) == bit(b, 24));
    assert(bit(a, 25) == bit(b, 25));
    assert(bit(a, 26) == bit(b, 26));
    assert(bit(a, 27) == bit(b, 27));
    assert(bit(a, 28) == bit(b, 28));
    assert(bit(a, 29) == bit(b, 29));
    assert(bit(a, 30) == bit(b, 30));
    assert(bit(a, 31) == bit(b, 31));
    assert(bit(a, 32) == bit(b, 32));
    assert(bit(a, 33) == bit(b, 33));
    assert(bit(a, 34) == bit(b, 34));
    assert(bit(a, 35) == bit(b, 35));
    assert(bit(a, 36) == bit(b, 36));
    assert(bit(a, 37) == bit(b, 37));
    assert(bit(a, 38) == bit(b, 38));
    assert(bit(a, 39) == bit(b, 39));
    assert(bit(a, 40) == bit(b, 40));
    assert(bit(a, 41) == bit(b, 41));
    assert(bit(a, 42) == bit(b, 42));
    assert(bit(a, 43) == bit(b, 43));
    assert(bit(a, 44) == bit(b, 44));
    assert(bit(a, 45) == bit(b, 45));
    assert(bit(a, 46) == bit(b, 46));
    assert(bit(a, 47) == bit(b, 47));
    assert(bit(a, 48) == bit(b, 48));
    assert(bit(a, 49) == bit(b, 49));
    assert(bit(a, 50) == bit(b, 50));
    assert(bit(a, 51) == bit(b, 51));
    assert(bit(a, 52) == bit(b, 52));
    assert(bit(a, 53) == bit(b, 53));
    assert(bit(a, 54) == bit(b, 54));
    assert(bit(a, 55) == bit(b, 55));
    assert(bit(a, 56) == bit(b, 56));
    assert(bit(a, 57) == bit(b, 57));
    assert(bit(a, 58) == bit(b, 58));
    assert(bit(a, 59) == bit(b, 59));
    assert(bit(a, 60) == bit(b, 60));
    assert(bit(a, 61) == bit(b, 61));
    assert(bit(a, 62) == bit(b, 62));
    assert(bit(a, 63) == bit(b, 63));
    bv_ext(a, b);
}

/// A word with no bit set is zero.
pub proof fn bit_none_is_zero(a: u64)
    requires
        forall|i: int| 0 <= i < 64 ==> !bit(a, i),
    ensures
        a == 0,
{
    broadcast use bit_zero;
    bit_ext(a, 0);
}

pub broadcast group group_bits {
    bit_and,
    bit_or,
    bit_not,
    bit_zero,
    bit_single,
    bit_shl8,
    bit_shr8,
    bit_shl16,
    bit_shr16,
    bit_west,
    bit_east,
}

/// Stepping from a subset `s` of `m` with `(s - m) & m` (two's complement) gives the next
/// larger subset of `m`: nothing lies strictly in between.
pub proof fn lemma_next_subset(s: u64, m: u64, t: u64)
    by (bit_vector)
    requires
        s & !m == 0u64,
        t & !m == 0u64,
        s < t,
    ensures
        (s.wrapping_sub(m) & m) <= t,
        (s.wrapping_sub(m) & m) > s,
{
}

/// The step from a subset stays inside `m`, and the step from `m` itself wraps to zero.
pub proof fn lemma_next_subset_bounds(s: u64, m: u64)
    by (bit_vector)
    ensures
        (s.wrapping_sub(m) & m) & !m == 0u64,
        (m.wrapping_sub(m) & m) == 0u64,
        s & !m == 0u64 ==> s <= m,
        (s & m) & !m == 0u64,
        0u64 & !m == 0u64,
        m & !m == 0u64,
        (s & m) & m == s & m,
{
}


proof fn bv_lines(r: u64, t: u64)
    by (bit_vector)
    requires
        r < 8,
        t < 64,
    ensures
        ((0xffu64 << ((8 * r) as u64)) >> t) & 1u64 == 1u64 <==> t / 8 == r,
        ((0x0101010101010101u64 << r) >> t) & 1u64 == 1u64 <==> t % 8 == r,
{
}

/// Rank `r` as a word: the bits of the eight squares with index `8 * r` to `8 * r + 7`.
pub broadcast proof fn bit_rank_line(r: u64, i: int)
    requires
        r < 8,
    ensures
        #[trigger] bit(0xffu64 << ((8 * r) as u64), i) == (0 <= i < 64 && i / 8 == r),
{
    if 0 <= i < 64 {
        bv_lines(r, i as u64);
    }
}

/// File `f` as a word: the bits of the squares whose index is `f` modulo 8.
pub broadcast proof fn bit_file_line(f: u64, i: int)
    requires
        f < 8,
    ensures
        #[trigger] bit(0x0101010101010101u64 << f, i) == (0 <= i < 64 && i % 8 == f),
{
    if 0 <= i < 64 {
        bv_lines(f, i as u64);
    }
}

/// The rank and file constants are the first rank and the a-file shifted into place.
pub proof fn lemma_line_constants()
    by (bit_vector)
    ensures
        0xffu64 << 0u64 == 0x00000000000000ffu64,
        0xffu64 << 24u64 == 0x00000000ff000000u64,
        0xffu64 << 32u64 == 0x000000ff00000000u64,
        0xffu64 << 56u64 == 0xff00000000000000u64,
        0x0101010101010101u64 << 0u64 == 0x0101010101010101u64,
        0x0101010101010101u64 << 7u64 == 0x8080808080808080u64,
{
}

} // verus!
