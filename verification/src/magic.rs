//! Magic bitboards: attack sets of sliders looked up by a hash of the relevant occupancy.
//!
//! For each square the relevant squares (those that can block the slider) form a mask. The
//! occupancy within the mask, multiplied by a magic number and shifted, indexes a table of
//! attack sets. Magic numbers are found by trying random candidates until one maps every
//! occupancy of the mask to its own slot.
use vstd::prelude::*;
use rand::rngs::SmallRng;
use rand::{Rng, SeedableRng};

use crate::attacks::{lemma_relevant_occupancy, lemma_slider_neighbor, relevant, slider_reach, Slider};
use crate::bitboard::{Bitboard, lemma_pop_below_bound, pop_below, popcount, FILE_A, FILE_H, RANK_1, RANK_8};
use vstd::arithmetic::power2::pow2;
use crate::bits::{bit, bit_file_line, bit_rank_line, group_bits, is_subset, lemma_line_constants, lemma_next_subset_bounds};
use crate::square::Square;

verus! {

broadcast use group_bits;

#[verifier::external_type_specification]
#[verifier::external_body]
pub struct ExSmallRng(SmallRng);

/// `SeedableRng::seed_from_u64` of rand: a small, fast generator whose state is derived from
/// `seed`. Trusted; nothing is stated of the generator.
#[verifier::external_body]
fn seeded_rng(seed: u64) -> SmallRng {
    SmallRng::seed_from_u64(seed)
}

/// `Rng::random::<u64>` of rand: the next 64 random bits of the generator. Trusted; any value
/// may come back.
#[verifier::external_body]
fn random_u64(rng: &mut SmallRng) -> u64 {
    rng.random::<u64>()
}

/// The magic of a slider on one square: the relevant squares, the multiplier, the table of
/// attack sets and the shift that turns a product into a slot of the table.
pub struct Magic {
    pub mask: Bitboard,
    pub magic: Bitboard,
    pub attacks: Vec<Bitboard>,
    pub shift: u32,
}

/// A bit set below `n` is counted among the bits below `n`.
proof fn lemma_pop_below_positive(x: u64, n: int, u: int)
    requires
        0 <= u < n,
        bit(x, u),
    ensures
        pop_below(x, n) >= 1,
    decreases n,
{
    if n - 1 > u {
        lemma_pop_below_positive(x, n - 1, u);
    }
}

/// The slot that `occupied` maps to under `mask`, `magic` and `shift`.
pub open spec fn magic_index(mask: u64, magic: u64, shift: u32, occupied: u64) -> int {
    ((((occupied & mask).wrapping_mul(magic)) >> shift) as usize) as int
}

/// `magic` gives each of the first `n` occupancies of `occs` its own slot within a table of
/// `occs.len()` slots.
pub open spec fn fits_slots(mask: u64, magic: u64, shift: u32, occs: Seq<Bitboard>, n: int) -> bool {
    forall|j: int| 0 <= j < n ==> {
        &&& #[trigger] magic_index(mask, magic, shift, occs[j].0) < occs.len()
        &&& forall|i: int| 0 <= i < j ==> #[trigger] magic_index(mask, magic, shift, occs[i].0) != magic_index(
            mask, magic, shift, occs[j].0)
    }
}

/// `t` is the table for the occupancies `occs` with the attack sets `attacks`: as long as the
/// list, each occupancy's slot holding its attack set, every other slot empty.
pub open spec fn built_table(mask: u64, magic: u64, shift: u32, occs: Seq<Bitboard>, attacks: Seq<Bitboard>, t: Seq<Bitboard>) -> bool {
    &&& t.len() == occs.len()
    &&& forall|j: int| 0 <= j < occs.len() ==> t[#[trigger] magic_index(mask, magic, shift, occs[j].0)] == attacks[j]
    &&& forall|k: int| 0 <= k < t.len() && !(exists|j: int| 0 <= j < occs.len() && #[trigger] magic_index(
        mask, magic, shift, occs[j].0) == k) ==> (#[trigger] t[k]).0 == 0
}

/// Where the first `n` occupancies collide, so do the first `m >= n`.
proof fn lemma_fits_prefix(mask: u64, magic: u64, shift: u32, occs: Seq<Bitboard>, n: int, m: int)
    requires
        0 <= n < m,
        !fits_slots(mask, magic, shift, occs, n + 1),
    ensures
        !fits_slots(mask, magic, shift, occs, m),
{
    let j = choose|j: int| 0 <= j < n + 1 && !({
        &&& #[trigger] magic_index(mask, magic, shift, occs[j].0) < occs.len()
        &&& forall|i: int| 0 <= i < j ==> #[trigger] magic_index(mask, magic, shift, occs[i].0) != magic_index(
            mask, magic, shift, occs[j].0)
    });
    assert(0 <= j < m);
}

impl Magic {
    /// The slot of the table that the occupancy `occupied` maps to.
    pub open spec fn spec_index(&self, occupied: u64) -> int {
        magic_index(self.mask.0, self.magic.0, self.shift, occupied)
    }

    /// The magic serves `slider` on square `s`: the mask holds exactly the relevant squares,
    /// the table has one slot per occupancy within the mask (`2^k` for `k` relevant squares),
    /// the shift keeps the top `k` bits of a product, and every occupancy within the mask maps
    /// to a slot that holds its attack set.
    pub open spec fn valid(&self, slider: Slider, s: int) -> bool {
        &&& self.shift < 64
        &&& self.shift == 64 - popcount(self.mask.0)
        &&& self.attacks.len() == pow2(popcount(self.mask.0))
        &&& forall|u: int| #[trigger] self.mask.has(u) == relevant(slider, s, u)
        &&& forall|occ: u64| is_subset(occ, self.mask.0) ==> #[trigger] self.spec_index(occ) < self.attacks.len()
        &&& forall|occ: u64, t: int| is_subset(occ, self.mask.0) ==> (#[trigger] self.attacks@[self.spec_index(occ)].has(t)
            == slider_reach(slider, s, Bitboard(occ), t))
    }

    /// The slot of the table for the occupancy `occupied`: the relevant occupied squares,
    /// multiplied by the magic and shifted.
    pub fn index(&self, occupied: Bitboard) -> (r: usize)
        requires
            self.shift < 64,
        ensures
            r as int == self.spec_index(occupied.0),
    {
        (((occupied.0 & self.mask.0).wrapping_mul(self.magic.0)) >> self.shift) as usize
    }

    /// Finds a magic for `slider` on `square`, drawing candidates from `rng`. Gives up with
    /// `None` once `u64::MAX` candidates were drawn.
    fn find(slider: Slider, square: Square, rng: &mut SmallRng) -> (r: Option<Magic>)
        ensures
            r matches Some(m) ==> m.valid(slider, square as int),
    {
        let ghost s = square as int;
        // First we calculate the mask and shift.
        // The edges are not relevant for the occupancy, because the squares can be accessed
        // independent from the occupancy.
        let rank = square.rank() as u64;
        let file = square.file() as u64;
        let square_rank_mask = RANK_1 << (8 * rank);
        let rank_edges = (RANK_1 | RANK_8) & !square_rank_mask;
        let square_file_mask = FILE_A << file;
        let file_edges = (FILE_A | FILE_H) & !square_file_mask;
        let edges = Bitboard(rank_edges | file_edges);
        let empty_attacks = slider.attacks_slow(square, Bitboard::empty());
        let mask = Bitboard(empty_attacks.0 & !edges.0);
        proof {
            lemma_line_constants();
            assert forall|u: int| #[trigger] mask.has(u) == relevant(slider, s, u) by {
                bit_rank_line(rank, u);
                bit_rank_line(0, u);
                bit_rank_line(7, u);
                bit_file_line(file, u);
                bit_file_line(0, u);
                bit_file_line(7, u);
                assert(empty_attacks.has(u) == slider_reach(slider, s, Bitboard(0), u));
            }
        }
        let mask_population_count = mask.population_count();
        proof {
            let t = lemma_slider_neighbor(slider, s, Bitboard(0));
            assert(mask.has(t));
            lemma_pop_below_bound(mask.0, 64);
            lemma_pop_below_positive(mask.0, 64, t);
        }
        let shift = 64 - mask_population_count;

        // Calculate attacks
        let occupancies = mask.subsets();
        let mut all_attacks: Vec<Bitboard> = Vec::new();
        let mut k: usize = 0;
        while k < occupancies.len()
            invariant
                s == square as int,
                k <= occupancies.len(),
                all_attacks.len() == k,
                forall|j: int, t: int| 0 <= j < k ==> (#[trigger] all_attacks@[j].has(t)
                    == slider_reach(slider, s, occupancies@[j], t)),
                forall|j: int| 0 <= j < k ==> #[trigger] all_attacks@[j].0 != 0,
            decreases occupancies.len() - k,
        {
            let a = slider.attacks_slow(square, occupancies[k]);
            proof {
                let t = lemma_slider_neighbor(slider, s, occupancies@[k as int]);
                assert(a.has(t));
            }
            all_attacks.push(a);
            k = k + 1;
        }

        // Find attacks and magic
        let mut budget: u64 = u64::MAX;
        loop
            invariant
                s == square as int,
                shift < 64,
                shift == 64 - popcount(mask.0),
                occupancies.len() == pow2(popcount(mask.0)),
                all_attacks.len() == occupancies.len(),
                forall|u: int| #[trigger] mask.has(u) == relevant(slider, s, u),
                forall|j: int, t: int| 0 <= j < all_attacks.len() ==> (#[trigger] all_attacks@[j].has(t)
                    == slider_reach(slider, s, occupancies@[j], t)),
                forall|j: int| 0 <= j < all_attacks.len() ==> #[trigger] all_attacks@[j].0 != 0,
                forall|j: int| 0 <= j < occupancies.len() ==> is_subset(#[trigger] occupancies@[j].0, mask.0),
                forall|t: u64| is_subset(t, mask.0) ==> #[trigger] occupancies@.contains(Bitboard(t)),
            decreases budget,
        {
            // Find small magic
            let ghost old_budget = budget;
            let mut magic = Bitboard::empty();
            loop
                invariant_except_break
                    budget <= old_budget,
                ensures
                    budget < old_budget,
                decreases budget,
            {
                if budget == 0 {
                    return None;
                }
                budget = budget - 1;
                let r1 = random_u64(rng);
                let r2 = random_u64(rng);
                let r3 = random_u64(rng);
                magic = Bitboard(r1 & r2 & r3);
                if Bitboard(magic.0.wrapping_mul(mask.0) >> 56u32).population_count() < 6 {
                    break;
                }
            }
            match Self::fill_table(mask, magic, shift, &occupancies, &all_attacks) {
                None => {},
                Some(table) => {
                    let m = Magic { mask, magic, attacks: table, shift };
                    proof {
                        assert forall|occ: u64| is_subset(occ, m.mask.0) implies #[trigger] m.spec_index(occ) < m.attacks.len() by {
                            assert(occupancies@.contains(Bitboard(occ)));
                            let j = choose|j: int| 0 <= j < occupancies@.len() && occupancies@[j] == Bitboard(occ);
                            assert(magic_index(mask.0, magic.0, shift, occupancies@[j].0) < m.attacks.len());
                        }
                        assert forall|occ: u64, t: int| is_subset(occ, m.mask.0) implies (#[trigger] m.attacks@[m.spec_index(occ)].has(t)
                            == slider_reach(slider, s, Bitboard(occ), t)) by {
                            assert(occupancies@.contains(Bitboard(occ)));
                            let j = choose|j: int| 0 <= j < occupancies@.len() && occupancies@[j] == Bitboard(occ);
                            assert(m.attacks@[magic_index(mask.0, magic.0, shift, occupancies@[j].0)] == all_attacks@[j]);
                            assert(all_attacks@[j].has(t) == slider_reach(slider, s, occupancies@[j], t));
                        }
                    }
                    return Some(m);
                },
            }
        }
    }

    /// The table a candidate `magic` builds for the occupancies `occupancies` with the attack
    /// sets `all_attacks`: one slot per occupancy, in a table as long as the list. Each
    /// occupancy in turn puts its attack set into its slot; the candidate fails (`None`) at the
    /// first occupancy whose slot is outside the table or taken by an earlier one. On success
    /// every slot of an occupancy holds its attack set and every other slot is empty.
    pub fn fill_table(
        mask: Bitboard,
        magic: Bitboard,
        shift: u32,
        occupancies: &Vec<Bitboard>,
        all_attacks: &Vec<Bitboard>,
    ) -> (r: Option<Vec<Bitboard>>)
        requires
            shift < 64,
            occupancies.len() == all_attacks.len(),
            forall|j: int| 0 <= j < all_attacks.len() ==> #[trigger] all_attacks@[j].0 != 0,
        ensures
            r is Some == fits_slots(mask.0, magic.0, shift, occupancies@, occupancies.len() as int),
            r matches Some(t) ==> built_table(mask.0, magic.0, shift, occupancies@, all_attacks@, t@),
    {
        let mut table: Vec<Bitboard> = Vec::new();
        let mut k: usize = 0;
        while k < all_attacks.len()
            invariant
                k <= all_attacks.len(),
                table.len() == k,
                forall|i: int| 0 <= i < k ==> #[trigger] table@[i].0 == 0,
            decreases all_attacks.len() - k,
        {
            table.push(Bitboard::empty());
            k = k + 1;
        }
        let m = Magic { mask, magic, attacks: Vec::new(), shift };
        let mut i: usize = 0;
        while i < occupancies.len()
            invariant
                i <= occupancies.len(),
                shift < 64,
                m.mask == mask,
                m.magic == magic,
                m.shift == shift,
                table.len() == all_attacks.len(),
                all_attacks.len() == occupancies.len(),
                forall|j: int| 0 <= j < all_attacks.len() ==> #[trigger] all_attacks@[j].0 != 0,
                fits_slots(mask.0, magic.0, shift, occupancies@, i as int),
                forall|j: int| 0 <= j < i ==> table@[#[trigger] magic_index(mask.0, magic.0, shift, occupancies@[j].0)]
                    == all_attacks@[j],
                forall|x: int| 0 <= x < table.len() && (#[trigger] table@[x]).0 != 0 ==> exists|j: int| 0 <= j < i
                    && #[trigger] magic_index(mask.0, magic.0, shift, occupancies@[j].0) == x,
            decreases occupancies.len() - i,
        {
            let idx = m.index(occupancies[i]);
            if idx >= table.len() || table[idx].0 != 0 {
                proof {
                    if idx < table.len() {
                        let j = choose|j: int| 0 <= j < i && #[trigger] magic_index(mask.0, magic.0, shift, occupancies@[j].0) == idx;
                        assert(magic_index(mask.0, magic.0, shift, occupancies@[j].0) == magic_index(mask.0, magic.0, shift,
                            occupancies@[i as int].0));
                    }
                    lemma_fits_prefix(mask.0, magic.0, shift, occupancies@, i as int, occupancies.len() as int);
                }
                return None;
            }
            proof {
                assert forall|j: int| 0 <= j < i implies #[trigger] magic_index(mask.0, magic.0, shift, occupancies@[j].0) != idx by {
                    assert(table@[magic_index(mask.0, magic.0, shift, occupancies@[j].0)] == all_attacks@[j]);
                }
            }
            let ghost prev = table@;
            table.set(idx, all_attacks[i]);
            proof {
                assert forall|j: int| 0 <= j < i + 1 implies table@[#[trigger] magic_index(mask.0, magic.0, shift, occupancies@[j].0)]
                    == all_attacks@[j] by {
                    if j < i {
                        assert(prev[magic_index(mask.0, magic.0, shift, occupancies@[j].0)] == all_attacks@[j]);
                    }
                }
                assert forall|x: int| 0 <= x < table.len() && (#[trigger] table@[x]).0 != 0 implies exists|j: int| 0 <= j < i + 1
                    && #[trigger] magic_index(mask.0, magic.0, shift, occupancies@[j].0) == x by {
                    if x == idx {
                        assert(magic_index(mask.0, magic.0, shift, occupancies@[i as int].0) == x);
                    } else {
                        assert(prev[x] == table@[x]);
                    }
                }
            }
            i = i + 1;
        }
        let ghost occs = occupancies@;
        let ghost atts = all_attacks@;
        let ghost t = table@;
        assert(t.len() == occs.len());
        {
            assert forall|k: int| 0 <= k < t.len() && !(exists|j: int| 0 <= j < occs.len() && #[trigger] magic_index(
                mask.0, magic.0, shift, occs[j].0) == k) implies (#[trigger] t[k]).0 == 0 by {
                if t[k].0 != 0 {
                    let j = choose|j: int| 0 <= j < i && #[trigger] magic_index(mask.0, magic.0, shift, occupancies@[j].0) == k;
                    assert(0 <= j < occs.len() && magic_index(mask.0, magic.0, shift, occs[j].0) == k);
                }
            }
            assert forall|j: int| 0 <= j < occs.len() implies t[#[trigger] magic_index(mask.0, magic.0, shift, occs[j].0)]
                == atts[j] by {
                assert(table@[magic_index(mask.0, magic.0, shift, occupancies@[j].0)] == all_attacks@[j]);
            }
        }
        assert(built_table(mask.0, magic.0, shift, occs, atts, t));
        Some(table)
    }

    /// The magics for `slider` on all 64 squares, found with a generator seeded with `seed`.
    /// `None` when the search for some square gave up.
    pub fn init_magics(slider: Slider, seed: u64) -> (r: Option<Vec<Magic>>)
        ensures
            r matches Some(v) ==> v.len() == 64 && forall|i: int| 0 <= i < 64 ==> #[trigger] v@[i].valid(slider, i),
    {
        let mut rng = seeded_rng(seed);
        let mut magics: Vec<Magic> = Vec::new();
        let mut i: u8 = 0;
        while i < 64
            invariant
                i <= 64,
                magics.len() == i,
                forall|j: int| 0 <= j < i ==> #[trigger] magics@[j].valid(slider, j),
            decreases 64 - i,
        {
            let square = Square::new(i);
            match Magic::find(slider, square, &mut rng) {
                Some(m) => magics.push(m),
                None => {
                    return None;
                },
            }
            i = i + 1;
        }
        Some(magics)
    }
}

/// The central property of a valid magic: for every occupancy of the whole board, the slot
/// it maps to is in the table and holds the squares the slider attacks.
pub proof fn lemma_magic_lookup(m: &Magic, slider: Slider, s: int, occupied: u64)
    requires
        0 <= s < 64,
        m.valid(slider, s),
    ensures
        m.spec_index(occupied) < m.attacks.len(),
        forall|t: int| #[trigger] m.attacks@[m.spec_index(occupied)].has(t) == slider_reach(slider, s, Bitboard(occupied), t),
{
    let inner = occupied & m.mask.0;
    lemma_next_subset_bounds(occupied, m.mask.0);
    assert(m.spec_index(occupied) == m.spec_index(inner));
    assert(is_subset(inner, m.mask.0));
    assert forall|t: int| #[trigger] m.attacks@[m.spec_index(occupied)].has(t) == slider_reach(slider, s, Bitboard(occupied), t) by {
        assert(m.attacks@[m.spec_index(inner)].has(t) == slider_reach(slider, s, Bitboard(inner), t));
        assert forall|u: int| #[trigger] bit(m.mask.0, u) == relevant(slider, s, u) by {
            assert(m.mask.has(u) == relevant(slider, s, u));
        }
        lemma_relevant_occupancy(slider, s, occupied, m.mask.0, t);
    }
}

} // verus!
