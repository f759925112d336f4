use angelika::attacks::{
    Slider, bishop_attacks, bishop_attacks_slow, init, king_attacks, knight_attacks, pawn_attacks,
    queen_attacks, rook_attacks, rook_attacks_slow,
};
use angelika::bitboard::Bitboard;
use angelika::magic::Magic;
use angelika::piece::Color;
use angelika::square::Square;
use rand::Rng;

#[test]
fn test_knight_attacks() {
    assert_eq!(
        knight_attacks(Square::E4),
        Bitboard::from_square(Square::D2)
            | Bitboard::from_square(Square::F2)
            | Bitboard::from_square(Square::C3)
            | Bitboard::from_square(Square::G3)
            | Bitboard::from_square(Square::C5)
            | Bitboard::from_square(Square::G5)
            | Bitboard::from_square(Square::D6)
            | Bitboard::from_square(Square::F6)
    );
    assert_eq!(
        knight_attacks(Square::A1),
        Bitboard::from_square(Square::C2) | Bitboard::from_square(Square::B3)
    );
}

#[test]
fn test_king_attacks() {
    assert_eq!(
        king_attacks(Square::E4),
        Bitboard::from_square(Square::D3)
            | Bitboard::from_square(Square::E3)
            | Bitboard::from_square(Square::F3)
            | Bitboard::from_square(Square::D4)
            | Bitboard::from_square(Square::F4)
            | Bitboard::from_square(Square::D5)
            | Bitboard::from_square(Square::E5)
            | Bitboard::from_square(Square::F5)
    );
    assert_eq!(
        king_attacks(Square::A1),
        Bitboard::from_square(Square::B1)
            | Bitboard::from_square(Square::A2)
            | Bitboard::from_square(Square::B2)
    );
}

#[test]
fn test_pawn_attacks() {
    assert_eq!(
        pawn_attacks(Color::White, Bitboard::from_square(Square::E4)),
        Bitboard::from_square(Square::D5) | Bitboard::from_square(Square::F5)
    );
    assert_eq!(
        pawn_attacks(
            Color::Black,
            Bitboard::from_square(Square::C4) | Bitboard::from_square(Square::E4)
        ),
        Bitboard::from_square(Square::B3)
            | Bitboard::from_square(Square::D3)
            | Bitboard::from_square(Square::F3)
    );
}

#[test]
fn test_bishop_attacks_slow_empty_board() {
    assert_eq!(
        bishop_attacks_slow(Square::A1, Bitboard::empty()),
        Bitboard::from_square(Square::B2)
            | Bitboard::from_square(Square::C3)
            | Bitboard::from_square(Square::D4)
            | Bitboard::from_square(Square::E5)
            | Bitboard::from_square(Square::F6)
            | Bitboard::from_square(Square::G7)
            | Bitboard::from_square(Square::H8)
    );
}

#[test]
fn test_bishop_attacks_slow_with_blockers() {
    assert_eq!(
        bishop_attacks_slow(
            Square::E4,
            Bitboard::from_square(Square::C2)
                | Bitboard::from_square(Square::G6)
                | Bitboard::from_square(Square::C6)
                | Bitboard::from_square(Square::G2)
        ),
        Bitboard::from_square(Square::D3)
            | Bitboard::from_square(Square::C2)
            | Bitboard::from_square(Square::F5)
            | Bitboard::from_square(Square::G6)
            | Bitboard::from_square(Square::D5)
            | Bitboard::from_square(Square::C6)
            | Bitboard::from_square(Square::F3)
            | Bitboard::from_square(Square::G2)
    );
}

#[test]
fn test_rook_attacks_slow_empty_board() {
    assert_eq!(
        rook_attacks_slow(Square::A1, Bitboard::empty()),
        Bitboard::from_square(Square::B1)
            | Bitboard::from_square(Square::C1)
            | Bitboard::from_square(Square::D1)
            | Bitboard::from_square(Square::E1)
            | Bitboard::from_square(Square::F1)
            | Bitboard::from_square(Square::G1)
            | Bitboard::from_square(Square::H1)
            | Bitboard::from_square(Square::A2)
            | Bitboard::from_square(Square::A3)
            | Bitboard::from_square(Square::A4)
            | Bitboard::from_square(Square::A5)
            | Bitboard::from_square(Square::A6)
            | Bitboard::from_square(Square::A7)
            | Bitboard::from_square(Square::A8)
    );
}

#[test]
fn test_rook_attacks_slow_with_blockers() {
    assert_eq!(
        rook_attacks_slow(
            Square::E4,
            Bitboard::from_square(Square::D4)
                | Bitboard::from_square(Square::E2)
                | Bitboard::from_square(Square::E6)
                | Bitboard::from_square(Square::F4)
        ),
        Bitboard::from_square(Square::D4)
            | Bitboard::from_square(Square::E2)
            | Bitboard::from_square(Square::E3)
            | Bitboard::from_square(Square::E5)
            | Bitboard::from_square(Square::E6)
            | Bitboard::from_square(Square::F4)
    );
}

#[test]
fn test_bishop_attacks() {
    let mut rng = rand::rng();
    let magics = init().unwrap();
    for sq in Square::all() {
        for _ in 0..1024 {
            let occupied = Bitboard(rng.random::<u64>());
            assert_eq!(
                bishop_attacks(&magics, sq, occupied),
                bishop_attacks_slow(sq, occupied)
            );
        }
    }
}

#[test]
fn test_rook_attacks() {
    let mut rng = rand::rng();
    let magics = init().unwrap();
    for sq in Square::all() {
        for _ in 0..1024 {
            let occupied = Bitboard(rng.random::<u64>());
            assert_eq!(rook_attacks(&magics, sq, occupied), rook_attacks_slow(sq, occupied));
        }
    }
}

#[test]
fn test_queen_attacks() {
    let mut rng = rand::rng();
    let magics = init().unwrap();
    for sq in Square::all() {
        for _ in 0..1024 {
            let occupied = Bitboard(rng.random::<u64>());
            assert_eq!(
                queen_attacks(&magics, sq, occupied),
                bishop_attacks_slow(sq, occupied) | rook_attacks(&magics, sq, occupied)
            );
        }
    }
}

#[test]
fn magic_table_of_a_corner_rook() {
    let magics = init().unwrap();
    assert_eq!(
        rook_attacks(&magics, Square::A1, Bitboard::from_square(Square::A3) | Bitboard::from_square(Square::C1)),
        Bitboard::from_square(Square::A2)
            | Bitboard::from_square(Square::A3)
            | Bitboard::from_square(Square::B1)
            | Bitboard::from_square(Square::C1)
    );
}

#[test]
fn magic_candidate_tables() {
    // Two occupancies of the mask {a1}: the magic 1 shifted by 63 puts them in slots 0 and 1.
    let mask = Bitboard(0b1);
    let occupancies = vec![Bitboard(0), Bitboard(1)];
    let attacks = vec![Bitboard(0b10), Bitboard(0b100)];
    let table = Magic::fill_table(mask, Bitboard(1u64 << 63), 63, &occupancies, &attacks).unwrap();
    assert_eq!(table, vec![Bitboard(0b10), Bitboard(0b100)]);
    // The magic 0 puts both in slot 0: the candidate fails.
    assert_eq!(Magic::fill_table(mask, Bitboard(0), 63, &occupancies, &attacks), None);
}

#[test]
fn magic_tables_have_one_slot_per_occupancy() {
    for slider in [Slider::Rook, Slider::Bishop] {
        let magics = Magic::init_magics(slider, 7).unwrap();
        assert_eq!(magics.len(), 64);
        for m in &magics {
            let k = m.mask.population_count();
            assert_eq!(m.shift, 64 - k);
            assert_eq!(m.attacks.len(), 1usize << k);
        }
    }
    // A rook in the corner has 12 relevant squares, a bishop in the centre 9.
    let rook = Magic::init_magics(Slider::Rook, 7).unwrap();
    assert_eq!(rook[0].attacks.len(), 4096);
    let bishop = Magic::init_magics(Slider::Bishop, 7).unwrap();
    assert_eq!(bishop[27].attacks.len(), 512);
}
