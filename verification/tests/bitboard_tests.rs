use angelika::bitboard::Bitboard;
use angelika::square::Square;

#[test]
fn and() {
    assert_eq!(Bitboard(0b1010) & Bitboard(0b0010), Bitboard(0b0010));
}

#[test]
fn or() {
    assert_eq!(Bitboard(0b1010) | Bitboard(0b0101), Bitboard(0b1111));
}

#[test]
fn shl() {
    assert_eq!(Bitboard(0b1010) << Bitboard::one(), Bitboard(0b10100));
    assert_eq!(Bitboard(0b1010) << 1, Bitboard(0b10100));
}

#[test]
fn shr() {
    assert_eq!(Bitboard(0b1010) >> Bitboard::one(), Bitboard(0b101));
    assert_eq!(Bitboard(0b1010) >> 1, Bitboard(0b101))
}

#[test]
fn from_square() {
    assert_eq!(Bitboard::from_square(Square::E2), Bitboard(0b1000000000000));
}

#[test]
fn test_subsets_empty() {
    assert_eq!(Bitboard::empty().subsets(), vec![Bitboard::empty()]);
}

#[test]
fn test_subsets() {
    assert_eq!(
        Bitboard(0b1010).subsets(),
        vec![
            Bitboard::empty(),
            Bitboard(0b10),
            Bitboard(0b1000),
            Bitboard(0b1010)
        ]
    );
}

#[test]
fn test_population_count() {
    assert_eq!(Bitboard(0b0100111).population_count(), 4);
}

#[test]
fn subsets_count_is_power_of_two() {
    let m = Bitboard(0x0000_0000_0101_0f00);
    let subsets = m.subsets();
    assert_eq!(subsets.len(), 1 << m.population_count());
    for w in subsets.windows(2) {
        assert!(w[0].0 < w[1].0);
    }
}

#[test]
fn directional_shifts() {
    let e4 = Bitboard::from_square(Square::E4);
    assert_eq!(e4.north_one(), Bitboard::from_square(Square::E5));
    assert_eq!(e4.south_one(), Bitboard::from_square(Square::E3));
    assert_eq!(e4.west_one(), Bitboard::from_square(Square::D4));
    assert_eq!(e4.east_one(), Bitboard::from_square(Square::F4));
    assert_eq!(e4.north_west_one(), Bitboard::from_square(Square::D5));
    assert_eq!(e4.north_east_one(), Bitboard::from_square(Square::F5));
    assert_eq!(e4.south_west_one(), Bitboard::from_square(Square::D3));
    assert_eq!(e4.south_east_one(), Bitboard::from_square(Square::F3));
    let a1 = Bitboard::from_square(Square::A1);
    assert_eq!(a1.west_one(), Bitboard::empty());
    assert_eq!(Bitboard::from_square(Square::H8).north_east_one(), Bitboard::empty());
    assert_eq!(!Bitboard(0), Bitboard(u64::MAX));
    assert_eq!(Bitboard(3) * Bitboard(5), Bitboard(15));
}

#[test]
fn least_significant_square() {
    let mut b = Bitboard::from_square(Square::C3) | Bitboard::from_square(Square::G7);
    assert_eq!(b.lsb_square(), Some(Square::C3));
    assert_eq!(b.pop_lsb_square(), Some(Square::C3));
    assert_eq!(b, Bitboard::from_square(Square::G7));
    assert_eq!(b.pop_lsb_square(), Some(Square::G7));
    assert_eq!(b.pop_lsb_square(), None);
    assert_eq!(Bitboard::empty().lsb_square(), None);
}
