use angelika::bitboard::Bitboard;
use angelika::piece::Color;
use angelika::pushes::pushes;
use angelika::square::Square;

#[test]
fn start_position() {
    assert_eq!(
        pushes(
            Color::White,
            Bitboard::from_square(Square::E2),
            Bitboard::empty(),
        ),
        Bitboard::from_square(Square::E3) | Bitboard::from_square(Square::E4)
    );
}

#[test]
fn start_position_blocked() {
    assert_eq!(
        pushes(
            Color::White,
            Bitboard::from_square(Square::E2),
            Bitboard::from_square(Square::E3),
        ),
        Bitboard::empty(),
    );
    assert_eq!(
        pushes(
            Color::White,
            Bitboard::from_square(Square::E2),
            Bitboard::from_square(Square::E4),
        ),
        Bitboard::from_square(Square::E3),
    );
}

#[test]
fn rank_3() {
    assert_eq!(
        pushes(
            Color::White,
            Bitboard::from_square(Square::E3),
            Bitboard::empty(),
        ),
        Bitboard::from_square(Square::E4),
    );
}

#[test]
fn black_pushes() {
    assert_eq!(
        pushes(Color::Black, Bitboard::from_square(Square::D7), Bitboard::empty()),
        Bitboard::from_square(Square::D6) | Bitboard::from_square(Square::D5)
    );
    assert_eq!(
        pushes(Color::Black, Bitboard::from_square(Square::D7), Bitboard::from_square(Square::D5)),
        Bitboard::from_square(Square::D6)
    );
}
