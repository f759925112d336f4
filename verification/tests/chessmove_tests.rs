use angelika::chessmove::{Move, MoveType};
use angelika::piece::PieceType;
use angelika::square::Square;

#[test]
fn test_move_normal() {
    let m = Move::new(Square::E2, Square::E4, MoveType::Normal, None);
    assert_eq!(m.from(), Square::E2);
    assert_eq!(m.to(), Square::E4);
    assert_eq!(m.move_type(), MoveType::Normal);
    assert_eq!(m.promotion(), None);
    assert_eq!(m.score(), 0);
}

#[test]
fn test_move_promotion() {
    let m = Move::new(
        Square::E7,
        Square::E8,
        MoveType::Promotion,
        Some(PieceType::Queen),
    );
    assert_eq!(m.from(), Square::E7);
    assert_eq!(m.to(), Square::E8);
    assert_eq!(m.move_type(), MoveType::Promotion);
    assert_eq!(m.promotion(), Some(PieceType::Queen));
}

#[test]
fn test_move_promotion_all_pieces() {
    for pt in [
        PieceType::Knight,
        PieceType::Bishop,
        PieceType::Rook,
        PieceType::Queen,
    ] {
        let m = Move::new(Square::A7, Square::A8, MoveType::Promotion, Some(pt));
        assert_eq!(m.promotion(), Some(pt));
    }
}

#[test]
fn test_move_en_passant() {
    let m = Move::new(Square::E5, Square::D6, MoveType::EnPassant, None);
    assert_eq!(m.from(), Square::E5);
    assert_eq!(m.to(), Square::D6);
    assert_eq!(m.move_type(), MoveType::EnPassant);
    assert_eq!(m.promotion(), None);
}

#[test]
fn test_move_castling() {
    let m = Move::new(Square::E1, Square::G1, MoveType::Castling, None);
    assert_eq!(m.from(), Square::E1);
    assert_eq!(m.to(), Square::G1);
    assert_eq!(m.move_type(), MoveType::Castling);
}

#[test]
fn test_move_score() {
    let mut m = Move::new(Square::E2, Square::E4, MoveType::Normal, None);
    assert_eq!(m.score(), 0);
    m.set_score(1000);
    assert_eq!(m.score(), 1000);
    m.set_score(u16::MAX);
    assert_eq!(m.score(), u16::MAX);
}

#[test]
fn test_null_move() {
    assert_eq!(Move::null().from(), Square::A1);
    assert_eq!(Move::null().to(), Square::A1);
    assert_eq!(Move::null().move_type(), MoveType::Normal);
    assert_eq!(Move::null().score(), 0);
}

#[test]
fn set_score_keeps_the_move() {
    let mut m = Move::new(Square::B7, Square::C8, MoveType::Promotion, Some(PieceType::Rook));
    m.set_score(77);
    assert_eq!(m.from(), Square::B7);
    assert_eq!(m.to(), Square::C8);
    assert_eq!(m.move_type(), MoveType::Promotion);
    assert_eq!(m.promotion(), Some(PieceType::Rook));
    assert_eq!(m.score(), 77);
    assert_eq!(MoveType::new(2), MoveType::EnPassant);
    let k = Move::new(Square::A7, Square::A8, MoveType::Promotion, Some(PieceType::King));
    assert_eq!(k.promotion(), Some(PieceType::Knight));
}
