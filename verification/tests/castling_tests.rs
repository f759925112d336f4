use angelika::castling::{CastleMove, CastleSide, Castling};
use angelika::piece::Color;

#[test]
fn castling() {
    for castle_move in CastleMove::all() {
        let castling = Castling::from(castle_move);
        assert!(Castling::none().add(castling).contains(castling));
        assert!(!Castling::any().remove(castling).contains(castling));
    }
}

#[test]
fn castle_move() {
    // Color
    assert_eq!(CastleMove::WhiteKing.color(), Color::White);
    assert_eq!(CastleMove::WhiteQueen.color(), Color::White);
    assert_eq!(CastleMove::BlackKing.color(), Color::Black);
    assert_eq!(CastleMove::BlackQueen.color(), Color::Black);

    // Side
    assert_eq!(CastleMove::WhiteKing.side(), CastleSide::King);
    assert_eq!(CastleMove::BlackKing.side(), CastleSide::King);
    assert_eq!(CastleMove::WhiteQueen.side(), CastleSide::Queen);
    assert_eq!(CastleMove::BlackQueen.side(), CastleSide::Queen);
}

#[test]
fn castling_rights_are_independent() {
    let c = Castling::none().add(Castling::white_king()).add(Castling::black_queen());
    assert!(c.contains(Castling::white_king()));
    assert!(c.contains(Castling::black_queen()));
    assert!(!c.contains(Castling::white_queen()));
    assert!(!c.contains(Castling::black_king()));
    let c = c.remove(Castling::white_king());
    assert!(!c.contains(Castling::white_king()));
    assert!(c.contains(Castling::black_queen()));
    assert_eq!(Castling::default(), Castling::none());
    assert_eq!(Castling::from(CastleMove::BlackKing), Castling::black_king());
    assert_eq!(CastleMove::WhiteQueen.right(), Castling::white_queen());
}

#[test]
fn contains_means_a_shared_right() {
    let c = Castling::white_king().add(Castling::black_king());
    assert!(c.contains(Castling::white_queen().add(Castling::black_king())));
    assert!(!c.contains(Castling::white_queen().add(Castling::black_queen())));
    // Containing a union is containing either part.
    assert_eq!(
        c.contains(Castling::white_queen().add(Castling::white_king())),
        c.contains(Castling::white_queen()) || c.contains(Castling::white_king())
    );
    assert!(!Castling::none().contains(Castling::any()));
    assert!(Castling::any().contains(Castling::any()));
}
