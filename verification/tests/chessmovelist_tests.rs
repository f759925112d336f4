use angelika::chessmove::{Move, MoveType};
use angelika::chessmovelist::MoveList;
use angelika::square::Square;

#[test]
fn test_movelist_new() {
    let ml = MoveList::default();
    assert_eq!(ml.len(), 0);
}

#[test]
fn test_movelist_push_and_get() {
    let mut ml = MoveList::default();
    let m = Move::new(Square::E2, Square::E4, MoveType::Normal, None);
    ml.push(m);
    assert_eq!(ml.len(), 1);
    assert_eq!(ml.get(0), m);
}

#[test]
fn test_movelist_reset() {
    let mut ml = MoveList::default();
    ml.push(Move::new(Square::E2, Square::E4, MoveType::Normal, None));
    ml.push(Move::new(Square::D2, Square::D4, MoveType::Normal, None));
    assert_eq!(ml.len(), 2);
    ml.reset();
    assert_eq!(ml.len(), 0);
}

#[test]
fn test_movelist_multiple_pushes() {
    let mut ml = MoveList::default();
    let moves = [
        Move::new(Square::E2, Square::E4, MoveType::Normal, None),
        Move::new(Square::D2, Square::D4, MoveType::Normal, None),
        Move::new(Square::E1, Square::G1, MoveType::Castling, None),
    ];
    for m in moves {
        ml.push(m);
    }
    assert_eq!(ml.len(), 3);
    for (i, m) in moves.iter().enumerate() {
        assert_eq!(ml.get(i), *m);
    }
}

#[test]
fn movelist_is_empty() {
    let mut ml = MoveList::default();
    assert!(ml.is_empty());
    ml.push(Move::null());
    assert!(!ml.is_empty());
}
