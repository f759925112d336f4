use angelika::chessmove::{Move, MoveType};
use angelika::principal_variation::PrincipalVariation;
use angelika::square::Square;

fn make_move(from: Square, to: Square) -> Move {
    Move::new(from, to, MoveType::Normal, None)
}

#[test]
fn empty_pv_has_no_best_move() {
    let pv = PrincipalVariation::default();
    assert!(pv.best_move().is_none());
}

#[test]
fn single_move_pv() {
    let mut pv = PrincipalVariation::default();
    let child = PrincipalVariation::default();
    let m = make_move(Square::E2, Square::E4);

    pv.update(m, &child);

    assert_eq!(pv.best_move(), Some(m));
    assert_eq!(pv.len(), 1);
}

#[test]
fn clear_pv() {
    let mut pv = PrincipalVariation::default();
    let child = PrincipalVariation::default();
    let m = make_move(Square::E2, Square::E4);

    pv.update(m, &child);

    pv.clear();
    assert_eq!(pv.len(), 0)
}

#[test]
fn pv_builds_from_leaf_to_root() {
    let e2e4 = make_move(Square::E2, Square::E4);
    let e7e5 = make_move(Square::E7, Square::E5);
    let g1f3 = make_move(Square::G1, Square::F3);

    let mut pv_depth1 = PrincipalVariation::default();
    let mut pv_depth2 = PrincipalVariation::default();
    let mut pv_depth3 = PrincipalVariation::default();

    pv_depth1.update(g1f3, &PrincipalVariation::default());
    pv_depth2.update(e7e5, &pv_depth1);
    pv_depth3.update(e2e4, &pv_depth2);

    assert_eq!(pv_depth3.len(), 3);
    assert_eq!(pv_depth3.get(0), Some(e2e4));
    assert_eq!(pv_depth3.get(1), Some(e7e5));
    assert_eq!(pv_depth3.get(2), Some(g1f3));
}

#[test]
fn pv_update_replaces_old_line() {
    let mut pv = PrincipalVariation::default();
    let mut long = PrincipalVariation::default();
    long.update(make_move(Square::A2, Square::A3), &PrincipalVariation::default());
    pv.update(make_move(Square::B2, Square::B3), &long);
    assert_eq!(pv.len(), 2);
    pv.update(make_move(Square::C2, Square::C3), &PrincipalVariation::default());
    assert_eq!(pv.len(), 1);
    assert_eq!(pv.get(1), None);
    assert_eq!(pv.best_move(), Some(make_move(Square::C2, Square::C3)));
}
