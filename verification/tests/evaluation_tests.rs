use angelika::evaluation::{checked_evaluation, evaluation, is_mate, INF, MATE};
use angelika::position::Position;

#[test]
fn startpos() {
    assert_eq!(evaluation(&Position::starting_position()), 0);
}

#[test]
fn material_from_the_side_to_move() {
    let white = Position::from_fen("4k3/8/8/8/8/8/8/3QK3 w - - 0 1").unwrap();
    assert_eq!(evaluation(&white), 900);
    let black = Position::from_fen("4k3/8/8/8/8/8/8/3QK3 b - - 0 1").unwrap();
    assert_eq!(evaluation(&black), -900);
    let mixed = Position::from_fen("rn2k3/pp6/8/8/8/8/PPP5/1B2K3 w - - 0 1").unwrap();
    assert_eq!(evaluation(&mixed), 100 + 300 - 500 - 300);
}

#[test]
fn evaluation_out_of_range() {
    // 64 white queens are worth 57600 centipawns, more than 16 bits hold.
    let fen = "QQQQQQQQ/QQQQQQQQ/QQQQQQQQ/QQQQQQQQ/QQQQQQQQ/QQQQQQQQ/QQQQQQQQ/QQQQQQQQ w - - 0 1";
    let pos = Position::from_fen(fen).unwrap();
    assert_eq!(checked_evaluation(&pos), None);
    assert_eq!(checked_evaluation(&Position::starting_position()), Some(0));
}

#[test]
fn mate_scores() {
    assert!(is_mate(INF));
    assert!(is_mate(-INF + 3));
    assert!(is_mate(MATE));
    assert!(!is_mate(MATE - 1));
    assert!(!is_mate(0));
    assert!(!is_mate(-900));
}
