use angelika::attacks::init;
use angelika::perft::perft;
use angelika::position::Position;

/// Perft results for "Kiwipete", a position by Peter McKenzie designed to exercise tricky
/// move generation edge cases (castling, en passant, promotions, discovered checks).
#[test]
fn kiwipete() {
    let magics = init().unwrap();
    let pos = Position::from_fen("r3k2r/p1ppqpb1/bn2pnp1/3PN3/1p2P3/2N2Q1p/PPPBBPPP/R3K2R w KQkq - 0 1").unwrap();
    assert_eq!(perft(&mut pos.clone(), 1, &magics), 48);
    assert_eq!(perft(&mut pos.clone(), 2, &magics), 2039);
    assert_eq!(perft(&mut pos.clone(), 3, &magics), 97862);
    assert_eq!(perft(&mut pos.clone(), 4, &magics), 4085603);
}

#[test]
fn perft_start_position() {
    let magics = init().unwrap();
    let mut pos = Position::starting_position();
    assert_eq!(perft(&mut pos, 0, &magics), 1);
    assert_eq!(perft(&mut pos, 1, &magics), 20);
    assert_eq!(perft(&mut pos, 2, &magics), 400);
    assert_eq!(perft(&mut pos, 3, &magics), 8902);
}
