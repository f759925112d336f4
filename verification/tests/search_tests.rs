use std::sync::atomic::AtomicBool;
use std::sync::Arc;

use angelika::attacks::init;
use angelika::chessmove::MoveType;
use angelika::evaluation::{checked_evaluation, is_mate, INF};
use angelika::piece::PieceType;
use angelika::position::Position;
use angelika::search::Search;
use angelika::square::Square;

#[test]
fn search_with_max_depth() {
    let magics = init().unwrap();
    let mut search = Search::default();
    search.iterative_search(&Position::starting_position(), 5, &magics);
    assert!(search.pv().is_some());
    assert!(search.score().is_some());
}

#[test]
fn checkmate_has_no_move() {
    let magics = init().unwrap();
    let mut search = Search::default();
    search.iterative_search(&Position::from_fen("k7/1Q6/1K6/8/8/8/8/8 b - - 0 1").unwrap(), 5, &magics);
    assert!(search.pv().is_some());
    assert!(search.score().is_some());
    assert!(is_mate(search.score().unwrap()));
}

#[test]
fn stalemate_is_draw() {
    let magics = init().unwrap();
    let mut search = Search::default();
    search.iterative_search(&Position::from_fen("k7/2Q5/1K6/8/8/8/8/8 b - - 0 1").unwrap(), 5, &magics);
    assert!(search.pv().is_some());
    assert!(search.score().is_some());
    assert_eq!(search.score().unwrap(), 0);
}

#[test]
fn finds_mate_in_one() {
    let magics = init().unwrap();
    let mut search = Search::default();
    let pos = Position::from_fen("k7/8/1K6/8/8/8/8/7Q w - - 0 1").unwrap();
    assert_eq!(search.search_depth(&pos, 2, &magics), Some(32767 - 1));
    let best = search.pv().unwrap().best_move().unwrap();
    assert_eq!(best.from(), Square::H1);
    assert_eq!(best.move_type(), MoveType::Normal);
}

#[test]
fn stopped_search_keeps_nothing() {
    let magics = init().unwrap();
    let stop = Arc::new(AtomicBool::new(true));
    let mut search = Search::new(stop);
    assert_eq!(search.search_depth(&Position::starting_position(), 3, &magics), None);
    assert!(search.score().is_none());
    assert!(search.pv().is_none());
    assert_eq!(search.nodes(), 0);
}

/// Plain negamax over the legal moves, without pruning, from the library's move generator.
fn plain_negamax(pos: &Position, depth: u8, ply: u8, magics: &angelika::attacks::SliderMagics) -> i32 {
    if depth == 0 {
        return match checked_evaluation(pos) {
            Some(v) if v >= -INF => v as i32,
            _ => 0,
        };
    }
    let mut best: Option<i32> = None;
    for m in pos.pseudo_legal_move_vec(magics) {
        if !pos.can_make(m) {
            continue;
        }
        let mut child = *pos;
        child.make_move(m);
        if child.pieces(pos.side_to_move(), PieceType::King).0 == 0 || !child.is_legal(magics) {
            continue;
        }
        let score = -plain_negamax(&child, depth - 1, ply + 1, magics);
        best = Some(best.map_or(score, |b| b.max(score)));
    }
    match best {
        Some(b) => b,
        None => {
            if pos.pieces(pos.side_to_move(), PieceType::King).0 != 0 && pos.is_check(magics) {
                -(INF as i32) + ply as i32
            } else {
                0
            }
        }
    }
}

#[test]
fn alpha_beta_gives_the_negamax_value() {
    let magics = init().unwrap();
    let fens = [
        "r3k2r/p1ppqpb1/bn2pnp1/3PN3/1p2P3/2N2Q1p/PPPBBPPP/R3K2R w KQkq - 0 1",
        "k7/8/1K6/8/8/8/8/7Q w - - 0 1",
        "4k3/8/8/3pP3/8/8/8/4K3 w - d6 0 1",
        "rnbqkbnr/pppppppp/8/8/8/8/PPPPPPPP/RNBQKBNR w KQkq - 0 1",
    ];
    for fen in fens {
        let pos = Position::from_fen(fen).unwrap();
        for depth in 1..=2u8 {
            let mut search = Search::default();
            let score = search.search_depth(&pos, depth, &magics).unwrap();
            assert_eq!(score as i32, plain_negamax(&pos, depth, 0, &magics), "{} at depth {}", fen, depth);
        }
    }
}

#[test]
fn best_move_is_a_legal_move() {
    let magics = init().unwrap();
    let pos = Position::from_fen("r3k2r/p1ppqpb1/bn2pnp1/3PN3/1p2P3/2N2Q1p/PPPBBPPP/R3K2R w KQkq - 0 1").unwrap();
    let mut search = Search::default();
    search.iterative_search(&pos, 3, &magics);
    let best = search.pv().unwrap().best_move().unwrap();
    assert!(pos.pseudo_legal_move_vec(&magics).contains(&best));
    assert!(pos.can_make(best));
    let mut after = pos;
    after.make_move(best);
    assert!(after.is_legal(&magics));
}

#[test]
fn deepening_goes_on_until_the_last_depth_or_a_mate() {
    assert_eq!(Search::next_depth(3, Some(10), 5), Some(4));
    assert_eq!(Search::next_depth(1, Some(-200), 2), Some(2));
    assert_eq!(Search::next_depth(5, Some(10), 5), None);
    assert_eq!(Search::next_depth(3, None, 5), None);
    assert_eq!(Search::next_depth(3, Some(32767 - 3), 5), None);
    assert_eq!(Search::next_depth(3, Some(-32767 + 2), 5), None);
    assert_eq!(Search::next_depth(3, Some(32666), 5), Some(4));
}

#[test]
fn stalemate_and_mate_leave_an_empty_line() {
    let magics = init().unwrap();
    for fen in ["k7/2Q5/1K6/8/8/8/8/8 b - - 0 1", "k7/1Q6/1K6/8/8/8/8/8 b - - 0 1"] {
        let pos = Position::from_fen(fen).unwrap();
        let mut search = Search::default();
        let score = search.search_depth(&pos, 3, &magics).unwrap();
        assert!(score == 0 || score == -32767);
        assert!(search.pv().unwrap().best_move().is_none());
        assert_eq!(search.pv().unwrap().len(), 0);
    }
}

#[test]
fn best_line_starts_with_the_best_move() {
    let magics = init().unwrap();
    // White mates in one with Qh8; the line after it is empty since black has no move.
    let pos = Position::from_fen("k7/8/1K6/8/8/8/8/7Q w - - 0 1").unwrap();
    let mut search = Search::default();
    assert_eq!(search.search_depth(&pos, 3, &magics), Some(32767 - 1));
    let line = search.pv().unwrap();
    assert_eq!(line.len(), 1);
    let best = line.best_move().unwrap();
    let mut after = pos;
    after.make_move(best);
    assert!(after.is_check(&magics));
}

#[test]
fn search_of_a_position_with_two_pieces_on_one_square() {
    let magics = init().unwrap();
    // The knight is read onto b2 after the black pawn: the board holds the knight, the
    // bitboards hold both.
    let pos = Position::from_fen("4k3/8/8/8/8/8/1p6/K8N w - - 0 1").unwrap();
    for depth in 1..=3u8 {
        let mut search = Search::default();
        let score = search.search_depth(&pos, depth, &magics).unwrap();
        assert_eq!(score as i32, plain_negamax(&pos, depth, 0, &magics), "depth {}", depth);
    }
}
