use angelika::attacks::init;
use angelika::chessmove::{Move, MoveType};
use angelika::chessmovelist::MoveList;
use angelika::piece::{Color, Piece, PieceType};
use angelika::position::Position;
use angelika::square::Square;

const START: &str = "rnbqkbnr/pppppppp/8/8/8/8/PPPPPPPP/RNBQKBNR w KQkq - 0 1";

#[test]
fn test_from_fen_starting_position() {
    let pos = Position::from_fen("rnbqkbnr/pppppppp/8/8/8/8/PPPPPPPP/RNBQKBNR w KQkq - 0 1").unwrap();
    let starting = Position::starting_position();

    assert_eq!(pos, starting);
}

#[test]
fn test_fen_roundtrip() {
    let fens = ["rnbqkbnr/pppppppp/8/8/8/8/PPPPPPPP/RNBQKBNR w KQkq - 0 1"];

    for fen in fens {
        assert_eq!(
            Position::from_fen(fen).unwrap().to_fen(),
            fen,
            "Roundtrip failed for: {}",
            fen
        );
    }
}

#[test]
fn fen_roundtrip_other_positions() {
    let fens = [
        "r3k2r/p1ppqpb1/bn2pnp1/3PN3/1p2P3/2N2Q1p/PPPBBPPP/R3K2R w KQkq - 0 1",
        "rnbqkbnr/pppppppp/8/8/4P3/8/PPPP1PPP/RNBQKBNR b KQkq e3 0 1",
        "8/8/8/8/8/8/8/8 w - - 12 100",
        "k7/1Q6/1K6/8/8/8/8/8 b - - 0 1",
        "4k3/8/8/8/8/8/8/4K2R w Kq - 255 127",
    ];
    for fen in fens {
        assert_eq!(Position::from_fen(fen).unwrap().to_fen(), fen);
    }
}

#[test]
fn fen_errors() {
    assert_eq!(Position::from_fen("8/8/8/8/8/8/8/8 w - - 0").unwrap_err(), "Invalid number of tokens");
    assert_eq!(Position::from_fen("").unwrap_err(), "Invalid number of tokens");
    assert_eq!(
        Position::from_fen("rnbqkbnx/pppppppp/8/8/8/8/PPPPPPPP/RNBQKBNR w KQkq - 0 1").unwrap_err(),
        "invalid piece char"
    );
    assert_eq!(Position::from_fen("8/8/8/8/8/8/8/8 x - - 0 1").unwrap_err(), "Invalid side to move");
    assert_eq!(Position::from_fen("8/8/8/8/8/8/8/8 w KX - 0 1").unwrap_err(), "invalid castling token");
    assert_eq!(Position::from_fen("8/8/8/8/8/8/8/8 w - z3 0 1").unwrap_err(), "Invalid file char");
    assert_eq!(Position::from_fen("8/8/8/8/8/8/8/8 w - e 0 1").unwrap_err(), "Missing rank");
    assert_eq!(Position::from_fen("8/8/8/8/8/8/8/8 w - e9 0 1").unwrap_err(), "Invalid rank number");
    assert_eq!(Position::from_fen("8/8/8/8/8/8/8/8 w - - x 1").unwrap_err(), "invalid half move clock");
    assert_eq!(Position::from_fen("8/8/8/8/8/8/8/8 w - - 256 1").unwrap_err(), "invalid half move clock");
    assert_eq!(Position::from_fen("8/8/8/8/8/8/8/8 w - - 0 +").unwrap_err(), "invalid number of full moves");
}

#[test]
fn fen_fields_are_read() {
    let pos = Position::from_fen("4k3/8/8/8/8/8/8/4K2R b K - +7 +10").unwrap();
    assert_eq!(pos.side_to_move(), Color::Black);
    assert_eq!(pos.get_piece(Square::H1), Piece::WhiteRook);
    assert_eq!(pos.get_piece(Square::E8), Piece::BlackKing);
    // The castling field is read up to its first '-'.
    let pos2 = Position::from_fen("4k3/8/8/8/8/8/8/4K2R w K-x - 0 1").unwrap();
    assert_eq!(pos2.to_fen(), "4k3/8/8/8/8/8/8/4K2R w K - 0 1");
    // Full move 10 with black to move is ply 19, written back as move 10.
    assert_eq!(pos.to_fen(), "4k3/8/8/8/8/8/8/4K2R b K - 7 10");
}

#[test]
fn starting_position_has_twenty_moves() {
    let magics = init().unwrap();
    let pos = Position::starting_position();
    let mut moves = MoveList::default();
    pos.generate_moves(&mut moves, &magics);
    assert_eq!(moves.len(), 20);
    assert_eq!(pos.pseudo_legal_move_vec(&magics).len(), 20);
}

#[test]
fn make_move_double_step() {
    let mut pos = Position::starting_position();
    let m = Move::new(Square::E2, Square::E4, MoveType::Normal, None);
    assert!(pos.can_make(m));
    pos.make_move(m);
    assert_eq!(pos.to_fen(), "rnbqkbnr/pppppppp/8/8/4P3/8/PPPP1PPP/RNBQKBNR b KQkq e3 0 1");
}

#[test]
fn make_move_castling_and_capture() {
    let mut pos = Position::from_fen("r3k2r/8/8/8/8/8/8/R3K2R w KQkq - 3 1").unwrap();
    pos.make_move(Move::new(Square::E1, Square::G1, MoveType::Castling, None));
    assert_eq!(pos.to_fen(), "r3k2r/8/8/8/8/8/8/R4RK1 b kq - 4 1");
    pos.make_move(Move::new(Square::A8, Square::A1, MoveType::Normal, None));
    assert_eq!(pos.to_fen(), "4k2r/8/8/8/8/8/8/r4RK1 w k - 0 2");
}

#[test]
fn make_move_en_passant_and_promotion() {
    let mut pos = Position::from_fen("4k3/8/8/3pP3/8/8/8/4K3 w - d6 0 1").unwrap();
    pos.make_move(Move::new(Square::E5, Square::D6, MoveType::EnPassant, None));
    assert_eq!(pos.to_fen(), "4k3/8/3P4/8/8/8/8/4K3 b - - 0 1");

    let mut pos = Position::from_fen("4k3/P7/8/8/8/8/8/4K3 w - - 0 1").unwrap();
    pos.make_move(Move::new(Square::A7, Square::A8, MoveType::Promotion, Some(PieceType::Queen)));
    assert_eq!(pos.to_fen(), "Q3k3/8/8/8/8/8/8/4K3 b - - 0 1");
}

#[test]
fn castling_moves_are_generated() {
    let magics = init().unwrap();
    let pos = Position::from_fen("r3k2r/8/8/8/8/8/8/R3K2R w KQkq - 0 1").unwrap();
    let moves = pos.pseudo_legal_move_vec(&magics);
    assert!(moves.contains(&Move::new(Square::E1, Square::G1, MoveType::Castling, None)));
    assert!(moves.contains(&Move::new(Square::E1, Square::C1, MoveType::Castling, None)));
    assert!(pos.can_do_castle_move(angelika::castling::CastleMove::WhiteKing, &magics));
    assert!(!pos.can_do_castle_move(angelika::castling::CastleMove::BlackKing, &magics));
    // A rook attacking f1 forbids king-side castling.
    let pos = Position::from_fen("5r1k/8/8/8/8/8/8/R3K2R w KQ - 0 1").unwrap();
    let moves = pos.pseudo_legal_move_vec(&magics);
    assert!(!moves.contains(&Move::new(Square::E1, Square::G1, MoveType::Castling, None)));
    assert!(moves.contains(&Move::new(Square::E1, Square::C1, MoveType::Castling, None)));
}

#[test]
fn pawn_moves_with_promotions_and_en_passant() {
    let magics = init().unwrap();
    let pos = Position::from_fen("1n2k3/P7/8/3pP3/8/8/8/4K3 w - d6 0 1").unwrap();
    let moves = pos.pseudo_legal_move_vec(&magics);
    for pt in [PieceType::Knight, PieceType::Bishop, PieceType::Rook, PieceType::Queen] {
        assert!(moves.contains(&Move::new(Square::A7, Square::A8, MoveType::Promotion, Some(pt))));
        assert!(moves.contains(&Move::new(Square::A7, Square::B8, MoveType::Promotion, Some(pt))));
    }
    assert!(moves.contains(&Move::new(Square::E5, Square::D6, MoveType::EnPassant, None)));
    assert!(moves.contains(&Move::new(Square::E5, Square::E6, MoveType::Normal, None)));
}

#[test]
fn check_and_legality() {
    let magics = init().unwrap();
    let pos = Position::from_fen("4k3/8/8/8/8/8/8/4KR2 b - - 0 1").unwrap();
    assert!(!pos.is_check(&magics));
    let pos = Position::from_fen("4k3/8/8/8/8/8/8/4R1K1 b - - 0 1").unwrap();
    assert!(pos.is_check(&magics));
    // White to move while the black king is attacked: black's last move was illegal.
    let pos = Position::from_fen("4k3/8/8/8/8/8/8/4R1K1 w - - 0 1").unwrap();
    assert!(!pos.is_legal(&magics));
}

#[test]
fn set_and_delete_pieces() {
    let mut pos = Position::default();
    pos.set_piece(Piece::WhiteKnight, Square::B1);
    assert_eq!(pos.get_piece(Square::B1), Piece::WhiteKnight);
    assert_eq!(pos.pieces(Color::White, PieceType::Knight).population_count(), 1);
    let p = pos.move_piece(Square::B1, Square::C3);
    assert_eq!(p, Piece::WhiteKnight);
    assert_eq!(pos.delete_piece(Square::C3), Piece::WhiteKnight);
    assert_eq!(pos.to_fen(), "8/8/8/8/8/8/8/8 w - - 0 1");
}

#[test]
fn fen_within_limits_is_parsed_exactly() {
    let pos = Position::from_fen(START).unwrap();
    assert_eq!(pos.to_fen(), START);
}

#[test]
fn moves_from_strings() {
    let pos = Position::starting_position();
    assert_eq!(
        pos.move_from_string("e2e4").unwrap(),
        Move::new(Square::E2, Square::E4, MoveType::Normal, None)
    );
    assert_eq!(pos.move_from_string("e2e4q").unwrap(), Move::new(Square::E2, Square::E4, MoveType::Promotion, Some(PieceType::Queen)));
    assert_eq!(pos.move_from_string("e2e").unwrap_err(), "invalid move length");
    assert_eq!(pos.move_from_string("e2e4x").unwrap_err(), "invalid promotion piece");
    assert_eq!(pos.move_from_string("i2e4").unwrap_err(), "Invalid file char");
    assert_eq!(pos.move_from_string("e3e4").unwrap_err(), "no piece on the source square");
    let castle = Position::from_fen("r3k2r/8/8/8/8/8/8/R3K2R w KQkq - 0 1").unwrap();
    assert_eq!(castle.move_from_string("e1c1").unwrap(), Move::new(Square::E1, Square::C1, MoveType::Castling, None));
    let ep = Position::from_fen("4k3/8/8/3pP3/8/8/8/4K3 w - d6 0 1").unwrap();
    assert_eq!(ep.move_from_string("e5d6").unwrap(), Move::new(Square::E5, Square::D6, MoveType::EnPassant, None));
}

#[test]
fn fen_fits_detects_overflow() {
    assert!(Position::fen_fits(START));
    assert!(Position::fen_fits("8/8 w - - 0 1 extra fields"));
    // The full move number 0 gives no ply count, nor does 128.
    assert!(!Position::fen_fits("8/8/8/8/8/8/8/8 w - - 0 0"));
    assert!(!Position::fen_fits("8/8/8/8/8/8/8/8 w - - 0 128"));
    // A ninth rank would go below the first one.
    assert!(!Position::fen_fits("p7/8/8/8/8/8/8/8/8 w - - 0 1"));
    assert!(!Position::fen_fits("9p/8/8/8/8/8/8/8 w - - 0 1"));
    // A field that does not read makes the full move number irrelevant.
    assert!(Position::fen_fits("8/8/8/8/8/8/8/8 x - - 0 0"));
}

#[test]
fn move_text() {
    assert_eq!(Move::new(Square::E2, Square::E4, MoveType::Normal, None).to_str(), "e2e4");
    assert_eq!(Move::new(Square::A7, Square::A8, MoveType::Promotion, Some(PieceType::Knight)).to_str(), "a7a8n");
    assert_eq!(Move::null().to_str(), "a1a1");
}

#[test]
fn fen_of_positions_after_moves_reads_back() {
    let mut pos = Position::starting_position();
    for text in ["e2e4", "e7e5", "g1f3", "b8c6", "f1c4", "g8f6", "e1g1"] {
        let m = pos.move_from_string(text).unwrap();
        assert!(pos.can_make(m));
        pos.make_move(m);
        let fen = pos.to_fen();
        assert!(Position::fen_fits(&fen));
        assert_eq!(Position::from_fen(&fen).unwrap(), pos, "{}", fen);
    }
    assert_eq!(pos.to_fen(), "r1bqkb1r/pppp1ppp/2n2n2/4p3/2B1P3/5N2/PPPP1PPP/RNBQ1RK1 b kq - 5 4");
}
