use angelika::piece::{Color, Piece, PieceType};

#[test]
fn piece_color() {
    assert_eq!(Color::White.switch(), Color::Black);
    assert_eq!(Color::Black.switch(), Color::White);
}

#[test]
fn piece_type() {
    for piece in &[
        Piece::WhitePawn,
        Piece::WhiteKnight,
        Piece::WhiteBishop,
        Piece::WhiteRook,
        Piece::WhiteQueen,
        Piece::WhiteKing,
    ] {
        assert_eq!(piece.color(), Color::White);
    }
    for piece in &[
        Piece::BlackPawn,
        Piece::BlackKnight,
        Piece::BlackBishop,
        Piece::BlackRook,
        Piece::BlackQueen,
        Piece::BlackKing,
    ] {
        assert_eq!(piece.color(), Color::Black);
    }
    for piece in &[Piece::WhitePawn, Piece::BlackPawn] {
        assert_eq!(piece.piece_type(), PieceType::Pawn);
    }
    for piece in &[Piece::WhiteKnight, Piece::BlackKnight] {
        assert_eq!(piece.piece_type(), PieceType::Knight);
    }
    for piece in &[Piece::WhiteBishop, Piece::BlackBishop] {
        assert_eq!(piece.piece_type(), PieceType::Bishop);
    }
    for piece in &[Piece::WhiteRook, Piece::BlackRook] {
        assert_eq!(piece.piece_type(), PieceType::Rook);
    }
    for piece in &[Piece::WhiteQueen, Piece::BlackQueen] {
        assert_eq!(piece.piece_type(), PieceType::Queen);
    }
    for piece in &[Piece::WhiteKing, Piece::BlackKing] {
        assert_eq!(piece.piece_type(), PieceType::King);
    }
}

#[test]
fn test_from_char() {
    assert_eq!(Piece::from_char('P'), Ok(Piece::WhitePawn));
    assert_eq!(Piece::from_char('N'), Ok(Piece::WhiteKnight));
    assert_eq!(Piece::from_char('B'), Ok(Piece::WhiteBishop));
    assert_eq!(Piece::from_char('R'), Ok(Piece::WhiteRook));
    assert_eq!(Piece::from_char('Q'), Ok(Piece::WhiteQueen));
    assert_eq!(Piece::from_char('K'), Ok(Piece::WhiteKing));
    assert_eq!(Piece::from_char('p'), Ok(Piece::BlackPawn));
    assert_eq!(Piece::from_char('n'), Ok(Piece::BlackKnight));
    assert_eq!(Piece::from_char('b'), Ok(Piece::BlackBishop));
    assert_eq!(Piece::from_char('r'), Ok(Piece::BlackRook));
    assert_eq!(Piece::from_char('q'), Ok(Piece::BlackQueen));
    assert_eq!(Piece::from_char('k'), Ok(Piece::BlackKing));

    // Invalid Chars
    assert!(Piece::from_char('x').is_err());
    assert!(Piece::from_char('1').is_err());
    assert!(Piece::from_char(' ').is_err());
}

#[test]
fn piece_codes() {
    assert_eq!(Piece::new(1), Piece::WhitePawn);
    assert_eq!(Piece::new(14), Piece::BlackKing);
    assert_eq!(Piece::new_from_color_and_type(Color::Black, PieceType::Rook), Piece::BlackRook);
    assert_eq!(PieceType::new(5), PieceType::Queen);
    assert_eq!(PieceType::Queen.code(), 5);
    assert_eq!(Piece::BlackKnight.to_char(), 'n');
    assert_eq!(Piece::from_char(' '), Err("Invalid piece char"));
    assert_eq!(Piece::from_char('x'), Err("invalid piece char"));
}
