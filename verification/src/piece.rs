//! Colors, piece types and pieces.
use vstd::prelude::*;

verus! {

/// The color of a side.
#[derive(Copy, Clone, PartialEq, Eq, Debug, Structural)]
pub enum Color {
    White,
    Black,
}

impl Color {
    /// The number of colors.
    pub const NUM: usize = 2;

    /// The other color.
    pub open spec fn spec_switch(self) -> Color {
        match self {
            Color::White => Color::Black,
            Color::Black => Color::White,
        }
    }

    /// Switching twice gives the color back.
    pub proof fn lemma_switch_twice(self)
        ensures
            self.spec_switch().spec_switch() == self,
    {
    }

    /// The other color.
    #[verifier::when_used_as_spec(spec_switch)]
    pub fn switch(self) -> (c: Color)
        ensures
            c == self.spec_switch(),
            c != self,
            c as int == 1 - self as int,
    {
        match self {
            Color::White => Color::Black,
            Color::Black => Color::White,
        }
    }
}

/// The type of a piece, from pawn to king.
#[derive(Copy, Clone, PartialEq, Eq, Debug, Structural)]
pub enum PieceType {
    Pawn,
    Knight,
    Bishop,
    Rook,
    Queen,
    King,
}

/// The letter that shows a piece type: ` pkbrqK`, indexed by the type's code.
pub open spec fn piece_type_char(pt: PieceType) -> char {
    match pt {
        PieceType::Pawn => 'p',
        PieceType::Knight => 'k',
        PieceType::Bishop => 'b',
        PieceType::Rook => 'r',
        PieceType::Queen => 'q',
        PieceType::King => 'K',
    }
}

impl PieceType {
    /// The number of piece types.
    pub const NUM: usize = 6;

    /// All piece types, from pawn to king.
    pub fn all() -> (r: [PieceType; 6])
        ensures
            forall|i: int| 0 <= i < 6 ==> #[trigger] r[i] as int == i,
    {
        [
            PieceType::Pawn,
            PieceType::Knight,
            PieceType::Bishop,
            PieceType::Rook,
            PieceType::Queen,
            PieceType::King,
        ]
    }

    /// The piece type with code `i`: 1 for a pawn up to 6 for a king.
    pub fn new(i: u8) -> (pt: PieceType)
        requires
            1 <= i <= 6,
        ensures
            pt as int == i - 1,
    {
        match i {
            1 => PieceType::Pawn,
            2 => PieceType::Knight,
            3 => PieceType::Bishop,
            4 => PieceType::Rook,
            5 => PieceType::Queen,
            _ => PieceType::King,
        }
    }

    /// The code of the piece type: 1 for a pawn up to 6 for a king.
    pub fn code(self) -> (i: u8)
        ensures
            i as int == self as int + 1,
    {
        self as u8 + 1
    }

    /// The letter that shows the piece type.
    pub fn to_char(self) -> (c: char)
        ensures
            c == piece_type_char(self),
    {
        match self {
            PieceType::Pawn => 'p',
            PieceType::Knight => 'k',
            PieceType::Bishop => 'b',
            PieceType::Rook => 'r',
            PieceType::Queen => 'q',
            PieceType::King => 'K',
        }
    }
}

/// A piece: a color and a piece type. Its index (`as int`) is `6 * color + type`.
#[derive(Copy, Clone, PartialEq, Eq, Debug, Structural)]
pub enum Piece {
    WhitePawn,
    WhiteKnight,
    WhiteBishop,
    WhiteRook,
    WhiteQueen,
    WhiteKing,
    BlackPawn,
    BlackKnight,
    BlackBishop,
    BlackRook,
    BlackQueen,
    BlackKing,
}

/// The letter of a piece in FEN: `PNBRQK` for white, `pnbrqk` for black.
pub open spec fn piece_char(p: Piece) -> char {
    match p {
        Piece::WhitePawn => 'P',
        Piece::WhiteKnight => 'N',
        Piece::WhiteBishop => 'B',
        Piece::WhiteRook => 'R',
        Piece::WhiteQueen => 'Q',
        Piece::WhiteKing => 'K',
        Piece::BlackPawn => 'p',
        Piece::BlackKnight => 'n',
        Piece::BlackBishop => 'b',
        Piece::BlackRook => 'r',
        Piece::BlackQueen => 'q',
        Piece::BlackKing => 'k',
    }
}

/// `c` is the FEN letter of some piece.
pub open spec fn is_piece_char(c: char) -> bool {
    c == 'P' || c == 'N' || c == 'B' || c == 'R' || c == 'Q' || c == 'K' || c == 'p' || c == 'n'
        || c == 'b' || c == 'r' || c == 'q' || c == 'k'
}

/// The piece a FEN letter stands for (a black king for any other character).
pub open spec fn char_piece(c: char) -> Piece {
    if c == 'P' {
        Piece::WhitePawn
    } else if c == 'N' {
        Piece::WhiteKnight
    } else if c == 'B' {
        Piece::WhiteBishop
    } else if c == 'R' {
        Piece::WhiteRook
    } else if c == 'Q' {
        Piece::WhiteQueen
    } else if c == 'K' {
        Piece::WhiteKing
    } else if c == 'p' {
        Piece::BlackPawn
    } else if c == 'n' {
        Piece::BlackKnight
    } else if c == 'b' {
        Piece::BlackBishop
    } else if c == 'r' {
        Piece::BlackRook
    } else if c == 'q' {
        Piece::BlackQueen
    } else {
        Piece::BlackKing
    }
}

/// A piece is the one its letter stands for, and each letter is a piece letter.
pub proof fn lemma_char_piece(p: Piece)
    ensures
        char_piece(piece_char(p)) == p,
        is_piece_char(piece_char(p)),
{
}

/// The piece of color `c` and type `pt`.
pub open spec fn make_piece(c: Color, pt: PieceType) -> Piece {
    match c {
        Color::White => match pt {
            PieceType::Pawn => Piece::WhitePawn,
            PieceType::Knight => Piece::WhiteKnight,
            PieceType::Bishop => Piece::WhiteBishop,
            PieceType::Rook => Piece::WhiteRook,
            PieceType::Queen => Piece::WhiteQueen,
            PieceType::King => Piece::WhiteKing,
        },
        Color::Black => match pt {
            PieceType::Pawn => Piece::BlackPawn,
            PieceType::Knight => Piece::BlackKnight,
            PieceType::Bishop => Piece::BlackBishop,
            PieceType::Rook => Piece::BlackRook,
            PieceType::Queen => Piece::BlackQueen,
            PieceType::King => Piece::BlackKing,
        },
    }
}

/// The index of the piece with color `c` and type `pt`.
pub open spec fn piece_index(c: Color, pt: PieceType) -> int {
    6 * (c as int) + pt as int
}

impl Piece {
    /// The number of pieces.
    pub const NUM: usize = 12;

    /// The piece with code `i`: `8 * color + type code`, so 1 to 6 for white and 9 to 14 for
    /// black.
    pub fn new(i: u8) -> (p: Piece)
        requires
            1 <= i <= 6 || 9 <= i <= 14,
        ensures
            p as int == if i <= 6 {
                i - 1
            } else {
                i - 3
            },
    {
        match i {
            1 => Piece::WhitePawn,
            2 => Piece::WhiteKnight,
            3 => Piece::WhiteBishop,
            4 => Piece::WhiteRook,
            5 => Piece::WhiteQueen,
            6 => Piece::WhiteKing,
            9 => Piece::BlackPawn,
            10 => Piece::BlackKnight,
            11 => Piece::BlackBishop,
            12 => Piece::BlackRook,
            13 => Piece::BlackQueen,
            _ => Piece::BlackKing,
        }
    }

    /// The piece of color `c` and type `pt`.
    pub fn new_from_color_and_type(c: Color, pt: PieceType) -> (p: Piece)
        ensures
            p as int == piece_index(c, pt),
            p == make_piece(c, pt),
            p.color() == c,
            p.piece_type() == pt,
    {
        Self::new((c as u8) * 8 + pt.code())
    }

    /// Parses a piece from its FEN letter.
    pub fn from_char(c: char) -> (r: Result<Piece, &'static str>)
        ensures
            is_piece_char(c) ==> (r matches Ok(p) && piece_char(p) == c),
            c == ' ' ==> (r matches Err(e) && e@ == "Invalid piece char"@),
            !is_piece_char(c) && c != ' ' ==> (r matches Err(e) && e@ == "invalid piece char"@),
    {
        match c {
            'P' => Ok(Piece::WhitePawn),
            'N' => Ok(Piece::WhiteKnight),
            'B' => Ok(Piece::WhiteBishop),
            'R' => Ok(Piece::WhiteRook),
            'Q' => Ok(Piece::WhiteQueen),
            'K' => Ok(Piece::WhiteKing),
            'p' => Ok(Piece::BlackPawn),
            'n' => Ok(Piece::BlackKnight),
            'b' => Ok(Piece::BlackBishop),
            'r' => Ok(Piece::BlackRook),
            'q' => Ok(Piece::BlackQueen),
            'k' => Ok(Piece::BlackKing),
            ' ' => Err("Invalid piece char"),
            _ => Err("invalid piece char"),
        }
    }

    /// The FEN letter of the piece.
    pub fn to_char(self) -> (c: char)
        ensures
            c == piece_char(self),
    {
        match self {
            Piece::WhitePawn => 'P',
            Piece::WhiteKnight => 'N',
            Piece::WhiteBishop => 'B',
            Piece::WhiteRook => 'R',
            Piece::WhiteQueen => 'Q',
            Piece::WhiteKing => 'K',
            Piece::BlackPawn => 'p',
            Piece::BlackKnight => 'n',
            Piece::BlackBishop => 'b',
            Piece::BlackRook => 'r',
            Piece::BlackQueen => 'q',
            Piece::BlackKing => 'k',
        }
    }

    /// The type of the piece.
    #[verifier::when_used_as_spec(spec_piece_type)]
    pub fn piece_type(self) -> (pt: PieceType)
        ensures
            pt == self.spec_piece_type(),
            pt as int == self as int % 6,
    {
        PieceType::new(self as u8 % 6 + 1)
    }

    /// The type of the piece.
    pub open spec fn spec_piece_type(self) -> PieceType {
        match self {
            Piece::WhitePawn | Piece::BlackPawn => PieceType::Pawn,
            Piece::WhiteKnight | Piece::BlackKnight => PieceType::Knight,
            Piece::WhiteBishop | Piece::BlackBishop => PieceType::Bishop,
            Piece::WhiteRook | Piece::BlackRook => PieceType::Rook,
            Piece::WhiteQueen | Piece::BlackQueen => PieceType::Queen,
            Piece::WhiteKing | Piece::BlackKing => PieceType::King,
        }
    }

    /// The color of the piece.
    #[verifier::when_used_as_spec(spec_color)]
    pub fn color(self) -> (c: Color)
        ensures
            c == self.spec_color(),
            c as int == self as int / 6,
    {
        if (self as u8) < 6 {
            Color::White
        } else {
            Color::Black
        }
    }

    /// The color of the piece.
    pub open spec fn spec_color(self) -> Color {
        if (self as int) < 6 {
            Color::White
        } else {
            Color::Black
        }
    }
}

/// A piece's index is determined by its color and type.
pub proof fn lemma_piece_index(p: Piece)
    ensures
        p as int == piece_index(p.color(), p.piece_type()),
{
}

} // verus!
