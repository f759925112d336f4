//! Squares, ranks and files of the chess board.
//!
//! Squares are numbered from 0 (a1) to 63 (h8), rank by rank: the index of a square is
//! `8 * rank + file`, with ranks and files counted from 0.
use vstd::prelude::*;

verus! {

/// A square of the board, from a1 (index 0) to h8 (index 63), rank by rank.
#[derive(Copy, Clone, PartialEq, Eq, Debug, Structural)]
pub enum Square {
    A1, B1, C1, D1, E1, F1, G1, H1,
    A2, B2, C2, D2, E2, F2, G2, H2,
    A3, B3, C3, D3, E3, F3, G3, H3,
    A4, B4, C4, D4, E4, F4, G4, H4,
    A5, B5, C5, D5, E5, F5, G5, H5,
    A6, B6, C6, D6, E6, F6, G6, H6,
    A7, B7, C7, D7, E7, F7, G7, H7,
    A8, B8, C8, D8, E8, F8, G8, H8,
}

/// A rank, from the first to the eighth.
#[derive(Copy, Clone, PartialEq, Eq, Debug, Structural)]
pub enum Rank {
    R1, R2, R3, R4, R5, R6, R7, R8,
}

/// A file, from a to h.
#[derive(Copy, Clone, PartialEq, Eq, PartialOrd, Ord, Debug, Structural)]
pub enum File {
    A, B, C, D, E, F, G, H,
}

/// The rank (0..8) of the square with index `i`.
pub open spec fn rank_of(i: int) -> int {
    i / 8
}

/// The file (0..8) of the square with index `i`.
pub open spec fn file_of(i: int) -> int {
    i % 8
}

/// `c` names a rank: one of `1` to `8`.
pub open spec fn is_rank_char(c: char) -> bool {
    '1' <= c <= '8'
}

/// `c` names a file: one of `a` to `h`.
pub open spec fn is_file_char(c: char) -> bool {
    'a' <= c <= 'h'
}

/// The letter of file `f` (0 for `a`).
pub open spec fn file_char(f: int) -> char {
    if f == 0 {
        'a'
    } else if f == 1 {
        'b'
    } else if f == 2 {
        'c'
    } else if f == 3 {
        'd'
    } else if f == 4 {
        'e'
    } else if f == 5 {
        'f'
    } else if f == 6 {
        'g'
    } else {
        'h'
    }
}

/// The digit of rank `r` (0 for `1`).
pub open spec fn rank_char(r: int) -> char {
    if r == 0 {
        '1'
    } else if r == 1 {
        '2'
    } else if r == 2 {
        '3'
    } else if r == 3 {
        '4'
    } else if r == 4 {
        '5'
    } else if r == 5 {
        '6'
    } else if r == 6 {
        '7'
    } else {
        '8'
    }
}

/// The name of the square with index `i`, such as `e4`.
pub open spec fn square_name(i: int) -> Seq<char> {
    seq![file_char(file_of(i)), rank_char(rank_of(i))]
}

/// What a square name reads as: the square index, or the message of the first problem.
pub open spec fn parse_square(s: Seq<char>) -> Result<int, Seq<char>> {
    if s.len() == 0 {
        Err("Empty string"@)
    } else if !is_file_char(s[0]) {
        Err("Invalid file char"@)
    } else if s.len() == 1 {
        Err("Missing rank"@)
    } else if !is_rank_char(s[1]) {
        Err("Invalid rank number"@)
    } else {
        Ok(8 * (s[1] as int - '1' as int) + (s[0] as int - 'a' as int))
    }
}

/// A square is the one on its rank and file, and its name reads back as the square.
pub proof fn lemma_square_parts(i: int)
    requires
        0 <= i < 64,
    ensures
        8 * rank_of(i) + file_of(i) == i,
        0 <= rank_of(i) < 8,
        0 <= file_of(i) < 8,
        parse_square(square_name(i)) == Ok::<int, Seq<char>>(i),
{
    let n = square_name(i);
    assert(n[0] == file_char(file_of(i)));
    assert(n[1] == rank_char(rank_of(i)));
    assert(is_file_char(file_char(file_of(i))) && file_char(file_of(i)) as int - 'a' as int == file_of(i));
    assert(is_rank_char(rank_char(rank_of(i))) && rank_char(rank_of(i)) as int - '1' as int == rank_of(i));
}

impl Rank {
    pub const NUM: usize = 8;

    /// The rank with number `v` (0 for the first rank).
    pub fn new(v: u8) -> (r: Rank)
        requires
            v < 8,
        ensures
            r as u8 == v,
    {
        match v {
            0 => Rank::R1,
            1 => Rank::R2,
            2 => Rank::R3,
            3 => Rank::R4,
            4 => Rank::R5,
            5 => Rank::R6,
            6 => Rank::R7,
            _ => Rank::R8,
        }
    }

    /// Parses a rank from its digit `1` to `8`.
    pub fn from_char(c: char) -> (r: Result<Rank, &'static str>)
        ensures
            is_rank_char(c) ==> (r matches Ok(rank) && rank as int == c as int - '1' as int),
            !is_rank_char(c) ==> (r matches Err(e) && e@ == "Invalid rank number"@),
    {
        match c {
            '1' => Ok(Rank::R1),
            '2' => Ok(Rank::R2),
            '3' => Ok(Rank::R3),
            '4' => Ok(Rank::R4),
            '5' => Ok(Rank::R5),
            '6' => Ok(Rank::R6),
            '7' => Ok(Rank::R7),
            '8' => Ok(Rank::R8),
            _ => Err("Invalid rank number"),
        }
    }

    /// The digit that names this rank.
    pub fn to_char(self) -> (c: char)
        ensures
            c as int == '1' as int + self as int,
            c == rank_char(self as int),
            is_rank_char(c),
    {
        match self {
            Rank::R1 => '1',
            Rank::R2 => '2',
            Rank::R3 => '3',
            Rank::R4 => '4',
            Rank::R5 => '5',
            Rank::R6 => '6',
            Rank::R7 => '7',
            Rank::R8 => '8',
        }
    }
}

impl File {
    pub const NUM: usize = 8;

    /// The file with number `v` (0 for the a-file).
    pub fn new(v: u8) -> (f: File)
        requires
            v < 8,
        ensures
            f as u8 == v,
    {
        match v {
            0 => File::A,
            1 => File::B,
            2 => File::C,
            3 => File::D,
            4 => File::E,
            5 => File::F,
            6 => File::G,
            _ => File::H,
        }
    }

    /// Parses a file from its letter `a` to `h`.
    pub fn from_char(c: char) -> (r: Result<File, &'static str>)
        ensures
            is_file_char(c) ==> (r matches Ok(file) && file as int == c as int - 'a' as int),
            !is_file_char(c) ==> (r matches Err(e) && e@ == "Invalid file char"@),
    {
        match c {
            'a' => Ok(File::A),
            'b' => Ok(File::B),
            'c' => Ok(File::C),
            'd' => Ok(File::D),
            'e' => Ok(File::E),
            'f' => Ok(File::F),
            'g' => Ok(File::G),
            'h' => Ok(File::H),
            _ => Err("Invalid file char"),
        }
    }

    /// The letter that names this file.
    pub fn to_char(self) -> (c: char)
        ensures
            c as int == 'a' as int + self as int,
            c == file_char(self as int),
            is_file_char(c),
    {
        match self {
            File::A => 'a',
            File::B => 'b',
            File::C => 'c',
            File::D => 'd',
            File::E => 'e',
            File::F => 'f',
            File::G => 'g',
            File::H => 'h',
        }
    }
}

impl Square {
    pub const NUM: usize = 64;

    /// The square with index `v`.
    pub fn new(v: u8) -> (s: Square)
        requires
            v < 64,
        ensures
            s as u8 == v,
    {
        match v {
            0 => Square::A1,
            1 => Square::B1,
            2 => Square::C1,
            3 => Square::D1,
            4 => Square::E1,
            5 => Square::F1,
            6 => Square::G1,
            7 => Square::H1,
            8 => Square::A2,
            9 => Square::B2,
            10 => Square::C2,
            11 => Square::D2,
            12 => Square::E2,
            13 => Square::F2,
            14 => Square::G2,
            15 => Square::H2,
            16 => Square::A3,
            17 => Square::B3,
            18 => Square::C3,
            19 => Square::D3,
            20 => Square::E3,
            21 => Square::F3,
            22 => Square::G3,
            23 => Square::H3,
            24 => Square::A4,
            25 => Square::B4,
            26 => Square::C4,
            27 => Square::D4,
            28 => Square::E4,
            29 => Square::F4,
            30 => Square::G4,
            31 => Square::H4,
            32 => Square::A5,
            33 => Square::B5,
            34 => Square::C5,
            35 => Square::D5,
            36 => Square::E5,
            37 => Square::F5,
            38 => Square::G5,
            39 => Square::H5,
            40 => Square::A6,
            41 => Square::B6,
            42 => Square::C6,
            43 => Square::D6,
            44 => Square::E6,
            45 => Square::F6,
            46 => Square::G6,
            47 => Square::H6,
            48 => Square::A7,
            49 => Square::B7,
            50 => Square::C7,
            51 => Square::D7,
            52 => Square::E7,
            53 => Square::F7,
            54 => Square::G7,
            55 => Square::H7,
            56 => Square::A8,
            57 => Square::B8,
            58 => Square::C8,
            59 => Square::D8,
            60 => Square::E8,
            61 => Square::F8,
            62 => Square::G8,
            _ => Square::H8,
        }
    }

    /// All squares, by index.
    pub fn all() -> (r: Vec<Square>)
        ensures
            r.len() == 64,
            forall|i: int| 0 <= i < 64 ==> #[trigger] r[i] as int == i,
    {
        vec![
            Square::A1, Square::B1, Square::C1, Square::D1, Square::E1, Square::F1, Square::G1, Square::H1,
            Square::A2, Square::B2, Square::C2, Square::D2, Square::E2, Square::F2, Square::G2, Square::H2,
            Square::A3, Square::B3, Square::C3, Square::D3, Square::E3, Square::F3, Square::G3, Square::H3,
            Square::A4, Square::B4, Square::C4, Square::D4, Square::E4, Square::F4, Square::G4, Square::H4,
            Square::A5, Square::B5, Square::C5, Square::D5, Square::E5, Square::F5, Square::G5, Square::H5,
            Square::A6, Square::B6, Square::C6, Square::D6, Square::E6, Square::F6, Square::G6, Square::H6,
            Square::A7, Square::B7, Square::C7, Square::D7, Square::E7, Square::F7, Square::G7, Square::H7,
            Square::A8, Square::B8, Square::C8, Square::D8, Square::E8, Square::F8, Square::G8, Square::H8,
        ]
    }

    /// The rank of the square.
    pub fn rank(self) -> (r: Rank)
        ensures
            r as int == rank_of(self as int),
    {
        Rank::new(self as u8 / 8)
    }

    /// The file of the square.
    pub fn file(self) -> (f: File)
        ensures
            f as int == file_of(self as int),
    {
        File::new(self as u8 % 8)
    }

    /// The square on rank `r` and file `f`.
    pub fn from_rank_and_file(r: Rank, f: File) -> (s: Square)
        ensures
            s as int == 8 * (r as int) + f as int,
    {
        Square::new(8 * (r as u8) + f as u8)
    }

    /// Parses a square from its name, a file letter followed by a rank digit (`e4`).
    /// Characters after the first two are not read.
    pub fn from_chars(s: &str) -> (r: Result<Square, &'static str>)
        ensures
            match r {
                Ok(sq) => parse_square(s@) == Ok::<int, Seq<char>>(sq as int),
                Err(e) => parse_square(s@) == Err::<int, Seq<char>>(e@),
            },
    {
        broadcast use vstd::string::axiom_spec_iter, vstd::string::next_postcondition;

        let mut chars = s.chars();
        let first = chars.next();
        let c0 = match first {
            Some(c) => c,
            None => {
                return Err("Empty string");
            },
        };
        let file = match File::from_char(c0) {
            Ok(f) => f,
            Err(e) => {
                return Err(e);
            },
        };
        let second = chars.next();
        let c1 = match second {
            Some(c) => c,
            None => {
                return Err("Missing rank");
            },
        };
        let rank = match Rank::from_char(c1) {
            Ok(rk) => rk,
            Err(e) => {
                return Err(e);
            },
        };
        Ok(Square::from_rank_and_file(rank, file))
    }

    /// The square with the next index (`h1` is followed by `a2`).
    pub fn next(self) -> (s: Square)
        requires
            (self as int) < 63,
        ensures
            s as int == self as int + 1,
    {
        Square::new((self as u8).wrapping_add(1))
    }

    /// The square with the previous index (`a2` is preceded by `h1`).
    pub fn previous(self) -> (s: Square)
        requires
            (self as int) > 0,
        ensures
            s as int == self as int - 1,
    {
        Square::new((self as u8).wrapping_sub(1))
    }

    /// The name of the square, such as `e4`.
    pub fn to_str(self) -> (s: String)
        ensures
            s@ == square_name(self as int),
    {
        let mut s = String::new();
        crate::text::push_char(&mut s, self.file().to_char());
        crate::text::push_char(&mut s, self.rank().to_char());
        assert(s@ =~= square_name(self as int));
        s
    }
}

} // verus!
