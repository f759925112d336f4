use angelika::square::{File, Rank, Square};

#[test]
fn square_square_rank_and_file() {
    let sq = Square::G6;
    let r = Rank::R6;
    let f = File::G;
    assert_eq!(sq.rank(), r);
    assert_eq!(sq.file(), f);
    assert_eq!(Square::from_rank_and_file(r, f), sq);
}

#[test]
fn test_file_from_char() {
    assert_eq!(File::from_char('a'), Ok(File::A));
    assert_eq!(File::from_char('b'), Ok(File::B));
    assert_eq!(File::from_char('c'), Ok(File::C));
    assert_eq!(File::from_char('d'), Ok(File::D));
    assert_eq!(File::from_char('e'), Ok(File::E));
    assert_eq!(File::from_char('f'), Ok(File::F));
    assert_eq!(File::from_char('g'), Ok(File::G));
    assert_eq!(File::from_char('h'), Ok(File::H));

    assert!(File::from_char('x').is_err());
    assert!(File::from_char('1').is_err());
}

#[test]
fn test_rank_from_char() {
    assert_eq!(Rank::from_char('1'), Ok(Rank::R1));
    assert_eq!(Rank::from_char('2'), Ok(Rank::R2));
    assert_eq!(Rank::from_char('3'), Ok(Rank::R3));
    assert_eq!(Rank::from_char('4'), Ok(Rank::R4));
    assert_eq!(Rank::from_char('5'), Ok(Rank::R5));
    assert_eq!(Rank::from_char('6'), Ok(Rank::R6));
    assert_eq!(Rank::from_char('7'), Ok(Rank::R7));
    assert_eq!(Rank::from_char('8'), Ok(Rank::R8));

    assert!(Rank::from_char('0').is_err());
    assert!(Rank::from_char('9').is_err());
    assert!(Rank::from_char('a').is_err());
}

#[test]
fn test_square_from_chars() {
    assert_eq!(Square::from_chars("a1"), Ok(Square::A1));
    assert_eq!(Square::from_chars("e4"), Ok(Square::E4));
    assert_eq!(Square::from_chars("h8"), Ok(Square::H8));
    assert_eq!(Square::from_chars("a8"), Ok(Square::A8));
    assert_eq!(Square::from_chars("h1"), Ok(Square::H1));

    assert!(Square::from_chars("").is_err());
    assert!(Square::from_chars("a").is_err());
    assert!(Square::from_chars("x9").is_err());
}

#[test]
fn square_errors_name_the_problem() {
    assert_eq!(Square::from_chars(""), Err("Empty string"));
    assert_eq!(Square::from_chars("a"), Err("Missing rank"));
    assert_eq!(Square::from_chars("x9"), Err("Invalid file char"));
    assert_eq!(Square::from_chars("a9"), Err("Invalid rank number"));
    assert_eq!(Square::from_chars("e4extra"), Ok(Square::E4));
}

#[test]
fn square_index_arithmetic() {
    assert_eq!(Square::new(0), Square::A1);
    assert_eq!(Square::new(63), Square::H8);
    assert_eq!(Square::H1.next(), Square::A2);
    assert_eq!(Square::A2.previous(), Square::H1);
    assert_eq!(Square::E4 as u8, 28);
    assert_eq!(Square::E4.to_str(), "e4");
    assert_eq!(Rank::new(5), Rank::R6);
    assert_eq!(File::new(2), File::C);
    assert_eq!(Rank::R3.to_char(), '3');
    assert_eq!(File::F.to_char(), 'f');
    let all = Square::all();
    assert_eq!(all.len(), 64);
    assert_eq!(all[28], Square::E4);
}
