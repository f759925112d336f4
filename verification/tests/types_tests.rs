use angelika::types::{Color, File, Rank, Square};

#[test]
fn types_square_rank_and_file() {
    let sq = Square::G6;
    let r = Rank::R6;
    let f = File::G;
    assert_eq!(sq.rank(), r);
    assert_eq!(sq.file(), f);
    assert_eq!(Square::from_rank_and_file(r, f), sq);
}

#[test]
fn types_color() {
    assert_eq!(Color::White.switch(), Color::Black);
    assert_eq!(Color::Black.switch(), Color::White);
}
