//! Angelika, a chess engine: bitboards and magic attack tables, positions with FEN reading
//! and writing, move generation and making, material evaluation, perft, and an alpha-beta
//! search with iterative deepening.
pub mod attacks;
pub mod bits;
pub mod bitboard;
pub mod castling;
pub mod chessmove;
pub mod chessmovelist;
pub mod evaluation;
pub mod magic;
pub mod perft;
pub mod piece;
pub mod position;
pub mod principal_variation;
pub mod pushes;
pub mod search;
pub mod search_parameters;
pub mod square;
pub mod text;
pub mod types;
