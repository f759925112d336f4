//! The basic board types in one place: squares, ranks, files, colors and pieces.
pub use crate::piece::{Color, Piece, PieceType};
pub use crate::square::{File, Rank, Square};
