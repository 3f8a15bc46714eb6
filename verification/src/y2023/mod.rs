pub mod d1;
pub mod d2;
pub mod d3;
