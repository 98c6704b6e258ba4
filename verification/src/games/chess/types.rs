pub mod bitboard;
pub mod file;
pub mod rank;
pub mod square;
