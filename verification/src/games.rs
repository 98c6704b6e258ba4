pub mod chess;
pub mod connect4;
pub mod tictactoe;

pub use connect4::Connect4;
pub use tictactoe::TicTacToe;
