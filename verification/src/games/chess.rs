pub mod board;
pub mod moves;
pub mod types;
pub mod util;

use crate::games::chess::board::Board;
use crate::games::chess::moves::Move;
use vstd::prelude::*;

verus! {

/// Chess, as far as it goes: a position that knows the side to move and
/// generates its moves. Making moves and telling the end of the game are
/// left to come, so the search cannot play it yet.
#[derive(Copy, Clone, PartialEq, Eq, Debug)]
pub struct Chess {
    board: Board,
}

impl Chess {
    pub closed spec fn spec_board(&self) -> Board {
        self.board
    }

    /// The position of the given board.
    pub fn new(board: Board) -> (chess: Chess)
        ensures
            chess.spec_board() == board,
    {
        Chess { board }
    }

    /// The board of the position.
    pub fn board(&self) -> (board: Board)
        ensures
            board == self.spec_board(),
    {
        self.board
    }

    /// The number of the side to move: 0 for white, 1 for black.
    pub fn side_to_move(&self) -> (side: usize)
        ensures
            side == self.spec_board().side(),
    {
        if self.board.side_to_move() {
            1
        } else {
            0
        }
    }

    /// The moves of the side to move, which has to have a king; see
    /// [`Board::spec_gen_moves`].
    pub fn get_legal_moves(&self) -> (moves: Vec<Move>)
        requires
            self.spec_board().king(self.spec_board().side()) != 0,
        ensures
            moves@ == self.spec_board().spec_gen_moves(),
    {
        self.board.gen_moves()
    }
}

} // verus!
