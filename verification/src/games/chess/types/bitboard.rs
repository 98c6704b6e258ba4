use crate::games::chess::types::square::Square;
use vstd::prelude::*;

verus! {

/// Sixty-four bits, one per square of the board: bit `8 * rank + file`.
#[derive(Debug, Copy, Clone, PartialEq, Eq, Structural)]
pub struct Bitboard(pub u64);

impl Default for Bitboard {
    fn default() -> (board: Self)
        ensures
            board.0 == 0,
    {
        Bitboard(0)
    }
}

/// The bytes of `x` in reverse order.
pub open spec fn spec_swap_bytes(x: u64) -> u64 {
    ((x & 0xff) << 56) | ((x & 0xff00) << 40) | ((x & 0xff_0000) << 24) | ((x & 0xff00_0000) << 8)
        | ((x >> 8) & 0xff00_0000) | ((x >> 24) & 0xff_0000) | ((x >> 40) & 0xff00) | ((x >> 56)
        & 0xff)
}

impl Bitboard {
    /// The lowest square of the board; it is there to be asked of a board
    /// that is not empty.
    pub fn trailing_zeros(&self) -> (square: Square)
        requires
            self.0 != 0,
        ensures
            square.spec_index() == self.0.trailing_zeros(),
            (self.0 >> (square.spec_index() as u64)) & 1 == 1,
    {
        broadcast use vstd::std_specs::bits::axiom_u64_trailing_zeros;

        let zeros = self.0.trailing_zeros();
        Square::of(zeros as usize)
    }

    /// The board with its ranks in reverse order.
    pub fn swap_bytes(self) -> (swapped: Bitboard)
        ensures
            swapped.0 == spec_swap_bytes(self.0),
    {
        let x = self.0;
        Bitboard(
            ((x & 0xff) << 56) | ((x & 0xff00) << 40) | ((x & 0xff_0000) << 24) | ((x
                & 0xff00_0000) << 8) | ((x >> 8) & 0xff00_0000) | ((x >> 24) & 0xff_0000) | ((x
                >> 40) & 0xff00) | ((x >> 56) & 0xff),
        )
    }

    /// The difference of the two boards read as numbers, modulo two to the
    /// sixty-fourth.
    pub fn wrapping_sub(self, rhs: Bitboard) -> (difference: Bitboard)
        ensures
            difference.0 == self.0.wrapping_sub(rhs.0),
    {
        Bitboard(self.0.wrapping_sub(rhs.0))
    }

    /// The board moved by one rank: up the ranks when `side_to_move` is set,
    /// down when it is not. What leaves the board is lost.
    pub fn shift(&self, side_to_move: bool) -> (shifted: Bitboard)
        ensures
            shifted.0 == if side_to_move {
                self.0 << 8
            } else {
                self.0 >> 8
            },
    {
        if side_to_move {
            Bitboard(self.0 << 8)
        } else {
            Bitboard(self.0 >> 8)
        }
    }
}

} // verus!
