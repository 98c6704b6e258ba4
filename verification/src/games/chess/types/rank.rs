use crate::games::chess::types::bitboard::Bitboard;
use vstd::prelude::*;

verus! {

/// A rank of the board, from white's side to black's.
#[derive(Debug, Copy, Clone, PartialEq, Eq, Structural)]
pub enum Rank {
    First,
    Second,
    Third,
    Fourth,
    Fifth,
    Sixth,
    Seventh,
    Eighth,
}

impl Rank {
    pub const NUM: usize = 8;

    /// The number of the rank, counted from zero.
    pub open spec fn spec_index(self) -> int {
        match self {
            Rank::First => 0,
            Rank::Second => 1,
            Rank::Third => 2,
            Rank::Fourth => 3,
            Rank::Fifth => 4,
            Rank::Sixth => 5,
            Rank::Seventh => 6,
            Rank::Eighth => 7,
        }
    }

    /// The rank of the given number; numbers past the last rank name the last.
    pub open spec fn spec_of(index: int) -> Rank {
        if index == 0 {
            Rank::First
        } else if index == 1 {
            Rank::Second
        } else if index == 2 {
            Rank::Third
        } else if index == 3 {
            Rank::Fourth
        } else if index == 4 {
            Rank::Fifth
        } else if index == 5 {
            Rank::Sixth
        } else if index == 6 {
            Rank::Seventh
        } else {
            Rank::Eighth
        }
    }

    /// Numbering and naming undo each other.
    pub proof fn lemma_index(self)
        ensures
            0 <= self.spec_index() < 8,
            Self::spec_of(self.spec_index()) == self,
    {
    }

    #[verifier::when_used_as_spec(spec_index_usize)]
    pub fn index(self) -> (index: usize)
        ensures
            index == self.spec_index(),
            index < 8,
    {
        match self {
            Rank::First => 0,
            Rank::Second => 1,
            Rank::Third => 2,
            Rank::Fourth => 3,
            Rank::Fifth => 4,
            Rank::Sixth => 5,
            Rank::Seventh => 6,
            Rank::Eighth => 7,
        }
    }

    pub open spec fn spec_index_usize(self) -> usize {
        self.spec_index() as usize
    }

    /// The rank with the given number.
    pub fn of(index: usize) -> (rank: Rank)
        requires
            index < 8,
        ensures
            rank == Self::spec_of(index as int),
            rank.spec_index() == index,
    {
        if index == 0 {
            Rank::First
        } else if index == 1 {
            Rank::Second
        } else if index == 2 {
            Rank::Third
        } else if index == 3 {
            Rank::Fourth
        } else if index == 4 {
            Rank::Fifth
        } else if index == 5 {
            Rank::Sixth
        } else if index == 6 {
            Rank::Seventh
        } else {
            Rank::Eighth
        }
    }

    /// The rank a pawn of the given side is promoted from.
    pub fn promo(side: usize) -> (rank: Rank)
        requires
            side < 2,
        ensures
            rank == if side == 0 {
                Rank::Seventh
            } else {
                Rank::Second
            },
    {
        if side == 0 {
            Rank::Seventh
        } else {
            Rank::Second
        }
    }

    /// The rank a pawn of the given side is promoted on.
    pub fn end(side: usize) -> (rank: Rank)
        requires
            side < 2,
        ensures
            rank == if side == 0 {
                Rank::Eighth
            } else {
                Rank::First
            },
    {
        if side == 0 {
            Rank::Eighth
        } else {
            Rank::First
        }
    }

    /// The squares of the rank.
    pub fn bitboard(self) -> (board: Bitboard)
        ensures
            board.0 == 0xffu64 << ((8 * self.spec_index()) as u64),
    {
        Bitboard(0xffu64 << ((8 * self.index()) as u64))
    }
}

} // verus!
