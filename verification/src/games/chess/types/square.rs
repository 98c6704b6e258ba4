use crate::games::chess::types::bitboard::Bitboard;
use crate::games::chess::types::file::File;
use crate::games::chess::types::rank::Rank;
use vstd::prelude::*;

verus! {

/// A square of the board, numbered rank by rank from A1.
#[derive(Debug, Copy, Clone, PartialEq, Eq, Structural)]
pub enum Square {
    A1,
    B1,
    C1,
    D1,
    E1,
    F1,
    G1,
    H1,
    A2,
    B2,
    C2,
    D2,
    E2,
    F2,
    G2,
    H2,
    A3,
    B3,
    C3,
    D3,
    E3,
    F3,
    G3,
    H3,
    A4,
    B4,
    C4,
    D4,
    E4,
    F4,
    G4,
    H4,
    A5,
    B5,
    C5,
    D5,
    E5,
    F5,
    G5,
    H5,
    A6,
    B6,
    C6,
    D6,
    E6,
    F6,
    G6,
    H6,
    A7,
    B7,
    C7,
    D7,
    E7,
    F7,
    G7,
    H7,
    A8,
    B8,
    C8,
    D8,
    E8,
    F8,
    G8,
    H8,
}

impl Square {
    pub const NUM: usize = 64;

    /// The number of the square, counted from zero.
    pub open spec fn spec_index(self) -> int {
        match self {
            Square::A1 => 0,
            Square::B1 => 1,
            Square::C1 => 2,
            Square::D1 => 3,
            Square::E1 => 4,
            Square::F1 => 5,
            Square::G1 => 6,
            Square::H1 => 7,
            Square::A2 => 8,
            Square::B2 => 9,
            Square::C2 => 10,
            Square::D2 => 11,
            Square::E2 => 12,
            Square::F2 => 13,
            Square::G2 => 14,
            Square::H2 => 15,
            Square::A3 => 16,
            Square::B3 => 17,
            Square::C3 => 18,
            Square::D3 => 19,
            Square::E3 => 20,
            Square::F3 => 21,
            Square::G3 => 22,
            Square::H3 => 23,
            Square::A4 => 24,
            Square::B4 => 25,
            Square::C4 => 26,
            Square::D4 => 27,
            Square::E4 => 28,
            Square::F4 => 29,
            Square::G4 => 30,
            Square::H4 => 31,
            Square::A5 => 32,
            Square::B5 => 33,
            Square::C5 => 34,
            Square::D5 => 35,
            Square::E5 => 36,
            Square::F5 => 37,
            Square::G5 => 38,
            Square::H5 => 39,
            Square::A6 => 40,
            Square::B6 => 41,
            Square::C6 => 42,
            Square::D6 => 43,
            Square::E6 => 44,
            Square::F6 => 45,
            Square::G6 => 46,
            Square::H6 => 47,
            Square::A7 => 48,
            Square::B7 => 49,
            Square::C7 => 50,
            Square::D7 => 51,
            Square::E7 => 52,
            Square::F7 => 53,
            Square::G7 => 54,
            Square::H7 => 55,
            Square::A8 => 56,
            Square::B8 => 57,
            Square::C8 => 58,
            Square::D8 => 59,
            Square::E8 => 60,
            Square::F8 => 61,
            Square::G8 => 62,
            Square::H8 => 63,
        }
    }

    /// The square of the given number; numbers past the last square name the last.
    pub open spec fn spec_of(index: int) -> Square {
        if index == 0 {
            Square::A1
        } else if index == 1 {
            Square::B1
        } else if index == 2 {
            Square::C1
        } else if index == 3 {
            Square::D1
        } else if index == 4 {
            Square::E1
        } else if index == 5 {
            Square::F1
        } else if index == 6 {
            Square::G1
        } else if index == 7 {
            Square::H1
        } else if index == 8 {
            Square::A2
        } else if index == 9 {
            Square::B2
        } else if index == 10 {
            Square::C2
        } else if index == 11 {
            Square::D2
        } else if index == 12 {
            Square::E2
        } else if index == 13 {
            Square::F2
        } else if index == 14 {
            Square::G2
        } else if index == 15 {
            Square::H2
        } else if index == 16 {
            Square::A3
        } else if index == 17 {
            Square::B3
        } else if index == 18 {
            Square::C3
        } else if index == 19 {
            Square::D3
        } else if index == 20 {
            Square::E3
        } else if index == 21 {
            Square::F3
        } else if index == 22 {
            Square::G3
        } else if index == 23 {
            Square::H3
        } else if index == 24 {
            Square::A4
        } else if index == 25 {
            Square::B4
        } else if index == 26 {
            Square::C4
        } else if index == 27 {
            Square::D4
        } else if index == 28 {
            Square::E4
        } else if index == 29 {
            Square::F4
        } else if index == 30 {
            Square::G4
        } else if index == 31 {
            Square::H4
        } else if index == 32 {
            Square::A5
        } else if index == 33 {
            Square::B5
        } else if index == 34 {
            Square::C5
        } else if index == 35 {
            Square::D5
        } else if index == 36 {
            Square::E5
        } else if index == 37 {
            Square::F5
        } else if index == 38 {
            Square::G5
        } else if index == 39 {
            Square::H5
        } else if index == 40 {
            Square::A6
        } else if index == 41 {
            Square::B6
        } else if index == 42 {
            Square::C6
        } else if index == 43 {
            Square::D6
        } else if index == 44 {
            Square::E6
        } else if index == 45 {
            Square::F6
        } else if index == 46 {
            Square::G6
        } else if index == 47 {
            Square::H6
        } else if index == 48 {
            Square::A7
        } else if index == 49 {
            Square::B7
        } else if index == 50 {
            Square::C7
        } else if index == 51 {
            Square::D7
        } else if index == 52 {
            Square::E7
        } else if index == 53 {
            Square::F7
        } else if index == 54 {
            Square::G7
        } else if index == 55 {
            Square::H7
        } else if index == 56 {
            Square::A8
        } else if index == 57 {
            Square::B8
        } else if index == 58 {
            Square::C8
        } else if index == 59 {
            Square::D8
        } else if index == 60 {
            Square::E8
        } else if index == 61 {
            Square::F8
        } else if index == 62 {
            Square::G8
        } else {
            Square::H8
        }
    }

    /// The square of a number has that number.
    pub proof fn lemma_of(index: int)
        requires
            0 <= index < 64,
        ensures
            Self::spec_of(index).spec_index() == index,
    {
    }

    /// Numbering and naming undo each other.
    pub proof fn lemma_index(self)
        ensures
            0 <= self.spec_index() < 64,
            Self::spec_of(self.spec_index()) == self,
    {
    }

    #[verifier::when_used_as_spec(spec_index_usize)]
    pub fn index(self) -> (index: usize)
        ensures
            index == self.spec_index(),
            index < 64,
    {
        match self {
            Square::A1 => 0,
            Square::B1 => 1,
            Square::C1 => 2,
            Square::D1 => 3,
            Square::E1 => 4,
            Square::F1 => 5,
            Square::G1 => 6,
            Square::H1 => 7,
            Square::A2 => 8,
            Square::B2 => 9,
            Square::C2 => 10,
            Square::D2 => 11,
            Square::E2 => 12,
            Square::F2 => 13,
            Square::G2 => 14,
            Square::H2 => 15,
            Square::A3 => 16,
            Square::B3 => 17,
            Square::C3 => 18,
            Square::D3 => 19,
            Square::E3 => 20,
            Square::F3 => 21,
            Square::G3 => 22,
            Square::H3 => 23,
            Square::A4 => 24,
            Square::B4 => 25,
            Square::C4 => 26,
            Square::D4 => 27,
            Square::E4 => 28,
            Square::F4 => 29,
            Square::G4 => 30,
            Square::H4 => 31,
            Square::A5 => 32,
            Square::B5 => 33,
            Square::C5 => 34,
            Square::D5 => 35,
            Square::E5 => 36,
            Square::F5 => 37,
            Square::G5 => 38,
            Square::H5 => 39,
            Square::A6 => 40,
            Square::B6 => 41,
            Square::C6 => 42,
            Square::D6 => 43,
            Square::E6 => 44,
            Square::F6 => 45,
            Square::G6 => 46,
            Square::H6 => 47,
            Square::A7 => 48,
            Square::B7 => 49,
            Square::C7 => 50,
            Square::D7 => 51,
            Square::E7 => 52,
            Square::F7 => 53,
            Square::G7 => 54,
            Square::H7 => 55,
            Square::A8 => 56,
            Square::B8 => 57,
            Square::C8 => 58,
            Square::D8 => 59,
            Square::E8 => 60,
            Square::F8 => 61,
            Square::G8 => 62,
            Square::H8 => 63,
        }
    }

    pub open spec fn spec_index_usize(self) -> usize {
        self.spec_index() as usize
    }

    /// The square with the given number.
    pub fn of(index: usize) -> (square: Square)
        requires
            index < 64,
        ensures
            square == Self::spec_of(index as int),
            square.spec_index() == index,
    {
        if index == 0 {
            Square::A1
        } else if index == 1 {
            Square::B1
        } else if index == 2 {
            Square::C1
        } else if index == 3 {
            Square::D1
        } else if index == 4 {
            Square::E1
        } else if index == 5 {
            Square::F1
        } else if index == 6 {
            Square::G1
        } else if index == 7 {
            Square::H1
        } else if index == 8 {
            Square::A2
        } else if index == 9 {
            Square::B2
        } else if index == 10 {
            Square::C2
        } else if index == 11 {
            Square::D2
        } else if index == 12 {
            Square::E2
        } else if index == 13 {
            Square::F2
        } else if index == 14 {
            Square::G2
        } else if index == 15 {
            Square::H2
        } else if index == 16 {
            Square::A3
        } else if index == 17 {
            Square::B3
        } else if index == 18 {
            Square::C3
        } else if index == 19 {
            Square::D3
        } else if index == 20 {
            Square::E3
        } else if index == 21 {
            Square::F3
        } else if index == 22 {
            Square::G3
        } else if index == 23 {
            Square::H3
        } else if index == 24 {
            Square::A4
        } else if index == 25 {
            Square::B4
        } else if index == 26 {
            Square::C4
        } else if index == 27 {
            Square::D4
        } else if index == 28 {
            Square::E4
        } else if index == 29 {
            Square::F4
        } else if index == 30 {
            Square::G4
        } else if index == 31 {
            Square::H4
        } else if index == 32 {
            Square::A5
        } else if index == 33 {
            Square::B5
        } else if index == 34 {
            Square::C5
        } else if index == 35 {
            Square::D5
        } else if index == 36 {
            Square::E5
        } else if index == 37 {
            Square::F5
        } else if index == 38 {
            Square::G5
        } else if index == 39 {
            Square::H5
        } else if index == 40 {
            Square::A6
        } else if index == 41 {
            Square::B6
        } else if index == 42 {
            Square::C6
        } else if index == 43 {
            Square::D6
        } else if index == 44 {
            Square::E6
        } else if index == 45 {
            Square::F6
        } else if index == 46 {
            Square::G6
        } else if index == 47 {
            Square::H6
        } else if index == 48 {
            Square::A7
        } else if index == 49 {
            Square::B7
        } else if index == 50 {
            Square::C7
        } else if index == 51 {
            Square::D7
        } else if index == 52 {
            Square::E7
        } else if index == 53 {
            Square::F7
        } else if index == 54 {
            Square::G7
        } else if index == 55 {
            Square::H7
        } else if index == 56 {
            Square::A8
        } else if index == 57 {
            Square::B8
        } else if index == 58 {
            Square::C8
        } else if index == 59 {
            Square::D8
        } else if index == 60 {
            Square::E8
        } else if index == 61 {
            Square::F8
        } else if index == 62 {
            Square::G8
        } else {
            Square::H8
        }
    }

    /// The board that holds this square alone.
    pub fn bitboard(self) -> (board: Bitboard)
        ensures
            board.0 == 1u64 << (self.spec_index() as u64),
    {
        Bitboard(1u64 << (self.index() as u64))
    }

    /// The file of the square.
    pub fn file(self) -> (file: File)
        ensures
            file.spec_index() == self.spec_index() % 8,
    {
        File::of(self.index() % 8)
    }

    /// The rank of the square.
    pub fn rank(self) -> (rank: Rank)
        ensures
            rank.spec_index() == self.spec_index() / 8,
    {
        Rank::of(self.index() / 8)
    }

    /// The square `SHIFT` places on: towards A1 when `side_to_move` is set,
    /// towards H8 when it is not. The square has to lie on the board.
    pub fn shift<const SHIFT: usize>(self, side_to_move: bool) -> (square: Square)
        requires
            side_to_move ==> SHIFT <= self.spec_index(),
            !side_to_move ==> self.spec_index() + SHIFT < 64,
        ensures
            square.spec_index() == if side_to_move {
                self.spec_index() - SHIFT
            } else {
                self.spec_index() + SHIFT
            },
    {
        if side_to_move {
            Square::of(self.index() - SHIFT)
        } else {
            Square::of(self.index() + SHIFT)
        }
    }
}

} // verus!
