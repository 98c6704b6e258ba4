use crate::games::chess::types::bitboard::Bitboard;
use vstd::prelude::*;

verus! {

/// A file of the board, from the queen's side to the king's.
#[derive(Debug, Copy, Clone, PartialEq, Eq, Structural)]
pub enum File {
    A,
    B,
    C,
    D,
    E,
    F,
    G,
    H,
}

impl File {
    pub const NUM: usize = 8;

    /// The number of the file, counted from zero.
    pub open spec fn spec_index(self) -> int {
        match self {
            File::A => 0,
            File::B => 1,
            File::C => 2,
            File::D => 3,
            File::E => 4,
            File::F => 5,
            File::G => 6,
            File::H => 7,
        }
    }

    /// The file of the given number; numbers past the last file name the last.
    pub open spec fn spec_of(index: int) -> File {
        if index == 0 {
            File::A
        } else if index == 1 {
            File::B
        } else if index == 2 {
            File::C
        } else if index == 3 {
            File::D
        } else if index == 4 {
            File::E
        } else if index == 5 {
            File::F
        } else if index == 6 {
            File::G
        } else {
            File::H
        }
    }

    /// Numbering and naming undo each other.
    pub proof fn lemma_index(self)
        ensures
            0 <= self.spec_index() < 8,
            Self::spec_of(self.spec_index()) == self,
    {
    }

    #[verifier::when_used_as_spec(spec_index_usize)]
    pub fn index(self) -> (index: usize)
        ensures
            index == self.spec_index(),
            index < 8,
    {
        match self {
            File::A => 0,
            File::B => 1,
            File::C => 2,
            File::D => 3,
            File::E => 4,
            File::F => 5,
            File::G => 6,
            File::H => 7,
        }
    }

    pub open spec fn spec_index_usize(self) -> usize {
        self.spec_index() as usize
    }

    /// The file with the given number.
    pub fn of(index: usize) -> (file: File)
        requires
            index < 8,
        ensures
            file == Self::spec_of(index as int),
            file.spec_index() == index,
    {
        if index == 0 {
            File::A
        } else if index == 1 {
            File::B
        } else if index == 2 {
            File::C
        } else if index == 3 {
            File::D
        } else if index == 4 {
            File::E
        } else if index == 5 {
            File::F
        } else if index == 6 {
            File::G
        } else {
            File::H
        }
    }

    /// The squares of the file.
    pub fn bitboard(self) -> (board: Bitboard)
        ensures
            board.0 == 0x0101_0101_0101_0101u64 << (self.spec_index() as u64),
    {
        Bitboard(0x0101_0101_0101_0101u64 << (self.index() as u64))
    }
}

} // verus!
