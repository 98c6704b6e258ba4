use crate::games::chess::types::bitboard::Bitboard;
use vstd::prelude::*;

verus! {

/// The numbers of the piece boards; boards 0 and 1 hold the pieces of either
/// side.
pub struct Piece;

impl Piece {
    pub const PAWN: usize = 2;

    pub const KNIGHT: usize = 3;

    pub const BISHOP: usize = 4;

    pub const ROOK: usize = 5;

    pub const QUEEN: usize = 6;

    pub const KING: usize = 7;
}

/// The kinds of move. A promotion adds `PROMOTION`, and the piece promoted to
/// in the two low bits, to `QUIET` or `CAPTURE`.
pub struct Flag;

impl Flag {
    pub const QUIET: u8 = 0;

    pub const DOUBLE_PAWN: u8 = 1;

    pub const QUEEN_CASTLE: u8 = 2;

    pub const KING_CASTLE: u8 = 3;

    pub const CAPTURE: u8 = 4;

    pub const EN_PASSANT: u8 = 5;

    pub const PROMOTION: u8 = 8;
}

/// The castling rights, one bit each.
pub struct Castle;

impl Castle {
    pub const BLACK_KING: u8 = 1;

    pub const BLACK_QUEEN: u8 = 2;

    pub const WHITE_KING: u8 = 4;

    pub const WHITE_QUEEN: u8 = 8;

    /// The rights of the given side.
    pub open spec fn spec_rights(side: int) -> u8 {
        if side == 0 {
            12
        } else {
            3
        }
    }

    /// The squares of the given side's back rank that castling looks at:
    /// those on the files b, c and d for wing 0, those on the files f and g
    /// for wing 1.
    pub open spec fn spec_mask(side: int, wing: int) -> u64 {
        if side == 0 {
            if wing == 0 {
                0b0000_1110
            } else {
                0b0110_0000
            }
        } else {
            if wing == 0 {
                0x0e00_0000_0000_0000
            } else {
                0x6000_0000_0000_0000
            }
        }
    }

    /// The castling rights of the given side.
    pub fn rights(side: usize) -> (rights: u8)
        requires
            side < 2,
        ensures
            rights == Self::spec_rights(side as int),
    {
        if side == 0 {
            12
        } else {
            3
        }
    }

    /// The squares of the given side's back rank that castling looks at, see
    /// [`Castle::spec_mask`].
    pub fn mask(side: usize, wing: usize) -> (mask: Bitboard)
        requires
            side < 2,
            wing < 2,
        ensures
            mask.0 == Self::spec_mask(side as int, wing as int),
    {
        if side == 0 {
            if wing == 0 {
                Bitboard(0b0000_1110)
            } else {
                Bitboard(0b0110_0000)
            }
        } else {
            if wing == 0 {
                Bitboard(0x0e00_0000_0000_0000)
            } else {
                Bitboard(0x6000_0000_0000_0000)
            }
        }
    }
}

} // verus!
