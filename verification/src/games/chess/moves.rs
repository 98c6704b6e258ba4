use crate::games::chess::types::bitboard::{spec_swap_bytes, Bitboard};
use crate::games::chess::types::square::Square;
use vstd::prelude::*;

verus! {

/// A move from one square to another; `flag` says what kind of move it is.
#[derive(Copy, Clone, PartialEq, Eq, Debug, Structural)]
pub struct Move {
    pub from: Square,
    pub to: Square,
    pub flag: u8,
}

impl Move {
    /// The code of the move: the square it starts from in the low six bits,
    /// the square it ends on in the next six, and the flag above them.
    pub open spec fn spec_code(self) -> u16 {
        (self.from.spec_index() + 64 * self.to.spec_index() + 4096 * (self.flag as int % 16)) as u16
    }

    /// The move with the given code.
    pub open spec fn spec_decode(code: u16) -> Move {
        Move {
            from: Square::spec_of(code as int % 64),
            to: Square::spec_of((code as int / 64) % 64),
            flag: (code as int / 4096) as u8,
        }
    }

    /// A move whose flag fits into four bits is the move its code stands for.
    pub proof fn lemma_code(self)
        requires
            self.flag < 16,
        ensures
            Self::spec_decode(self.spec_code()) == self,
    {
        self.from.lemma_index();
        self.to.lemma_index();
        let f = self.from.spec_index();
        let t = self.to.spec_index();
        let g = self.flag as int;
        let code = f + 64 * t + 4096 * g;
        assert(code % 64 == f && (code / 64) % 64 == t && code / 4096 == g) by (nonlinear_arith)
            requires
                code == f + 64 * t + 4096 * g,
                0 <= f < 64,
                0 <= t < 64,
                0 <= g < 16,
        ;
    }
}

impl From<u16> for Move {
    fn from(code: u16) -> (mov: Move)
        ensures
            mov == Move::spec_decode(code),
    {
        Move {
            from: Square::of((code % 64) as usize),
            to: Square::of(((code / 64) % 64) as usize),
            flag: (code / 4096) as u8,
        }
    }
}

impl vstd::std_specs::convert::FromSpecImpl<u16> for Move {
    open spec fn obeys_from_spec() -> bool {
        true
    }

    open spec fn from_spec(code: u16) -> Move {
        Move::spec_decode(code)
    }
}

impl From<Move> for u16 {
    fn from(mov: Move) -> (code: u16)
        ensures
            code == mov.spec_code(),
    {
        (mov.from.index() + 64 * mov.to.index() + 4096 * ((mov.flag % 16) as usize)) as u16
    }
}

impl vstd::std_specs::convert::FromSpecImpl<Move> for u16 {
    open spec fn obeys_from_spec() -> bool {
        true
    }

    open spec fn from_spec(mov: Move) -> u16 {
        mov.spec_code()
    }
}

/// The squares of file A.
pub const FILE_A: u64 = 0x0101_0101_0101_0101;

/// The squares of file H.
pub const FILE_H: u64 = 0x8080_8080_8080_8080;

/// The squares a king on `square` attacks.
pub open spec fn spec_king_moves(square: u64) -> u64 {
    let own = 1u64 << square;
    let column = own | (own << 8) | (own >> 8);
    let block = column | ((column & !FILE_A) >> 1) | ((column & !FILE_H) << 1);
    block ^ own
}

/// The squares a knight on `square` attacks.
pub open spec fn spec_knight_moves(square: u64) -> u64 {
    let own = 1u64 << square;
    let near = ((own >> 1) & !FILE_H) | ((own << 1) & !FILE_A);
    let far = ((own >> 2) & 0x3f3f_3f3f_3f3f_3f3f) | ((own << 2) & 0xfcfc_fcfc_fcfc_fcfc);
    (near << 16) | (near >> 16) | (far << 8) | (far >> 8)
}

/// The squares a pawn of the given side on `square` attacks: up the board
/// for side 0, down the board for any other.
pub open spec fn spec_pawn_attacks(square: u64, side: int) -> u64 {
    let own = 1u64 << square;
    if side == 0 {
        ((own & !FILE_A) << 7) | ((own & !FILE_H) << 9)
    } else {
        ((own & !FILE_A) >> 9) | ((own & !FILE_H) >> 7)
    }
}

/// The squares a slider on `own` reaches along `line`, a file or diagonal
/// through its square without the square itself, when the pieces of
/// `occupancy` stand in its way: up to and including the first piece in
/// either direction.
pub open spec fn spec_line_moves(occupancy: u64, line: u64, own: u64) -> u64 {
    let blockers = occupancy & line;
    let up = blockers.wrapping_sub(own);
    let down = spec_swap_bytes(spec_swap_bytes(blockers).wrapping_sub(spec_swap_bytes(own)));
    (up ^ down) & line
}

/// The squares of the file of `square`, without the square itself.
pub open spec fn spec_file_line(square: u64) -> u64 {
    (1u64 << square) ^ (FILE_A << (square & 7))
}

/// The squares of diagonal `k`, counted from the corner A8 to the corner H1.
pub open spec fn spec_diagonal(k: u64) -> u64 {
    if k == 0 {
        0x0100_0000_0000_0000
    } else if k == 1 {
        0x0201_0000_0000_0000
    } else if k == 2 {
        0x0402_0100_0000_0000
    } else if k == 3 {
        0x0804_0201_0000_0000
    } else if k == 4 {
        0x1008_0402_0100_0000
    } else if k == 5 {
        0x2010_0804_0201_0000
    } else if k == 6 {
        0x4020_1008_0402_0100
    } else if k == 7 {
        0x8040_2010_0804_0201
    } else if k == 8 {
        0x0080_4020_1008_0402
    } else if k == 9 {
        0x0000_8040_2010_0804
    } else if k == 10 {
        0x0000_0080_4020_1008
    } else if k == 11 {
        0x0000_0000_8040_2010
    } else if k == 12 {
        0x0000_0000_0080_4020
    } else if k == 13 {
        0x0000_0000_0000_8040
    } else {
        0x0000_0000_0000_0080
    }
}

/// The squares of the rising diagonal through `square`, without the square
/// itself.
pub open spec fn spec_diagonal_line(square: u64) -> u64 {
    (1u64 << square) ^ spec_diagonal(((7 + (square & 7)) - (square >> 3)) as u64)
}

/// The squares of the falling diagonal through `square`, without the square
/// itself.
pub open spec fn spec_anti_diagonal_line(square: u64) -> u64 {
    (1u64 << square) ^ spec_swap_bytes(spec_diagonal(((square & 7) + (square >> 3)) as u64))
}

/// The squares that a slider on file `file` of a rank reaches towards file A
/// from file `at` on, among the eight bits of the rank: up to and including
/// the first piece of `occupancy`.
pub open spec fn spec_rank_down(occupancy: u64, at: int) -> u64
    decreases at + 1,
{
    if at < 0 {
        0
    } else if occupancy & (1u64 << (at as u64)) != 0 {
        1u64 << (at as u64)
    } else {
        (1u64 << (at as u64)) | spec_rank_down(occupancy, at - 1)
    }
}

/// The same towards file H.
pub open spec fn spec_rank_up(occupancy: u64, at: int) -> u64
    decreases 8 - at,
{
    if at >= 8 || at < 0 {
        0
    } else if occupancy & (1u64 << (at as u64)) != 0 {
        1u64 << (at as u64)
    } else {
        (1u64 << (at as u64)) | spec_rank_up(occupancy, at + 1)
    }
}

/// The squares a rook on file `file` reaches along its rank, among the eight
/// bits of the rank. Pieces on the files A and H stop nothing, since nothing
/// lies beyond them.
pub open spec fn spec_rank_moves(file: u64, occupancy: u64) -> u64 {
    spec_rank_down(occupancy & 126, file - 1) | spec_rank_up(occupancy & 126, file + 1)
}

/// The squares a rook on `square` attacks when the pieces of `occupancy`
/// stand in its way.
pub open spec fn spec_rook_moves(square: u64, occupancy: u64) -> u64 {
    spec_line_moves(occupancy, spec_file_line(square), 1u64 << square) | (spec_rank_moves(
        square & 7,
        occupancy >> (square & 56),
    ) << (square & 56))
}

/// The squares a bishop on `square` attacks when the pieces of `occupancy`
/// stand in its way.
pub open spec fn spec_bishop_moves(square: u64, occupancy: u64) -> u64 {
    spec_line_moves(occupancy, spec_diagonal_line(square), 1u64 << square) | spec_line_moves(
        occupancy,
        spec_anti_diagonal_line(square),
        1u64 << square,
    )
}

/// A king attacks the squares next to its own: those that differ from it
/// by one file at most and one rank at most.
pub proof fn lemma_king_moves(square: u64, target: u64)
    by (bit_vector)
    requires
        square < 64,
        target < 64,
    ensures
        ((spec_king_moves(square) >> target) & 1 == 1) <==> (target != square && (target & 7)
            <= (square & 7) + 1 && (square & 7) <= (target & 7) + 1 && (target >> 3) <= (square
            >> 3) + 1 && (square >> 3) <= (target >> 3) + 1),
{
}

/// A knight attacks the squares that lie two files and one rank from its
/// own, or one file and two ranks.
pub proof fn lemma_knight_moves(square: u64, target: u64)
    by (bit_vector)
    requires
        square < 64,
        target < 64,
    ensures
        ((spec_knight_moves(square) >> target) & 1 == 1) <==> ((((target & 7) == (square & 7) + 1
            || (square & 7) == (target & 7) + 1) && ((target >> 3) == (square >> 3) + 2 || (square
            >> 3) == (target >> 3) + 2)) || (((target & 7) == (square & 7) + 2 || (square & 7) == (
        target & 7) + 2) && ((target >> 3) == (square >> 3) + 1 || (square >> 3) == (target >> 3)
            + 1))),
{
}

/// A pawn attacks the two squares that lie one file from its own on the
/// next rank: the rank above for white, the rank below for black.
pub proof fn lemma_pawn_attacks(square: u64, target: u64)
    by (bit_vector)
    requires
        square < 64,
        target < 64,
    ensures
        ((spec_pawn_attacks(square, 0) >> target) & 1 == 1) <==> (((target & 7) == (square & 7)
            + 1 || (square & 7) == (target & 7) + 1) && (target >> 3) == (square >> 3) + 1),
        ((spec_pawn_attacks(square, 1) >> target) & 1 == 1) <==> (((target & 7) == (square & 7)
            + 1 || (square & 7) == (target & 7) + 1) && (square >> 3) == (target >> 3) + 1),
{
}

/// Along its file a rook reaches the squares that no piece separates from
/// its own.
pub proof fn lemma_file_moves(square: u64, target: u64, occupancy: u64)
    by (bit_vector)
    requires
        square < 64,
        target < 64,
    ensures
        ((spec_line_moves(occupancy, spec_file_line(square), 1u64 << square) >> target) & 1 == 1)
            <==> (target != square && (target & 7) == (square & 7) && if target > square {
            occupancy & spec_file_line(square) & (((1u64 << target) - (2u64 << square)) as u64)
                == 0
        } else {
            occupancy & spec_file_line(square) & (((1u64 << square) - (2u64 << target)) as u64)
                == 0
        }),
{
}

/// Along its rising diagonal a bishop reaches the squares that no piece
/// separates from its own.
pub proof fn lemma_diagonal_moves(square: u64, target: u64, occupancy: u64)
    by (bit_vector)
    requires
        square < 64,
        target < 64,
    ensures
        ((spec_line_moves(occupancy, spec_diagonal_line(square), 1u64 << square) >> target) & 1
            == 1) <==> (target != square && (target & 7) + (square >> 3) == (square & 7) + (target
            >> 3) && if target > square {
            occupancy & spec_diagonal_line(square) & (((1u64 << target) - (2u64 << square)) as u64)
                == 0
        } else {
            occupancy & spec_diagonal_line(square) & (((1u64 << square) - (2u64 << target)) as u64)
                == 0
        }),
{
}

/// Along its falling diagonal a bishop reaches the squares that no piece
/// separates from its own.
pub proof fn lemma_anti_diagonal_moves(square: u64, target: u64, occupancy: u64)
    by (bit_vector)
    requires
        square < 64,
        target < 64,
    ensures
        ((spec_line_moves(occupancy, spec_anti_diagonal_line(square), 1u64 << square) >> target)
            & 1 == 1) <==> (target != square && (target & 7) + (target >> 3) == (square & 7) + (
        square >> 3) && if target > square {
            occupancy & spec_anti_diagonal_line(square) & (((1u64 << target) - (2u64
                << square)) as u64) == 0
        } else {
            occupancy & spec_anti_diagonal_line(square) & (((1u64 << square) - (2u64
                << target)) as u64) == 0
        }),
{
}

/// The squares that a king on `square` attacks, see [`lemma_king_moves`].
pub fn get_king_moves(square: Square) -> (moves: Bitboard)
    ensures
        moves.0 == spec_king_moves(square.spec_index() as u64),
{
    let own = 1u64 << (square.index() as u64);
    let column = own | (own << 8) | (own >> 8);
    let block = column | ((column & !FILE_A) >> 1) | ((column & !FILE_H) << 1);
    Bitboard(block ^ own)
}

/// The squares that a knight on `square` attacks, see [`lemma_knight_moves`].
pub fn get_knight_moves(square: Square) -> (moves: Bitboard)
    ensures
        moves.0 == spec_knight_moves(square.spec_index() as u64),
{
    let own = 1u64 << (square.index() as u64);
    let near = ((own >> 1) & !FILE_H) | ((own << 1) & !FILE_A);
    let far = ((own >> 2) & 0x3f3f_3f3f_3f3f_3f3f) | ((own << 2) & 0xfcfc_fcfc_fcfc_fcfc);
    Bitboard((near << 16) | (near >> 16) | (far << 8) | (far >> 8))
}

/// The squares that a pawn of the given side on `square` attacks, see
/// [`lemma_pawn_attacks`].
pub fn get_pawn_attacks(square: Square, side: usize) -> (attacks: Bitboard)
    requires
        side < 2,
    ensures
        attacks.0 == spec_pawn_attacks(square.spec_index() as u64, side as int),
{
    let own = 1u64 << (square.index() as u64);
    if side == 0 {
        Bitboard(((own & !FILE_A) << 7) | ((own & !FILE_H) << 9))
    } else {
        Bitboard(((own & !FILE_A) >> 9) | ((own & !FILE_H) >> 7))
    }
}

fn diagonal(k: u64) -> (squares: u64)
    requires
        k < 15,
    ensures
        squares == spec_diagonal(k),
{
    if k == 0 {
        0x0100_0000_0000_0000
    } else if k == 1 {
        0x0201_0000_0000_0000
    } else if k == 2 {
        0x0402_0100_0000_0000
    } else if k == 3 {
        0x0804_0201_0000_0000
    } else if k == 4 {
        0x1008_0402_0100_0000
    } else if k == 5 {
        0x2010_0804_0201_0000
    } else if k == 6 {
        0x4020_1008_0402_0100
    } else if k == 7 {
        0x8040_2010_0804_0201
    } else if k == 8 {
        0x0080_4020_1008_0402
    } else if k == 9 {
        0x0000_8040_2010_0804
    } else if k == 10 {
        0x0000_0080_4020_1008
    } else if k == 11 {
        0x0000_0000_8040_2010
    } else if k == 12 {
        0x0000_0000_0080_4020
    } else if k == 13 {
        0x0000_0000_0000_8040
    } else {
        0x0000_0000_0000_0080
    }
}

fn line_moves(occupancy: Bitboard, line: Bitboard, own: Bitboard) -> (moves: Bitboard)
    ensures
        moves.0 == spec_line_moves(occupancy.0, line.0, own.0),
{
    let mut forward = Bitboard(occupancy.0 & line.0);
    let mut reverse = forward.swap_bytes();
    forward = forward.wrapping_sub(own);
    reverse = reverse.wrapping_sub(own.swap_bytes());
    Bitboard((forward.0 ^ reverse.swap_bytes().0) & line.0)
}

fn rank_moves(file: u64, occupancy: u64) -> (moves: u64)
    requires
        file < 8,
    ensures
        moves == spec_rank_moves(file, occupancy),
{
    let inner = occupancy & 126;
    let mut down: u64 = 0;
    // `at` is one more than the file that is looked at next.
    let mut at: u64 = file;
    let mut blocked = false;
    proof {
        let ghost all = spec_rank_down(inner, file - 1);
        assert(0u64 | all == all) by (bit_vector);
    }
    while at > 0 && !blocked
        invariant
            at <= file < 8,
            blocked ==> spec_rank_down(inner, file - 1) == down,
            !blocked ==> spec_rank_down(inner, file - 1) == down | spec_rank_down(inner, at - 1),
        decreases at + (if blocked { 0int } else { 1int }),
    {
        let bit = 1u64 << (at - 1);
        proof {
            let ghost rest = spec_rank_down(inner, at - 2);
            assert(bit == 1u64 << (((at - 1) as int) as u64));
            assert(down | (bit | rest) == (down | bit) | rest) by (bit_vector);
            if at == 1 {
                assert(rest == 0);
                assert((down | bit) | 0u64 == down | bit) by (bit_vector);
            }
        }
        down = down | bit;
        if inner & bit != 0 {
            blocked = true;
        } else {
            at = at - 1;
        }
    }
    proof {
        if !blocked {
            assert(down | 0u64 == down) by (bit_vector);
        }
    }
    let mut up: u64 = 0;
    let mut next: u64 = file + 1;
    blocked = false;
    proof {
        let ghost all = spec_rank_up(inner, file + 1);
        assert(0u64 | all == all) by (bit_vector);
    }
    while next < 8 && !blocked
        invariant
            file < next <= 8,
            blocked ==> spec_rank_up(inner, file + 1) == up,
            !blocked ==> spec_rank_up(inner, file + 1) == up | spec_rank_up(inner, next as int),
        decreases 8 - next + (if blocked { 0int } else { 1int }),
    {
        let bit = 1u64 << next;
        proof {
            let ghost rest = spec_rank_up(inner, next + 1);
            assert(bit == 1u64 << ((next as int) as u64));
            assert(up | (bit | rest) == (up | bit) | rest) by (bit_vector);
        }
        up = up | bit;
        if inner & bit != 0 {
            blocked = true;
        } else {
            next = next + 1;
        }
    }
    proof {
        if !blocked {
            assert(up | 0u64 == up) by (bit_vector);
        }
    }
    down | up
}

/// The squares that a rook on `square` attacks: along its file, see
/// [`lemma_file_moves`], and along its rank, see [`spec_rank_moves`].
pub fn get_rook_moves(square: Square, occupancy: Bitboard) -> (moves: Bitboard)
    ensures
        moves.0 == spec_rook_moves(square.spec_index() as u64, occupancy.0),
{
    let at = square.index() as u64;
    let own = Bitboard(1u64 << at);
    assert(at & 7 < 8 && at & 56 < 64) by (bit_vector);
    let line = Bitboard(own.0 ^ (FILE_A << (at & 7)));
    let file = line_moves(occupancy, line, own);
    let rank = rank_moves(at & 7, occupancy.0 >> (at & 56)) << (at & 56);
    Bitboard(file.0 | rank)
}

/// The squares that a bishop on `square` attacks, see
/// [`lemma_diagonal_moves`] and [`lemma_anti_diagonal_moves`].
pub fn get_bishop_moves(square: Square, occupancy: Bitboard) -> (moves: Bitboard)
    ensures
        moves.0 == spec_bishop_moves(square.spec_index() as u64, occupancy.0),
{
    let at = square.index() as u64;
    let own = Bitboard(1u64 << at);
    assert(at & 7 < 8 && at >> 3 < 8) by (bit_vector)
        requires
            at < 64,
    ;
    let file = at & 7;
    let rank = at >> 3;
    let rising = Bitboard(own.0 ^ diagonal(7 + file - rank));
    let falling = Bitboard(own.0 ^ Bitboard(diagonal(file + rank)).swap_bytes().0);
    let first = line_moves(occupancy, rising, own);
    let second = line_moves(occupancy, falling, own);
    Bitboard(first.0 | second.0)
}

/// The squares that a queen on `square` attacks: those of a bishop and
/// those of a rook.
pub fn get_queen_moves(square: Square, occupancy: Bitboard) -> (moves: Bitboard)
    ensures
        moves.0 == spec_bishop_moves(square.spec_index() as u64, occupancy.0) | spec_rook_moves(
            square.spec_index() as u64,
            occupancy.0,
        ),
{
    let bishop = get_bishop_moves(square, occupancy);
    let rook = get_rook_moves(square, occupancy);
    Bitboard(bishop.0 | rook.0)
}

} // verus!
