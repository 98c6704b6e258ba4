use crate::games::chess::moves::{
    get_bishop_moves, get_king_moves, get_knight_moves, get_pawn_attacks, get_queen_moves,
    get_rook_moves, spec_bishop_moves, spec_king_moves, spec_knight_moves, spec_pawn_attacks,
    spec_rook_moves, Move,
};
use crate::games::chess::types::bitboard::Bitboard;
use crate::games::chess::types::rank::Rank;
use crate::games::chess::types::square::Square;
use crate::games::chess::util::{Castle, Flag, Piece};
use vstd::prelude::*;

verus! {

/// A chess position. Boards 0 and 1 hold the pieces of white and of black,
/// boards 2 to 7 the pawns, knights, bishops, rooks, queens and kings of
/// both; `side_to_move` is set when black is to move.
#[derive(Copy, Clone, PartialEq, Eq, Debug)]
pub struct Board {
    pub side_to_move: bool,
    bitboards: [Bitboard; 8],
    half_moves: u8,
    castle_rights: u8,
    en_passant_rank: u8,
    check: bool,
    hash: u64,
}

/// The moves that `each` gives for the squares of `mask` from square `from`
/// on, lowest square first.
pub open spec fn spec_gather(mask: u64, from: int, each: spec_fn(Square) -> Seq<Move>) -> Seq<Move>
    decreases 64 - from,
{
    if from < 0 || from >= 64 {
        Seq::empty()
    } else if (mask >> (from as u64)) & 1 == 1 {
        each(Square::spec_of(from)) + spec_gather(mask, from + 1, each)
    } else {
        spec_gather(mask, from + 1, each)
    }
}

/// The move from `from` to a square, as a function of that square.
pub open spec fn each_target(from: Square, flag: u8) -> spec_fn(Square) -> Seq<Move> {
    |to: Square| seq![Move { from, to, flag }]
}

/// The promotions from `from` to a square, as a function of that square.
pub open spec fn each_promotion(from: Square, kind: u8) -> spec_fn(Square) -> Seq<Move> {
    |to: Square| spec_promotion(from, to, kind)
}

/// The moves from `from` to each square of `targets`, lowest first.
pub open spec fn spec_targets(from: Square, targets: u64, flag: u8) -> Seq<Move> {
    spec_gather(targets, 0, each_target(from, flag))
}

/// The four promotions of a pawn that goes from `from` to `to`: to knight,
/// bishop, rook and queen.
pub open spec fn spec_promotion(from: Square, to: Square, kind: u8) -> Seq<Move> {
    seq![
        Move { from, to, flag: 0 | kind },
        Move { from, to, flag: 1 | kind },
        Move { from, to, flag: 2 | kind },
        Move { from, to, flag: 3 | kind },
    ]
}

/// The promotions from `from` to each square of `targets`, lowest first.
pub open spec fn spec_promotions(from: Square, targets: u64, kind: u8) -> Seq<Move> {
    spec_gather(targets, 0, each_promotion(from, kind))
}

/// `mask` without its lowest square.
pub open spec fn spec_rest(mask: u64) -> u64 {
    mask & ((mask - 1) as u64)
}

proof fn lemma_lowest_bit(mask: u64, lowest: u64, j: u64)
    by (bit_vector)
    requires
        lowest < 64,
        j < 64,
        (mask >> lowest) & 1 == 1,
        lowest == 0 || mask << ((64 - lowest) as u64) == 0,
    ensures
        mask != 0,
        j < lowest ==> (mask >> j) & 1 == 0,
        ((mask & ((mask - 1) as u64)) >> j) & 1 == (if j == lowest {
            0
        } else {
            (mask >> j) & 1
        }),
{
}

proof fn lemma_gather_skip(mask: u64, from: int, to: int, each: spec_fn(Square) -> Seq<Move>)
    requires
        0 <= from <= to <= 64,
        forall|j: u64| from <= j < to ==> (mask >> j) & 1 == 0,
    ensures
        spec_gather(mask, from, each) == spec_gather(mask, to, each),
    decreases to - from,
{
    if from < to {
        assert((mask >> (from as u64)) & 1 == 0);
        lemma_gather_skip(mask, from + 1, to, each);
    }
}

proof fn lemma_gather_same(
    mask: u64,
    other: u64,
    from: int,
    each: spec_fn(Square) -> Seq<Move>,
)
    requires
        0 <= from <= 64,
        forall|j: u64| from <= j < 64 ==> (mask >> j) & 1 == (other >> j) & 1,
    ensures
        spec_gather(mask, from, each) == spec_gather(other, from, each),
    decreases 64 - from,
{
    if from < 64 {
        assert((mask >> (from as u64)) & 1 == (other >> (from as u64)) & 1);
        lemma_gather_same(mask, other, from + 1, each);
    }
}

/// Gathering starts with the lowest square of the mask and goes on with the
/// rest of it.
proof fn lemma_gather_lowest(mask: u64, each: spec_fn(Square) -> Seq<Move>)
    requires
        mask != 0,
    ensures
        mask.trailing_zeros() < 64,
        spec_gather(mask, 0, each) == each(Square::spec_of(mask.trailing_zeros() as int))
            + spec_gather(spec_rest(mask), 0, each),
{
    broadcast use vstd::std_specs::bits::axiom_u64_trailing_zeros;

    let lowest = mask.trailing_zeros() as u64;
    let rest = spec_rest(mask);
    assert(lowest < 64);
    assert((mask >> lowest) & 1 == 1);
    assert(lowest == 0 || mask << ((64 - lowest) as u64) == 0);
    assert forall|j: u64| 0 <= j < lowest implies (mask >> j) & 1 == 0 by {
        lemma_lowest_bit(mask, lowest, j);
    }
    assert forall|j: u64| 0 <= j < lowest + 1 implies (rest >> j) & 1 == 0 by {
        lemma_lowest_bit(mask, lowest, j);
    }
    assert forall|j: u64| lowest + 1 <= j < 64 implies (mask >> j) & 1 == (rest >> j) & 1 by {
        lemma_lowest_bit(mask, lowest, j);
    }
    lemma_gather_skip(mask, 0, lowest as int, each);
    lemma_gather_skip(rest, 0, lowest + 1, each);
    lemma_gather_same(mask, rest, lowest + 1, each);
}

proof fn lemma_gather_none(each: spec_fn(Square) -> Seq<Move>)
    ensures
        spec_gather(0, 0, each) == Seq::<Move>::empty(),
{
    assert forall|j: u64| 0 <= j < 64 implies (0u64 >> j) & 1 == 0 by {
        assert((0u64 >> j) & 1 == 0) by (bit_vector);
    }
    lemma_gather_skip(0, 0, 64, each);
}

/// Takes the lowest square off `rest`.
fn pop(rest: &mut Bitboard) -> (square: Square)
    requires
        old(rest).0 != 0,
    ensures
        square == Square::spec_of(old(rest).0.trailing_zeros() as int),
        final(rest).0 == spec_rest(old(rest).0),
        final(rest).0 < old(rest).0,
{
    let mask = rest.0;
    assert(mask & ((mask - 1) as u64) < mask) by (bit_vector)
        requires
            mask != 0,
    ;
    let square = rest.trailing_zeros();
    rest.0 = mask & (mask - 1);
    proof {
        square.lemma_index();
        Square::spec_of(mask.trailing_zeros() as int).lemma_index();
    }
    square
}

fn push_targets(moves: &mut Vec<Move>, from: Square, targets: Bitboard, flag: u8)
    ensures
        final(moves)@ == old(moves)@ + spec_targets(from, targets.0, flag),
{
    let ghost each = each_target(from, flag);
    let mut rest = targets;
    while rest.0 != 0
        invariant
            each == each_target(from, flag),
            moves@ + spec_gather(rest.0, 0, each) == old(moves)@ + spec_gather(targets.0, 0, each),
        decreases rest.0,
    {
        let ghost before = moves@;
        let ghost mask = rest.0;
        proof {
            lemma_gather_lowest(mask, each);
        }
        let to = pop(&mut rest);
        moves.push(Move { from, to, flag });
        proof {
            assert(moves@ + spec_gather(rest.0, 0, each) =~= before + (each(to) + spec_gather(
                rest.0,
                0,
                each,
            )));
        }
    }
    proof {
        lemma_gather_none(each);
        assert(moves@ + Seq::<Move>::empty() =~= moves@);
    }
}

fn push_promotions(moves: &mut Vec<Move>, from: Square, targets: Bitboard, kind: u8)
    ensures
        final(moves)@ == old(moves)@ + spec_promotions(from, targets.0, kind),
{
    let ghost each = each_promotion(from, kind);
    let mut rest = targets;
    while rest.0 != 0
        invariant
            each == each_promotion(from, kind),
            moves@ + spec_gather(rest.0, 0, each) == old(moves)@ + spec_gather(targets.0, 0, each),
        decreases rest.0,
    {
        let ghost before = moves@;
        let ghost mask = rest.0;
        proof {
            lemma_gather_lowest(mask, each);
        }
        let to = pop(&mut rest);
        push_promotion(moves, from, to, kind);
        proof {
            assert(moves@ + spec_gather(rest.0, 0, each) =~= before + (each(to) + spec_gather(
                rest.0,
                0,
                each,
            )));
        }
    }
    proof {
        lemma_gather_none(each);
        assert(moves@ + Seq::<Move>::empty() =~= moves@);
    }
}

fn push_promotion(moves: &mut Vec<Move>, from: Square, to: Square, kind: u8)
    ensures
        final(moves)@ == old(moves)@ + spec_promotion(from, to, kind),
{
    let mut piece: u8 = 0;
    while piece < 4
        invariant
            piece <= 4,
            moves@ == old(moves)@ + spec_promotion(from, to, kind).take(piece as int),
        decreases 4 - piece,
    {
        moves.push(Move { from, to, flag: piece | kind });
        piece = piece + 1;
        proof {
            assert(moves@ =~= old(moves)@ + spec_promotion(from, to, kind).take(piece as int));
        }
    }
    proof {
        assert(spec_promotion(from, to, kind).take(4) =~= spec_promotion(from, to, kind));
    }
}

impl Default for Board {
    fn default() -> (board: Self)
        ensures
            board == Board::spec_new(false, Seq::new(8, |k: int| 0u64), 0, 0),
    {
        Board::new(
            false,
            [
                Bitboard(0),
                Bitboard(0),
                Bitboard(0),
                Bitboard(0),
                Bitboard(0),
                Bitboard(0),
                Bitboard(0),
                Bitboard(0),
            ],
            0,
            0,
        )
    }
}

impl Board {
    /// Board `k` of the position.
    pub closed spec fn spec_bitboard(&self, k: int) -> u64 {
        self.bitboards[k].0
    }

    pub closed spec fn spec_castle_rights(&self) -> u8 {
        self.castle_rights
    }

    pub closed spec fn spec_en_passant_rank(&self) -> u8 {
        self.en_passant_rank
    }

    pub closed spec fn spec_side_to_move(&self) -> bool {
        self.side_to_move
    }

    /// The position of the given boards, rights and en passant files, at the
    /// start of its count of moves.
    pub closed spec fn spec_new(
        side_to_move: bool,
        bitboards: Seq<u64>,
        castle_rights: u8,
        en_passant_rank: u8,
    ) -> Board {
        Board {
            side_to_move,
            bitboards: [
                Bitboard(bitboards[0]),
                Bitboard(bitboards[1]),
                Bitboard(bitboards[2]),
                Bitboard(bitboards[3]),
                Bitboard(bitboards[4]),
                Bitboard(bitboards[5]),
                Bitboard(bitboards[6]),
                Bitboard(bitboards[7]),
            ],
            half_moves: 0,
            castle_rights,
            en_passant_rank,
            check: false,
            hash: 0,
        }
    }

    /// A position of the given boards; bit `f` of `en_passant_rank` is set
    /// where a pawn can be taken in passing on file `f`.
    pub fn new(
        side_to_move: bool,
        bitboards: [Bitboard; 8],
        castle_rights: u8,
        en_passant_rank: u8,
    ) -> (board: Board)
        ensures
            board == Board::spec_new(
                side_to_move,
                Seq::new(8, |k: int| bitboards[k].0),
                castle_rights,
                en_passant_rank,
            ),
            board.spec_side_to_move() == side_to_move,
            board.spec_castle_rights() == castle_rights,
            board.spec_en_passant_rank() == en_passant_rank,
            forall|k: int| 0 <= k < 8 ==> #[trigger] board.spec_bitboard(k) == bitboards[k].0,
    {
        let board = Board {
            side_to_move,
            bitboards,
            half_moves: 0,
            castle_rights,
            en_passant_rank,
            check: false,
            hash: 0,
        };
        proof {
            let other = Board::spec_new(
                side_to_move,
                Seq::new(8, |k: int| bitboards[k].0),
                castle_rights,
                en_passant_rank,
            );
            assert(board.bitboards@ =~= other.bitboards@);
            assert(board.bitboards == other.bitboards);
        }
        board
    }

    /// Whether black is to move.
    #[verifier::when_used_as_spec(spec_side_to_move)]
    pub fn side_to_move(&self) -> (black: bool)
        ensures
            black == self.spec_side_to_move(),
    {
        self.side_to_move
    }

    /// The number of the side to move: 0 for white, 1 for black.
    pub open spec fn side(&self) -> int {
        if self.spec_side_to_move() {
            1
        } else {
            0
        }
    }

    /// The squares that hold a piece.
    pub open spec fn occupancy(&self) -> u64 {
        self.spec_bitboard(0) | self.spec_bitboard(1)
    }

    /// The pieces of the side to move.
    pub open spec fn own(&self) -> u64 {
        self.spec_bitboard(self.side())
    }

    /// The pieces of the other side.
    pub open spec fn enemy(&self) -> u64 {
        self.spec_bitboard(1 - self.side())
    }

    /// The rank that the pawns of the side to move are promoted on.
    pub open spec fn end_rank(&self) -> u64 {
        if self.spec_side_to_move() {
            0xff
        } else {
            0xff00_0000_0000_0000
        }
    }

    /// The rank that the pawns of the side to move are promoted from.
    pub open spec fn promo_rank(&self) -> u64 {
        if self.spec_side_to_move() {
            0xff00
        } else {
            0x00ff_0000_0000_0000
        }
    }

    /// The rank that the pawns of the side to move start from.
    pub open spec fn home_rank(&self) -> u64 {
        if self.spec_side_to_move() {
            0x00ff_0000_0000_0000
        } else {
            0xff00
        }
    }

    /// The squares on which a pawn can be taken in passing.
    pub open spec fn en_passant(&self) -> u64 {
        if self.spec_side_to_move() {
            (self.spec_en_passant_rank() as u64) << 16
        } else {
            (self.spec_en_passant_rank() as u64) << 40
        }
    }

    /// `mask` moved one rank in the direction the pawns of the side to move
    /// come from.
    pub open spec fn back(&self, mask: u64) -> u64 {
        if self.spec_side_to_move() {
            mask << 8
        } else {
            mask >> 8
        }
    }

    /// The square `by` places ahead of `from` for the side to move.
    pub open spec fn ahead(&self, from: Square, by: int) -> Square {
        if self.spec_side_to_move() {
            Square::spec_of(from.spec_index() - by)
        } else {
            Square::spec_of(from.spec_index() + by)
        }
    }

    /// The pawns of the side to move whose square ahead is empty.
    pub open spec fn spec_free_pawns(&self) -> u64 {
        self.spec_bitboard(2) & self.own() & self.back(!self.occupancy())
    }

    /// The captures of the pawn on `from`: plain captures, captures in
    /// passing, and captures that promote.
    pub open spec fn spec_pawn_captures(&self, from: Square) -> Seq<Move> {
        let attacks = spec_pawn_attacks(from.spec_index() as u64, self.side());
        spec_targets(from, attacks & self.enemy() & !self.end_rank(), 4) + spec_targets(
            from,
            attacks & self.en_passant(),
            5,
        ) + spec_promotions(from, attacks & self.enemy() & self.end_rank(), 12)
    }

    /// The squares that the piece of the given kind on `from` attacks.
    pub open spec fn spec_attacks(&self, piece: int, from: Square) -> u64 {
        let at = from.spec_index() as u64;
        if piece == 3 {
            spec_knight_moves(at)
        } else if piece == 4 {
            spec_bishop_moves(at, self.occupancy())
        } else if piece == 5 {
            spec_rook_moves(at, self.occupancy())
        } else if piece == 6 {
            spec_bishop_moves(at, self.occupancy()) | spec_rook_moves(at, self.occupancy())
        } else if piece == 7 {
            spec_king_moves(at)
        } else {
            0
        }
    }

    /// The moves of the piece of the given kind on `from`: its captures, then
    /// its moves to empty squares.
    pub open spec fn spec_piece_moves(&self, piece: int, from: Square) -> Seq<Move> {
        let attacks = self.spec_attacks(piece, from);
        spec_targets(from, attacks & self.enemy(), 4) + spec_targets(
            from,
            attacks & !self.occupancy(),
            0,
        )
    }

    /// The moves of a piece of the given kind, as a function of its square.
    pub open spec fn each_piece(&self, piece: int) -> spec_fn(Square) -> Seq<Move> {
        |from: Square| self.spec_piece_moves(piece, from)
    }

    /// The captures of a pawn, as a function of its square.
    pub open spec fn each_pawn(&self) -> spec_fn(Square) -> Seq<Move> {
        |from: Square| self.spec_pawn_captures(from)
    }

    /// The step of a pawn by `by` squares, as a function of its square.
    pub open spec fn each_step(&self, by: int, flag: u8) -> spec_fn(Square) -> Seq<Move> {
        |from: Square| seq![Move { from, to: self.ahead(from, by), flag }]
    }

    /// The promotions of a pawn that steps ahead, as a function of its
    /// square.
    pub open spec fn each_promoted(&self) -> spec_fn(Square) -> Seq<Move> {
        |from: Square| spec_promotion(from, self.ahead(from, 8), 8)
    }

    /// The moves of all pieces of the given kind.
    pub open spec fn spec_kind_moves(&self, piece: int) -> Seq<Move> {
        spec_gather(self.spec_bitboard(piece) & self.own(), 0, self.each_piece(piece))
    }

    /// Whether a piece of the side other than `side` attacks `square` when
    /// the pieces of `occupancy` stand in the way.
    pub open spec fn spec_square_attacked(&self, square: Square, side: int, occupancy: u64) -> bool {
        let at = square.spec_index() as u64;
        ((self.spec_bitboard(3) & spec_knight_moves(at)) | (self.spec_bitboard(7)
            & spec_king_moves(at)) | (self.spec_bitboard(2) & spec_pawn_attacks(at, side)) | (
        self.spec_bitboard(5) & spec_rook_moves(at, occupancy)) | (self.spec_bitboard(4)
            & spec_bishop_moves(at, occupancy)) | (self.spec_bitboard(6) & (spec_bishop_moves(
            at,
            occupancy,
        ) | spec_rook_moves(at, occupancy)))) & self.spec_bitboard(1 - side) != 0
    }

    /// The king of the given side.
    pub open spec fn king(&self, side: int) -> u64 {
        self.spec_bitboard(7) & self.spec_bitboard(side)
    }

    /// Whether the king of the given side is attacked.
    pub open spec fn spec_in_check(&self, side: int) -> bool {
        self.spec_square_attacked(
            Square::spec_of(self.king(side).trailing_zeros() as int),
            side,
            self.occupancy(),
        )
    }

    /// The move that castles on the given wing, 0 for the king's and 1 for
    /// the queen's, where the side to move may: it is not in check and has
    /// the right, the squares of [`Castle::spec_mask`] for this number of wing
    /// are empty, and the square that the king passes is not attacked.
    pub open spec fn spec_castle(&self, wing: int) -> Seq<Move> {
        let right: u8 = if self.spec_side_to_move() {
            if wing == 0 {
                1
            } else {
                2
            }
        } else {
            if wing == 0 {
                4
            } else {
                8
            }
        };
        let passed = if self.spec_side_to_move() {
            if wing == 0 {
                Square::F8
            } else {
                Square::D8
            }
        } else {
            if wing == 0 {
                Square::F1
            } else {
                Square::D1
            }
        };
        let from = if self.spec_side_to_move() {
            Square::E8
        } else {
            Square::E1
        };
        let to = if self.spec_side_to_move() {
            if wing == 0 {
                Square::G8
            } else {
                Square::C8
            }
        } else {
            if wing == 0 {
                Square::G1
            } else {
                Square::C1
            }
        };
        if !self.spec_in_check(self.side()) && self.spec_castle_rights() & Castle::spec_rights(
            self.side(),
        ) != 0 && self.occupancy() & Castle::spec_mask(self.side(), wing) == 0
            && self.spec_castle_rights() & right != 0 && !self.spec_square_attacked(
            passed,
            self.side(),
            self.occupancy(),
        ) {
            seq![Move { from, to, flag: if wing == 0 {
                3u8
            } else {
                2u8
            } }]
        } else {
            Seq::empty()
        }
    }

    /// The moves of the side to move, kings left in check or not: the
    /// captures of the pawns; the moves of knights, bishops, rooks, queens
    /// and kings; the single steps, double steps and promotions of the pawns;
    /// and castling. Within each group the pieces come by their squares,
    /// lowest first.
    pub open spec fn spec_gen_moves(&self) -> Seq<Move> {
        self.spec_pawn_takes() + self.spec_kind_moves(3) + self.spec_kind_moves(4)
            + self.spec_kind_moves(5) + self.spec_kind_moves(6) + self.spec_kind_moves(7)
            + self.spec_steps() + self.spec_double_steps() + self.spec_step_promotions()
            + self.spec_castle(0) + self.spec_castle(1)
    }

    /// The captures of all pawns.
    pub open spec fn spec_pawn_takes(&self) -> Seq<Move> {
        spec_gather(self.spec_bitboard(2) & self.own(), 0, self.each_pawn())
    }

    /// The single steps of the pawns that do not promote.
    pub open spec fn spec_steps(&self) -> Seq<Move> {
        spec_gather(self.spec_free_pawns() & !self.promo_rank(), 0, self.each_step(8, 0))
    }

    /// The double steps of the pawns from their home rank.
    pub open spec fn spec_double_steps(&self) -> Seq<Move> {
        spec_gather(
            self.spec_free_pawns() & self.home_rank() & self.back(self.back(!self.occupancy())),
            0,
            self.each_step(16, 1),
        )
    }

    /// The promotions of the pawns that step onto the last rank.
    pub open spec fn spec_step_promotions(&self) -> Seq<Move> {
        spec_gather(self.spec_free_pawns() & self.promo_rank(), 0, self.each_promoted())
    }

    /// Whether a piece of the side other than `side` attacks `square`.
    pub fn square_attacked(&self, square: Square, side: usize, occupancy: Bitboard) -> (attacked:
        bool)
        requires
            side < 2,
        ensures
            attacked == self.spec_square_attacked(square, side as int, occupancy.0),
    {
        let knights = self.bitboards[Piece::KNIGHT].0 & get_knight_moves(square).0;
        let kings = self.bitboards[Piece::KING].0 & get_king_moves(square).0;
        let pawns = self.bitboards[Piece::PAWN].0 & get_pawn_attacks(square, side).0;
        let rooks = self.bitboards[Piece::ROOK].0 & get_rook_moves(square, occupancy).0;
        let bishops = self.bitboards[Piece::BISHOP].0 & get_bishop_moves(square, occupancy).0;
        let queens = self.bitboards[Piece::QUEEN].0 & get_queen_moves(square, occupancy).0;
        (knights | kings | pawns | rooks | bishops | queens) & self.bitboards[1 - side].0 != 0
    }

    /// Whether the king of the given side is attacked; the side has to have
    /// a king.
    pub fn in_check(&self, side: usize) -> (check: bool)
        requires
            side < 2,
            self.king(side as int) != 0,
        ensures
            check == self.spec_in_check(side as int),
    {
        let king = Bitboard(self.bitboards[Piece::KING].0 & self.bitboards[side].0);
        let occupancy = Bitboard(self.bitboards[0].0 | self.bitboards[1].0);
        self.square_attacked(king.trailing_zeros(), side, occupancy)
    }

    /// Generates the moves of the side to move, which has to have a king.
    pub fn gen_moves(&self) -> (moves: Vec<Move>)
        requires
            self.king(self.side()) != 0,
        ensures
            moves@ == self.spec_gen_moves(),
    {
        let mut moves: Vec<Move> = Vec::with_capacity(35);
        self.gen_pawn_takes(&mut moves);
        self.gen_pieces(&mut moves);
        self.gen_steps(&mut moves);
        self.gen_double_steps(&mut moves);
        self.gen_step_promotions(&mut moves);
        self.gen_castles(&mut moves);
        proof {
            assert(moves@ =~= self.spec_gen_moves());
        }
        moves
    }

    fn side_index(&self) -> (side: usize)
        ensures
            side == self.side(),
            side < 2,
    {
        if self.side_to_move {
            1
        } else {
            0
        }
    }

    fn gen_pawn_takes(&self, moves: &mut Vec<Move>)
        ensures
            final(moves)@ == old(moves)@ + self.spec_pawn_takes(),
    {
        let side = self.side_index();
        let own = self.bitboards[side].0;
        let enemy = self.bitboards[1 - side].0;
        let end = Rank::end(side).bitboard().0;
        proof {
            assert(0xffu64 << 56 == 0xff00_0000_0000_0000u64) by (bit_vector);
            assert(0xffu64 << 0 == 0xffu64) by (bit_vector);
        }
        let en_passant: u64 = if self.side_to_move {
            (self.en_passant_rank as u64) << 16
        } else {
            (self.en_passant_rank as u64) << 40
        };
        let ghost each = self.each_pawn();
        let mut pawns = Bitboard(self.bitboards[Piece::PAWN].0 & own);
        while pawns.0 != 0
            invariant
                each == self.each_pawn(),
                side == self.side(),
                enemy == self.enemy(),
                end == self.end_rank(),
                en_passant == self.en_passant(),
                moves@ + spec_gather(pawns.0, 0, each) == old(moves)@ + self.spec_pawn_takes(),
            decreases pawns.0,
        {
            let ghost before = moves@;
            proof {
                lemma_gather_lowest(pawns.0, each);
            }
            let from = pop(&mut pawns);
            let attacks = get_pawn_attacks(from, side).0;
            push_targets(moves, from, Bitboard(attacks & enemy & !end), Flag::CAPTURE);
            push_targets(moves, from, Bitboard(attacks & en_passant), Flag::EN_PASSANT);
            push_promotions(
                moves,
                from,
                Bitboard(attacks & enemy & end),
                Flag::CAPTURE | Flag::PROMOTION,
            );
            proof {
                assert(4u8 | 8u8 == 12u8) by (bit_vector);
                assert(moves@ + spec_gather(pawns.0, 0, each) =~= before + (each(from)
                    + spec_gather(pawns.0, 0, each)));
            }
        }
        proof {
            lemma_gather_none(each);
            assert(moves@ + Seq::<Move>::empty() =~= moves@);
        }
    }

    fn gen_pieces(&self, moves: &mut Vec<Move>)
        ensures
            final(moves)@ == old(moves)@ + self.spec_kind_moves(3) + self.spec_kind_moves(4)
                + self.spec_kind_moves(5) + self.spec_kind_moves(6) + self.spec_kind_moves(7),
    {
        let side = self.side_index();
        let occupancy = Bitboard(self.bitboards[0].0 | self.bitboards[1].0);
        let own = self.bitboards[side].0;
        let enemy = self.bitboards[1 - side].0;
        let mut piece: usize = Piece::KNIGHT;
        proof {
            assert(moves@ =~= old(moves)@ + self.spec_kinds(3));
        }
        while piece <= Piece::KING
            invariant
                3 <= piece <= 8,
                own == self.own(),
                enemy == self.enemy(),
                occupancy.0 == self.occupancy(),
                moves@ == old(moves)@ + self.spec_kinds(piece as int),
            decreases 8 - piece,
        {
            let ghost start = moves@;
            let ghost each = self.each_piece(piece as int);
            let mut pieces = Bitboard(self.bitboards[piece].0 & own);
            while pieces.0 != 0
                invariant
                    3 <= piece <= 7,
                    each == self.each_piece(piece as int),
                    enemy == self.enemy(),
                    occupancy.0 == self.occupancy(),
                    moves@ + spec_gather(pieces.0, 0, each) == start + self.spec_kind_moves(
                        piece as int,
                    ),
                decreases pieces.0,
            {
                let ghost before = moves@;
                proof {
                    lemma_gather_lowest(pieces.0, each);
                }
                let from = pop(&mut pieces);
                let attacks = if piece == Piece::KNIGHT {
                    get_knight_moves(from).0
                } else if piece == Piece::BISHOP {
                    get_bishop_moves(from, occupancy).0
                } else if piece == Piece::ROOK {
                    get_rook_moves(from, occupancy).0
                } else if piece == Piece::QUEEN {
                    get_queen_moves(from, occupancy).0
                } else {
                    get_king_moves(from).0
                };
                push_targets(moves, from, Bitboard(attacks & enemy), Flag::CAPTURE);
                push_targets(moves, from, Bitboard(attacks & !occupancy.0), Flag::QUIET);
                proof {
                    assert(moves@ + spec_gather(pieces.0, 0, each) =~= before + (each(from)
                        + spec_gather(pieces.0, 0, each)));
                }
            }
            proof {
                lemma_gather_none(each);
                assert(moves@ =~= old(moves)@ + (self.spec_kinds(piece as int)
                    + self.spec_kind_moves(piece as int)));
            }
            piece = piece + 1;
        }
        proof {
            reveal_with_fuel(Board::spec_kinds, 6);
            assert(moves@ =~= old(moves)@ + self.spec_kind_moves(3) + self.spec_kind_moves(4)
                + self.spec_kind_moves(5) + self.spec_kind_moves(6) + self.spec_kind_moves(7));
        }
    }

    fn free_pawns(&self) -> (free: u64)
        ensures
            free == self.spec_free_pawns(),
    {
        let side = self.side_index();
        let occupancy = self.bitboards[0].0 | self.bitboards[1].0;
        let shifted_empty = Bitboard(!occupancy).shift(self.side_to_move);
        self.bitboards[Piece::PAWN].0 & self.bitboards[side].0 & shifted_empty.0
    }

    fn gen_steps(&self, moves: &mut Vec<Move>)
        ensures
            final(moves)@ == old(moves)@ + self.spec_steps(),
    {
        let free = self.free_pawns();
        let promo = Rank::promo(self.side_index()).bitboard().0;
        proof {
            assert(0xffu64 << 48 == 0x00ff_0000_0000_0000u64) by (bit_vector);
            assert(0xffu64 << 8 == 0xff00u64) by (bit_vector);
            lemma_and_within(free, !promo);
        }
        let ghost each = self.each_step(8, 0);
        let mut single = Bitboard(free & !promo);
        while single.0 != 0
            invariant
                each == self.each_step(8, 0),
                forall|j: u64| j < 64 && (single.0 >> j) & 1 == 1 ==> (free >> j) & 1 == 1,
                free == self.spec_free_pawns(),
                self.side_to_move == self.spec_side_to_move(),
                moves@ + spec_gather(single.0, 0, each) == old(moves)@ + self.spec_steps(),
            decreases single.0,
        {
            let ghost before = moves@;
            let ghost mask = single.0;
            proof {
                lemma_gather_lowest(mask, each);
                lemma_rest_within(mask, free);
                self.lemma_steps_on_board(mask.trailing_zeros() as u64);
            }
            let from = pop(&mut single);
            proof {
                from.lemma_index();
            }
            moves.push(Move { from, to: from.shift::<8>(self.side_to_move), flag: Flag::QUIET });
            proof {
                self.ahead(from, 8).lemma_index();
                assert(moves@ + spec_gather(single.0, 0, each) =~= before + (each(from)
                    + spec_gather(single.0, 0, each)));
            }
        }
        proof {
            lemma_gather_none(each);
            assert(moves@ + Seq::<Move>::empty() =~= moves@);
        }
    }

    fn gen_double_steps(&self, moves: &mut Vec<Move>)
        ensures
            final(moves)@ == old(moves)@ + self.spec_double_steps(),
    {
        let side = self.side_index();
        let free = self.free_pawns();
        let home = Rank::promo(1 - side).bitboard().0;
        let occupancy = self.bitboards[0].0 | self.bitboards[1].0;
        let twice = Bitboard(!occupancy).shift(self.side_to_move).shift(self.side_to_move);
        proof {
            assert(0xffu64 << 48 == 0x00ff_0000_0000_0000u64) by (bit_vector);
            assert(0xffu64 << 8 == 0xff00u64) by (bit_vector);
        }
        let ghost each = self.each_step(16, 1);
        let mut double = Bitboard(free & home & twice.0);
        let ghost doubles = double.0;
        while double.0 != 0
            invariant
                each == self.each_step(16, 1),
                forall|j: u64| j < 64 && (double.0 >> j) & 1 == 1 ==> (doubles >> j) & 1 == 1,
                doubles == self.spec_free_pawns() & self.home_rank() & self.back(
                    self.back(!self.occupancy()),
                ),
                self.side_to_move == self.spec_side_to_move(),
                moves@ + spec_gather(double.0, 0, each) == old(moves)@ + self.spec_double_steps(),
            decreases double.0,
        {
            let ghost before = moves@;
            let ghost mask = double.0;
            proof {
                lemma_gather_lowest(mask, each);
                lemma_rest_within(mask, doubles);
                self.lemma_double_steps_on_board(mask.trailing_zeros() as u64);
            }
            let from = pop(&mut double);
            proof {
                from.lemma_index();
            }
            moves.push(
                Move { from, to: from.shift::<16>(self.side_to_move), flag: Flag::DOUBLE_PAWN },
            );
            proof {
                self.ahead(from, 16).lemma_index();
                assert(moves@ + spec_gather(double.0, 0, each) =~= before + (each(from)
                    + spec_gather(double.0, 0, each)));
            }
        }
        proof {
            lemma_gather_none(each);
            assert(moves@ + Seq::<Move>::empty() =~= moves@);
        }
    }

    fn gen_step_promotions(&self, moves: &mut Vec<Move>)
        ensures
            final(moves)@ == old(moves)@ + self.spec_step_promotions(),
    {
        let free = self.free_pawns();
        let promo = Rank::promo(self.side_index()).bitboard().0;
        proof {
            assert(0xffu64 << 48 == 0x00ff_0000_0000_0000u64) by (bit_vector);
            assert(0xffu64 << 8 == 0xff00u64) by (bit_vector);
            lemma_and_within(free, promo);
        }
        let ghost each = self.each_promoted();
        let mut promoted = Bitboard(free & promo);
        while promoted.0 != 0
            invariant
                each == self.each_promoted(),
                forall|j: u64| j < 64 && (promoted.0 >> j) & 1 == 1 ==> (free >> j) & 1 == 1,
                free == self.spec_free_pawns(),
                self.side_to_move == self.spec_side_to_move(),
                moves@ + spec_gather(promoted.0, 0, each) == old(moves)@
                    + self.spec_step_promotions(),
            decreases promoted.0,
        {
            let ghost before = moves@;
            let ghost mask = promoted.0;
            proof {
                lemma_gather_lowest(mask, each);
                lemma_rest_within(mask, free);
                self.lemma_steps_on_board(mask.trailing_zeros() as u64);
            }
            let from = pop(&mut promoted);
            proof {
                from.lemma_index();
            }
            let to = from.shift::<8>(self.side_to_move);
            push_promotion(moves, from, to, Flag::PROMOTION);
            proof {
                self.ahead(from, 8).lemma_index();
                assert(moves@ + spec_gather(promoted.0, 0, each) =~= before + (each(from)
                    + spec_gather(promoted.0, 0, each)));
            }
        }
        proof {
            lemma_gather_none(each);
            assert(moves@ + Seq::<Move>::empty() =~= moves@);
        }
    }

    fn gen_castles(&self, moves: &mut Vec<Move>)
        requires
            self.king(self.side()) != 0,
        ensures
            final(moves)@ == old(moves)@ + self.spec_castle(0) + self.spec_castle(1),
    {
        let side = self.side_index();
        let occupancy = Bitboard(self.bitboards[0].0 | self.bitboards[1].0);
        if self.in_check(side) || self.castle_rights & Castle::rights(side) == 0 {
            proof {
                assert(moves@ =~= old(moves)@ + self.spec_castle(0) + self.spec_castle(1));
            }
            return ;
        }
        let king = if self.side_to_move {
            Castle::BLACK_KING
        } else {
            Castle::WHITE_KING
        };
        let passed = if self.side_to_move {
            Square::F8
        } else {
            Square::F1
        };
        let from = if self.side_to_move {
            Square::E8
        } else {
            Square::E1
        };
        let to = if self.side_to_move {
            Square::G8
        } else {
            Square::G1
        };
        if occupancy.0 & Castle::mask(side, 0).0 == 0 && self.castle_rights & king != 0
            && !self.square_attacked(passed, side, occupancy) {
            moves.push(Move { from, to, flag: Flag::KING_CASTLE });
        }
        proof {
            assert(moves@ =~= old(moves)@ + self.spec_castle(0));
        }
        let queen = if self.side_to_move {
            Castle::BLACK_QUEEN
        } else {
            Castle::WHITE_QUEEN
        };
        let passed = if self.side_to_move {
            Square::D8
        } else {
            Square::D1
        };
        let to = if self.side_to_move {
            Square::C8
        } else {
            Square::C1
        };
        if occupancy.0 & Castle::mask(side, 1).0 == 0 && self.castle_rights & queen != 0
            && !self.square_attacked(passed, side, occupancy) {
            moves.push(Move { from, to, flag: Flag::QUEEN_CASTLE });
        }
        proof {
            assert(moves@ =~= old(moves)@ + self.spec_castle(0) + self.spec_castle(1));
        }
    }

    /// The moves of the kinds of piece before the given one, knights first.
    pub open spec fn spec_kinds(&self, piece: int) -> Seq<Move>
        decreases piece,
    {
        if piece <= 3 {
            Seq::empty()
        } else {
            self.spec_kinds(piece - 1) + self.spec_kind_moves(piece - 1)
        }
    }

    /// The end of a pawn's way: the square `by` ranks ahead of square `k` is
    /// empty where `k` belongs to the empty squares moved back as often.
    proof fn lemma_ahead(&self, k: int)
        requires
            0 <= k < 64,
        ensures
            spec_has(self.back(!self.occupancy()), k) ==> spec_has(
                !self.occupancy(),
                self.ahead(Square::spec_of(k), 8).spec_index(),
            ),
            spec_has(self.back(self.back(!self.occupancy())), k) ==> spec_has(
                !self.occupancy(),
                self.ahead(Square::spec_of(k), 16).spec_index(),
            ),
    {
        let empty = !self.occupancy();
        Square::lemma_of(k);
        lemma_has_bits(empty, 0, k as u64);
        lemma_has_bits(self.back(empty), 0, k as u64);
        if self.spec_side_to_move() {
            if k >= 8 {
                Square::lemma_of(k - 8);
                lemma_has_bits(empty, 0, (k - 8) as u64);
            }
            if k >= 16 {
                Square::lemma_of(k - 16);
            }
        } else {
            if k < 56 {
                Square::lemma_of(k + 8);
                lemma_has_bits(empty, 0, (k + 8) as u64);
            }
            if k < 48 {
                Square::lemma_of(k + 16);
            }
        }
    }

    /// What the move of a knight, bishop, rook, queen or king is: it starts
    /// on a piece of the side to move, and either takes a piece of the other
    /// side or ends on an empty square.
    pub proof fn lemma_piece_move(&self, piece: int, m: Move)
        requires
            self.spec_kind_moves(piece).contains(m),
        ensures
            spec_has(self.own(), m.from.spec_index()),
            spec_has(self.spec_bitboard(piece), m.from.spec_index()),
            spec_has(self.spec_attacks(piece, m.from), m.to.spec_index()),
            m.flag == 4 || m.flag == 0,
            m.flag == 4 ==> spec_has(self.enemy(), m.to.spec_index()),
            m.flag == 0 ==> spec_has(!self.occupancy(), m.to.spec_index()),
    {
        let k = lemma_gathered(self.spec_bitboard(piece) & self.own(), 0, self.each_piece(piece), m);
        let from = Square::spec_of(k);
        Square::lemma_of(k);
        lemma_has_both(self.spec_bitboard(piece), self.own(), k);
        let attacks = self.spec_attacks(piece, from);
        assert(self.each_piece(piece)(from) == self.spec_piece_moves(piece, from));
        lemma_in_either(
            spec_targets(from, attacks & self.enemy(), 4),
            spec_targets(from, attacks & !self.occupancy(), 0),
            m,
        );
        if spec_targets(from, attacks & self.enemy(), 4).contains(m) {
            lemma_targeted(from, attacks & self.enemy(), 4, m);
            lemma_has_both(attacks, self.enemy(), m.to.spec_index());
        } else {
            lemma_targeted(from, attacks & !self.occupancy(), 0, m);
            lemma_has_both(attacks, !self.occupancy(), m.to.spec_index());
        }
    }

    /// What the capture of a pawn is: it starts on a pawn of the side to
    /// move and ends on a square that the pawn attacks. There it takes a
    /// piece of the other side, with a promotion on the last rank and
    /// without one elsewhere, or it takes a pawn in passing.
    pub proof fn lemma_pawn_take(&self, m: Move)
        requires
            self.spec_pawn_takes().contains(m),
        ensures
            spec_has(self.own(), m.from.spec_index()),
            spec_has(self.spec_bitboard(2), m.from.spec_index()),
            spec_has(
                spec_pawn_attacks(m.from.spec_index() as u64, self.side()),
                m.to.spec_index(),
            ),
            m.flag == 4 || m.flag == 5 || 12 <= m.flag <= 15,
            m.flag == 4 ==> spec_has(self.enemy() & !self.end_rank(), m.to.spec_index()),
            m.flag == 5 ==> spec_has(self.en_passant(), m.to.spec_index()),
            12 <= m.flag <= 15 ==> spec_has(self.enemy() & self.end_rank(), m.to.spec_index()),
            12 <= m.flag <= 15 ==> forall|other: Move|
                other.from == m.from && other.to == m.to && 12 <= other.flag <= 15
                    ==> #[trigger] self.spec_pawn_takes().contains(other),
    {
        let k = lemma_gathered(self.spec_bitboard(2) & self.own(), 0, self.each_pawn(), m);
        let from = Square::spec_of(k);
        Square::lemma_of(k);
        lemma_has_both(self.spec_bitboard(2), self.own(), k);
        let attacks = spec_pawn_attacks(from.spec_index() as u64, self.side());
        let plain = spec_targets(from, attacks & self.enemy() & !self.end_rank(), 4);
        let passing = spec_targets(from, attacks & self.en_passant(), 5);
        let promoting = spec_promotions(from, attacks & self.enemy() & self.end_rank(), 12);
        assert(self.each_pawn()(from) == plain + passing + promoting);
        lemma_in_either(plain + passing, promoting, m);
        if (plain + passing).contains(m) {
            lemma_in_either(plain, passing, m);
            if plain.contains(m) {
                lemma_targeted(from, attacks & self.enemy() & !self.end_rank(), 4, m);
                Self::lemma_has_three(attacks, self.enemy(), !self.end_rank(), m.to.spec_index());
            } else {
                lemma_targeted(from, attacks & self.en_passant(), 5, m);
                lemma_has_both(attacks, self.en_passant(), m.to.spec_index());
            }
        } else {
            let targets = attacks & self.enemy() & self.end_rank();
            let j = lemma_gathered(targets, 0, each_promotion(from, 12), m);
            let to = Square::spec_of(j);
            Square::lemma_of(j);
            assert(each_promotion(from, 12)(to) == spec_promotion(from, to, 12));
            lemma_promoted(from, to, 12, m);
            Self::lemma_has_three(attacks, self.enemy(), self.end_rank(), j);
            assert forall|other: Move|
                other.from == m.from && other.to == m.to && 12 <= other.flag <= 15
                    implies #[trigger] self.spec_pawn_takes().contains(other) by {
                assert(spec_promotion(from, to, 12).contains(other));
                lemma_gathers(targets, 0, each_promotion(from, 12), j, other);
                lemma_in_both(plain + passing, promoting, other);
                lemma_gathers(
                    self.spec_bitboard(2) & self.own(),
                    0,
                    self.each_pawn(),
                    k,
                    other,
                );
            }
        }
    }

    /// A square of three masks at once is a square of the first and of the
    /// other two together.
    proof fn lemma_has_three(first: u64, second: u64, third: u64, k: int)
        requires
            spec_has(first & second & third, k),
        ensures
            spec_has(first, k),
            spec_has(second & third, k),
    {
        let at = k as u64;
        assert(((first & second & third) >> at) & 1 == 1 ==> (first >> at) & 1 == 1 && ((second
            & third) >> at) & 1 == 1) by (bit_vector);
    }

    /// What the step of a pawn is: it starts on a pawn of the side to move
    /// and ends on the empty square ahead of it, or on the empty square two
    /// ranks ahead for a pawn on its home rank whose way is free. A step onto
    /// the last rank is a promotion.
    pub proof fn lemma_pawn_step(&self, m: Move)
        requires
            self.spec_steps().contains(m) || self.spec_double_steps().contains(m)
                || self.spec_step_promotions().contains(m),
        ensures
            spec_has(self.own(), m.from.spec_index()),
            spec_has(self.spec_bitboard(2), m.from.spec_index()),
            spec_has(!self.occupancy(), m.to.spec_index()),
            m.flag == 0 || m.flag == 1 || 8 <= m.flag <= 11,
            m.flag == 1 ==> m.to == self.ahead(m.from, 16) && spec_has(
                self.home_rank(),
                m.from.spec_index(),
            ),
            m.flag != 1 ==> m.to == self.ahead(m.from, 8),
            m.flag == 0 ==> !spec_has(self.promo_rank(), m.from.spec_index()),
            8 <= m.flag <= 11 ==> spec_has(self.promo_rank(), m.from.spec_index()),
            8 <= m.flag <= 11 ==> forall|other: Move|
                other.from == m.from && other.to == m.to && 8 <= other.flag <= 11
                    ==> #[trigger] self.spec_step_promotions().contains(other),
    {
        let free = self.spec_free_pawns();
        let empty = !self.occupancy();
        if self.spec_steps().contains(m) {
            let k = lemma_gathered(free & !self.promo_rank(), 0, self.each_step(8, 0), m);
            let from = Square::spec_of(k);
            Square::lemma_of(k);
            let only = self.each_step(8, 0)(from);
            assert(only == seq![Move { from, to: self.ahead(from, 8), flag: 0 }]);
            let at = choose|at: int| 0 <= at < only.len() && only[at] == m;
            assert(only[0] == m);
            lemma_has_both(free, !self.promo_rank(), k);
            lemma_has_both(self.spec_bitboard(2) & self.own(), self.back(empty), k);
            lemma_has_both(self.spec_bitboard(2), self.own(), k);
            self.lemma_ahead(k);
            Self::lemma_has_not(self.promo_rank(), k);
        } else if self.spec_double_steps().contains(m) {
            let mask = free & self.home_rank() & self.back(self.back(empty));
            let k = lemma_gathered(mask, 0, self.each_step(16, 1), m);
            let from = Square::spec_of(k);
            Square::lemma_of(k);
            let only = self.each_step(16, 1)(from);
            assert(only == seq![Move { from, to: self.ahead(from, 16), flag: 1 }]);
            let at = choose|at: int| 0 <= at < only.len() && only[at] == m;
            assert(only[0] == m);
            lemma_has_both(free & self.home_rank(), self.back(self.back(empty)), k);
            lemma_has_both(free, self.home_rank(), k);
            lemma_has_both(self.spec_bitboard(2) & self.own(), self.back(empty), k);
            lemma_has_both(self.spec_bitboard(2), self.own(), k);
            self.lemma_ahead(k);
        } else {
            let k = lemma_gathered(free & self.promo_rank(), 0, self.each_promoted(), m);
            let from = Square::spec_of(k);
            Square::lemma_of(k);
            assert(self.each_promoted()(from) == spec_promotion(from, self.ahead(from, 8), 8));
            lemma_promoted(from, self.ahead(from, 8), 8, m);
            assert forall|other: Move|
                other.from == m.from && other.to == m.to && 8 <= other.flag <= 11
                    implies #[trigger] self.spec_step_promotions().contains(other) by {
                assert(spec_promotion(from, self.ahead(from, 8), 8).contains(other));
                lemma_gathers(free & self.promo_rank(), 0, self.each_promoted(), k, other);
            }
            lemma_has_both(free, self.promo_rank(), k);
            lemma_has_both(self.spec_bitboard(2) & self.own(), self.back(empty), k);
            lemma_has_both(self.spec_bitboard(2), self.own(), k);
            self.lemma_ahead(k);
        }
    }

    /// What a move of the side to move is. Its flag is one of those that
    /// the groups of [`Self::spec_gen_moves`] give. But for castling, it starts
    /// on a piece of the side to move. A move that takes nothing ends on an
    /// empty square, a capture on a piece of the other side, and a capture in
    /// passing on a square on which a pawn can be taken so. A promotion
    /// comes with the promotions to the other three pieces. A move with the
    /// flag of castling is the one that [`Self::spec_castle`] gives for its
    /// wing.
    pub proof fn lemma_move(&self, m: Move)
        requires
            self.spec_gen_moves().contains(m),
        ensures
            m.flag <= 5 || 8 <= m.flag <= 15,
            m.flag != 2 && m.flag != 3 ==> spec_has(self.own(), m.from.spec_index()),
            m.flag == 0 || m.flag == 1 || 8 <= m.flag <= 11 ==> spec_has(
                !self.occupancy(),
                m.to.spec_index(),
            ),
            m.flag == 4 || 12 <= m.flag <= 15 ==> spec_has(self.enemy(), m.to.spec_index()),
            m.flag == 5 ==> spec_has(self.en_passant(), m.to.spec_index()),
            m.flag == 3 ==> self.spec_castle(0) == seq![m],
            m.flag == 2 ==> self.spec_castle(1) == seq![m],
            m.flag >= 8 ==> forall|other: Move|
                other.from == m.from && other.to == m.to && 8 <= other.flag <= 15 && (other.flag
                    >= 12 <==> m.flag >= 12) ==> #[trigger] self.spec_gen_moves().contains(other),
    {
        let takes = self.spec_pawn_takes();
        let knights = takes + self.spec_kind_moves(3);
        let bishops = knights + self.spec_kind_moves(4);
        let rooks = bishops + self.spec_kind_moves(5);
        let queens = rooks + self.spec_kind_moves(6);
        let kings = queens + self.spec_kind_moves(7);
        let steps = kings + self.spec_steps();
        let doubles = steps + self.spec_double_steps();
        let promotions = doubles + self.spec_step_promotions();
        let short = promotions + self.spec_castle(0);
        let all = short + self.spec_castle(1);
        assert(all == self.spec_gen_moves());
        lemma_in_either(short, self.spec_castle(1), m);
        if short.contains(m) {
            lemma_in_either(promotions, self.spec_castle(0), m);
        }
        if promotions.contains(m) {
            lemma_in_either(doubles, self.spec_step_promotions(), m);
        }
        if doubles.contains(m) {
            lemma_in_either(steps, self.spec_double_steps(), m);
        }
        if steps.contains(m) {
            lemma_in_either(kings, self.spec_steps(), m);
        }
        if kings.contains(m) {
            lemma_in_either(queens, self.spec_kind_moves(7), m);
        }
        if queens.contains(m) {
            lemma_in_either(rooks, self.spec_kind_moves(6), m);
        }
        if rooks.contains(m) {
            lemma_in_either(bishops, self.spec_kind_moves(5), m);
        }
        if bishops.contains(m) {
            lemma_in_either(knights, self.spec_kind_moves(4), m);
        }
        if knights.contains(m) {
            lemma_in_either(takes, self.spec_kind_moves(3), m);
        }
        if takes.contains(m) {
            self.lemma_pawn_take(m);
            if m.flag >= 12 {
                lemma_has_both(self.enemy(), self.end_rank(), m.to.spec_index());
            } else if m.flag == 4 {
                lemma_has_both(self.enemy(), !self.end_rank(), m.to.spec_index());
            }
            assert forall|other: Move|
                other.from == m.from && other.to == m.to && 12 <= other.flag <= 15 && m.flag
                    >= 12 implies #[trigger] all.contains(other) by {
                assert(takes.contains(other));
                self.lemma_listed(other);
            }
        } else if knights.contains(m) {
            self.lemma_piece_move(3, m);
        } else if bishops.contains(m) {
            self.lemma_piece_move(4, m);
        } else if rooks.contains(m) {
            self.lemma_piece_move(5, m);
        } else if queens.contains(m) {
            self.lemma_piece_move(6, m);
        } else if kings.contains(m) {
            self.lemma_piece_move(7, m);
        } else if promotions.contains(m) {
            self.lemma_pawn_step(m);
            assert forall|other: Move|
                other.from == m.from && other.to == m.to && 8 <= other.flag <= 11 && 8 <= m.flag
                    implies #[trigger] all.contains(other) by {
                assert(self.spec_step_promotions().contains(other));
                self.lemma_listed(other);
            }
        } else if short.contains(m) {
            let only = self.spec_castle(0);
            let at = choose|at: int| 0 <= at < only.len() && only[at] == m;
            assert(only[0] == m);
            assert(only =~= seq![m]);
        } else {
            let only = self.spec_castle(1);
            let at = choose|at: int| 0 <= at < only.len() && only[at] == m;
            assert(only[0] == m);
            assert(only =~= seq![m]);
        }
    }

    /// A move of one of the groups is a move of the side to move.
    pub proof fn lemma_listed(&self, m: Move)
        requires
            self.spec_pawn_takes().contains(m) || (exists|piece: int|
                3 <= piece <= 7 && #[trigger] self.spec_kind_moves(piece).contains(m))
                || self.spec_steps().contains(m) || self.spec_double_steps().contains(m)
                || self.spec_step_promotions().contains(m) || self.spec_castle(0).contains(m)
                || self.spec_castle(1).contains(m),
        ensures
            self.spec_gen_moves().contains(m),
    {
        let takes = self.spec_pawn_takes();
        let knights = takes + self.spec_kind_moves(3);
        let bishops = knights + self.spec_kind_moves(4);
        let rooks = bishops + self.spec_kind_moves(5);
        let queens = rooks + self.spec_kind_moves(6);
        let kings = queens + self.spec_kind_moves(7);
        let steps = kings + self.spec_steps();
        let doubles = steps + self.spec_double_steps();
        let promotions = doubles + self.spec_step_promotions();
        let short = promotions + self.spec_castle(0);
        let all = short + self.spec_castle(1);
        assert(all == self.spec_gen_moves());
        if takes.contains(m) || self.spec_kind_moves(3).contains(m) {
            lemma_in_both(takes, self.spec_kind_moves(3), m);
        }
        if knights.contains(m) || self.spec_kind_moves(4).contains(m) {
            lemma_in_both(knights, self.spec_kind_moves(4), m);
        }
        if bishops.contains(m) || self.spec_kind_moves(5).contains(m) {
            lemma_in_both(bishops, self.spec_kind_moves(5), m);
        }
        if rooks.contains(m) || self.spec_kind_moves(6).contains(m) {
            lemma_in_both(rooks, self.spec_kind_moves(6), m);
        }
        if queens.contains(m) || self.spec_kind_moves(7).contains(m) {
            lemma_in_both(queens, self.spec_kind_moves(7), m);
        }
        if kings.contains(m) || self.spec_steps().contains(m) {
            lemma_in_both(kings, self.spec_steps(), m);
        }
        if steps.contains(m) || self.spec_double_steps().contains(m) {
            lemma_in_both(steps, self.spec_double_steps(), m);
        }
        if doubles.contains(m) || self.spec_step_promotions().contains(m) {
            lemma_in_both(doubles, self.spec_step_promotions(), m);
        }
        if promotions.contains(m) || self.spec_castle(0).contains(m) {
            lemma_in_both(promotions, self.spec_castle(0), m);
        }
        lemma_in_both(short, self.spec_castle(1), m);
    }

    /// A square of what a mask leaves out is no square of the mask.
    proof fn lemma_has_not(mask: u64, k: int)
        requires
            spec_has(!mask, k),
        ensures
            !spec_has(mask, k),
    {
        let at = k as u64;
        assert(((!mask) >> at) & 1 == 1 ==> (mask >> at) & 1 != 1) by (bit_vector);
    }

    proof fn lemma_steps_on_board(&self, from: u64)
        requires
            from < 64,
            (self.spec_free_pawns() >> from) & 1 == 1,
        ensures
            self.spec_side_to_move() ==> from >= 8,
            !self.spec_side_to_move() ==> from < 56,
    {
        let pawns = self.spec_bitboard(2) & self.own();
        let empty = !self.occupancy();
        if self.spec_side_to_move() {
            assert(from >= 8) by (bit_vector)
                requires
                    from < 64,
                    ((pawns & (empty << 8)) >> from) & 1 == 1,
            ;
        } else {
            assert(from < 56) by (bit_vector)
                requires
                    from < 64,
                    ((pawns & (empty >> 8)) >> from) & 1 == 1,
            ;
        }
    }

    proof fn lemma_double_steps_on_board(&self, from: u64)
        requires
            from < 64,
            ((self.spec_free_pawns() & self.home_rank() & self.back(self.back(!self.occupancy())))
                >> from) & 1 == 1,
        ensures
            self.spec_side_to_move() ==> from >= 16,
            !self.spec_side_to_move() ==> from < 48,
    {
        let free = self.spec_free_pawns();
        let home = self.home_rank();
        let empty = !self.occupancy();
        if self.spec_side_to_move() {
            assert(from >= 16) by (bit_vector)
                requires
                    from < 64,
                    ((free & home & ((empty << 8) << 8)) >> from) & 1 == 1,
            ;
        } else {
            assert(from < 48) by (bit_vector)
                requires
                    from < 64,
                    ((free & home & ((empty >> 8) >> 8)) >> from) & 1 == 1,
            ;
        }
    }
}

/// Square number `k` belongs to `mask`.
pub open spec fn spec_has(mask: u64, k: int) -> bool {
    0 <= k < 64 && (mask >> (k as u64)) & 1 == 1
}

/// A square of two masks at once is a square of each. A square of a mask
/// that was moved by a rank lies a rank away from a square of the mask.
proof fn lemma_has_bits(first: u64, second: u64, k: u64)
    by (bit_vector)
    requires
        k < 64,
    ensures
        ((first & second) >> k) & 1 == 1 ==> (first >> k) & 1 == 1 && (second >> k) & 1 == 1,
        ((first << 8) >> k) & 1 == 1 ==> k >= 8 && (first >> ((k - 8) as u64)) & 1 == 1,
        ((first >> 8) >> k) & 1 == 1 ==> k < 56 && (first >> ((k + 8) as u64)) & 1 == 1,
        0u8 | 8u8 == 8 && 1u8 | 8u8 == 9 && 2u8 | 8u8 == 10 && 3u8 | 8u8 == 11,
        0u8 | 12u8 == 12 && 1u8 | 12u8 == 13 && 2u8 | 12u8 == 14 && 3u8 | 12u8 == 15,
{
}

/// A square of two masks at once is a square of each.
pub proof fn lemma_has_both(first: u64, second: u64, k: int)
    requires
        spec_has(first & second, k),
    ensures
        spec_has(first, k),
        spec_has(second, k),
{
    lemma_has_bits(first, second, k as u64);
}

/// A move of two lists in a row is a move of one of them.
proof fn lemma_in_either(first: Seq<Move>, second: Seq<Move>, m: Move)
    requires
        (first + second).contains(m),
    ensures
        first.contains(m) || second.contains(m),
{
    let both = first + second;
    let at = choose|at: int| 0 <= at < both.len() && both[at] == m;
    if at < first.len() {
        assert(first[at] == m);
    } else {
        assert(second[at - first.len()] == m);
    }
}

/// A gathered move is one that `each` gives for a square of the mask: the
/// square whose number is returned.
pub proof fn lemma_gathered(mask: u64, from: int, each: spec_fn(Square) -> Seq<Move>, m: Move) -> (k:
    int)
    requires
        0 <= from <= 64,
        spec_gather(mask, from, each).contains(m),
    ensures
        from <= k < 64,
        spec_has(mask, k),
        each(Square::spec_of(k)).contains(m),
    decreases 64 - from,
{
    if from >= 64 {
        from
    } else if (mask >> (from as u64)) & 1 == 1 {
        lemma_in_either(each(Square::spec_of(from)), spec_gather(mask, from + 1, each), m);
        if each(Square::spec_of(from)).contains(m) {
            from
        } else {
            lemma_gathered(mask, from + 1, each, m)
        }
    } else {
        lemma_gathered(mask, from + 1, each, m)
    }
}

/// A move of a list is a move of the list with another before or after it.
proof fn lemma_in_both(first: Seq<Move>, second: Seq<Move>, m: Move)
    requires
        first.contains(m) || second.contains(m),
    ensures
        (first + second).contains(m),
{
    let both = first + second;
    if first.contains(m) {
        let at = choose|at: int| 0 <= at < first.len() && first[at] == m;
        assert(both[at] == m);
    } else {
        let at = choose|at: int| 0 <= at < second.len() && second[at] == m;
        assert(both[first.len() + at] == m);
    }
}

/// What `each` gives for a square of the mask is gathered.
pub proof fn lemma_gathers(
    mask: u64,
    from: int,
    each: spec_fn(Square) -> Seq<Move>,
    k: int,
    m: Move,
)
    requires
        0 <= from <= k < 64,
        spec_has(mask, k),
        each(Square::spec_of(k)).contains(m),
    ensures
        spec_gather(mask, from, each).contains(m),
    decreases 64 - from,
{
    if from < k {
        lemma_gathers(mask, from + 1, each, k, m);
        if (mask >> (from as u64)) & 1 == 1 {
            lemma_in_both(each(Square::spec_of(from)), spec_gather(mask, from + 1, each), m);
        }
    } else {
        lemma_in_both(each(Square::spec_of(from)), spec_gather(mask, from + 1, each), m);
    }
}

/// A move to one of several targets has the square it was listed for as its
/// start, a target as its end, and the flag of the list.
pub proof fn lemma_targeted(from: Square, targets: u64, flag: u8, m: Move)
    requires
        spec_targets(from, targets, flag).contains(m),
    ensures
        m.from == from,
        m.flag == flag,
        spec_has(targets, m.to.spec_index()),
{
    let k = lemma_gathered(targets, 0, each_target(from, flag), m);
    let only = seq![Move { from, to: Square::spec_of(k), flag }];
    assert(each_target(from, flag)(Square::spec_of(k)) == only);
    let at = choose|at: int| 0 <= at < only.len() && only[at] == m;
    assert(only[0] == m);
    Square::lemma_of(k);
}

/// A promotion has the square that it was listed for as its start and a
/// target as its end. Its flag is one of the four that name the new piece,
/// and the promotions to the other three pieces are listed with it.
pub proof fn lemma_promoted(from: Square, to: Square, kind: u8, m: Move)
    requires
        spec_promotion(from, to, kind).contains(m),
        kind == 8 || kind == 12,
    ensures
        m.from == from,
        m.to == to,
        kind <= m.flag <= kind + 3,
        forall|other: Move|
            other.from == from && other.to == to && kind <= other.flag <= kind + 3
                ==> #[trigger] spec_promotion(from, to, kind).contains(other),
{
    let four = spec_promotion(from, to, kind);
    lemma_has_bits(0, 0, 0);
    let at = choose|at: int| 0 <= at < four.len() && four[at] == m;
    assert(four[at] == m);
    assert forall|other: Move|
        other.from == from && other.to == to && kind <= other.flag <= kind + 3
            implies #[trigger] four.contains(other) by {
        assert(four[other.flag - kind] == other);
    }
}

proof fn lemma_and_within(whole: u64, other: u64)
    ensures
        forall|j: u64| j < 64 && ((whole & other) >> j) & 1 == 1 ==> (whole >> j) & 1 == 1,
{
    assert forall|j: u64| j < 64 && ((whole & other) >> j) & 1 == 1 implies (whole >> j) & 1
        == 1 by {
        assert(((whole & other) >> j) & 1 == 1 ==> (whole >> j) & 1 == 1) by (bit_vector);
    }
}

/// What is left of a mask within another is within it, and so is its lowest
/// square.
proof fn lemma_rest_within(mask: u64, whole: u64)
    requires
        mask != 0,
        forall|j: u64| j < 64 && (mask >> j) & 1 == 1 ==> (whole >> j) & 1 == 1,
    ensures
        (whole >> (mask.trailing_zeros() as u64)) & 1 == 1,
        forall|j: u64| j < 64 && (spec_rest(mask) >> j) & 1 == 1 ==> (whole >> j) & 1 == 1,
{
    broadcast use vstd::std_specs::bits::axiom_u64_trailing_zeros;

    let lowest = mask.trailing_zeros() as u64;
    assert((mask >> lowest) & 1 == 1);
    assert forall|j: u64| j < 64 && (spec_rest(mask) >> j) & 1 == 1 implies (whole >> j) & 1
        == 1 by {
        lemma_lowest_bit(mask, lowest, j);
    }
}

} // verus!
