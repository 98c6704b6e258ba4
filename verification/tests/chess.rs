use mentor::games::chess::board::Board;
use mentor::games::chess::moves::{
    get_bishop_moves, get_king_moves, get_knight_moves, get_pawn_attacks, get_queen_moves,
    get_rook_moves, Move,
};
use mentor::games::chess::types::bitboard::Bitboard;
use mentor::games::chess::types::square::Square;
use mentor::games::chess::util::{Castle, Flag, Piece};
use mentor::games::chess::Chess;

#[test]
fn king_attacks_its_neighbours() {
    assert_eq!(get_king_moves(Square::E4), Bitboard(0x38_2838_0000));
    assert_eq!(get_king_moves(Square::A1), Bitboard(0x302));
    assert_eq!(get_king_moves(Square::H8), Bitboard(0x40c0_0000_0000_0000));
}

#[test]
fn knight_attacks_by_leaps() {
    assert_eq!(get_knight_moves(Square::B1), Bitboard(0x5_0800));
    assert_eq!(get_knight_moves(Square::D4), Bitboard(0x1422_0022_1400));
    assert_eq!(get_knight_moves(Square::H8), Bitboard(0x20_4000_0000_0000));
}

#[test]
fn pawn_attacks_ahead_on_both_sides() {
    assert_eq!(get_pawn_attacks(Square::E4, 0), Bitboard(0x28_0000_0000));
    assert_eq!(get_pawn_attacks(Square::E4, 1), Bitboard(0x28_0000));
    assert_eq!(get_pawn_attacks(Square::A2, 0), Bitboard(0x2_0000));
    assert_eq!(get_pawn_attacks(Square::H7, 1), Bitboard(0x4000_0000_0000));
}

#[test]
fn rook_attacks_up_to_the_first_piece() {
    assert_eq!(get_rook_moves(Square::A1, Bitboard(0)), Bitboard(0x0101_0101_0101_01fe));
    assert_eq!(get_rook_moves(Square::H8, Bitboard(0)), Bitboard(0x7f80_8080_8080_8080));
    // pieces on d7, g4, d2 and a4
    let occupancy = Bitboard(0x8_0000_4100_0800);
    assert_eq!(get_rook_moves(Square::D4, occupancy), Bitboard(0x8_0808_7708_0800));
    // pieces at both ends of the rank are reached like empty squares
    let ends = Bitboard(0x8100_0000);
    assert_eq!(get_rook_moves(Square::D4, ends), Bitboard(0x0808_0808_f708_0808));
}

#[test]
fn bishop_attacks_up_to_the_first_piece() {
    assert_eq!(get_bishop_moves(Square::D4, Bitboard(0)), Bitboard(0x8041_2214_0014_2241));
    assert_eq!(get_bishop_moves(Square::C1, Bitboard(0)), Bitboard(0x8040_2011_0a00));
    // pieces on f6, b2 and b6
    let occupancy = Bitboard(0x2200_0000_0200);
    assert_eq!(get_bishop_moves(Square::D4, occupancy), Bitboard(0x2214_0014_2240));
}

#[test]
fn queen_attacks_like_rook_and_bishop() {
    let occupancy = Bitboard(0x8_0000_4100_0800 | 0x2200_0000_0200);
    assert_eq!(get_queen_moves(Square::D4, occupancy), Bitboard(0x8_2a1c_771c_2a40));
    assert_eq!(
        get_queen_moves(Square::D4, occupancy).0,
        get_rook_moves(Square::D4, occupancy).0 | get_bishop_moves(Square::D4, occupancy).0
    );
}

#[test]
fn move_is_its_code() {
    let mov = Move { from: Square::E2, to: Square::E4, flag: Flag::DOUBLE_PAWN };
    let code = u16::from(mov);
    assert_eq!(code, 12 + 64 * 28 + 4096);
    assert_eq!(Move::from(code), mov);
    let promotion = Move { from: Square::H7, to: Square::G8, flag: 3 | Flag::CAPTURE | Flag::PROMOTION };
    assert_eq!(Move::from(u16::from(promotion)), promotion);
    assert_eq!(Move::from(0), Move { from: Square::A1, to: Square::A1, flag: Flag::QUIET });
    assert_eq!(u16::from(Move { from: Square::H8, to: Square::H8, flag: 15 }), u16::MAX);
}

#[test]
fn constants_of_the_game() {
    assert_eq!(
        (Piece::PAWN, Piece::KNIGHT, Piece::BISHOP, Piece::ROOK, Piece::QUEEN, Piece::KING),
        (2, 3, 4, 5, 6, 7)
    );
    assert_eq!((Flag::QUIET, Flag::DOUBLE_PAWN, Flag::QUEEN_CASTLE, Flag::KING_CASTLE), (0, 1, 2, 3));
    assert_eq!((Flag::CAPTURE, Flag::EN_PASSANT, Flag::PROMOTION), (4, 5, 8));
    assert_eq!(Castle::rights(0), Castle::WHITE_KING | Castle::WHITE_QUEEN);
    assert_eq!(Castle::rights(1), Castle::BLACK_KING | Castle::BLACK_QUEEN);
    assert_eq!(Castle::mask(0, 0), Bitboard(0b0000_1110));
    assert_eq!(Castle::mask(0, 1), Bitboard(0b0110_0000));
    assert_eq!(Castle::mask(1, 0), Bitboard(0b0000_1110 << 56));
    assert_eq!(Castle::mask(1, 1), Bitboard(0b0110_0000 << 56));
}

/// The boards of a position from the squares of its pieces.
fn boards(white: u64, black: u64, kinds: [u64; 6]) -> [Bitboard; 8] {
    let mut boards = [Bitboard(0); 8];
    boards[0] = Bitboard(white);
    boards[1] = Bitboard(black);
    for (k, kind) in kinds.into_iter().enumerate() {
        boards[2 + k] = Bitboard(kind);
    }
    boards
}

fn start(black_to_move: bool) -> Board {
    let pieces = boards(
        0xffff,
        0xffff << 48,
        [
            0x00ff_0000_0000_ff00,
            0x4200_0000_0000_0042,
            0x2400_0000_0000_0024,
            0x8100_0000_0000_0081,
            0x0800_0000_0000_0008,
            0x1000_0000_0000_0010,
        ],
    );
    Board::new(black_to_move, pieces, 15, 0)
}

fn quiet(from: usize, to: usize) -> Move {
    Move { from: Square::of(from), to: Square::of(to), flag: Flag::QUIET }
}

fn double(from: usize, to: usize) -> Move {
    Move { from: Square::of(from), to: Square::of(to), flag: Flag::DOUBLE_PAWN }
}

#[test]
fn twenty_moves_from_the_start() {
    let moves = start(false).gen_moves();
    let mut expected = vec![quiet(1, 16), quiet(1, 18), quiet(6, 21), quiet(6, 23)];
    expected.extend((8..16).map(|from| quiet(from, from + 8)));
    expected.extend((8..16).map(|from| double(from, from + 16)));
    assert_eq!(moves, expected);
    assert!(!start(false).in_check(0));
    assert_eq!(Chess::new(start(false)).get_legal_moves(), expected);
    assert_eq!(Chess::new(start(false)).side_to_move(), 0);
}

#[test]
fn twenty_moves_for_black() {
    let moves = start(true).gen_moves();
    let mut expected = vec![quiet(57, 40), quiet(57, 42), quiet(62, 45), quiet(62, 47)];
    expected.extend((48..56).map(|from| quiet(from, from - 8)));
    expected.extend((48..56).map(|from| double(from, from - 16)));
    assert_eq!(moves, expected);
    assert_eq!(Chess::new(start(true)).side_to_move(), 1);
    assert!(start(true).side_to_move());
}

#[test]
fn pawn_takes_and_promotes() {
    // White: king e1, pawns b7 and e4. Black: king h8, rook a8, knight c8,
    // pawn d5.
    let white = (1 << 4) | (1 << 49) | (1 << 28);
    let black = (1 << 63) | (1 << 56) | (1 << 58) | (1 << 35);
    let pieces = boards(
        white,
        black,
        [(1 << 49) | (1 << 28) | (1 << 35), 1 << 58, 0, 1 << 56, 0, (1 << 4) | (1 << 63)],
    );
    let board = Board::new(false, pieces, 0, 0);
    let moves = board.gen_moves();
    let capture = |from: usize, to: usize| Move {
        from: Square::of(from),
        to: Square::of(to),
        flag: Flag::CAPTURE,
    };
    let promote = |from: usize, to: usize, kind: u8| -> Vec<Move> {
        (0..4).map(|piece| Move { from: Square::of(from), to: Square::of(to), flag: piece | kind }).collect()
    };
    let mut expected = vec![capture(28, 35)];
    expected.extend(promote(49, 56, Flag::CAPTURE | Flag::PROMOTION));
    expected.extend(promote(49, 58, Flag::CAPTURE | Flag::PROMOTION));
    // the king: d1, f1, d2, e2, f2
    expected.extend([3, 5, 11, 12, 13].map(|to| quiet(4, to)));
    // the pawn on e4 steps; the pawn on b7 promotes on b8
    expected.push(quiet(28, 36));
    expected.extend(promote(49, 57, Flag::PROMOTION));
    assert_eq!(moves, expected);
}

#[test]
fn pawn_takes_in_passing() {
    // White: king e1, pawn e5. Black: king e8, pawn d5 that has just come
    // from d7, so that file d is open to a capture in passing.
    let white = (1 << 4) | (1 << 36);
    let black = (1 << 60) | (1 << 35);
    let pieces = boards(white, black, [(1 << 36) | (1 << 35), 0, 0, 0, 0, (1 << 4) | (1 << 60)]);
    let board = Board::new(false, pieces, 0, 1 << 3);
    let moves = board.gen_moves();
    let mut expected =
        vec![Move { from: Square::E5, to: Square::D6, flag: Flag::EN_PASSANT }];
    expected.extend([3, 5, 11, 12, 13].map(|to| quiet(4, to)));
    expected.push(quiet(36, 44));
    assert_eq!(moves, expected);
}

#[test]
fn attacked_squares_and_check() {
    // White: king e1. Black: king e8, rook e5.
    let pieces = boards(1 << 4, (1 << 60) | (1 << 36), [0, 0, 0, 1 << 36, 0, (1 << 4) | (1 << 60)]);
    let board = Board::new(false, pieces, 0, 0);
    let occupancy = Bitboard((1 << 4) | (1 << 60) | (1 << 36));
    assert!(board.in_check(0));
    assert!(!board.in_check(1));
    assert!(board.square_attacked(Square::E2, 0, occupancy));
    assert!(board.square_attacked(Square::A5, 0, occupancy));
    assert!(!board.square_attacked(Square::D1, 0, occupancy));
    assert!(board.square_attacked(Square::D1, 1, occupancy));
    assert_eq!(Board::default(), Board::new(false, [Bitboard(0); 8], 0, 0));
}

#[test]
fn castling_needs_rights_room_and_safety() {
    // White: king e1, rooks a1 and h1. Black: king e8.
    let white = (1 << 4) | 1 | (1 << 7);
    let pieces = boards(white, 1 << 60, [0, 0, 0, 1 | (1 << 7), 0, (1 << 4) | (1 << 60)]);
    let castles = |board: Board| -> Vec<Move> {
        board.gen_moves().into_iter().filter(|mov| mov.flag == 2 || mov.flag == 3).collect()
    };
    let king_side = Move { from: Square::E1, to: Square::G1, flag: Flag::KING_CASTLE };
    let queen_side = Move { from: Square::E1, to: Square::C1, flag: Flag::QUEEN_CASTLE };
    assert_eq!(castles(Board::new(false, pieces, 12, 0)), vec![king_side, queen_side]);
    assert_eq!(castles(Board::new(false, pieces, 4, 0)), vec![king_side]);
    assert_eq!(castles(Board::new(false, pieces, 8, 0)), vec![queen_side]);
    assert!(castles(Board::new(false, pieces, 3, 0)).is_empty());
    // a black rook on f8 attacks f1, the square the king passes
    let mut guarded = pieces;
    guarded[1] = Bitboard((1 << 60) | (1 << 61));
    guarded[5] = Bitboard(1 | (1 << 7) | (1 << 61));
    assert_eq!(castles(Board::new(false, guarded, 12, 0)), vec![queen_side]);
    // a black rook on e8's file gives check: no castling at all
    let mut checked = pieces;
    checked[1] = Bitboard((1 << 59) | (1 << 52));
    checked[5] = Bitboard(1 | (1 << 7) | (1 << 52));
    checked[7] = Bitboard((1 << 4) | (1 << 59));
    assert!(castles(Board::new(false, checked, 12, 0)).is_empty());
}
