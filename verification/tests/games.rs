use mentor::game::{Game, GameState, UNIT};
use mentor::games::chess::types::bitboard::Bitboard;
use mentor::games::chess::types::file::File;
use mentor::games::chess::types::rank::Rank;
use mentor::games::chess::types::square::Square;
use mentor::games::connect4::board::Board;
use mentor::games::connect4::moves::Move as Column;
use mentor::games::connect4::Connect4;
use mentor::games::tictactoe::{Move, TicTacToe};

fn board(first: u16, second: u16, second_to_move: bool) -> TicTacToe {
    TicTacToe { side_to_move: second_to_move, grid: [first, second] }
}

#[test]
fn tictactoe_starts_empty() {
    let pos = TicTacToe::default();
    assert_eq!(pos, board(0, 0, false));
    assert_eq!(pos.side_to_move(), 0);
    assert_eq!(pos.game_state(), GameState::Ongoing);
    assert_eq!(pos.get_legal_moves(), vec![1, 2, 4, 8, 16, 32, 64, 128, 256]);
    assert_eq!(pos.hash(), 0);
}

#[test]
fn tictactoe_moves_fill_the_grid_of_the_mover() {
    let mut pos = TicTacToe::default();
    pos.make_move(16);
    assert_eq!(pos, board(16, 0, true));
    assert_eq!(pos.side_to_move(), 1);
    pos.make_move(1);
    assert_eq!(pos, board(16, 1, false));
    assert_eq!(pos.get_legal_moves(), vec![2, 4, 8, 32, 64, 128, 256]);
    assert_eq!(pos.hash(), (16 << 9) | 1);
    assert!(pos.equals(&board(16, 1, false)));
    assert!(!pos.equals(&board(16, 1, true)));
    assert!(!pos.equals(&board(1, 16, false)));
}

#[test]
fn tictactoe_lines_decide() {
    for line in [0b111_000_000, 0b000_111_000, 0b000_000_111, 0b100_100_100, 0b010_010_010,
        0b001_001_001, 0b100_010_001, 0b001_010_100]
    {
        // The first player holds the line; whoever is to move sees it.
        assert_eq!(board(line, 0, true).game_state(), GameState::Loss);
        assert_eq!(board(line, 0, false).game_state(), GameState::Win);
        assert_eq!(board(0, line, false).game_state(), GameState::Loss);
        assert!(board(line, 0, true).get_legal_moves().is_empty());
    }
    assert_eq!(board(0b000_000_011, 0b000_011_000, false).game_state(), GameState::Ongoing);
}

#[test]
fn tictactoe_full_grid_is_drawn() {
    // X O X
    // X O O
    // O X X
    let pos = board(0b110_001_101, 0b001_110_010, true);
    assert_eq!(pos.game_state(), GameState::Draw);
    assert!(pos.get_legal_moves().is_empty());
}

#[test]
fn tictactoe_value_is_a_share_of_the_unit() {
    let mut pos = TicTacToe::default();
    for _ in 0..50 {
        let value = pos.get_value();
        assert!(value == 0 || value == UNIT / 2 || value == UNIT);
    }
    assert_eq!(pos, TicTacToe::default());
    // One free cell is left, and taking it draws the game.
    let mut last = board(0b010_001_101, 0b001_110_010, false);
    assert_eq!(last.get_legal_moves(), vec![256]);
    assert_eq!(last.get_value(), 32_767);
}

#[test]
fn tictactoe_playout_value_by_outcome() {
    assert_eq!(TicTacToe::playout_value(GameState::Draw, true), 32_767);
    assert_eq!(TicTacToe::playout_value(GameState::Draw, false), 32_767);
    assert_eq!(TicTacToe::playout_value(GameState::Loss, true), 0);
    assert_eq!(TicTacToe::playout_value(GameState::Loss, false), 65_535);
    assert_eq!(TicTacToe::playout_value(GameState::Win, false), 65_535);
}

#[test]
fn tictactoe_priors_are_even() {
    let mut pos = TicTacToe::default();
    assert_eq!(pos.get_policy(&[1, 2, 4]), vec![21_845; 3]);
    assert_eq!(pos.get_policy(&[1, 2, 4, 8, 16, 32, 64, 128, 256]), vec![7_281; 9]);
    assert!(pos.get_policy(&[]).is_empty());
}

#[test]
fn tictactoe_move_names_its_cell() {
    assert_eq!(Move::from(32).0, 32);
    assert_eq!(u16::from(Move(32)), 32);
    assert_eq!(Move(1).cell(), Some((0, 0)));
    assert_eq!(Move(32).cell(), Some((2, 1)));
    assert_eq!(Move(256).cell(), Some((2, 2)));
    assert_eq!(Move(3).cell(), None);
    assert_eq!(Move(512).cell(), None);
}

#[test]
fn connect4_board_drops_discs() {
    let mut board = Board::default();
    assert_eq!((board.side_to_move(), board.current(), board.mask()), (false, 0, 0));
    assert_eq!(board.get_moves(), vec![0, 1, 2, 3, 4, 5, 6]);
    board.make_move(3);
    assert_eq!((board.side_to_move(), board.current(), board.mask()), (true, 0, 1 << 21));
    board.make_move(3);
    assert_eq!(board.mask(), (1 << 21) | (1 << 22));
    assert_eq!(board.current(), 1 << 21);
    assert!(!board.side_to_move());
    board.make_move(0);
    assert_eq!(board.mask(), (1 << 21) | (1 << 22) | 1);
    assert_eq!(board.current(), 1 << 22);
}

#[test]
fn connect4_full_column_is_closed() {
    let mut board = Board::default();
    for _ in 0..6 {
        board.make_move(6);
    }
    assert_eq!(board.mask(), 0b111111 << 42);
    assert_eq!(board.get_moves(), vec![0, 1, 2, 3, 4, 5]);
    assert_eq!(Board::top_mask(6), 1 << 47);
    assert_eq!(Board::bottom_mask(6), 1 << 42);
    assert_eq!(Board::top_mask(0), 1 << 5);
    assert_eq!(Board::bottom_mask(0), 1);
    assert_eq!((Board::WIDTH, Board::HEIGHT), (7, 6));
}

#[test]
fn connect4_alignment_in_every_direction() {
    assert!(Board::alignment(0b1111));
    assert!(!Board::alignment(0b0111));
    assert!(!Board::alignment(0b11011));
    assert!(Board::alignment(1 | 1 << 7 | 1 << 14 | 1 << 21));
    assert!(!Board::alignment(1 | 1 << 7 | 1 << 14 | 1 << 28));
    assert!(Board::alignment(1 | 1 << 8 | 1 << 16 | 1 << 24));
    assert!(Board::alignment(1 << 3 | 1 << 9 | 1 << 15 | 1 << 21));
    assert!(!Board::alignment(0));
}

#[test]
fn connect4_four_in_a_column_is_lost_for_the_next_mover() {
    let mut pos = Connect4::default();
    for mov in [0, 1, 0, 1, 0, 1] {
        assert_eq!(pos.game_state(), GameState::Ongoing);
        pos.make_move(mov);
    }
    assert_eq!(pos.side_to_move(), 0);
    pos.make_move(0);
    assert_eq!(pos.game_state(), GameState::Loss);
    assert!(pos.get_legal_moves().is_empty());
    assert_eq!(pos.side_to_move(), 1);
    assert_eq!(pos.hash(), pos.board().current() + pos.board().mask());
}

#[test]
fn connect4_runs_out_of_columns() {
    // Columns are filled in an order that never lines up four.
    let mut pos = Connect4::default();
    let order = [0, 1, 0, 1, 0, 1, 1, 0, 1, 0, 1, 0, 2, 3, 2, 3, 2, 3, 3, 2, 3, 2, 3, 2, 4, 5, 4,
        5, 4, 5, 5, 4, 5, 4, 5, 4, 6, 6, 6, 6, 6, 6];
    for mov in order {
        assert_eq!(pos.game_state(), GameState::Ongoing);
        assert!(pos.get_legal_moves().contains(&mov));
        pos.make_move(mov);
    }
    assert_eq!(pos.game_state(), GameState::Draw);
    assert_eq!(pos.board().mask().count_ones(), 42);
    assert!(pos.get_legal_moves().is_empty());
}

#[test]
fn connect4_priors_favour_the_middle() {
    let mut pos = Connect4::default();
    let policy = pos.get_policy(&[0, 1, 2, 3, 4, 5, 6]);
    assert_eq!(policy, vec![142, 1_051, 2_859, 57_428, 2_859, 1_051, 142]);
    assert_eq!(pos.get_policy(&[3]), vec![65_535]);
    assert_eq!(pos.get_policy(&[0, 6]), vec![32_767, 32_767]);
    assert_eq!(pos.get_policy(&[9]), vec![0]);
    assert!(pos.get_policy(&[]).is_empty());
}

#[test]
fn connect4_playout_value_is_discounted() {
    assert_eq!(Connect4::playout_value(0, GameState::Loss, false), 65_535);
    assert_eq!(Connect4::playout_value(7, GameState::Loss, false), 60_948);
    assert_eq!(Connect4::playout_value(7, GameState::Loss, true), -60_948);
    assert_eq!(Connect4::playout_value(7, GameState::Draw, true), 0);
    assert_eq!(Connect4::playout_value(42, GameState::Win, false), 38_011);
    assert_eq!(Connect4::playout_value(100, GameState::Loss, false), 0);
    assert_eq!(Connect4::playout_value(u32::MAX, GameState::Loss, true), 0);
    let mut pos = Connect4::default();
    let value = pos.get_value();
    assert!((-UNIT..=UNIT).contains(&value));
    assert_eq!(pos, Connect4::default());
}

#[test]
fn connect4_positions_compare_by_their_boards() {
    let mut one = Connect4::default();
    let mut other = Connect4::default();
    assert!(one.equals(&other));
    one.make_move(2);
    assert!(!one.equals(&other));
    other.make_move(2);
    assert!(one.equals(&other));
    assert_eq!(Column::from(4).0, 4);
    assert_eq!(u16::from(Column(4)), 4);
}

#[test]
fn bitboard_operations() {
    assert_eq!(Bitboard::default(), Bitboard(0));
    assert_eq!(Bitboard(0b1000).trailing_zeros(), Square::D1);
    assert_eq!(Bitboard(1 << 63).trailing_zeros(), Square::H8);
    assert_eq!(Bitboard(0x0102_0304_0506_0708).swap_bytes(), Bitboard(0x0807_0605_0403_0201));
    assert_eq!(Bitboard(5).wrapping_sub(Bitboard(7)), Bitboard(u64::MAX - 1));
    assert_eq!(Bitboard(0xff00).shift(true), Bitboard(0xff_0000));
    assert_eq!(Bitboard(0xff00).shift(false), Bitboard(0xff));
    assert_eq!(Bitboard(1 << 60).shift(true), Bitboard(0));
}

#[test]
fn files_ranks_and_squares() {
    assert_eq!(File::A.bitboard(), Bitboard(0x0101_0101_0101_0101));
    assert_eq!(File::H.bitboard(), Bitboard(0x8080_8080_8080_8080));
    assert_eq!(Rank::First.bitboard(), Bitboard(0xff));
    assert_eq!(Rank::Eighth.bitboard(), Bitboard(0xff00_0000_0000_0000));
    assert_eq!(Square::A1.bitboard(), Bitboard(1));
    assert_eq!(Square::E4.bitboard(), Bitboard(1 << 28));
    assert_eq!(Square::E4.file(), File::E);
    assert_eq!(Square::E4.rank(), Rank::Fourth);
    assert_eq!(Square::E4.index(), 28);
    assert_eq!(Square::of(28), Square::E4);
    assert_eq!(Square::E2.shift::<16>(false), Square::E4);
    assert_eq!(Square::E7.shift::<8>(true), Square::E6);
    assert_eq!((File::NUM, Rank::NUM, Square::NUM), (8, 8, 64));
    assert_eq!(Rank::promo(0), Rank::Seventh);
    assert_eq!(Rank::promo(1), Rank::Second);
    assert_eq!(Rank::end(0), Rank::Eighth);
    assert_eq!(Rank::end(1), Rank::First);
    for index in 0..64 {
        assert_eq!(Square::of(index).index(), index);
    }
}

#[test]
fn connect4_board_is_drawn_row_by_row() {
    let rule = "+---+---+---+---+---+---+---+";
    let empty = "|   |   |   |   |   |   |   |";
    let mut board = Board::default();
    let mut expected = String::new();
    for _ in 0..6 {
        expected += rule;
        expected += "\n";
        expected += empty;
        expected += "\n";
    }
    expected += rule;
    assert_eq!(board.display(), expected);

    board.make_move(3);
    board.make_move(3);
    board.make_move(0);
    // The second player is to move: the discs of the first are shown as `0`.
    let mut expected = String::new();
    for row in (0..6).rev() {
        expected += rule;
        expected += "\n";
        expected += match row {
            1 => "|   |   |   | X |   |   |   |",
            0 => "| 0 |   |   | 0 |   |   |   |",
            _ => empty,
        };
        expected += "\n";
    }
    expected += rule;
    assert_eq!(board.display(), expected);

    board.make_move(6);
    // The first player is to move: its discs are shown as `O`.
    let mut expected = String::new();
    for row in (0..6).rev() {
        expected += rule;
        expected += "\n";
        expected += match row {
            1 => "|   |   |   | X |   |   |   |",
            0 => "| O |   |   | O |   |   | X |",
            _ => empty,
        };
        expected += "\n";
    }
    expected += rule;
    assert_eq!(board.display(), expected);
}

#[test]
fn tictactoe_grid_is_drawn_in_three_lines() {
    assert_eq!(TicTacToe::default().display(), "...\n...\n...\n");
    assert_eq!(board(0b000_000_110, 0b000_011_000, false).display(), ".XX\nOO.\n...\n");
    assert_eq!(board(0b100_010_001, 0b001_100_010, true).display(), "XO.\n.XO\nO.X\n");
    assert_eq!(board(0b111_111_111, 0, true).display(), "XXX\nXXX\nXXX\n");
    assert_eq!(board(0, 0b111_111_111, true).display(), "OOO\nOOO\nOOO\n");
    // A cell of both players shows the nought, and the cross on the next
    // free cell.
    assert_eq!(board(0b000_000_001, 0b000_000_001, false).display(), "OX.\n...\n...\n");
    assert_eq!(board(0b000_000_011, 0b000_000_001, false).display(), "OXX\n...\n...\n");
    assert_eq!(board(0b000_000_001, 0b000_000_011, false).display(), "OOX\n...\n...\n");
    assert_eq!(board(0b100_000_000, 0b100_000_000, false).display(), "...\n...\n..O\n");
    assert_eq!(board(0b111_111_111, 0b111_111_111, false).display(), "OOO\nOOO\nOOO\n");
}

#[test]
fn connect4_first_move_takes_the_bottom_cell() {
    let start = Connect4::default();
    assert_eq!(start.game_state(), GameState::Ongoing);
    assert_eq!(start.get_legal_moves(), vec![0, 1, 2, 3, 4, 5, 6]);
    assert_eq!(start.hash(), 0);
    for col in 0..7u16 {
        let mut next = start;
        next.make_move(col);
        assert!(!next.equals(&start));
        assert_eq!(next.hash(), 1u64 << (7 * col));
        assert_eq!(next.board(), {
            let mut board = Board::default();
            board.make_move(col);
            board
        });
        assert_eq!(next.side_to_move(), 1);
    }
    let mut third = start;
    third.make_move(3);
    assert_eq!(third.hash(), 2_097_152);
}
