use mentor::game::Game;
use mentor::games::connect4::Connect4;
use mentor::games::tictactoe::TicTacToe;
use mentor::protocol::{
    command, contains, control, order, parse_args, parse_u16, parse_usize, position, search_order,
    words, ArgsError, Control, Order, PositionError,
};

fn strings(texts: &[&str]) -> Vec<String> {
    texts.iter().map(|text| text.to_string()).collect()
}

#[test]
fn line_is_split_at_white_space() {
    assert_eq!(words("position startpos 3 4"), strings(&["position", "startpos", "3", "4"]));
    assert_eq!(words("  go \t now\n"), strings(&["go", "now"]));
    assert_eq!(words("stop"), strings(&["stop"]));
    assert!(words("").is_empty());
    assert!(words(" \n\t ").is_empty());
    assert_eq!(words("a\u{3000}b \u{e9}t\u{e9}"), strings(&["a", "b", "\u{e9}t\u{e9}"]));
}

#[test]
fn command_is_the_first_word() {
    assert_eq!(command(&words("info now")), "info");
    assert_eq!(command(&words("  stop")), "stop");
    assert_eq!(command(&words("")), "oops");
    assert_eq!(command(&words("\n")), "oops");
}

#[test]
fn harness_knows_info_and_stop() {
    assert_eq!(control("info"), Control::Info);
    assert_eq!(control("stop"), Control::Stop);
    assert_eq!(control("oops"), Control::Ignore);
    assert_eq!(control("Stop"), Control::Ignore);
    assert_eq!(control(""), Control::Ignore);
    assert_eq!(control(&command(&words("stop it"))), Control::Stop);
}

#[test]
fn front_end_orders() {
    let expected = [
        ("quit", Order::Quit),
        ("setoption", Order::SetOption),
        ("position", Order::Position),
        ("isready", Order::IsReady),
        ("go", Order::Go),
        ("d", Order::Display),
        ("uci", Order::Identify),
        ("newgame", Order::NewGame),
        ("stop", Order::Ignore),
        ("oops", Order::Ignore),
    ];
    for (word, answer) in expected {
        assert_eq!(order(word, "uci", "newgame"), answer, "{word}");
    }
    // the fixed commands come first
    assert_eq!(order("go", "go", "go"), Order::Go);
    assert_eq!(order("hello", "hello", "hello"), Order::Identify);
}

#[test]
fn orders_during_a_search() {
    assert_eq!(search_order("quit", "uci"), Order::Quit);
    assert_eq!(search_order("isready", "uci"), Order::IsReady);
    assert_eq!(search_order("stop", "uci"), Order::Stop);
    assert_eq!(search_order("uci", "uci"), Order::Identify);
    assert_eq!(search_order("go", "uci"), Order::Ignore);
    assert_eq!(search_order("stop", "stop"), Order::Stop);
}

#[test]
fn threads_are_read_from_the_arguments() {
    assert_eq!(parse_args(&strings(&["datagen", "--threads", "4"])), Ok(4));
    assert_eq!(parse_args(&strings(&["datagen", "--threads", "4", "--threads", "0"])), Ok(0));
    assert_eq!(parse_args(&strings(&["datagen"])), Err(ArgsError::MissingThreads));
    assert_eq!(parse_args(&strings(&[])), Err(ArgsError::MissingThreads));
    assert_eq!(parse_args(&strings(&["datagen", "--threads"])), Err(ArgsError::MissingValue));
    assert_eq!(parse_args(&strings(&["datagen", "--threads", "four"])), Err(ArgsError::InvalidNumber));
    assert_eq!(parse_args(&strings(&["datagen", "--threads", "-1"])), Err(ArgsError::InvalidNumber));
    assert_eq!(parse_args(&strings(&["datagen", "4"])), Err(ArgsError::Unknown(1)));
    assert_eq!(
        parse_args(&strings(&["datagen", "--threads", "2", "--fast"])),
        Err(ArgsError::Unknown(3))
    );
    // the name of the program is passed over, whatever it is
    assert_eq!(parse_args(&strings(&["--threads", "--threads", "2"])), Ok(2));
}

#[test]
fn position_command_plays_moves_from_the_start() {
    let played = position(Connect4::default(), &words("position startpos 3 3 4"), "columns").unwrap();
    let mut expected = Connect4::default();
    for mov in [3, 3, 4] {
        expected.make_move(mov);
    }
    assert_eq!(played, expected);
    let mut busy = Connect4::default();
    busy.make_move(0);
    // without a position nothing is played
    assert_eq!(position(busy, &words("position"), "columns"), Ok(busy));
    assert_eq!(position(busy, &words("position columns"), "columns"), Ok(busy));
    assert_eq!(position(busy, &words("position startpos"), "columns"), Ok(Connect4::default()));
}

#[test]
fn position_command_reads_a_notation() {
    let named = position(TicTacToe::default(), &words("position cells 40 256"), "cells").unwrap();
    let mut expected = TicTacToe::default();
    for mov in [16, 1, 256] {
        expected.make_move(mov);
    }
    assert_eq!(named, expected);
}

#[test]
fn position_command_fails_on_what_it_cannot_follow() {
    let start = Connect4::default();
    assert_eq!(position(start, &words("position startpos x"), "columns"), Err(PositionError::Number(2)));
    assert_eq!(position(start, &words("position startpos 3 7"), "columns"), Err(PositionError::Illegal(3)));
    assert_eq!(
        position(start, &words("position startpos 0 0 0 0 0 0 0"), "columns"),
        Err(PositionError::Illegal(8))
    );
    assert_eq!(position(start, &words("position 3x"), "columns"), Err(PositionError::Notation(1)));
    assert_eq!(position(start, &words("position 0000000"), "columns"), Err(PositionError::Notation(1)));
    assert_eq!(position(start, &words("position startpos 70000"), "columns"), Err(PositionError::Number(2)));
}

#[test]
fn notation_lists_the_moves() {
    let mut expected = Connect4::default();
    for mov in [3, 3, 2, 6] {
        expected.make_move(mov);
    }
    assert_eq!(Connect4::from_notation("3326"), Some(expected));
    assert_eq!(Connect4::from_notation(""), Some(Connect4::default()));
    assert_eq!(Connect4::from_notation("7"), None);
    assert_eq!(Connect4::from_notation("9"), None);
    assert_eq!(Connect4::from_notation("3a"), None);
    assert_eq!(Connect4::from_notation("1111111"), None);
    // four in a column ends the game: no move after it
    assert!(Connect4::from_notation("0101010").is_some());
    assert_eq!(Connect4::from_notation("01010100"), None);

    let mut expected = TicTacToe::default();
    expected.make_move(16);
    expected.make_move(1);
    assert_eq!(TicTacToe::from_notation("40"), Some(expected));
    assert_eq!(TicTacToe::from_notation("44"), None);
    assert_eq!(TicTacToe::from_notation("9"), None);
    assert_eq!(TicTacToe::from_notation("/"), None);
    assert_eq!(TicTacToe::from_notation(""), Some(TicTacToe::default()));
}

#[test]
fn move_is_looked_up_in_a_list() {
    assert!(contains(&vec![1, 2, 3], 3));
    assert!(!contains(&vec![1, 2, 3], 4));
    assert!(!contains(&Vec::new(), 0));
}

#[test]
fn numbers_are_read_as_the_standard_library_reads_them() {
    let texts = [
        "0", "7", "+7", "007", "65535", "65536", "+65535", "99999999999999999999999", "", "+",
        "-1", "-0", "++1", "1+", "1_0", " 1", "1 ", "0x10", "1e3", "\u{ff11}", "12a", "a12",
        "18446744073709551615", "18446744073709551616", "+00000000000000000000000000012",
    ];
    for text in texts {
        assert_eq!(parse_u16(text), text.parse::<u16>().ok(), "{text:?}");
        assert_eq!(parse_usize(text), text.parse::<usize>().ok(), "{text:?}");
    }
    assert_eq!(parse_u16("65535"), Some(65_535));
    assert_eq!(parse_u16("65536"), None);
    assert_eq!(parse_u16("+12"), Some(12));
    assert_eq!(parse_u16(""), None);
    assert_eq!(parse_usize("18446744073709551616"), None);
    assert_eq!(parse_usize("1000000"), Some(1_000_000));
}

#[test]
fn white_space_is_what_unicode_calls_so() {
    let spaces = [
        '\u{9}', '\u{a}', '\u{b}', '\u{c}', '\u{d}', '\u{20}', '\u{85}', '\u{a0}', '\u{1680}',
        '\u{2000}', '\u{2005}', '\u{200a}', '\u{2028}', '\u{2029}', '\u{202f}', '\u{205f}',
        '\u{3000}',
    ];
    for space in spaces {
        let mut line = String::from("go");
        line.push(space);
        line.push_str("now");
        assert_eq!(words(&line), strings(&["go", "now"]), "{:?}", space);
    }
    let others = ['\u{8}', '\u{e}', '\u{1f}', '\u{180e}', '\u{200b}', '\u{2060}', '\u{feff}', '_'];
    for other in others {
        let mut line = String::from("go");
        line.push(other);
        line.push_str("now");
        assert_eq!(words(&line), vec![line.clone()], "{:?}", other);
    }
}
