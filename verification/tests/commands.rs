use chess_engine::board::Board;
use chess_engine::magics::MagicBitBoards;
use chess_engine::perft::perft;
use chess_engine::uci::{
    is_word, move_time, parse_decimal, play_uci_moves, read_command, read_go, Front, GoParams, UciCommand,
    TIME_LIMIT,
};
use chess_engine::zobrist::Zobrist;

fn words(line: &str) -> Vec<String> {
    line.split_whitespace().map(String::from).collect()
}

#[test]
fn decimal_numbers_read_like_from_str() {
    assert_eq!(parse_decimal(&String::from("0")), Some(0));
    assert_eq!(parse_decimal(&String::from("1200")), Some(1200));
    assert_eq!(parse_decimal(&String::from("+42")), Some(42));
    assert_eq!(parse_decimal(&String::from("007")), Some(7));
    assert_eq!(parse_decimal(&String::from("18446744073709551615")), Some(u64::MAX));
    assert_eq!(parse_decimal(&String::from("18446744073709551616")), None);
    assert_eq!(parse_decimal(&String::from("")), None);
    assert_eq!(parse_decimal(&String::from("+")), None);
    assert_eq!(parse_decimal(&String::from("-5")), None);
    assert_eq!(parse_decimal(&String::from("12a")), None);
    assert_eq!(parse_decimal(&String::from(" 12")), None);
    for s in ["0", "1200", "+42", "99999999999999999999", "x", "", "+", "3000"] {
        assert_eq!(parse_decimal(&String::from(s)), s.parse::<u64>().ok(), "word {:?}", s);
    }
}

#[test]
fn words_compare_exactly() {
    assert!(is_word(&String::from("go"), "go"));
    assert!(!is_word(&String::from("go"), "gone"));
    assert!(!is_word(&String::from("Go"), "go"));
    assert!(!is_word(&String::from(""), "go"));
    assert!(is_word(&String::from(""), ""));
}

#[test]
fn console_reads_every_command() {
    assert_eq!(read_command(&words("uci"), true, Front::Console), UciCommand::Identify);
    assert_eq!(read_command(&words("isready"), true, Front::Console), UciCommand::IsReady);
    assert_eq!(read_command(&words("ucinewgame"), true, Front::Console), UciCommand::NewGame);
    assert_eq!(read_command(&words("quit"), true, Front::Console), UciCommand::Quit);
    assert_eq!(read_command(&words(""), true, Front::Console), UciCommand::Ignored);
    assert_eq!(read_command(&words("   "), true, Front::Console), UciCommand::Ignored);
    assert_eq!(read_command(&words("stop"), true, Front::Console), UciCommand::Ignored);
}

#[test]
fn web_reads_its_own_commands() {
    assert_eq!(read_command(&words("uci"), true, Front::Web), UciCommand::Ignored);
    assert_eq!(read_command(&words("quit"), true, Front::Web), UciCommand::Ignored);
    assert_eq!(read_command(&words("isready"), true, Front::Web), UciCommand::IsReady);
    assert_eq!(read_command(&words("ucinewgame"), false, Front::Web), UciCommand::NewGame);
    // The web page sends no FEN: the board is kept and the words are tried as moves.
    assert_eq!(
        read_command(&words("position fen x moves e2e4"), true, Front::Web),
        UciCommand::Position { reset: false, first_move: 1 }
    );
}

#[test]
fn position_commands_locate_their_moves() {
    assert_eq!(
        read_command(&words("position startpos moves e2e4 e7e5"), true, Front::Console),
        UciCommand::Position { reset: true, first_move: 3 }
    );
    assert_eq!(
        read_command(&words("position startpos"), true, Front::Console),
        UciCommand::Position { reset: true, first_move: 1 }
    );
    assert_eq!(
        read_command(&words("position fen 8/8/8/8/8/8/8/8 w - - 0 1 moves a2a3"), true, Front::Console),
        UciCommand::Position { reset: true, first_move: 9 }
    );
    assert_eq!(
        read_command(&words("position fen 8/8/8/8/8/8/8/8 w - - 0 1"), true, Front::Console),
        UciCommand::Position { reset: true, first_move: 8 }
    );
    assert_eq!(
        read_command(&words("position e2e4"), true, Front::Console),
        UciCommand::Position { reset: false, first_move: 1 }
    );
}

#[test]
fn go_reads_the_side_to_moves_clock() {
    let line = words("go wtime 60000 btime 50000 winc 1000 binc 2000 movestogo 20");
    assert_eq!(
        read_go(&line, true, true),
        GoParams { time_limit: TIME_LIMIT, time_left: Some(60000), increment: 1000, moves_to_go: 20 }
    );
    assert_eq!(
        read_go(&line, false, true),
        GoParams { time_limit: TIME_LIMIT, time_left: Some(50000), increment: 2000, moves_to_go: 20 }
    );
    assert_eq!(
        read_command(&line, false, Front::Web),
        UciCommand::Go(GoParams { time_limit: TIME_LIMIT, time_left: Some(50000), increment: 2000, moves_to_go: 20 })
    );
}

#[test]
fn go_defaults_and_movetime() {
    assert_eq!(
        read_go(&words("go"), true, true),
        GoParams { time_limit: 1200, time_left: None, increment: 0, moves_to_go: 30 }
    );
    // A trailing keyword reads its default; an unreadable number gives none or the default.
    assert_eq!(read_go(&words("go wtime"), true, true).time_left, Some(0));
    assert_eq!(read_go(&words("go wtime soon"), true, true).time_left, None);
    assert_eq!(read_go(&words("go movestogo x"), true, true).moves_to_go, 30);
    assert_eq!(read_go(&words("go winc x"), true, true).increment, 0);
    // movetime fixes the time and drops the clock read before it, from the console only.
    assert_eq!(
        read_go(&words("go wtime 9000 movetime 500"), true, true),
        GoParams { time_limit: 500, time_left: None, increment: 0, moves_to_go: 30 }
    );
    assert_eq!(
        read_go(&words("go movetime 500 wtime 9000"), true, true),
        GoParams { time_limit: 500, time_left: Some(9000), increment: 0, moves_to_go: 30 }
    );
    assert_eq!(
        read_go(&words("go wtime 9000 movetime 500"), true, false),
        GoParams { time_limit: 1200, time_left: Some(9000), increment: 0, moves_to_go: 30 }
    );
    assert_eq!(read_go(&words("go movetime"), true, true).time_limit, 1200);
}

#[test]
fn position_moves_are_played_in_order() {
    let mb = MagicBitBoards::new();
    let z = Zobrist::new();
    let mut board = Board::new(&z);
    let line = words("position startpos moves e2e4 e7e5 g1f3");
    play_uci_moves(&line, 3, &mut board, &mb, &z);
    assert!(!board.is_white_turn());
    assert_eq!(board.halfmove_clock, 1);
    // Words that name no legal move are passed over.
    let mut other = Board::new(&z);
    let line = words("position startpos moves e2e4 e2e4 e7e5 zz g1f3");
    play_uci_moves(&line, 3, &mut other, &mb, &z);
    assert_eq!(other.zobrist_key, board.zobrist_key);
    assert_eq!(perft(&mut other, &mb, 1, &z), perft(&mut board, &mb, 1, &z));
    // Nothing to play past the end.
    let mut fresh = Board::new(&z);
    play_uci_moves(&line, 99, &mut fresh, &mb, &z);
    assert_eq!(fresh.zobrist_key, Board::new(&z).zobrist_key);
}

#[test]
fn move_time_shares_the_clock() {
    // No clock: the time limit of the command.
    let fixed = GoParams { time_limit: 900, time_left: None, increment: 0, moves_to_go: 30 };
    assert_eq!(move_time(&fixed, 0, 0), 900);
    // 60 s over 30 moves, plus three quarters of a 1 s increment.
    let clock = GoParams { time_limit: TIME_LIMIT, time_left: Some(60_000), increment: 1000, moves_to_go: 30 };
    assert_eq!(move_time(&clock, 750, 48_000), 2750);
    // Zero moves to go counts as one.
    let last = GoParams { time_limit: TIME_LIMIT, time_left: Some(6000), increment: 0, moves_to_go: 0 };
    assert_eq!(move_time(&last, 0, 4800), 6000);
    // The 50 ms floor.
    let short = GoParams { time_limit: TIME_LIMIT, time_left: Some(900), increment: 0, moves_to_go: 30 };
    assert_eq!(move_time(&short, 0, 720), 50);
    // The floor would pass the time left: four fifths of it.
    let flagging = GoParams { time_limit: TIME_LIMIT, time_left: Some(40), increment: 0, moves_to_go: 30 };
    assert_eq!(move_time(&flagging, 0, 32), 32);
}
