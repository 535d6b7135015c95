use chess_engine::board::{
    Board, BISHOPS, BLACK_PIECES, EMPTY_SQUARE, FLAG_DOUBLE_PUSH, FLAG_PROMOTE_QUEEN, KINGS, KNIGHTS,
    PAWNS, QUEENS, ROOKS, WHITE_PIECES,
};
use chess_engine::constants::{calculate_king_attack_map, calculate_knight_attack_map};
use chess_engine::evaluation::evaluation_board;
use chess_engine::magics::{
    calculate_bishop_attacks_raycaster, calculate_bishop_mask, calculate_rook_attacks_raycaster,
    calculate_rook_mask, generate_permutations, MagicBitBoards,
};
use chess_engine::movedata::Move;
use chess_engine::movegenerator::{
    generate_pawn_moves, generate_psuedo_legal_moves, generate_tactical_moves, generate_tactical_pawn_moves,
    is_move_legal, is_square_attacked,
    static_exchange_evaluation, MoveList,
};
use chess_engine::perft::{get_algebraic_move, perft, perft_divide};
use chess_engine::search::{get_best_move, minimax, search_root, SearchInfo, MAX_SCORE, MIN_SCORE};
use chess_engine::transposition::{NodeType, TranspositionTable};
use chess_engine::uci::{parse_uci_move, play_uci_move};
use chess_engine::zobrist::Zobrist;

fn setup() -> (MagicBitBoards, Zobrist, Board) {
    let mb = MagicBitBoards::new();
    let z = Zobrist::new();
    let board = Board::new(&z);
    (mb, z, board)
}

fn play(board: &mut Board, mb: &MagicBitBoards, z: &Zobrist, moves: &[&str]) {
    for m in moves {
        assert!(play_uci_move(m, board, mb, z), "move {} should be legal", m);
    }
}

fn occupied(board: &Board) -> u64 {
    board.get_bitboard(WHITE_PIECES) | board.get_bitboard(BLACK_PIECES)
}

#[test]
fn move_fields_round_trip() {
    let m = Move::new(12, 28, FLAG_DOUBLE_PUSH, PAWNS as u32, EMPTY_SQUARE as u32);
    assert_eq!(m.get_start(), 12);
    assert_eq!(m.get_target(), 28);
    assert_eq!(m.get_flags(), FLAG_DOUBLE_PUSH);
    assert_eq!(m.get_piece(), PAWNS);
    assert_eq!(m.get_captured_piece(), EMPTY_SQUARE as usize);
    let q = Move::new(63, 0, 15, 15, 15);
    assert_eq!((q.get_start(), q.get_target(), q.get_flags(), q.get_piece(), q.get_captured_piece()), (63, 0, 15, 15, 15));
}

#[test]
fn algebraic_notation() {
    let e2e4 = Move::new(12, 28, FLAG_DOUBLE_PUSH, PAWNS as u32, EMPTY_SQUARE as u32);
    assert_eq!(get_algebraic_move(&e2e4), "e2e4");
    let promo = Move::new(52, 60, FLAG_PROMOTE_QUEEN, PAWNS as u32, EMPTY_SQUARE as u32);
    assert_eq!(get_algebraic_move(&promo), "e7e8q");
    let knight = Move::new(1, 18, 0, KNIGHTS as u32, EMPTY_SQUARE as u32);
    assert_eq!(get_algebraic_move(&knight), "b1c3");
    let under = Move::new(8, 1, 8, PAWNS as u32, KNIGHTS as u32);
    assert_eq!(get_algebraic_move(&under), "a2b1n");
}

#[test]
fn start_position_has_twenty_moves() {
    let (mb, _z, board) = setup();
    let mut list = MoveList::new();
    generate_psuedo_legal_moves(&board, &mut list, &mb);
    assert_eq!(list.get_count(), 20);
    let mut tactical = MoveList::new();
    generate_tactical_moves(&board, &mut tactical, &mb);
    assert_eq!(tactical.get_count(), 0);
}

#[test]
fn perft_start_position() {
    let (mb, z, mut board) = setup();
    assert_eq!(perft(&mut board, &mb, 0, &z), 1);
    assert_eq!(perft(&mut board, &mb, 1, &z), 20);
    assert_eq!(perft(&mut board, &mb, 2, &z), 400);
    assert_eq!(perft(&mut board, &mb, 3, &z), 8902);
}

#[test]
fn perft_after_e4_e5_nf3() {
    let (mb, z, mut board) = setup();
    play(&mut board, &mb, &z, &["e2e4", "e7e5"]);
    // 1. e4 e5: white has 29 moves
    assert_eq!(perft(&mut board, &mb, 1, &z), 29);
}

#[test]
fn perft_divide_adds_up() {
    let (mb, z, mut board) = setup();
    let key = board.get_zobrist_key();
    let divide = perft_divide(&mut board, &mb, 2, &z);
    assert_eq!(divide.len(), 20);
    assert!(divide.iter().all(|(_, n)| *n == 20));
    let total: u64 = divide.iter().map(|(_, n)| *n).sum();
    assert_eq!(total, perft(&mut board, &mb, 2, &z));
    assert_eq!(board.get_zobrist_key(), key);
}

#[test]
fn make_unmake_restores_position() {
    let (mb, z, mut board) = setup();
    let before_key = board.get_zobrist_key();
    let before_eval = board.get_incremental_eval();
    let mut list = MoveList::new();
    generate_psuedo_legal_moves(&board, &mut list, &mb);
    for i in 0..list.get_count() {
        let m = list.get_move(i);
        board.make_move(&m, &z);
        assert!(!board.is_white_turn());
        board.unmake_move(&m);
        assert_eq!(board.get_zobrist_key(), before_key);
        assert_eq!(board.get_incremental_eval(), before_eval);
        assert!(board.is_white_turn());
        for piece in 0..8 {
            assert_eq!(board.get_bitboard(piece), Board::new(&z).get_bitboard(piece));
        }
    }
}

#[test]
fn incremental_key_matches_recomputed_key() {
    let (mb, z, mut board) = setup();
    assert_eq!(board.get_zobrist_key(), board.generate_zobrist_key(&z));
    play(
        &mut board,
        &mb,
        &z,
        &["e2e4", "d7d5", "e4d5", "g8f6", "f1b5", "c7c6", "d5c6", "d8d2", "b1d2", "e8d8", "g1f3", "b7c6", "e1g1"],
    );
    assert_eq!(board.get_zobrist_key(), board.generate_zobrist_key(&z));
}

#[test]
fn null_move_restores_position() {
    let (mb, z, mut board) = setup();
    play(&mut board, &mb, &z, &["e2e4"]);
    let key = board.get_zobrist_key();
    let ep = board.get_en_passant_target();
    assert_eq!(ep, 1u64 << 20);
    board.make_null_move(&z);
    assert!(board.is_white_turn());
    assert_eq!(board.get_en_passant_target(), 0);
    board.unmake_null_move();
    assert_eq!(board.get_zobrist_key(), key);
    assert_eq!(board.get_en_passant_target(), ep);
    assert!(!board.is_white_turn());
}

#[test]
fn castling_and_rights() {
    let (mb, z, mut board) = setup();
    assert_eq!(board.get_castling_rights(), 15);
    play(&mut board, &mb, &z, &["e2e4", "e7e5", "g1f3", "b8c6", "f1c4", "g8f6"]);
    let mut list = MoveList::new();
    generate_psuedo_legal_moves(&board, &mut list, &mb);
    let names: Vec<String> = (0..list.get_count()).map(|i| get_algebraic_move(&list.get_move(i))).collect();
    assert!(names.contains(&"e1g1".to_string()));
    play(&mut board, &mb, &z, &["e1g1"]);
    assert_eq!(board.get_castling_rights(), 12);
    assert_eq!(board.get_piece_from_array(6), KINGS as u32);
    assert_eq!(board.get_piece_from_array(5), ROOKS as u32);
    assert_eq!(board.get_piece_from_array(7), EMPTY_SQUARE as u32);
}

#[test]
fn en_passant_capture() {
    let (mb, z, mut board) = setup();
    play(&mut board, &mb, &z, &["e2e4", "a7a6", "e4e5", "d7d5"]);
    assert_eq!(board.get_en_passant_target(), 1u64 << 43);
    let found = parse_uci_move("e5d6", &mut board, &mb, &z).expect("en passant is legal");
    assert_eq!(found.get_flags(), 4);
    assert_eq!(found.get_captured_piece(), PAWNS);
    board.make_move(&found, &z);
    assert_eq!(board.get_piece_from_array(35), EMPTY_SQUARE as u32);
    assert_eq!(board.get_piece_from_array(43), PAWNS as u32);
}

#[test]
fn parse_uci_move_finds_only_legal_moves() {
    let (mb, z, mut board) = setup();
    let key = board.get_zobrist_key();
    let m = parse_uci_move("e2e4", &mut board, &mb, &z).expect("e2e4 is legal");
    assert_eq!((m.get_start(), m.get_target(), m.get_flags()), (12, 28, FLAG_DOUBLE_PUSH));
    assert!(parse_uci_move("e2e5", &mut board, &mb, &z).is_none());
    assert!(parse_uci_move("e1e2", &mut board, &mb, &z).is_none());
    assert!(parse_uci_move("", &mut board, &mb, &z).is_none());
    assert_eq!(board.get_zobrist_key(), key);
    assert!(!play_uci_move("zzzz", &mut board, &mb, &z));
    assert_eq!(board.get_zobrist_key(), key);
}

#[test]
fn only_check_evasions_are_legal() {
    let (mb, z, mut board) = setup();
    play(&mut board, &mb, &z, &["e2e4", "e7e5", "d1h5", "b8c6", "h5e5"]);
    // Black is in check from the queen on e5: only moves that deal with it are legal
    assert!(parse_uci_move("a7a6", &mut board, &mb, &z).is_none());
    assert!(parse_uci_move("d8e7", &mut board, &mb, &z).is_some());
    assert!(parse_uci_move("g8e7", &mut board, &mb, &z).is_some());
    assert!(parse_uci_move("c6e5", &mut board, &mb, &z).is_some());
    assert!(parse_uci_move("f7f6", &mut board, &mb, &z).is_none());
}

#[test]
fn is_move_legal_hands_board_back() {
    let (mb, z, mut board) = setup();
    let m = Move::new(12, 28, FLAG_DOUBLE_PUSH, PAWNS as u32, EMPTY_SQUARE as u32);
    board.make_move(&m, &z);
    let key = board.get_zobrist_key();
    assert!(is_move_legal(&mut board, &mb));
    assert_eq!(board.get_zobrist_key(), key);
    assert!(!board.is_white_turn());
}

#[test]
fn square_attack_detection() {
    let (mb, _z, board) = setup();
    let occ = occupied(&board);
    // White to move: attacks by black
    assert!(is_square_attacked(44, occ, &board, &mb)); // e6, black pawns d7 and f7
    assert!(is_square_attacked(45, occ, &board, &mb)); // f6, knight g8
    assert!(!is_square_attacked(20, occ, &board, &mb)); // e3
    assert!(!is_square_attacked(35, occ, &board, &mb)); // d5
}

#[test]
fn static_exchange_values() {
    let (mb, z, mut board) = setup();
    play(&mut board, &mb, &z, &["e2e4", "d7d5"]);
    // exd5 Qxd5 and white has no recapture: pawn for pawn
    assert_eq!(static_exchange_evaluation(&board, 35, 28, PAWNS, &mb), 0);
    play(&mut board, &mb, &z, &["b1c3", "d5e4"]);
    // Nxe4 with no recapture wins the pawn
    assert_eq!(static_exchange_evaluation(&board, 28, 18, KNIGHTS, &mb), 100);
    let (mb, z, mut board) = setup();
    play(&mut board, &mb, &z, &["e2e4", "f7f5"]);
    // exf5: nothing recaptures on f5
    assert_eq!(static_exchange_evaluation(&board, 37, 28, PAWNS, &mb), 100);
}

#[test]
fn magic_lookups_match_raycaster() {
    let mb = MagicBitBoards::new();
    // Every relevant occupancy was checked against ray casting, so lookups read the tables.
    assert!(mb.uses_tables());
    for sq in [0usize, 7, 27, 36, 56, 63] {
        let rmask = calculate_rook_mask(sq);
        let bmask = calculate_bishop_mask(sq);
        let rperms = generate_permutations(rmask);
        let bperms = generate_permutations(bmask);
        assert_eq!(rperms.len(), 1usize << rmask.count_ones());
        assert_eq!(bperms.len(), 1usize << bmask.count_ones());
        for occ in rperms.iter().step_by(37) {
            assert_eq!(mb.get_rook_attacks(sq, *occ), calculate_rook_attacks_raycaster(sq, *occ));
        }
        for occ in bperms.iter().step_by(7) {
            assert_eq!(mb.get_bishop_attacks(sq, *occ), calculate_bishop_attacks_raycaster(sq, *occ));
        }
    }
    // A rook on a1 on an empty board sees its rank and file
    assert_eq!(calculate_rook_attacks_raycaster(0, 0), 0x01010101010101FE);
    assert_eq!(calculate_rook_mask(0), 0x000101010101017E);
    assert_eq!(calculate_bishop_mask(0), 0x0040201008040200);
}

#[test]
fn knight_and_king_tables() {
    let knights = calculate_knight_attack_map();
    let kings = calculate_king_attack_map();
    assert_eq!(knights[0], (1u64 << 10) | (1u64 << 17));
    assert_eq!(knights[27].count_ones(), 8);
    assert_eq!(kings[0], (1u64 << 1) | (1u64 << 8) | (1u64 << 9));
    assert_eq!(kings[63].count_ones(), 3);
    assert_eq!(kings[27].count_ones(), 8);
}

#[test]
fn start_position_evaluation_is_balanced() {
    let (mb, z, mut board) = setup();
    assert_eq!(board.get_incremental_eval(), 0);
    assert_eq!(board.get_phase_weight(), 24);
    assert_eq!(evaluation_board(&board, &mb), 0);
    play(&mut board, &mb, &z, &["e2e4"]);
    let black_view = evaluation_board(&board, &mb);
    board.turn_end();
    let white_view = evaluation_board(&board, &mb);
    assert_eq!(black_view, -white_view);
    assert!(white_view > 0);
}

#[test]
fn piece_square_values() {
    assert_eq!(Board::get_piece_value_pst(PAWNS, 12, true), 100 - 20);
    assert_eq!(Board::get_piece_value_pst(PAWNS, 52, false), -(100 - 20));
    assert_eq!(Board::get_piece_value_pst(KINGS, 4, true), 0);
    assert_eq!(Board::get_piece_phase(QUEENS), 4);
    assert_eq!(Board::get_piece_phase(ROOKS), 2);
    assert_eq!(Board::get_piece_phase(BISHOPS), 1);
    assert_eq!(Board::get_piece_phase(PAWNS), 0);
}

#[test]
fn repetition_and_fifty_moves() {
    let (mb, z, mut board) = setup();
    assert!(!board.is_repetition());
    play(&mut board, &mb, &z, &["g1f3", "g8f6", "f3g1"]);
    assert!(!board.is_repetition());
    play(&mut board, &mb, &z, &["f6g8"]);
    assert!(board.is_repetition());
    assert!(!board.is_fifty_move_draw());
    assert_eq!(board.halfmove_clock, 4);
    play(&mut board, &mb, &z, &["e2e4"]);
    assert_eq!(board.halfmove_clock, 0);
    assert!(!board.is_repetition());
}

#[test]
fn transposition_store_and_probe() {
    let mut tt = TranspositionTable::new(16);
    let m = Move::new(12, 28, 1, 0, 8);
    assert!(tt.probe(5).is_none());
    tt.store(5, 3, 42, NodeType::Exact, m);
    let e = tt.probe(5).expect("stored");
    assert_eq!((e.zobrist_key, e.depth, e.score), (5, 3, 42));
    assert!(e.node_type == NodeType::Exact);
    assert!(e.best_move == m);
    // same slot, other key: not found
    assert!(tt.probe(21).is_none());
    // shallower search of the same key keeps the deeper entry
    tt.store(5, 2, -7, NodeType::Alpha, m);
    assert_eq!(tt.probe(5).unwrap().score, 42);
    // equal depth replaces
    tt.store(5, 3, 9, NodeType::Beta, m);
    assert_eq!(tt.probe(5).unwrap().score, 9);
    // another key always replaces
    tt.store(21, 0, 1, NodeType::Exact, m);
    assert!(tt.probe(5).is_none());
    assert_eq!(tt.probe(21).unwrap().score, 1);
}

#[test]
fn move_ordering_puts_hash_move_and_captures_first() {
    let (mb, z, mut board) = setup();
    play(&mut board, &mb, &z, &["e2e4", "d7d5"]);
    let history = [[0i32; 64]; 12];
    let mut list = MoveList::new();
    generate_psuedo_legal_moves(&board, &mut list, &mb);
    list.score_moves(&board, None, None, None, &history);
    let first = list.pick_move(0);
    assert_eq!(get_algebraic_move(&first), "e4d5");
    let hash_move = parse_uci_move("g1f3", &mut board, &mb, &z).unwrap();
    let mut list2 = MoveList::new();
    generate_psuedo_legal_moves(&board, &mut list2, &mb);
    list2.score_moves(&board, Some(hash_move), None, None, &history);
    assert!(list2.pick_move(0) == hash_move);
    assert_eq!(get_algebraic_move(&list2.pick_move(1)), "e4d5");
    // quiet moves with equal scores keep generation order
    let mut list3 = MoveList::new();
    let (_, _, start) = setup();
    generate_psuedo_legal_moves(&start, &mut list3, &mb);
    list3.score_moves(&start, None, None, None, &history);
    for i in 0..list3.get_count() {
        assert!(list3.pick_move(i) == list3.get_move(i));
    }
}

#[test]
fn quiet_moves_are_ordered_by_history_whatever_the_piece_field() {
    let (_, _, board) = setup();
    let mut history = [[0i32; 64]; 12];
    history[9][28] = 5;
    history[1][21] = 3;
    let odd = Move::new(12, 28, 0, 9, EMPTY_SQUARE as u32);
    let knight = Move::new(6, 21, 0, KNIGHTS as u32, EMPTY_SQUARE as u32);
    let mut list = MoveList::new();
    list.add_move(knight);
    list.add_move(odd);
    list.score_moves(&board, None, None, None, &history);
    assert!(list.pick_move(0) == odd);
    assert!(list.pick_move(1) == knight);
}

#[test]
fn search_finds_mate_in_one() {
    let (mb, z, mut board) = setup();
    // Scholar's mate set-up: Qxf7 is mate
    play(&mut board, &mb, &z, &["e2e4", "e7e5", "f1c4", "b8c6", "d1h5", "g8f6"]);
    let mut tt = TranspositionTable::new(1 << 16);
    let mut info = SearchInfo::new(60_000);
    let key = board.get_zobrist_key();
    let best = search_root(&mut board, 2, &mb, &mut info, &z, &mut tt);
    assert_eq!(get_algebraic_move(&best), "h5f7");
    assert_eq!(board.get_zobrist_key(), key);
}

#[test]
fn get_best_move_returns_legal_move() {
    let (mb, z, mut board) = setup();
    let mut tt = TranspositionTable::new(1 << 16);
    let mut reports = Vec::new();
    let mut checks = Vec::new();
    let key = board.get_zobrist_key();
    let best = get_best_move(&mut board, 200, &mb, &z, &mut tt, &mut reports, &mut checks);
    assert_eq!(board.get_zobrist_key(), key);
    let name = get_algebraic_move(&best);
    assert!(parse_uci_move(&name, &mut board, &mb, &z).is_some());
    assert!(!reports.is_empty());
    for (i, (depth, _)) in reports.iter().enumerate() {
        assert_eq!(*depth as usize, i + 1);
    }
    // every reported depth was followed by a reading with time left; the search ended on a
    // stop or an expired reading, unless all 64 depths finished
    for i in 0..reports.len() {
        assert_eq!(checks[i], (false, false));
    }
    if reports.len() < 64 {
        assert_eq!(checks.len(), reports.len() + 1);
        let (stopped, time_up) = checks[reports.len()];
        assert!(stopped || time_up);
    } else {
        assert_eq!(checks.len(), 64);
    }
    // the node counts only grow
    for i in 1..reports.len() {
        assert!(reports[i].1 > reports[i - 1].1);
    }
}

#[test]
fn get_best_move_without_time_reports_nothing() {
    let (mb, z, mut board) = setup();
    let mut tt = TranspositionTable::new(1 << 10);
    let mut reports = vec![(9u8, 9u64)];
    let mut checks = vec![(true, true)];
    let best = get_best_move(&mut board, 0, &mb, &z, &mut tt, &mut reports, &mut checks);
    assert_eq!(reports, vec![(9u8, 9u64)]);
    // depth 1 runs well under 2048 nodes, so only the reading after it stops the search
    assert_eq!(checks, vec![(true, true), (false, true)]);
    assert_eq!((best.get_start(), best.get_target()), (0, 0));
}

#[test]
fn clock_readings_count_only_every_2048_nodes() {
    let mut info = SearchInfo::new(60_000);
    info.nodes = 5;
    info.note_clock(true);
    assert!(!info.stopped);
    info.nodes = 4096;
    info.note_clock(false);
    assert!(!info.stopped);
    info.note_clock(true);
    assert!(info.stopped);
    info.note_clock(false);
    assert!(info.stopped);
    // with a minute to go the clock says the time is not up
    let mut fresh = SearchInfo::new(60_000);
    fresh.check_time();
    assert!(!fresh.stopped);
    // with no time at all it stops at the first reading
    let mut late = SearchInfo::new(0);
    late.check_time();
    assert!(late.stopped);
    let mut off_beat = SearchInfo::new(0);
    off_beat.nodes = 1;
    off_beat.check_time();
    assert!(!off_beat.stopped);
}

#[test]
fn search_info_starts_fresh() {
    let info = SearchInfo::new(10);
    assert!(!info.stopped);
    assert_eq!(info.nodes, 0);
    assert!(info.killer_moves[1][99] == Move::new(0, 0, 0, 0, 0));
    assert_eq!(info.history_moves[11][63], 0);
}

#[test]
fn minimax_scores_a_mate_in_one() {
    let (mb, z, mut board) = setup();
    play(&mut board, &mb, &z, &["f2f3", "e7e5", "g2g4"]);
    let mut tt = TranspositionTable::new(1 << 12);
    let mut info = SearchInfo::new(60_000);
    let key = board.get_zobrist_key();
    // Black mates with Qh4: the reply finds no legal move while in check, one ply down.
    let score = minimax(&mut board, 2, MIN_SCORE, MAX_SCORE, &mb, &mut info, &z, &mut tt, true, 0);
    assert!(!info.stopped);
    assert_eq!(score, 49000 - 1);
    assert_eq!(board.get_zobrist_key(), key);
    // The result is in the table now, exact, with the mating move.
    let entry = tt.probe(key).expect("the root is stored");
    assert_eq!(entry.score, 49000 - 1);
    assert_eq!(get_algebraic_move(&entry.best_move), "d8h4");
}

#[test]
fn minimax_in_a_stopped_search_is_zero() {
    let (mb, z, mut board) = setup();
    let mut tt = TranspositionTable::new(1 << 8);
    let mut info = SearchInfo::new(60_000);
    info.stopped = true;
    assert_eq!(minimax(&mut board, 3, MIN_SCORE, MAX_SCORE, &mb, &mut info, &z, &mut tt, true, 0), 0);
    // one node is counted, and nothing is stored
    assert_eq!(info.nodes, 1);
    assert!(tt.probe(board.get_zobrist_key()).is_none());
}

#[test]
fn minimax_scores_a_repetition_as_a_draw_in_one_node() {
    let (mb, z, mut board) = setup();
    play(&mut board, &mb, &z, &["g1f3", "g8f6", "f3g1", "f6g8"]);
    assert!(board.is_repetition());
    let mut tt = TranspositionTable::new(1 << 8);
    let mut info = SearchInfo::new(60_000);
    let key = board.get_zobrist_key();
    assert_eq!(minimax(&mut board, 3, MIN_SCORE, MAX_SCORE, &mb, &mut info, &z, &mut tt, true, 1), 0);
    assert_eq!(info.nodes, 1);
    assert!(!info.stopped);
    assert_eq!(board.get_zobrist_key(), key);
    assert!(tt.probe(key).is_none());
}

#[test]
fn tactical_pawn_moves_are_the_full_list_filtered() {
    let (mb, z, mut board) = setup();
    // after 1.e4 d5 2.e5 f5 the only tactical pawn move is e5xf6 en passant
    play(&mut board, &mb, &z, &["e2e4", "d7d5", "e4e5", "f7f5"]);
    let empty = !occupied(&board);
    let enemies = board.get_bitboard(BLACK_PIECES);
    let mut full = MoveList::new();
    generate_pawn_moves(&board, &mut full, empty);
    let mut tactical = MoveList::new();
    generate_tactical_pawn_moves(&board, &mut tactical, empty, enemies);
    let mut kept = Vec::new();
    for i in 0..full.get_count() {
        let m = full.get_move(i);
        let flags = m.get_flags();
        if m.get_captured_piece() != EMPTY_SQUARE as usize || (4..=8).contains(&flags) {
            kept.push(m);
        }
    }
    assert_eq!(tactical.get_count(), kept.len());
    for i in 0..kept.len() {
        assert!(tactical.get_move(i) == kept[i]);
    }
    // the en passant capture e5xf6 is among them, the quiet pushes are not
    assert_eq!(kept.len(), 1);
    assert_eq!(get_algebraic_move(&kept[0]), "e5f6");
    assert!(full.get_count() > kept.len());
}

#[test]
fn masks_are_empty_board_rays_without_their_edge_squares() {
    let rank_1: u64 = 0xFF;
    let rank_8: u64 = 0xFF00_0000_0000_0000;
    let file_a: u64 = 0x0101_0101_0101_0101;
    let file_h: u64 = 0x8080_8080_8080_8080;
    for sq in 0..64usize {
        let own_rank = 0xFFu64 << (8 * (sq / 8));
        let own_file = file_a << (sq % 8);
        let edges = ((rank_1 | rank_8) & !own_rank) | ((file_a | file_h) & !own_file);
        assert_eq!(calculate_rook_mask(sq), calculate_rook_attacks_raycaster(sq, 0) & !edges);
        assert_eq!(calculate_bishop_mask(sq), calculate_bishop_attacks_raycaster(sq, 0) & 0x007E_7E7E_7E7E_7E00);
    }
    assert_eq!(calculate_bishop_mask(0), 0x0040_2010_0804_0200);
    assert_eq!(calculate_bishop_mask(27).count_ones(), 9);
    assert_eq!(calculate_rook_mask(0), 0x0001_0101_0101_017E);
    assert_eq!(calculate_rook_mask(27).count_ones(), 10);
}

#[test]
fn every_legal_move_is_found_again_by_its_name() {
    let (mb, z, mut board) = setup();
    play(&mut board, &mb, &z, &["e2e4", "b8c6", "g1f3", "g8h6", "f1c4", "d7d5", "e4e5", "f7f5"]);
    let mut list = MoveList::new();
    generate_psuedo_legal_moves(&board, &mut list, &mb);
    let mut found = 0;
    for i in 0..list.get_count() {
        let m = list.get_move(i);
        board.make_move(&m, &z);
        let legal = is_move_legal(&mut board, &mb);
        board.unmake_move(&m);
        if legal {
            let name = get_algebraic_move(&m);
            let parsed = parse_uci_move(&name, &mut board, &mb, &z).expect("a legal move's name parses");
            assert!(parsed == m, "{} parses to another move", name);
            found += 1;
        }
    }
    // castling and en passant are among them
    assert!(found > 20);
    let castle = parse_uci_move("e1g1", &mut board, &mb, &z).unwrap();
    assert_eq!(castle.get_flags(), 2);
    let ep = parse_uci_move("e5f6", &mut board, &mb, &z).unwrap();
    assert_eq!(ep.get_flags(), 4);
    assert!(parse_uci_move("e1e3", &mut board, &mb, &z).is_none());
}

#[test]
fn a_capture_takes_one_piece_off_the_board() {
    let (mb, z, mut board) = setup();
    let count = |b: &Board| occupied(b).count_ones();
    assert_eq!(count(&board), 32);
    play(&mut board, &mb, &z, &["e2e4", "b8c6", "g1f3", "g8h6", "f1c4", "d7d5", "e4e5", "f7f5"]);
    assert_eq!(count(&board), 32);
    // en passant takes the pawn beside the target square
    play(&mut board, &mb, &z, &["e5f6"]);
    assert_eq!(count(&board), 31);
    // an ordinary capture
    play(&mut board, &mb, &z, &["e7f6", "c4d5"]);
    assert_eq!(count(&board), 29);
    // castling moves two pieces and takes none
    play(&mut board, &mb, &z, &["c8d7", "e1g1"]);
    assert_eq!(count(&board), 29);
}
