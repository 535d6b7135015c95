use chess_engine::board::{Board, FLAG_PROMOTE_QUEEN, PAWNS};
use chess_engine::magics::MagicBitBoards;
use chess_engine::movegenerator::{generate_psuedo_legal_moves, generate_tactical_moves, MoveList};
use chess_engine::perft::get_algebraic_move;
use chess_engine::uci::play_uci_move;
use chess_engine::zobrist::Zobrist;

fn names(board: &Board, mb: &MagicBitBoards, tactical: bool) -> Vec<String> {
    let mut list = MoveList::new();
    if tactical {
        generate_tactical_moves(board, &mut list, mb);
    } else {
        generate_psuedo_legal_moves(board, &mut list, mb);
    }
    (0..list.get_count()).map(|i| get_algebraic_move(&list.get_move(i))).collect()
}

fn position(moves: &[&str]) -> (MagicBitBoards, Zobrist, Board) {
    let mb = MagicBitBoards::new();
    let z = Zobrist::new();
    let mut board = Board::new(&z);
    for m in moves {
        assert!(play_uci_move(m, &mut board, &mb, &z), "move {} should be legal", m);
    }
    (mb, z, board)
}

#[test]
fn pawn_captures_are_generated_both_ways() {
    let (mb, _z, board) = position(&["e2e4", "d7d5", "a2a3", "f7f5"]);
    let all = names(&board, &mb, false);
    assert!(all.contains(&String::from("e4d5")));
    assert!(all.contains(&String::from("e4f5")));
    let tactical = names(&board, &mb, true);
    assert_eq!(tactical, vec![String::from("e4f5"), String::from("e4d5")]);
}

#[test]
fn promotions_are_generated_four_ways() {
    let (mb, _z, board) =
        position(&["e2e4", "d7d5", "e4d5", "c7c6", "d5c6", "g8f6", "c6b7", "b8d7"]);
    let all = names(&board, &mb, false);
    for target in ["a8", "b8", "c8"] {
        for piece in ["q", "r", "b", "n"] {
            let name = format!("b7{}{}", target, piece);
            assert!(all.contains(&name), "missing {}", name);
        }
    }
    let mut list = MoveList::new();
    generate_psuedo_legal_moves(&board, &mut list, &mb);
    let promotions: Vec<_> = (0..list.get_count())
        .map(|i| list.get_move(i))
        .filter(|m| m.get_piece() == PAWNS && m.get_start() == 49)
        .collect();
    assert_eq!(promotions.len(), 12);
    assert!(promotions.iter().any(|m| m.get_target() == 56 && m.get_flags() == FLAG_PROMOTE_QUEEN));
}

#[test]
fn castling_is_generated_when_the_way_is_clear() {
    let (mb, _z, board) = position(&["e2e4", "e7e5", "g1f3", "b8c6", "f1c4", "g8f6"]);
    assert!(names(&board, &mb, false).contains(&String::from("e1g1")));
    let (mb, _z, board) = position(&["e2e4", "e7e5", "g1f3", "b8c6"]);
    assert!(!names(&board, &mb, false).contains(&String::from("e1g1")));
}
