use vstd::prelude::*;
use crate::board::{
    Board, BoardView, make_move_spec, FLAG_PROMOTE_QUEEN, FLAG_PROMOTE_ROOK, FLAG_PROMOTE_BISHOP,
    FLAG_PROMOTE_KNIGHT,
};
use crate::board_laws::{lemma_make_unmake, lemma_make_move_wf, lemma_make_move_fields};
use crate::magics::MagicBitBoards;
use crate::movedata::Move;
use crate::movegen_laws::{lemma_pseudo_legal_moves_ok, lemma_move_ok_makeable};
use crate::movegenerator::{MoveList, generate_psuedo_legal_moves, is_move_legal, pseudo_legal_moves, mover_king_safe};
use crate::zobrist::Zobrist;

verus! {

// ---------------------------------------------------------------------------------------------
// Move notation
// ---------------------------------------------------------------------------------------------
/// The file letter of a square.
pub open spec fn file_char(sq: u32) -> char {
    (97 + sq % 8) as char
}

/// The rank digit of a square.
pub open spec fn rank_char(sq: u32) -> char {
    (49 + sq / 8) as char
}

/// The letter of the piece a promotion flag promotes to.
pub open spec fn promotion_char(flags: u32) -> char {
    if flags == FLAG_PROMOTE_QUEEN {
        'q'
    } else if flags == FLAG_PROMOTE_ROOK {
        'r'
    } else if flags == FLAG_PROMOTE_BISHOP {
        'b'
    } else {
        'n'
    }
}

/// A move in coordinate notation: start square, target square, and the promotion piece when
/// there is one (`e2e4`, `e7e8q`).
pub open spec fn algebraic(m: Move) -> Seq<char> {
    let squares = seq![file_char(m.start()), rank_char(m.start()), file_char(m.target()), rank_char(m.target())];
    if FLAG_PROMOTE_QUEEN <= m.flags() <= FLAG_PROMOTE_KNIGHT {
        squares.push(promotion_char(m.flags()))
    } else {
        squares
    }
}

/// `String::push`: appends `c` to the end of `s`.
#[verifier::external_body]
fn push_char(s: &mut String, c: char)
    ensures
        final(s)@ == old(s)@.push(c),
{
    s.push(c);
}

pub fn get_algebraic_move(move_data: &Move) -> (r: String)
    ensures
        r@ == algebraic(*move_data),
{
    let start = move_data.get_start();
    let target = move_data.get_target();

    let start_file = (start % 8) as u8;
    let start_rank = (start / 8) as u8;
    let target_file = (target % 8) as u8;
    let target_rank = (target / 8) as u8;

    let mut move_str = String::new();
    // 97 is 'a', 49 is '1'
    push_char(&mut move_str, (97u8 + start_file) as char);
    push_char(&mut move_str, (49u8 + start_rank) as char);
    push_char(&mut move_str, (97u8 + target_file) as char);
    push_char(&mut move_str, (49u8 + target_rank) as char);

    // Append promotion piece if applicable
    let flag = move_data.get_flags();
    if flag >= FLAG_PROMOTE_QUEEN && flag <= FLAG_PROMOTE_KNIGHT {
        let promo_char = if flag == FLAG_PROMOTE_QUEEN {
            'q'
        } else if flag == FLAG_PROMOTE_ROOK {
            'r'
        } else if flag == FLAG_PROMOTE_BISHOP {
            'b'
        } else {
            'n'
        };
        push_char(&mut move_str, promo_char);
    }
    move_str
}

// ---------------------------------------------------------------------------------------------
// Perft
// ---------------------------------------------------------------------------------------------
/// A position in which `depth` more plies can be made and unmade.
pub open spec fn perft_ready(v: BoardView, depth: int) -> bool {
    v.wf() && v.halfmove_clock + depth < u32::MAX
}

/// The move leaves the mover's king safe.
#[verifier::opaque]
pub open spec fn is_legal(v: BoardView, mb: MagicBitBoards, z: Zobrist, m: Move) -> bool {
    mover_king_safe(make_move_spec(v, m, z), mb)
}

/// The number of leaf positions `depth` plies below `v`, counting only legal moves.
pub open spec fn perft_count(v: BoardView, mb: MagicBitBoards, z: Zobrist, depth: nat) -> nat
    decreases depth, 0nat,
{
    if depth == 0 {
        1
    } else {
        perft_sum(v, mb, z, (depth - 1) as nat, pseudo_legal_moves(v, mb))
    }
}

/// The leaf counts, `depth` plies further, after each legal move of `moves`.
pub open spec fn perft_sum(v: BoardView, mb: MagicBitBoards, z: Zobrist, depth: nat, moves: Seq<Move>) -> nat
    decreases depth, moves.len() + 1,
{
    if moves.len() == 0 {
        0
    } else {
        let m = moves.last();
        perft_sum(v, mb, z, depth, moves.drop_last()) + if is_legal(v, mb, z, m) {
            perft_count(make_move_spec(v, m, z), mb, z, depth)
        } else {
            0
        }
    }
}

/// The count over a prefix of the moves is at most the count over all of them.
proof fn lemma_perft_sum_prefix(v: BoardView, mb: MagicBitBoards, z: Zobrist, depth: nat, moves: Seq<Move>, i: int)
    requires
        0 <= i <= moves.len(),
    ensures
        perft_sum(v, mb, z, depth, moves.subrange(0, i)) <= perft_sum(v, mb, z, depth, moves),
    decreases moves.len(),
{
    if i < moves.len() {
        assert(moves.drop_last().subrange(0, i) =~= moves.subrange(0, i));
        lemma_perft_sum_prefix(v, mb, z, depth, moves.drop_last(), i);
    } else {
        assert(moves.subrange(0, i) =~= moves);
    }
}

/// The generated moves after which the mover's king is not attacked, in generation order.
pub open spec fn safe_moves(v: BoardView, mb: MagicBitBoards, z: Zobrist) -> Seq<Move> {
    pseudo_legal_moves(v, mb).filter(|m: Move| mover_king_safe(make_move_spec(v, m, z), mb))
}

/// The leaf counts `depth` plies below the positions each move of `moves` reaches, added up.
pub open spec fn leaves_after(v: BoardView, mb: MagicBitBoards, z: Zobrist, depth: nat, moves: Seq<Move>) -> nat
    decreases moves.len(),
{
    if moves.len() == 0 {
        0
    } else {
        leaves_after(v, mb, z, depth, moves.drop_last()) + perft_count(make_move_spec(v, moves.last(), z), mb, z, depth)
    }
}

/// Summing over a list while skipping its illegal moves is summing over its legal moves.
proof fn lemma_perft_sum_filter(v: BoardView, mb: MagicBitBoards, z: Zobrist, depth: nat, moves: Seq<Move>)
    ensures
        perft_sum(v, mb, z, depth, moves) == leaves_after(
            v,
            mb,
            z,
            depth,
            moves.filter(|m: Move| mover_king_safe(make_move_spec(v, m, z), mb)),
        ),
    decreases moves.len(),
{
    let p = |m: Move| mover_king_safe(make_move_spec(v, m, z), mb);
    reveal(Seq::filter);
    if moves.len() > 0 {
        lemma_perft_sum_filter(v, mb, z, depth, moves.drop_last());
        let m = moves.last();
        assert(is_legal(v, mb, z, m) == p(m)) by {
            reveal(is_legal);
        }
        let sub = moves.drop_last().filter(p);
        if p(m) {
            assert(moves.filter(p) == sub.push(m));
            assert(sub.push(m).drop_last() =~= sub);
        } else {
            assert(moves.filter(p) == sub);
        }
    }
}

/// One ply more of perft counts, over the moves that leave the mover's king safe, the leaves
/// below each position they reach; at depth one this is the number of such moves.
pub proof fn lemma_perft_counts_safe_moves(v: BoardView, mb: MagicBitBoards, z: Zobrist, depth: nat)
    ensures
        perft_count(v, mb, z, depth + 1) == leaves_after(v, mb, z, depth, safe_moves(v, mb, z)),
        perft_count(v, mb, z, 1) == safe_moves(v, mb, z).len(),
{
    lemma_perft_sum_filter(v, mb, z, depth, pseudo_legal_moves(v, mb));
    lemma_perft_sum_filter(v, mb, z, 0, pseudo_legal_moves(v, mb));
    lemma_leaves_at_zero(v, mb, z, safe_moves(v, mb, z));
}

/// Zero plies below every position there is one leaf: one per move.
proof fn lemma_leaves_at_zero(v: BoardView, mb: MagicBitBoards, z: Zobrist, moves: Seq<Move>)
    ensures
        leaves_after(v, mb, z, 0, moves) == moves.len(),
    decreases moves.len(),
{
    if moves.len() > 0 {
        lemma_leaves_at_zero(v, mb, z, moves.drop_last());
    }
}

/// Counts the leaf positions `depth` plies below the board, following only legal moves.
#[verifier::rlimit(40)]
pub fn perft(board: &mut Board, magic_bitboards: &MagicBitBoards, depth: u8, zobrist: &Zobrist) -> (r: u64)
    requires
        perft_ready(old(board)@, depth as int),
        magic_bitboards.wf(),
        perft_count(old(board)@, *magic_bitboards, *zobrist, depth as nat) <= u64::MAX,
    ensures
        final(board)@ == old(board)@,
        r == perft_count(old(board)@, *magic_bitboards, *zobrist, depth as nat),
    decreases depth,
{
    if depth == 0 {
        return 1;
    }
    let ghost v = board@;
    let ghost mb = *magic_bitboards;
    let ghost z = *zobrist;
    let ghost child_depth = (depth - 1) as nat;
    let mut nodes: u64 = 0;
    let mut move_list = MoveList::new();
    generate_psuedo_legal_moves(board, &mut move_list, magic_bitboards);
    let ghost moves = move_list@;
    proof {
        assert(moves =~= pseudo_legal_moves(v, mb));
        lemma_pseudo_legal_moves_ok(v, mb);
        assert(perft_count(v, mb, z, depth as nat) == perft_sum(v, mb, z, child_depth, moves));
    }
    let count = move_list.get_count();
    let mut i: usize = 0;
    while i < count
        invariant
            board@ == v,
            perft_ready(v, depth as int),
            magic_bitboards.wf(),
            mb == *magic_bitboards,
            z == *zobrist,
            depth >= 1,
            child_depth == depth - 1,
            moves == pseudo_legal_moves(v, mb),
            move_list@ == moves,
            count == moves.len(),
            i <= count,
            forall|k: int| 0 <= k < count ==> v.move_ok(#[trigger] moves[k]),
            nodes == perft_sum(v, mb, z, child_depth, moves.subrange(0, i as int)),
            perft_sum(v, mb, z, child_depth, moves) <= u64::MAX,
        decreases count - i,
    {
        let the_move = move_list.get_move(i);
        let ghost n = make_move_spec(v, the_move, z);
        proof {
            lemma_move_ok_makeable(v, the_move);
            lemma_make_move_wf(v, the_move, z);
            lemma_make_move_fields(v, the_move, z);
            lemma_make_unmake(v, the_move, z);
            assert(moves.subrange(0, i + 1).drop_last() =~= moves.subrange(0, i as int));
            assert(moves.subrange(0, i + 1).last() == the_move);
            lemma_perft_sum_prefix(v, mb, z, child_depth, moves, i + 1);
        }
        board.make_move(&the_move, zobrist);
        let legal = is_move_legal(board, magic_bitboards);
        proof {
            assert(legal == is_legal(v, mb, z, the_move)) by {
                reveal(is_legal);
            }
        }
        if legal {
            let branch = perft(board, magic_bitboards, depth - 1, zobrist);
            nodes += branch;
        }
        board.unmake_move(&the_move);
        i += 1;
    }
    proof {
        assert(moves.subrange(0, count as int) =~= moves);
        assert(perft_count(v, mb, z, depth as nat) == perft_sum(v, mb, z, child_depth, moves));
    }
    nodes
}

/// The legal moves of the position, each with the number of leaf positions `depth - 1`
/// plies after it, in generation order.
pub open spec fn divide_spec(v: BoardView, mb: MagicBitBoards, z: Zobrist, depth: nat, moves: Seq<Move>) -> Seq<(Move, u64)>
    decreases moves.len(),
{
    if moves.len() == 0 {
        Seq::empty()
    } else {
        let m = moves.last();
        divide_spec(v, mb, z, depth, moves.drop_last()) + if is_legal(v, mb, z, m) {
            seq![(m, perft_count(make_move_spec(v, m, z), mb, z, (depth - 1) as nat) as u64)]
        } else {
            Seq::empty()
        }
    }
}

/// The per-move breakdown of `perft` at the root: each legal move with its leaf count.
#[verifier::rlimit(40)]
pub fn perft_divide(board: &mut Board, magic_bitboards: &MagicBitBoards, depth: u8, zobrist: &Zobrist) -> (r: Vec<(Move, u64)>)
    requires
        depth >= 1,
        perft_ready(old(board)@, depth as int),
        magic_bitboards.wf(),
        perft_count(old(board)@, *magic_bitboards, *zobrist, depth as nat) <= u64::MAX,
    ensures
        final(board)@ == old(board)@,
        r@ == divide_spec(old(board)@, *magic_bitboards, *zobrist, depth as nat, pseudo_legal_moves(old(board)@, *magic_bitboards)),
{
    let ghost v = board@;
    let ghost mb = *magic_bitboards;
    let ghost z = *zobrist;
    let ghost child_depth = (depth - 1) as nat;
    let mut result: Vec<(Move, u64)> = Vec::new();
    let mut move_list = MoveList::new();
    generate_psuedo_legal_moves(board, &mut move_list, magic_bitboards);
    let ghost moves = move_list@;
    proof {
        assert(moves =~= pseudo_legal_moves(v, mb));
        lemma_pseudo_legal_moves_ok(v, mb);
        assert(perft_count(v, mb, z, depth as nat) == perft_sum(v, mb, z, child_depth, moves));
    }
    let count = move_list.get_count();
    let mut i: usize = 0;
    while i < count
        invariant
            board@ == v,
            perft_ready(v, depth as int),
            magic_bitboards.wf(),
            mb == *magic_bitboards,
            z == *zobrist,
            depth >= 1,
            child_depth == depth - 1,
            moves == pseudo_legal_moves(v, mb),
            move_list@ == moves,
            count == moves.len(),
            i <= count,
            forall|k: int| 0 <= k < count ==> v.move_ok(#[trigger] moves[k]),
            result@ == divide_spec(v, mb, z, depth as nat, moves.subrange(0, i as int)),
            perft_sum(v, mb, z, child_depth, moves) <= u64::MAX,
        decreases count - i,
    {
        let the_move = move_list.get_move(i);
        proof {
            lemma_move_ok_makeable(v, the_move);
            lemma_make_move_wf(v, the_move, z);
            lemma_make_move_fields(v, the_move, z);
            lemma_make_unmake(v, the_move, z);
            assert(moves.subrange(0, i + 1).drop_last() =~= moves.subrange(0, i as int));
            assert(moves.subrange(0, i + 1).last() == the_move);
            lemma_perft_sum_prefix(v, mb, z, child_depth, moves, i + 1);
        }
        board.make_move(&the_move, zobrist);
        let legal = is_move_legal(board, magic_bitboards);
        proof {
            assert(legal == is_legal(v, mb, z, the_move)) by {
                reveal(is_legal);
            }
        }
        if legal {
            let branch_nodes = perft(board, magic_bitboards, depth - 1, zobrist);
            result.push((the_move, branch_nodes));
        }
        board.unmake_move(&the_move);
        proof {
            assert(result@ =~= divide_spec(v, mb, z, depth as nat, moves.subrange(0, i + 1)));
        }
        i += 1;
    }
    proof {
        assert(moves.subrange(0, count as int) =~= moves);
    }
    result
}

/// The sum of the counts of a divide listing.
pub open spec fn divide_total(d: Seq<(Move, u64)>) -> int
    decreases d.len(),
{
    if d.len() == 0 {
        0
    } else {
        divide_total(d.drop_last()) + d.last().1
    }
}

proof fn lemma_divide_total_concat(a: Seq<(Move, u64)>, b: Seq<(Move, u64)>)
    ensures
        divide_total(a + b) == divide_total(a) + divide_total(b),
    decreases b.len(),
{
    if b.len() > 0 {
        assert((a + b).drop_last() =~= a + b.drop_last());
        lemma_divide_total_concat(a, b.drop_last());
    } else {
        assert(a + b =~= a);
    }
}

/// The counts `perft_divide` lists add up to the perft count of the position.
pub proof fn lemma_divide_total(v: BoardView, mb: MagicBitBoards, z: Zobrist, depth: nat, moves: Seq<Move>)
    requires
        depth >= 1,
        perft_sum(v, mb, z, (depth - 1) as nat, moves) <= u64::MAX,
    ensures
        divide_total(divide_spec(v, mb, z, depth, moves)) == perft_sum(v, mb, z, (depth - 1) as nat, moves),
    decreases moves.len(),
{
    if moves.len() > 0 {
        let m = moves.last();
        let rest = moves.drop_last();
        let cd = (depth - 1) as nat;
        lemma_perft_sum_prefix(v, mb, z, cd, moves, moves.len() - 1);
        assert(moves.subrange(0, moves.len() - 1) =~= rest);
        lemma_divide_total(v, mb, z, depth, rest);
        let term: nat = if is_legal(v, mb, z, m) {
            perft_count(make_move_spec(v, m, z), mb, z, cd)
        } else {
            0
        };
        assert(perft_sum(v, mb, z, cd, moves) == perft_sum(v, mb, z, cd, rest) + term);
        let a = divide_spec(v, mb, z, depth, rest);
        let b: Seq<(Move, u64)> = if is_legal(v, mb, z, m) {
            seq![(m, term as u64)]
        } else {
            Seq::empty()
        };
        assert(divide_spec(v, mb, z, depth, moves) == a + b);
        lemma_divide_total_concat(a, b);
        if is_legal(v, mb, z, m) {
            assert(divide_total(b) == term) by {
                assert(b.drop_last() =~= Seq::<(Move, u64)>::empty());
                reveal_with_fuel(divide_total, 2);
            }
        } else {
            assert(divide_total(b) == 0);
        }
    }
}

} // verus!
