use vstd::prelude::*;
use vstd::std_specs::bits::u64_trailing_zeros;
use crate::bits::{
    has_bit, popcount, squares_of, sum_bits, count_ones, lemma_lowest,
    lemma_clear_lowest_smaller, lemma_popcount_bound, lemma_file_mask, lemma_rank_mask, lemma_and_zero,
    lemma_bit_logic, lemma_squares_of,
};
use crate::board::{
    Board, BoardView, PAWNS, KNIGHTS, BISHOPS, ROOKS, QUEENS, KINGS, WHITE_PIECES, BLACK_PIECES,
};
use crate::constants::{KING_MIDGAME_PST, KING_ENDGAME_PST, knight_attacks, knight_attacks_spec, lemma_pst_bounds};
use crate::magics::MagicBitBoards;
use crate::movegenerator::occupied;

verus! {

/// Bonus for a passed pawn by how far it has advanced.
pub const PASSED_BONUS: [i32; 8] = [0, 5, 10, 20, 35, 60, 100, 0];

/// The pieces of one side.
pub open spec fn side_bb(v: BoardView, white: bool) -> u64 {
    if white {
        v.bitboards[WHITE_PIECES as int]
    } else {
        v.bitboards[BLACK_PIECES as int]
    }
}

/// Division rounding toward zero, as integer division does.
pub open spec fn trunc_div(a: int, b: int) -> int {
    if a >= 0 {
        a / b
    } else {
        -((-a) / b)
    }
}

pub open spec fn min_int(a: int, b: int) -> int {
    if a <= b {
        a
    } else {
        b
    }
}

pub open spec fn max_int(a: int, b: int) -> int {
    if a >= b {
        a
    } else {
        b
    }
}

pub open spec fn abs_int(a: int) -> int {
    if a < 0 {
        -a
    } else {
        a
    }
}

// ---------------------------------------------------------------------------------------------
// Evaluation terms
// ---------------------------------------------------------------------------------------------
/// The king's square score, blended between middle game and end game tables by the phase.
pub open spec fn king_term(sq: int, max_phase: int) -> int {
    trunc_div(KING_MIDGAME_PST[sq] * max_phase + KING_ENDGAME_PST[sq] * (24 - max_phase), 24)
}

/// Twenty for each of three shield squares with no own pawn.
pub open spec fn shield_penalty(pawns: u64) -> int {
    (3 - popcount(pawns)) * 20
}

/// The pawn-shield penalty of a king castled to the king side (f, g, h pawns) or the queen
/// side (a, b, c pawns).
pub open spec fn king_safety_spec(v: BoardView, king_sq: int, white: bool) -> int {
    let own_pawns = v.bitboards[PAWNS as int] & side_bb(v, white);
    if white {
        (if king_sq == 6 || king_sq == 7 {
            shield_penalty(own_pawns & ((1u64 << 13u64) | (1u64 << 14u64) | (1u64 << 15u64)))
        } else {
            0
        }) + (if king_sq == 1 || king_sq == 2 {
            shield_penalty(own_pawns & ((1u64 << 8u64) | (1u64 << 9u64) | (1u64 << 10u64)))
        } else {
            0
        })
    } else {
        (if king_sq == 62 || king_sq == 63 {
            shield_penalty(own_pawns & ((1u64 << 53u64) | (1u64 << 54u64) | (1u64 << 55u64)))
        } else {
            0
        }) + (if king_sq == 57 || king_sq == 58 {
            shield_penalty(own_pawns & ((1u64 << 48u64) | (1u64 << 49u64) | (1u64 << 50u64)))
        } else {
            0
        })
    }
}

/// Thirty for owning two or more bishops.
pub open spec fn bishop_pair_spec(v: BoardView, white: bool) -> int {
    if popcount(v.bitboards[BISHOPS as int] & side_bb(v, white)) >= 2 {
        30
    } else {
        0
    }
}

/// Squares reachable by knights, bishops, rooks and queens (not holding own pieces), weighted
/// 4, 3, 2 and 1.
pub open spec fn mobility_spec(v: BoardView, mb: MagicBitBoards, occ: u64, white: bool) -> int {
    let own = side_bb(v, white);
    sum_bits(v.bitboards[KNIGHTS as int] & own, mobility_fn(mb, KNIGHTS as int, occ, own))
        + sum_bits(v.bitboards[BISHOPS as int] & own, mobility_fn(mb, BISHOPS as int, occ, own))
        + sum_bits(v.bitboards[ROOKS as int] & own, mobility_fn(mb, ROOKS as int, occ, own))
        + sum_bits(v.bitboards[QUEENS as int] & own, mobility_fn(mb, QUEENS as int, occ, own))
}

/// The weight of one reachable square for a kind of piece.
pub open spec fn mobility_weight(piece: int) -> int {
    if piece == KNIGHTS {
        4
    } else if piece == BISHOPS {
        3
    } else if piece == ROOKS {
        2
    } else {
        1
    }
}

/// The mobility score of one piece on a square.
pub open spec fn mobility_fn(mb: MagicBitBoards, piece: int, occ: u64, own: u64) -> spec_fn(u32) -> int {
    |s: u32|
        {
            let attacks = if piece == KNIGHTS {
                knight_attacks_spec(s as u64)
            } else if piece == BISHOPS {
                mb.bishop_lookup(s as int, occ)
            } else if piece == ROOKS {
                mb.rook_lookup(s as int, occ)
            } else {
                mb.bishop_lookup(s as int, occ) | mb.rook_lookup(s as int, occ)
            };
            mobility_weight(piece) * popcount(attacks & !own)
        }
}

/// No square of `bb` lies on file `file`.
pub open spec fn file_clear(bb: u64, file: int) -> bool {
    forall|x: int| 0 <= x < 64 && x % 8 == file ==> !has_bit(bb, x)
}

/// A rook on an open file (no pawns) earns 25, on a half-open file (no own pawns) 12.
pub open spec fn rook_file_fn(v: BoardView, white: bool) -> spec_fn(u32) -> int {
    |s: u32|
        if file_clear(v.bitboards[PAWNS as int], (s % 8) as int) {
            25
        } else if file_clear(v.bitboards[PAWNS as int] & side_bb(v, white), (s % 8) as int) {
            12
        } else {
            0
        }
}

pub open spec fn rook_file_spec(v: BoardView, white: bool) -> int {
    sum_bits(v.bitboards[ROOKS as int] & side_bb(v, white), rook_file_fn(v, white))
}

/// Square `x` is on the pawn's file or a neighbouring one, and ahead of the pawn in the
/// direction it moves.
pub open spec fn in_front_span(sq: int, x: int, white: bool) -> bool {
    &&& sq % 8 - 1 <= x % 8 <= sq % 8 + 1
    &&& if white {
        x / 8 > sq / 8
    } else {
        x / 8 < sq / 8
    }
}

/// The pawns of the opponent of the given side.
pub open spec fn enemy_pawns_of(v: BoardView, white: bool) -> u64 {
    v.bitboards[PAWNS as int] & (if white {
        v.bitboards[BLACK_PIECES as int]
    } else {
        v.bitboards[WHITE_PIECES as int]
    })
}

/// No enemy pawn stands in front of the pawn on `sq`, on its file or a neighbouring one.
pub open spec fn is_passed(v: BoardView, sq: int, white: bool) -> bool {
    forall|x: int| 0 <= x < 64 && #[trigger] has_bit(enemy_pawns_of(v, white), x) ==> !in_front_span(sq, x, white)
}

/// A passed pawn earns a bonus by how far it has advanced.
pub open spec fn passed_fn(v: BoardView, white: bool) -> spec_fn(u32) -> int {
    |s: u32|
        if is_passed(v, s as int, white) {
            PASSED_BONUS[if white {
                (s / 8) as int
            } else {
                7 - (s / 8) as int
            }] as int
        } else {
            0
        }
}

pub open spec fn passed_pawn_spec(v: BoardView, white: bool) -> int {
    sum_bits(v.bitboards[PAWNS as int] & side_bb(v, white), passed_fn(v, white))
}

/// With a lead of 300 or more, drive the losing king to the edge and bring the winning king
/// close: 10 per step of the losing king from the centre, 8 per step the kings are closer
/// than 14; the sign follows the lead.
pub open spec fn mop_up_spec(winning_king_sq: int, losing_king_sq: int, material_lead: int) -> int {
    if abs_int(material_lead) < 300 {
        0
    } else {
        let lr = losing_king_sq / 8;
        let lf = losing_king_sq % 8;
        let center_distance = max_int(lr - 3, 4 - lr) + max_int(lf - 3, 4 - lf);
        let wr = winning_king_sq / 8;
        let wf = winning_king_sq % 8;
        let king_distance = abs_int(wr - lr) + abs_int(wf - lf);
        let mop_score = center_distance * 10 + (14 - king_distance) * 8;
        if material_lead > 0 {
            mop_score
        } else {
            -mop_score
        }
    }
}

/// Fifty against a king that an enemy rook or queen (on its rank or file), or an enemy bishop
/// or queen (on its diagonal), sees through the tables.
pub open spec fn xray_spec(v: BoardView, mb: MagicBitBoards, occ: u64, king_sq: int, white: bool) -> int {
    let enemy = side_bb(v, !white);
    let rq = enemy & (v.bitboards[ROOKS as int] | v.bitboards[QUEENS as int]);
    let bq = enemy & (v.bitboards[BISHOPS as int] | v.bitboards[QUEENS as int]);
    (if mb.rook_lookup(king_sq, occ) & rq != 0 {
        50int
    } else {
        0
    }) + (if mb.bishop_lookup(king_sq, occ) & bq != 0 {
        50int
    } else {
        0
    })
}

/// The king square of one side.
pub open spec fn king_square(v: BoardView, white: bool) -> int {
    u64_trailing_zeros(v.bitboards[KINGS as int] & side_bb(v, white)) as int
}

/// The static evaluation, from white's point of view.
pub open spec fn white_eval(v: BoardView, mb: MagicBitBoards) -> int {
    let occ = occupied(v);
    let wk = king_square(v, true);
    let bk = king_square(v, false);
    let max_phase = min_int(v.phase_weight as int, 24);
    let e = v.incremental_eval + king_term(wk, max_phase) - king_term((bk as usize ^ 56usize) as int, max_phase)
        - king_safety_spec(v, wk, true) + king_safety_spec(v, bk, false) + bishop_pair_spec(v, true)
        - bishop_pair_spec(v, false) + mobility_spec(v, mb, occ, true) - mobility_spec(v, mb, occ, false)
        + rook_file_spec(v, true) - rook_file_spec(v, false) + passed_pawn_spec(v, true) - passed_pawn_spec(
        v,
        false,
    );
    e + mop_up_spec(wk, bk, e) - xray_spec(v, mb, occ, wk, true) + xray_spec(v, mb, occ, bk, false)
}

/// The static evaluation from the side to move's point of view.
pub open spec fn evaluation_spec(v: BoardView, mb: MagicBitBoards) -> int {
    if v.white_to_move {
        white_eval(v, mb)
    } else {
        -white_eval(v, mb)
    }
}

/// The evaluation is from the side to move's point of view: handing the move to the other
/// side negates it.
#[verifier::rlimit(100)]
pub proof fn lemma_evaluation_turn_symmetry(v: BoardView, mb: MagicBitBoards)
    ensures
        evaluation_spec(BoardView { white_to_move: !v.white_to_move, ..v }, mb) == -evaluation_spec(v, mb),
{
    let u = BoardView { white_to_move: !v.white_to_move, ..v };
    assert(u.bitboards == v.bitboards && u.pieces == v.pieces);
    assert(side_bb(u, true) == side_bb(v, true) && side_bb(u, false) == side_bb(v, false));
    assert(occupied(u) == occupied(v));
    assert(passed_fn(u, true) =~= passed_fn(v, true)) by {
        assert forall|s: u32| #[trigger] is_passed(u, s as int, true) == is_passed(v, s as int, true) by {
            assert(enemy_pawns_of(u, true) == enemy_pawns_of(v, true));
        }
    }
    assert(passed_fn(u, false) =~= passed_fn(v, false)) by {
        assert forall|s: u32| #[trigger] is_passed(u, s as int, false) == is_passed(v, s as int, false) by {
            assert(enemy_pawns_of(u, false) == enemy_pawns_of(v, false));
        }
    }
    assert(rook_file_fn(u, true) =~= rook_file_fn(v, true));
    assert(rook_file_fn(u, false) =~= rook_file_fn(v, false));
    assert(passed_pawn_spec(u, true) == passed_pawn_spec(v, true));
    assert(passed_pawn_spec(u, false) == passed_pawn_spec(v, false));
    assert(rook_file_spec(u, true) == rook_file_spec(v, true));
    assert(rook_file_spec(u, false) == rook_file_spec(v, false));
    assert(mobility_spec(u, mb, occupied(u), true) == mobility_spec(v, mb, occupied(v), true));
    assert(mobility_spec(u, mb, occupied(u), false) == mobility_spec(v, mb, occupied(v), false));
    assert(white_eval(u, mb) == white_eval(v, mb));
}

// ---------------------------------------------------------------------------------------------
// Evaluation
// ---------------------------------------------------------------------------------------------
#[verifier::rlimit(60)]
pub fn evaluation_board(board: &Board, magic_bitboards: &MagicBitBoards) -> (r: i32)
    requires
        magic_bitboards.wf(),
        board@.bitboards[KINGS as int] & board@.bitboards[WHITE_PIECES as int] != 0,
        board@.bitboards[KINGS as int] & board@.bitboards[BLACK_PIECES as int] != 0,
        -1_000_000_000 <= board@.incremental_eval <= 1_000_000_000,
        -1_000_000 <= board@.phase_weight <= 1_000_000,
    ensures
        r == evaluation_spec(board@, *magic_bitboards),
        -1_100_000_000 <= r <= 1_100_000_000,
{
    // Retrieve incrementally calculated base
    let mut current_eval = board.get_incremental_eval();
    let phase_weight = board.get_phase_weight();
    let occupancy = board.get_bitboard(WHITE_PIECES) | board.get_bitboard(BLACK_PIECES);

    // 1. Evaluate Kings Dynamically
    let white_kings = board.get_bitboard(KINGS) & board.get_bitboard(WHITE_PIECES);
    let black_kings = board.get_bitboard(KINGS) & board.get_bitboard(BLACK_PIECES);
    proof {
        lemma_lowest(white_kings);
        lemma_lowest(black_kings);
    }
    let white_king_sq = white_kings.trailing_zeros() as usize;
    let black_king_sq = black_kings.trailing_zeros() as usize;
    let max_phase = if phase_weight < 24 {
        phase_weight
    } else {
        24
    };
    let black_mirror = black_king_sq ^ 56;
    proof {
        assert(black_king_sq < 64);
        assert(black_king_sq ^ 56usize < 64) by (bit_vector)
            requires
                black_king_sq < 64,
        ;
    }
    current_eval += king_score(white_king_sq, max_phase);
    current_eval -= king_score(black_mirror, max_phase);

    // 2. and 3. King safety
    current_eval -= king_safety(board, white_king_sq, true);
    current_eval += king_safety(board, black_king_sq, false);

    // 4. Bishop Pair
    let white_bishops = board.get_bitboard(BISHOPS) & board.get_bitboard(WHITE_PIECES);
    let black_bishops = board.get_bitboard(BISHOPS) & board.get_bitboard(BLACK_PIECES);
    if count_ones(white_bishops) >= 2 {
        current_eval += 30;
    }
    if count_ones(black_bishops) >= 2 {
        current_eval -= 30;
    }

    // 5. Mobility (Knights, Bishops, Rooks, Queens)
    current_eval += mobility_eval(board, magic_bitboards, occupancy, true);
    current_eval -= mobility_eval(board, magic_bitboards, occupancy, false);

    // 6. Rooks on Open / Semi-Open Files
    current_eval += rook_file_eval(board, true);
    current_eval -= rook_file_eval(board, false);

    // 7. Passed Pawns
    current_eval += passed_pawn_eval(board, true);
    current_eval -= passed_pawn_eval(board, false);

    current_eval += mop_up_eval(white_king_sq, black_king_sq, current_eval);

    // King x-ray danger
    current_eval -= xray_danger(board, magic_bitboards, occupancy, white_king_sq, true);
    current_eval += xray_danger(board, magic_bitboards, occupancy, black_king_sq, false);

    if board.is_white_turn() {
        current_eval
    } else {
        -current_eval
    }
}

/// The tapered king square score.
fn king_score(sq: usize, max_phase: i32) -> (r: i32)
    requires
        sq < 64,
        -1_000_000 <= max_phase <= 24,
    ensures
        r == king_term(sq as int, max_phase as int),
        -5_000_000 <= r <= 5_000_000,
{
    proof {
        lemma_pst_bounds(sq as int);
        let a = KING_MIDGAME_PST[sq as int] as int;
        let b = KING_ENDGAME_PST[sq as int] as int;
        let m = max_phase as int;
        assert(-50_000_000 <= a * m <= 50_000_000) by (nonlinear_arith)
            requires
                -50 <= a <= 50,
                -1_000_000 <= m <= 24,
        ;
        assert(-50_100_000 <= b * (24 - m) <= 50_100_000) by (nonlinear_arith)
            requires
                -50 <= b <= 50,
                0 <= 24 - m <= 1_000_024,
        ;
    }
    ((KING_MIDGAME_PST[sq] * max_phase) + (KING_ENDGAME_PST[sq] * (24 - max_phase))) / 24
}

/// The pawn-shield penalty of one side's king.
fn king_safety(board: &Board, king_sq: usize, white: bool) -> (r: i32)
    ensures
        r == king_safety_spec(board@, king_sq as int, white),
        -2_500 <= r <= 200,
{
    let own_pawns = board.get_bitboard(PAWNS) & (if white {
        board.get_bitboard(WHITE_PIECES)
    } else {
        board.get_bitboard(BLACK_PIECES)
    });
    let mut penalty: i32 = 0;
    if white {
        if king_sq == 6 || king_sq == 7 {
            let fgh_pawns = own_pawns & ((1u64 << 13) | (1u64 << 14) | (1u64 << 15));
            penalty += shield(fgh_pawns);
        }
        if king_sq == 1 || king_sq == 2 {
            let abc_pawns = own_pawns & ((1u64 << 8) | (1u64 << 9) | (1u64 << 10));
            penalty += shield(abc_pawns);
        }
    } else {
        if king_sq == 62 || king_sq == 63 {
            let fgh_pawns = own_pawns & ((1u64 << 53) | (1u64 << 54) | (1u64 << 55));
            penalty += shield(fgh_pawns);
        }
        if king_sq == 57 || king_sq == 58 {
            let abc_pawns = own_pawns & ((1u64 << 48) | (1u64 << 49) | (1u64 << 50));
            penalty += shield(abc_pawns);
        }
    }
    penalty
}

fn shield(pawns: u64) -> (r: i32)
    ensures
        r == shield_penalty(pawns),
        -1_220 <= r <= 60,
{
    let n = count_ones(pawns);
    proof {
        lemma_popcount_bound(pawns);
    }
    (3 - n as i32) * 20
}

/// Fifty against a king an enemy slider sees.
fn xray_danger(board: &Board, magic_bitboards: &MagicBitBoards, occupancy: u64, king_sq: usize, white: bool) -> (r: i32)
    requires
        magic_bitboards.wf(),
        king_sq < 64,
    ensures
        r == xray_spec(board@, *magic_bitboards, occupancy, king_sq as int, white),
        0 <= r <= 100,
{
    let enemy = if white {
        board.get_bitboard(BLACK_PIECES)
    } else {
        board.get_bitboard(WHITE_PIECES)
    };
    let enemy_rooks_queens = enemy & (board.get_bitboard(ROOKS) | board.get_bitboard(QUEENS));
    let enemy_bishops_queens = enemy & (board.get_bitboard(BISHOPS) | board.get_bitboard(QUEENS));
    let mut danger: i32 = 0;
    if magic_bitboards.get_rook_attacks(king_sq, occupancy) & enemy_rooks_queens != 0 {
        danger += 50;  // King on the same file or rank as an enemy rook or queen
    }
    if magic_bitboards.get_bishop_attacks(king_sq, occupancy) & enemy_bishops_queens != 0 {
        danger += 50;  // King on the same diagonal as an enemy bishop or queen
    }
    danger
}

fn abs_i32(x: i32) -> (r: i32)
    requires
        x > i32::MIN,
    ensures
        r == abs_int(x as int),
{
    if x < 0 {
        -x
    } else {
        x
    }
}

fn mop_up_eval(winning_king_sq: usize, losing_king_sq: usize, material_lead: i32) -> (r: i32)
    requires
        winning_king_sq < 64,
        losing_king_sq < 64,
        material_lead > i32::MIN,
    ensures
        r == mop_up_spec(winning_king_sq as int, losing_king_sq as int, material_lead as int),
        -200 <= r <= 200,
{
    if abs_i32(material_lead) < 300 {
        return 0;
    }
    let mut mop_score: i32 = 0;

    let losing_rank = (losing_king_sq / 8) as i32;
    let losing_file = (losing_king_sq % 8) as i32;
    let center_dist_rank = (losing_rank - 3).max(4 - losing_rank);
    let center_dist_file = (losing_file - 3).max(4 - losing_file);
    let center_distance = center_dist_rank + center_dist_file;
    mop_score += center_distance * 10;

    let win_rank = (winning_king_sq / 8) as i32;
    let win_file = (winning_king_sq % 8) as i32;
    let king_distance = abs_i32(win_rank - losing_rank) + abs_i32(win_file - losing_file);
    mop_score += (14 - king_distance) * 8;

    if material_lead > 0 {
        mop_score
    } else {
        -mop_score
    }
}

fn mobility_eval(board: &Board, magic_bitboards: &MagicBitBoards, occupancy: u64, white: bool) -> (r: i32)
    requires
        magic_bitboards.wf(),
    ensures
        r == mobility_spec(board@, *magic_bitboards, occupancy, white),
        0 <= r <= 65536,
{
    let own = if white {
        board.get_bitboard(WHITE_PIECES)
    } else {
        board.get_bitboard(BLACK_PIECES)
    };
    let mut score: i32 = 0;
    score += mobility_of(board, magic_bitboards, KNIGHTS, occupancy, own);
    score += mobility_of(board, magic_bitboards, BISHOPS, occupancy, own);
    score += mobility_of(board, magic_bitboards, ROOKS, occupancy, own);
    score += mobility_of(board, magic_bitboards, QUEENS, occupancy, own);
    score
}

/// The mobility score of every piece of one kind of one side.
fn mobility_of(board: &Board, magic_bitboards: &MagicBitBoards, piece: usize, occupancy: u64, own: u64) -> (r: i32)
    requires
        magic_bitboards.wf(),
        piece == KNIGHTS || piece == BISHOPS || piece == ROOKS || piece == QUEENS,
    ensures
        r == sum_bits(board@.bitboards[piece as int] & own, mobility_fn(*magic_bitboards, piece as int, occupancy, own)),
        0 <= r <= 16384,
{
    let ghost f = mobility_fn(*magic_bitboards, piece as int, occupancy, own);
    let pieces = board.get_bitboard(piece) & own;
    proof {
        lemma_squares_of(pieces);
    }
    let mut bb = pieces;
    let mut score: i32 = 0;
    while bb != 0
        invariant
            magic_bitboards.wf(),
            piece == KNIGHTS || piece == BISHOPS || piece == ROOKS || piece == QUEENS,
            f == mobility_fn(*magic_bitboards, piece as int, occupancy, own),
            score + sum_bits(bb, f) == sum_bits(pieces, f),
            squares_of(pieces).len() <= 64,
            0 <= score <= 256 * (squares_of(pieces).len() - squares_of(bb).len()),
        decreases bb,
    {
        let sq = bb.trailing_zeros() as usize;
        proof {
            lemma_lowest(bb);
            lemma_clear_lowest_smaller(bb);
        }
        let attacks = if piece == KNIGHTS {
            knight_attacks(sq)
        } else if piece == BISHOPS {
            magic_bitboards.get_bishop_attacks(sq, occupancy)
        } else if piece == ROOKS {
            magic_bitboards.get_rook_attacks(sq, occupancy)
        } else {
            magic_bitboards.get_bishop_attacks(sq, occupancy) | magic_bitboards.get_rook_attacks(sq, occupancy)
        };
        let n = count_ones(attacks & !own);
        proof {
            lemma_popcount_bound(attacks & !own);
        }
        let weight: i32 = if piece == KNIGHTS {
            4
        } else if piece == BISHOPS {
            3
        } else if piece == ROOKS {
            2
        } else {
            1
        };
        score += n as i32 * weight;
        bb &= bb - 1;
    }
    score
}

/// Whether no square of `bb` lies on file `file`.
fn file_is_clear(bb: u64, file: u32) -> (r: bool)
    requires
        file < 8,
    ensures
        r == file_clear(bb, file as int),
{
    let file_mask: u64 = 0x0101_0101_0101_0101u64 << (file as u64);
    proof {
        lemma_and_zero(bb, file_mask);
        assert forall|x: int| 0 <= x < 64 implies (has_bit(file_mask, x) <==> x % 8 == file) by {
            lemma_file_mask(file as u64, x as u64);
        }
    }
    bb & file_mask == 0
}

fn rook_file_eval(board: &Board, white: bool) -> (r: i32)
    ensures
        r == rook_file_spec(board@, white),
        0 <= r <= 1600,
{
    let own = if white {
        board.get_bitboard(WHITE_PIECES)
    } else {
        board.get_bitboard(BLACK_PIECES)
    };
    let all_pawns = board.get_bitboard(PAWNS);
    let own_pawns = all_pawns & own;
    let rooks = board.get_bitboard(ROOKS) & own;
    let ghost f = rook_file_fn(board@, white);
    proof {
        lemma_squares_of(rooks);
    }
    let mut bb = rooks;
    let mut score: i32 = 0;
    while bb != 0
        invariant
            f == rook_file_fn(board@, white),
            all_pawns == board@.bitboards[PAWNS as int],
            own_pawns == board@.bitboards[PAWNS as int] & side_bb(board@, white),
            score + sum_bits(bb, f) == sum_bits(rooks, f),
            squares_of(rooks).len() <= 64,
            0 <= score <= 25 * (squares_of(rooks).len() - squares_of(bb).len()),
        decreases bb,
    {
        let sq = bb.trailing_zeros();
        proof {
            lemma_lowest(bb);
            lemma_clear_lowest_smaller(bb);
        }
        let file = sq % 8;
        if file_is_clear(all_pawns, file) {
            score += 25;  // Fully open file
        } else if file_is_clear(own_pawns, file) {
            score += 12;  // Semi-open (no own pawns blocking)
        }
        bb &= bb - 1;
    }
    score
}

/// The squares on a pawn's file and the neighbouring files, ahead of it.
fn front_span(sq: u32, white: bool) -> (span: u64)
    requires
        sq < 64,
    ensures
        forall|x: int| 0 <= x < 64 ==> (has_bit(span, x) <==> in_front_span(sq as int, x, white)),
{
    let file = (sq % 8) as i32;
    let rank = (sq / 8) as i32;

    // Union of this pawn's file and adjacent files
    let mut span: u64 = 0;
    let mut f: i32 = file - 1;
    proof {
        assert forall|x: int| 0 <= x < 64 implies !has_bit(0u64, x) by {
            crate::bits::lemma_bit_ops(0, 0, 0, x as u64);
        }
    }
    while f <= file + 1
        invariant
            0 <= file < 8,
            file - 1 <= f <= file + 2,
            forall|x: int| 0 <= x < 64 ==> (has_bit(span, x) <==> file - 1 <= x % 8 < f),
        decreases file + 2 - f,
    {
        let ghost old_span = span;
        if !(f < 0 || f > 7) {
            let fu: u64 = f as u64;
            let mask: u64 = 0x0101_0101_0101_0101u64 << fu;
            proof {
                assert forall|x: int| 0 <= x < 64 implies (has_bit(span | mask, x) <==> (has_bit(span, x) || x % 8 == f)) by {
                    lemma_bit_logic(span, mask, x as u64);
                    lemma_file_mask(fu, x as u64);
                }
            }
            span |= mask;
        }
        assert forall|x: int| 0 <= x < 64 implies (has_bit(span, x) <==> file - 1 <= x % 8 < f + 1) by {
            assert(has_bit(old_span, x) <==> file - 1 <= x % 8 < f);
        }
        f += 1;
    }

    // Restrict to ranks strictly ahead of this pawn (in its direction of travel)
    let mut r: i32 = if white {
        0
    } else {
        rank
    };
    let end: i32 = if white {
        rank + 1
    } else {
        8
    };
    while r < end
        invariant
            0 <= file < 8,
            0 <= rank < 8,
            file == sq % 8,
            rank == sq / 8,
            end == (if white { rank + 1 } else { 8 }),
            (if white { 0 } else { rank }) <= r <= end,
            forall|x: int|
                0 <= x < 64 ==> (has_bit(span, x) <==> (file - 1 <= x % 8 <= file + 1 && (if white {
                    x / 8 >= r
                } else {
                    x / 8 < rank || x / 8 >= r
                }))),
        decreases end - r,
    {
        let shift: u64 = (r * 8) as u64;
        let rank_bits: u64 = 0xFFu64 << shift;
        let mask: u64 = !rank_bits;
        proof {
            assert forall|x: int| 0 <= x < 64 implies (has_bit(span & mask, x) <==> (has_bit(span, x) && x / 8 != r)) by {
                lemma_bit_logic(span, mask, x as u64);
                lemma_bit_logic(rank_bits, 0, x as u64);
                lemma_rank_mask(shift, x as u64);
            }
        }
        let ghost old_span = span;
        span &= mask;
        assert forall|x: int|
            0 <= x < 64 implies (has_bit(span, x) <==> (file - 1 <= x % 8 <= file + 1 && (if white {
                x / 8 >= r + 1
            } else {
                x / 8 < rank || x / 8 >= r + 1
            }))) by {
            assert(has_bit(old_span, x) <==> (file - 1 <= x % 8 <= file + 1 && (if white {
                x / 8 >= r
            } else {
                x / 8 < rank || x / 8 >= r
            })));
        }
        r += 1;
    }
    span
}

fn passed_pawn_eval(board: &Board, white: bool) -> (r: i32)
    ensures
        r == passed_pawn_spec(board@, white),
        0 <= r <= 6400,
{
    let own = if white {
        board.get_bitboard(WHITE_PIECES)
    } else {
        board.get_bitboard(BLACK_PIECES)
    };
    let enemy_pawns = if white {
        board.get_bitboard(PAWNS) & board.get_bitboard(BLACK_PIECES)
    } else {
        board.get_bitboard(PAWNS) & board.get_bitboard(WHITE_PIECES)
    };
    let pawns = board.get_bitboard(PAWNS) & own;
    let ghost f = passed_fn(board@, white);
    proof {
        lemma_squares_of(pawns);
    }
    let mut bb = pawns;
    let mut score: i32 = 0;
    while bb != 0
        invariant
            f == passed_fn(board@, white),
            enemy_pawns == enemy_pawns_of(board@, white),
            score + sum_bits(bb, f) == sum_bits(pawns, f),
            squares_of(pawns).len() <= 64,
            0 <= score <= 100 * (squares_of(pawns).len() - squares_of(bb).len()),
        decreases bb,
    {
        let sq = bb.trailing_zeros();
        proof {
            lemma_lowest(bb);
            lemma_clear_lowest_smaller(bb);
        }
        let rank = sq / 8;
        let span = front_span(sq, white);
        proof {
            lemma_and_zero(enemy_pawns, span);
            if enemy_pawns & span == 0 {
                assert forall|x: int| 0 <= x < 64 && has_bit(enemy_pawns, x) implies !in_front_span(sq as int, x, white) by {
                    assert(!has_bit(span, x));
                }
            } else {
                let x = choose|x: int| 0 <= x < 64 && #[trigger] has_bit(enemy_pawns, x) && has_bit(span, x);
                assert(in_front_span(sq as int, x, white));
            }
            assert((enemy_pawns & span == 0) == is_passed(board@, sq as int, white));
        }
        if enemy_pawns & span == 0 {
            let advance = if white {
                rank
            } else {
                7 - rank
            };
            score += PASSED_BONUS[advance as usize];
        }
        bb &= bb - 1;
    }
    score
}

} // verus!
