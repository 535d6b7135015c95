//Modules
use vstd::prelude::*;
use vstd::std_specs::bits::u64_trailing_zeros;
use crate::bits::{
    has_bit, clear_lowest, walk, lemma_walk_step, lemma_lowest,
    lemma_clear_lowest_smaller, lemma_bit_logic, lemma_shift_bits,
};
use crate::board::{
    Board, BoardView, PAWNS, KNIGHTS, BISHOPS, ROOKS, QUEENS, KINGS, WHITE_PIECES, BLACK_PIECES,
    EMPTY_SQUARE, FLAG_DOUBLE_PUSH, FLAG_KING_CASTLE, FLAG_QUEEN_CASTLE, FLAG_EN_PASSANT,
    FLAG_PROMOTE_QUEEN, FLAG_PROMOTE_ROOK, FLAG_PROMOTE_BISHOP, FLAG_PROMOTE_KNIGHT,
};
use crate::constants::{
    PIECE_VALUES, RANK_1, RANK_3, RANK_6, RANK_8, ZERO_A_FILE, ZERO_H_FILE, knight_attacks,
    king_attacks, knight_attacks_spec, king_attacks_spec,
};
use crate::magics::MagicBitBoards;
use vstd::set_lib::{set_int_range, lemma_int_range, lemma_subset_equality};
use crate::movedata::Move;

verus! {

// ---------------------------------------------------------------------------------------------
// Move ordering
// ---------------------------------------------------------------------------------------------
/// A move the scorer can look up: no capture, or a real captured piece taken by a real piece
/// (the values of both are looked up).
pub open spec fn scorable(m: Move) -> bool {
    m.captured() == EMPTY_SQUARE || (m.captured() < 6 && m.piece() < 6)
}

/// Bonus for the piece a pawn promotes to.
pub open spec fn promotion_bonus(flags: u32) -> int {
    if flags == FLAG_PROMOTE_QUEEN {
        9000
    } else if flags == FLAG_PROMOTE_ROOK {
        5000
    } else if flags == FLAG_PROMOTE_BISHOP {
        3300
    } else if flags == FLAG_PROMOTE_KNIGHT {
        3200
    } else {
        0
    }
}

/// The ordering score of a move: the hash move first, then captures by most valuable victim
/// and least valuable attacker, then killer moves, then the history table; promotions get a
/// bonus by the piece promoted to.
pub open spec fn move_score(
    white_to_move: bool,
    m: Move,
    tt_move: Option<Move>,
    killer_1: Option<Move>,
    killer_2: Option<Move>,
    history: [[i32; 64]; 12],
) -> int {
    let captured = m.captured() as int;
    let piece = m.piece() as int;
    let flags = m.flags();
    if tt_move == Some(m) {
        30000
    } else if captured != EMPTY_SQUARE {
        10000 + (10 * PIECE_VALUES[captured] - PIECE_VALUES[piece]) + promotion_bonus(flags)
    } else if flags < FLAG_PROMOTE_QUEEN {
        if killer_1 == Some(m) {
            9000
        } else if killer_2 == Some(m) {
            8000
        } else {
            let color_offset: int = if white_to_move {
                0
            } else {
                6
            };
            history[(piece + color_offset) % 12][m.target() as int] as int
        }
    } else {
        promotion_bonus(flags)
    }
}

/// Move `a` is tried before move `b`: a higher score, or the same score and added earlier.
pub open spec fn tried_before(scores: Seq<i32>, a: usize, b: usize) -> bool {
    scores[a as int] > scores[b as int] || (scores[a as int] == scores[b as int] && a < b)
}

/// `order` lists every index of `scores` once, best score first, ties in the order added.
pub open spec fn is_score_order(scores: Seq<i32>, order: Seq<usize>) -> bool {
    &&& order.len() == scores.len()
    &&& order.no_duplicates()
    &&& forall|i: int| 0 <= i < order.len() ==> order[i] < scores.len()
    &&& forall|i: int, j: int|
        0 <= i < j < order.len() ==> tried_before(scores, #[trigger] order[i], #[trigger] order[j])
}

/// The moves generated for a position, with their scores and the order in which to try them.
pub struct MoveList {
    move_list: Vec<Move>,
    scores: Vec<i32>,
    order: Vec<usize>,
}

impl View for MoveList {
    type V = Seq<Move>;

    closed spec fn view(&self) -> Seq<Move> {
        self.move_list@
    }
}

impl MoveList {
    /// The scores given by the last scoring.
    pub closed spec fn score_seq(&self) -> Seq<i32> {
        self.scores@
    }

    /// The order in which the last scoring says to try the moves.
    pub closed spec fn order_seq(&self) -> Seq<usize> {
        self.order@
    }

    /// Every index in the order names a move of the list.
    pub open spec fn wf(&self) -> bool {
        &&& self.score_seq().len() == self.order_seq().len()
        &&& forall|i: int| 0 <= i < self.order_seq().len() ==> #[trigger] self.order_seq()[i] < self@.len()
    }

    pub fn new() -> (r: Self)
        ensures
            r@ == Seq::<Move>::empty(),
            r.score_seq() == Seq::<i32>::empty(),
            r.order_seq() == Seq::<usize>::empty(),
            r.wf(),
    {
        MoveList { move_list: Vec::new(), scores: Vec::new(), order: Vec::new() }
    }

    pub fn add_move(&mut self, move_data: Move)
        requires
            old(self).wf(),
        ensures
            final(self)@ == old(self)@.push(move_data),
            final(self).score_seq() == old(self).score_seq(),
            final(self).order_seq() == old(self).order_seq(),
            final(self).wf(),
    {
        self.move_list.push(move_data);
    }

    pub fn get_move(&self, index: usize) -> (r: Move)
        requires
            index < self@.len(),
        ensures
            r == self@[index as int],
    {
        self.move_list[index]
    }

    pub fn get_count(&self) -> (r: usize)
        ensures
            r == self@.len(),
    {
        self.move_list.len()
    }

    /// Scores every move and orders them best first, ties in the order they were added.
    pub fn score_moves(
        &mut self,
        board: &Board,
        tt_move: Option<Move>,
        killer_1: Option<Move>,
        killer_2: Option<Move>,
        history: &[[i32; 64]; 12],
    )
        requires
            forall|i: int| 0 <= i < old(self)@.len() ==> scorable(#[trigger] old(self)@[i]),
        ensures
            final(self)@ == old(self)@,
            final(self).score_seq().len() == old(self)@.len(),
            forall|i: int|
                0 <= i < old(self)@.len() ==> #[trigger] final(self).score_seq()[i] == move_score(
                    board@.white_to_move,
                    old(self)@[i],
                    tt_move,
                    killer_1,
                    killer_2,
                    *history,
                ),
            is_score_order(final(self).score_seq(), final(self).order_seq()),
            final(self).wf(),
    {
        let n = self.move_list.len();
        assert forall|k: int| 0 <= k < n implies scorable(#[trigger] self.move_list@[k]) by {
            assert(scorable(old(self)@[k]));
        }
        let mut scores: Vec<i32> = Vec::new();
        let mut i: usize = 0;
        while i < n
            invariant
                n == self.move_list@.len(),
                i <= n,
                scores@.len() == i,
                forall|k: int| 0 <= k < n ==> scorable(#[trigger] self.move_list@[k]),
                forall|k: int|
                    0 <= k < i ==> #[trigger] scores@[k] == move_score(
                        board@.white_to_move,
                        self.move_list@[k],
                        tt_move,
                        killer_1,
                        killer_2,
                        *history,
                    ),
            decreases n - i,
        {
            let m = self.move_list[i];
            let s = self.score_move(board, &m, tt_move, killer_1, killer_2, history);
            scores.push(s);
            i += 1;
        }
        let mut order: Vec<usize> = Vec::new();
        let mut i: usize = 0;
        while i < n
            invariant
                n == scores@.len(),
                i <= n,
                order@.len() == i,
                order@.no_duplicates(),
                forall|k: int| 0 <= k < order@.len() ==> order@[k] < i,
                forall|a: int, b: int|
                    0 <= a < b < order@.len() ==> tried_before(scores@, #[trigger] order@[a], #[trigger] order@[b]),
            decreases n - i,
        {
            let mut pos: usize = 0;
            while pos < order.len() && scores[order[pos]] >= scores[i]
                invariant
                    n == scores@.len(),
                    i < n,
                    order@.len() == i,
                    forall|k: int| 0 <= k < order@.len() ==> order@[k] < i,
                    pos <= order@.len(),
                    forall|k: int| 0 <= k < pos ==> scores@[#[trigger] order@[k] as int] >= scores@[i as int],
                decreases order@.len() - pos,
            {
                pos += 1;
            }
            let ghost old_order = order@;
            order.insert(pos, i);
            proof {
                old_order.insert_ensures(pos as int, i);
                assert forall|a: int, b: int|
                    0 <= a < b < order@.len() implies tried_before(scores@, #[trigger] order@[a], #[trigger] order@[b]) by {
                    if b < pos {
                    } else if b == pos {
                        assert(order@[a] == old_order[a]);
                    } else if a < pos {
                        assert(order@[b] == old_order[b - 1]);
                    } else if a == pos {
                        assert(order@[b] == old_order[b - 1]);
                        if b - 1 > pos {
                            assert(tried_before(scores@, old_order[pos as int], old_order[b - 1]));
                        }
                    } else {
                        assert(order@[a] == old_order[a - 1]);
                        assert(order@[b] == old_order[b - 1]);
                    }
                }
                assert forall|a: int, b: int| 0 <= a < b < order@.len() implies order@[a] != order@[b] by {
                    assert(tried_before(scores@, order@[a], order@[b]));
                }
            }
            i += 1;
        }
        self.scores = scores;
        self.order = order;
    }

    /// The move to try `index`-th, by the order of the last scoring.
    pub fn pick_move(&mut self, index: usize) -> (r: Move)
        requires
            old(self).wf(),
            index < old(self).order_seq().len(),
        ensures
            *final(self) == *old(self),
            r == old(self)@[old(self).order_seq()[index as int] as int],
    {
        self.get_move(self.order[index])
    }

    fn score_move(
        &self,
        board: &Board,
        move_data: &Move,
        tt_move: Option<Move>,
        killer_1: Option<Move>,
        killer_2: Option<Move>,
        history: &[[i32; 64]; 12],
    ) -> (r: i32)
        requires
            scorable(*move_data),
        ensures
            r == move_score(board@.white_to_move, *move_data, tt_move, killer_1, killer_2, *history),
    {
        if let Some(best) = tt_move {
            if *move_data == best {
                return 30000;
            }
        }
        let mut score: i32 = 0;
        let captured = move_data.get_captured_piece();
        let piece = move_data.get_piece();
        let flags = move_data.get_flags();

        // MVV-LVA
        if captured != EMPTY_SQUARE as usize {
            score = 10000 + (10 * PIECE_VALUES[captured] - PIECE_VALUES[piece]);
        } else if flags < FLAG_PROMOTE_QUEEN {
            if let Some(k1) = killer_1 {
                if *move_data == k1 {
                    return 9000;
                }
            }
            if let Some(k2) = killer_2 {
                if *move_data == k2 {
                    return 8000;
                }
            }
            let color_offset: usize = if board.is_white_turn() {
                0
            } else {
                6
            };
            let piece_index = (piece + color_offset) % 12;
            score += history[piece_index][move_data.get_target() as usize];
        }
        // Promotion Bonuses
        if flags >= FLAG_PROMOTE_QUEEN && flags <= FLAG_PROMOTE_KNIGHT {
            score += if flags == FLAG_PROMOTE_QUEEN {
                9000
            } else if flags == FLAG_PROMOTE_ROOK {
                5000
            } else if flags == FLAG_PROMOTE_BISHOP {
                3300
            } else {
                3200
            };
        }
        score
    }
}

/// A score order lists every index exactly once: each index appears somewhere.
pub proof fn lemma_score_order_covers(scores: Seq<i32>, order: Seq<usize>, k: int)
    requires
        is_score_order(scores, order),
        0 <= k < order.len(),
    ensures
        exists|j: int| 0 <= j < order.len() && order[j] == k,
{
    broadcast use vstd::seq_lib::seq_to_set_is_finite;

    let n = order.len() as int;
    let o = order.map_values(|x: usize| x as int);
    assert(o.no_duplicates()) by {
        assert forall|a: int, b: int| 0 <= a < o.len() && 0 <= b < o.len() && a != b implies o[a] != o[b] by {
            assert(order[a] != order[b]);
        }
    }
    o.unique_seq_to_set();
    let s = o.to_set();
    lemma_int_range(0, n);
    assert(s.subset_of(set_int_range(0, n))) by {
        assert forall|x: int| s.contains(x) implies set_int_range(0, n).contains(x) by {
            let j = choose|j: int| 0 <= j < o.len() && o[j] == x;
        }
    }
    lemma_subset_equality(s, set_int_range(0, n));
    assert(set_int_range(0, n).contains(k));
    assert(s.contains(k));
    let j = choose|j: int| 0 <= j < o.len() && o[j] == k;
    assert(order[j] == k);
}

// ---------------------------------------------------------------------------------------------
// What the generators produce
// ---------------------------------------------------------------------------------------------
/// `x` moved `k` ranks towards the far side of the side to move (`white`).
pub open spec fn fwd(x: u64, white: bool, k: u64) -> u64 {
    if white {
        x << k
    } else {
        x >> k
    }
}

/// The rank on which the side's pawns promote.
pub open spec fn last_rank(white: bool) -> u64 {
    if white {
        RANK_8
    } else {
        RANK_1
    }
}

/// The rank a pawn reaches after a single step from its home rank.
pub open spec fn third_rank(white: bool) -> u64 {
    if white {
        RANK_3
    } else {
        RANK_6
    }
}

/// Pawns that can capture towards the h-file (white) or a-file (black).
pub open spec fn right_mask(white: bool) -> u64 {
    if white {
        ZERO_H_FILE
    } else {
        ZERO_A_FILE
    }
}

/// Pawns that can capture towards the a-file (white) or h-file (black).
pub open spec fn left_mask(white: bool) -> u64 {
    if white {
        ZERO_A_FILE
    } else {
        ZERO_H_FILE
    }
}

/// The square a pawn came from to reach `t` by moving `dist` squares forward.
pub open spec fn pawn_start(white: bool, dist: u32, t: u32) -> u32 {
    if white {
        (t - dist) as u32
    } else {
        (t + dist) as u32
    }
}

/// What a pawn move to `t` captures: nothing (mode 0), what stands there (mode 1), or a pawn
/// en passant (mode 2).
pub open spec fn pawn_capture(v: BoardView, mode: int, t: u32) -> u32 {
    if mode == 0 {
        EMPTY_SQUARE as u32
    } else if mode == 1 {
        v.pieces[t as int] as u32
    } else {
        PAWNS as u32
    }
}

/// Every square of `targets` lies at least `dist` squares from the side's back edge.
pub open spec fn pawn_targets_ok(targets: u64, white: bool, dist: u32) -> bool {
    forall|t: int|
        0 <= t < 64 && has_bit(targets, t) ==> (if white {
            t >= dist
        } else {
            t + dist < 64
        })
}

/// The pawn moves to target square `t`: one move with `flags`, or the four promotions.
pub open spec fn pawn_fn(v: BoardView, white: bool, dist: u32, flags: u32, mode: int, promote: bool) -> spec_fn(u32) -> Seq<Move> {
    |t: u32|
        {
            let s = pawn_start(white, dist, t);
            let c = pawn_capture(v, mode, t);
            if promote {
                seq![
                    Move::spec_new(s, t, FLAG_PROMOTE_QUEEN, PAWNS as u32, c),
                    Move::spec_new(s, t, FLAG_PROMOTE_ROOK, PAWNS as u32, c),
                    Move::spec_new(s, t, FLAG_PROMOTE_BISHOP, PAWNS as u32, c),
                    Move::spec_new(s, t, FLAG_PROMOTE_KNIGHT, PAWNS as u32, c),
                ]
            } else {
                seq![Move::spec_new(s, t, flags, PAWNS as u32, c)]
            }
        }
}

/// The pawn moves of the side to move, in generation order: pushes and double pushes (when
/// `quiet`), captures towards each side, promoting pushes, promoting captures, en passant.
pub open spec fn pawn_moves_spec(v: BoardView, empty: u64, enemies: u64, quiet: bool) -> Seq<Move> {
    (if quiet {
        pawn_push_moves(v, empty)
    } else {
        Seq::empty()
    }) + pawn_capture_moves(v, empty, enemies) + pawn_en_passant_moves(v)
}

/// The pawns of the side to move.
pub open spec fn own_pawns(v: BoardView) -> u64 {
    v.bitboards[PAWNS as int] & v.bitboards[v.own_color()]
}

/// Single pushes that do not promote, then double pushes.
pub open spec fn pawn_push_moves(v: BoardView, empty: u64) -> Seq<Move> {
    let w = v.white_to_move;
    let single = (fwd(own_pawns(v), w, 8) & empty) & !last_rank(w);
    let double = fwd(single & third_rank(w), w, 8) & empty;
    walk(single, pawn_fn(v, w, 8, 0, 0, false)) + walk(double, pawn_fn(v, w, 16, FLAG_DOUBLE_PUSH, 0, false))
}

/// Captures towards each side, promoting pushes, then promoting captures towards each side.
pub open spec fn pawn_capture_moves(v: BoardView, empty: u64, enemies: u64) -> Seq<Move> {
    let w = v.white_to_move;
    let p = own_pawns(v);
    let lr = last_rank(w);
    let rc0 = fwd(p & right_mask(w), w, 9) & enemies;
    let lc0 = fwd(p & left_mask(w), w, 7) & enemies;
    walk(rc0 & !lr, pawn_fn(v, w, 9, 0, 1, false)) + walk(lc0 & !lr, pawn_fn(v, w, 7, 0, 1, false))
        + walk((fwd(p, w, 8) & empty) & lr, pawn_fn(v, w, 8, 0, 0, true)) + walk(rc0 & lr, pawn_fn(v, w, 9, 0, 1, true))
        + walk(lc0 & lr, pawn_fn(v, w, 7, 0, 1, true))
}

/// The en-passant captures towards each side, when there is an en-passant square.
pub open spec fn pawn_en_passant_moves(v: BoardView) -> Seq<Move> {
    let w = v.white_to_move;
    let p = own_pawns(v);
    let ep = v.en_passant_target;
    if ep != 0 {
        walk(fwd(p & right_mask(w), w, 9) & ep, pawn_fn(v, w, 9, FLAG_EN_PASSANT, 2, false)) + walk(
            fwd(p & left_mask(w), w, 7) & ep,
            pawn_fn(v, w, 7, FLAG_EN_PASSANT, 2, false),
        )
    } else {
        Seq::empty()
    }
}

/// A move of `piece` from `start` to `t`, capturing whatever stands on `t`.
pub open spec fn target_moves(v: BoardView, start: u32, piece: int) -> spec_fn(u32) -> Seq<Move> {
    |t: u32| seq![Move::spec_new(start, t, 0, piece as u32, v.pieces[t as int] as u32)]
}

/// Knight or king attacks from a square.
pub open spec fn leaper_fn(piece: int) -> spec_fn(u32) -> u64 {
    |s: u32|
        if piece == KNIGHTS {
            knight_attacks_spec(s as u64)
        } else {
            king_attacks_spec(s as u64)
        }
}

/// Bishop, rook or queen attacks from a square, as the magic tables give them.
pub open spec fn slider_fn(mb: MagicBitBoards, piece: int, occ: u64) -> spec_fn(u32) -> u64 {
    |s: u32|
        if piece == BISHOPS {
            mb.bishop_lookup(s as int, occ)
        } else if piece == ROOKS {
            mb.rook_lookup(s as int, occ)
        } else {
            mb.bishop_lookup(s as int, occ) | mb.rook_lookup(s as int, occ)
        }
}

/// The moves of every `piece` of the side to move to the squares in `mask` it attacks, piece
/// by piece, lowest square first.
pub open spec fn piece_moves(v: BoardView, piece: int, attacks: spec_fn(u32) -> u64, mask: u64) -> Seq<Move> {
    walk(v.bitboards[piece] & v.bitboards[v.own_color()], piece_fn(v, piece, attacks, mask))
}

/// The moves of one `piece` standing on a square.
pub open spec fn piece_fn(v: BoardView, piece: int, attacks: spec_fn(u32) -> u64, mask: u64) -> spec_fn(u32) -> Seq<Move> {
    |s: u32| walk(attacks(s) & mask, target_moves(v, s, piece))
}


/// The squares from which a pawn of the side not to move attacks `sq`.
pub open spec fn pawn_attackers_mask(sq: int, white_to_move: bool) -> u64 {
    let b = 1u64 << (sq as u64);
    if white_to_move {
        ((b & ZERO_A_FILE) << 7u64) | ((b & ZERO_H_FILE) << 9u64)
    } else {
        ((b & ZERO_H_FILE) >> 7u64) | ((b & ZERO_A_FILE) >> 9u64)
    }
}

/// Square `sq` is attacked by a piece of the side not to move, with `occ` occupied and the
/// slider attacks taken from the magic tables.
pub open spec fn square_attacked(v: BoardView, mb: MagicBitBoards, sq: int, occ: u64) -> bool {
    let e = v.bitboards[v.enemy_color()];
    ||| (v.bitboards[KNIGHTS as int] & e) & knight_attacks_spec(sq as u64) > 0
    ||| (v.bitboards[KINGS as int] & e) & king_attacks_spec(sq as u64) > 0
    ||| (v.bitboards[PAWNS as int] & e) & pawn_attackers_mask(sq, v.white_to_move) > 0
    ||| ((v.bitboards[ROOKS as int] | v.bitboards[QUEENS as int]) & e) & mb.rook_lookup(sq, occ) > 0
    ||| ((v.bitboards[BISHOPS as int] | v.bitboards[QUEENS as int]) & e) & mb.bishop_lookup(sq, occ) > 0
}

/// One castling move: the right is held, the squares between king and rook are empty, and
/// neither the king's square nor the two it crosses or lands on are attacked.
pub open spec fn castle_move(
    v: BoardView,
    mb: MagicBitBoards,
    occ: u64,
    right: u8,
    path: u64,
    king_sq: int,
    pass_sq: int,
    dest: int,
    flag: u32,
) -> Seq<Move> {
    if v.castling_rights & right != 0 && occ & path == 0 && !square_attacked(v, mb, king_sq, occ)
        && !square_attacked(v, mb, pass_sq, occ) && !square_attacked(v, mb, dest, occ) {
        seq![Move::spec_new(king_sq as u32, dest as u32, flag, KINGS as u32, EMPTY_SQUARE as u32)]
    } else {
        Seq::empty()
    }
}

/// The castling moves of the side to move, king side first.
pub open spec fn castling_moves(v: BoardView, mb: MagicBitBoards, occ: u64) -> Seq<Move> {
    if v.white_to_move {
        castle_move(v, mb, occ, 1, (1u64 << 5u64) | (1u64 << 6u64), 4, 5, 6, FLAG_KING_CASTLE)
            + castle_move(v, mb, occ, 2, (1u64 << 1u64) | (1u64 << 2u64) | (1u64 << 3u64), 4, 3, 2, FLAG_QUEEN_CASTLE)
    } else {
        castle_move(v, mb, occ, 4, (1u64 << 61u64) | (1u64 << 62u64), 60, 61, 62, FLAG_KING_CASTLE)
            + castle_move(v, mb, occ, 8, (1u64 << 57u64) | (1u64 << 58u64) | (1u64 << 59u64), 60, 59, 58, FLAG_QUEEN_CASTLE)
    }
}

/// All squares not holding a piece of the side to move.
pub open spec fn not_own(v: BoardView) -> u64 {
    !v.bitboards[v.own_color()]
}

/// The king moves: steps to squares not held by the side's own pieces, then castling.
pub open spec fn king_moves_spec(v: BoardView, mb: MagicBitBoards, occ: u64) -> Seq<Move> {
    piece_moves(v, KINGS as int, leaper_fn(KINGS as int), not_own(v)) + castling_moves(v, mb, occ)
}

/// Both sides' pieces.
pub open spec fn occupied(v: BoardView) -> u64 {
    v.bitboards[WHITE_PIECES as int] | v.bitboards[BLACK_PIECES as int]
}

/// Every pseudo-legal move of the side to move, in generation order: pawns, knights, king,
/// bishops, rooks, queens.
pub open spec fn pseudo_legal_moves(v: BoardView, mb: MagicBitBoards) -> Seq<Move> {
    let occ = occupied(v);
    pawn_moves_spec(v, !occ, v.bitboards[v.enemy_color()], true)
        + piece_moves(v, KNIGHTS as int, leaper_fn(KNIGHTS as int), not_own(v))
        + king_moves_spec(v, mb, occ)
        + piece_moves(v, BISHOPS as int, slider_fn(mb, BISHOPS as int, occ), not_own(v))
        + piece_moves(v, ROOKS as int, slider_fn(mb, ROOKS as int, occ), not_own(v))
        + piece_moves(v, QUEENS as int, slider_fn(mb, QUEENS as int, occ), not_own(v))
}

/// The captures of knights, king, bishops, rooks and queens onto `enemies`.
pub open spec fn tactical_piece_moves_spec(v: BoardView, mb: MagicBitBoards, occ: u64, enemies: u64) -> Seq<Move> {
    piece_moves(v, KNIGHTS as int, leaper_fn(KNIGHTS as int), enemies)
        + piece_moves(v, KINGS as int, leaper_fn(KINGS as int), enemies)
        + piece_moves(v, BISHOPS as int, slider_fn(mb, BISHOPS as int, occ), enemies)
        + piece_moves(v, ROOKS as int, slider_fn(mb, ROOKS as int, occ), enemies)
        + piece_moves(v, QUEENS as int, slider_fn(mb, QUEENS as int, occ), enemies)
}

/// The captures, promotions and en-passant moves of the side to move, in generation order.
pub open spec fn tactical_moves(v: BoardView, mb: MagicBitBoards) -> Seq<Move> {
    let occ = occupied(v);
    let enemies = v.bitboards[v.enemy_color()];
    pawn_moves_spec(v, !occ, enemies, false) + tactical_piece_moves_spec(v, mb, occ, enemies)
}

/// After a move (the opponent now to move), the side that moved has a king and it is not
/// attacked.
pub open spec fn mover_king_safe(v: BoardView, mb: MagicBitBoards) -> bool {
    let u = BoardView { white_to_move: !v.white_to_move, ..v };
    let kings = v.bitboards[KINGS as int] & v.bitboards[u.own_color()];
    kings != 0 && !square_attacked(u, mb, u64_trailing_zeros(kings) as int, occupied(v))
}

/// The squares from which a pawn of the given colour attacks `t`, built as the engine builds
/// them: toward the lower file first.
pub open spec fn pawn_sources(t: int, white: bool) -> u64 {
    if white {
        let a = if t % 8 != 0 && t >= 9 {
            0u64 | (1u64 << ((t - 9) as u64))
        } else {
            0u64
        };
        if t % 8 != 7 && t >= 7 {
            a | (1u64 << ((t - 7) as u64))
        } else {
            a
        }
    } else {
        let a = if t % 8 != 7 && t + 9 < 64 {
            0u64 | (1u64 << ((t + 9) as u64))
        } else {
            0u64
        };
        if t % 8 != 0 && t + 7 < 64 {
            a | (1u64 << ((t + 7) as u64))
        } else {
            a
        }
    }
}

/// The cheapest piece of the given colour, among those still in `occ`, that attacks `t`:
/// pawns, then knights, bishops, rooks, queens, king; the lowest square among equals.
pub open spec fn least_valuable_attacker_spec(
    v: BoardView,
    mb: MagicBitBoards,
    t: int,
    occ: u64,
    white: bool,
) -> Option<(usize, usize)> {
    let color_bb = (if white {
        v.bitboards[WHITE_PIECES as int]
    } else {
        v.bitboards[BLACK_PIECES as int]
    }) & occ;
    let pawns = pawn_sources(t, white) & (v.bitboards[PAWNS as int] & color_bb);
    let knights = (v.bitboards[KNIGHTS as int] & color_bb) & knight_attacks_spec(t as u64);
    let bishop_attacks = mb.bishop_lookup(t, occ);
    let bishops = (v.bitboards[BISHOPS as int] & color_bb) & bishop_attacks;
    let rook_attacks = mb.rook_lookup(t, occ);
    let rooks = (v.bitboards[ROOKS as int] & color_bb) & rook_attacks;
    let queens = (v.bitboards[QUEENS as int] & color_bb) & (bishop_attacks | rook_attacks);
    let king = (v.bitboards[KINGS as int] & color_bb) & king_attacks_spec(t as u64);
    if pawns != 0 {
        Some((u64_trailing_zeros(pawns) as usize, PAWNS))
    } else if knights != 0 {
        Some((u64_trailing_zeros(knights) as usize, KNIGHTS))
    } else if bishops != 0 {
        Some((u64_trailing_zeros(bishops) as usize, BISHOPS))
    } else if rooks != 0 {
        Some((u64_trailing_zeros(rooks) as usize, ROOKS))
    } else if queens != 0 {
        Some((u64_trailing_zeros(queens) as usize, QUEENS))
    } else if king != 0 {
        Some((u64_trailing_zeros(king) as usize, KINGS))
    } else {
        None
    }
}

pub open spec fn max_int(a: int, b: int) -> int {
    if a >= b {
        a
    } else {
        b
    }
}

/// The gains of the capture sequence on `t`: each entry is what the side capturing at that
/// step stands to win, given the entries before it. The sequence stops when neither side can
/// improve, when the side to recapture has no attacker left, or at 32 entries.
pub open spec fn see_gains(
    v: BoardView,
    mb: MagicBitBoards,
    t: int,
    occ: u64,
    white: bool,
    attacker: int,
    gains: Seq<int>,
) -> Seq<int>
    decreases 32 - gains.len(),
{
    let d = gains.len();
    let g = PIECE_VALUES[attacker] - gains.last();
    let next = gains.push(g);
    if max_int(g, -gains.last()) < 0 || d >= 31 || d == 0 {
        next
    } else {
        match least_valuable_attacker_spec(v, mb, t, occ, !white) {
            None => next,
            Some((sq, piece)) => see_gains(v, mb, t, occ & !(1u64 << (sq as u64)), !white, piece as int, next),
        }
    }
}

/// Folding the gains back from the last capture: each side takes the better of stopping or
/// going on.
pub open spec fn see_fold(g: Seq<int>, k: int) -> int
    decreases g.len() - k,
{
    if k >= g.len() - 1 || k < 0 {
        g[k]
    } else {
        -max_int(-g[k], see_fold(g, k + 1))
    }
}

/// The static exchange value of capturing on `t` with `attacker` from `from`: the gains
/// folded back from the last actual capture, each side taking the better of stopping or
/// recapturing.
pub open spec fn see_spec(v: BoardView, mb: MagicBitBoards, t: int, from: int, attacker: int) -> int {
    let occ = occupied(v) & !(1u64 << (from as u64));
    see_fold(see_gains(v, mb, t, occ, v.white_to_move, attacker, seq![PIECE_VALUES[v.pieces[t] as int] as int]).drop_last(), 0)
}

// ---------------------------------------------------------------------------------------------
// Generation helpers
// ---------------------------------------------------------------------------------------------
fn forward(x: u64, white: bool, k: u64) -> (r: u64)
    requires
        k < 64,
    ensures
        r == fwd(x, white, k),
{
    if white {
        x << k
    } else {
        x >> k
    }
}

/// Adds the moves of `piece` from `start` to each square of `targets`.
fn push_targets(board: &Board, move_list: &mut MoveList, start: u32, targets: u64, piece: usize)
    requires
        old(move_list).wf(),
        start < 64,
        piece < 6,
    ensures
        final(move_list).wf(),
        final(move_list)@ == old(move_list)@ + walk(targets, target_moves(board@, start, piece as int)),
{
    let ghost f = target_moves(board@, start, piece as int);
    let mut bb = targets;
    while bb != 0
        invariant
            move_list.wf(),
            start < 64,
            piece < 6,
            f == target_moves(board@, start, piece as int),
            move_list@ + walk(bb, f) == old(move_list)@ + walk(targets, f),
        decreases bb,
    {
        let target_square = bb.trailing_zeros();
        proof {
            lemma_lowest(bb);
            lemma_walk_step(bb, f);
            lemma_clear_lowest_smaller(bb);
        }
        let the_move = Move::new(start, target_square, 0, piece as u32, board.get_piece_from_array(target_square));
        let ghost before = move_list@;
        let ghost bb0 = bb;
        move_list.add_move(the_move);
        bb &= bb - 1;
        assert(move_list@ + walk(bb, f) =~= before + walk(bb0, f)) by {
            assert(f(target_square) == seq![the_move]);
        }
    }
}

/// Adds the pawn moves to each square of `targets`, each from `dist` squares behind.
fn push_pawn_moves(
    board: &Board,
    move_list: &mut MoveList,
    targets: u64,
    white: bool,
    dist: u32,
    flags: u32,
    capture_mode: u8,
    promote: bool,
)
    requires
        old(move_list).wf(),
        dist <= 16,
        capture_mode < 3,
        pawn_targets_ok(targets, white, dist),
    ensures
        final(move_list).wf(),
        final(move_list)@ == old(move_list)@ + walk(
            targets,
            pawn_fn(board@, white, dist, flags, capture_mode as int, promote),
        ),
{
    let ghost f = pawn_fn(board@, white, dist, flags, capture_mode as int, promote);
    let mut bb = targets;
    while bb != 0
        invariant
            move_list.wf(),
            dist <= 16,
            capture_mode < 3,
            f == pawn_fn(board@, white, dist, flags, capture_mode as int, promote),
            forall|t: int|
                0 <= t < 64 && has_bit(bb, t) ==> (if white {
                    t >= dist
                } else {
                    t + dist < 64
                }),
            move_list@ + walk(bb, f) == old(move_list)@ + walk(targets, f),
        decreases bb,
    {
        let target_square = bb.trailing_zeros();
        proof {
            lemma_lowest(bb);
            lemma_walk_step(bb, f);
            lemma_clear_lowest_smaller(bb);
        }
        let start_square = if white {
            target_square - dist
        } else {
            target_square + dist
        };
        let captured = if capture_mode == 0 {
            EMPTY_SQUARE as u32
        } else if capture_mode == 1 {
            board.get_piece_from_array(target_square)
        } else {
            PAWNS as u32
        };
        let ghost before = move_list@;
        let ghost bb0 = bb;
        if promote {
            move_list.add_move(Move::new(start_square, target_square, FLAG_PROMOTE_QUEEN, PAWNS as u32, captured));
            move_list.add_move(Move::new(start_square, target_square, FLAG_PROMOTE_ROOK, PAWNS as u32, captured));
            move_list.add_move(Move::new(start_square, target_square, FLAG_PROMOTE_BISHOP, PAWNS as u32, captured));
            move_list.add_move(Move::new(start_square, target_square, FLAG_PROMOTE_KNIGHT, PAWNS as u32, captured));
        } else {
            move_list.add_move(Move::new(start_square, target_square, flags, PAWNS as u32, captured));
        }
        bb &= bb - 1;
        assert(bb == clear_lowest(bb0));
        assert forall|t: int| 0 <= t < 64 && has_bit(bb, t) implies has_bit(bb0, t) by {}
        assert(move_list@ + walk(bb, f) =~= before + walk(bb0, f)) by {
            assert(before + f(target_square) =~= move_list@);
        }
    }
}

/// A target square of a forward-shifted bitboard lies `k` squares ahead of a set square.
pub proof fn lemma_fwd_bound(x: u64, m: u64, w: bool, k: u64, t: int)
    requires
        k < 64,
        0 <= t < 64,
        has_bit(fwd(x, w, k) & m, t),
    ensures
        has_bit(fwd(x, w, k), t),
        has_bit(m, t),
        if w {
            t >= k && has_bit(x, t - k)
        } else {
            t + k < 64 && has_bit(x, t + k)
        },
{
    lemma_bit_logic(fwd(x, w, k), m, t as u64);
    lemma_shift_bits(x, k, t as u64);
}

/// Every target set the pawn generator walks lies far enough from the back edge for the
/// moves' start squares to be on the board.
proof fn lemma_pawn_sets(p: u64, empty: u64, enemies: u64, w: bool)
    ensures
        pawn_targets_ok((fwd(p, w, 8) & empty) & !last_rank(w), w, 8),
        pawn_targets_ok((fwd(p, w, 8) & empty) & last_rank(w), w, 8),
        pawn_targets_ok(fwd(((fwd(p, w, 8) & empty) & !last_rank(w)) & third_rank(w), w, 8) & empty, w, 16),
        pawn_targets_ok((fwd(p & right_mask(w), w, 9) & enemies) & !last_rank(w), w, 9),
        pawn_targets_ok((fwd(p & right_mask(w), w, 9) & enemies) & last_rank(w), w, 9),
        pawn_targets_ok((fwd(p & left_mask(w), w, 7) & enemies) & !last_rank(w), w, 7),
        pawn_targets_ok((fwd(p & left_mask(w), w, 7) & enemies) & last_rank(w), w, 7),
        pawn_targets_ok(fwd(p & right_mask(w), w, 9) & enemies, w, 9),
        pawn_targets_ok(fwd(p & left_mask(w), w, 7) & enemies, w, 7),
{
    let lr = last_rank(w);
    let single_all = fwd(p, w, 8) & empty;
    let single = single_all & !lr;
    let right_all = fwd(p & right_mask(w), w, 9) & enemies;
    let left_all = fwd(p & left_mask(w), w, 7) & enemies;
    assert forall|t: int| 0 <= t < 64 && has_bit(single, t) implies (if w { t >= 8 } else { t + 8 < 64 }) by {
        lemma_bit_logic(single_all, !lr, t as u64);
        lemma_fwd_bound(p, empty, w, 8, t);
    }
    assert forall|t: int| 0 <= t < 64 && has_bit(single_all & lr, t) implies (if w { t >= 8 } else { t + 8 < 64 }) by {
        lemma_bit_logic(single_all, lr, t as u64);
        lemma_fwd_bound(p, empty, w, 8, t);
    }
    assert forall|t: int| 0 <= t < 64 && has_bit(fwd(single & third_rank(w), w, 8) & empty, t) implies (if w { t >= 16 } else { t + 16 < 64 }) by {
        lemma_fwd_bound(single & third_rank(w), empty, w, 8, t);
        let u = if w { t - 8 } else { t + 8 };
        lemma_bit_logic(single, third_rank(w), u as u64);
        lemma_bit_logic(single_all, !lr, u as u64);
        lemma_fwd_bound(p, empty, w, 8, u);
    }
    assert forall|t: int| 0 <= t < 64 && has_bit(right_all, t) implies (if w { t >= 9 } else { t + 9 < 64 }) by {
        lemma_fwd_bound(p & right_mask(w), enemies, w, 9, t);
    }
    assert forall|t: int| 0 <= t < 64 && has_bit(left_all, t) implies (if w { t >= 7 } else { t + 7 < 64 }) by {
        lemma_fwd_bound(p & left_mask(w), enemies, w, 7, t);
    }
    assert forall|t: int| 0 <= t < 64 && has_bit(right_all & !lr, t) implies (if w { t >= 9 } else { t + 9 < 64 }) by {
        lemma_bit_logic(right_all, !lr, t as u64);
        lemma_fwd_bound(p & right_mask(w), enemies, w, 9, t);
    }
    assert forall|t: int| 0 <= t < 64 && has_bit(right_all & lr, t) implies (if w { t >= 9 } else { t + 9 < 64 }) by {
        lemma_bit_logic(right_all, lr, t as u64);
        lemma_fwd_bound(p & right_mask(w), enemies, w, 9, t);
    }
    assert forall|t: int| 0 <= t < 64 && has_bit(left_all & !lr, t) implies (if w { t >= 7 } else { t + 7 < 64 }) by {
        lemma_bit_logic(left_all, !lr, t as u64);
        lemma_fwd_bound(p & left_mask(w), enemies, w, 7, t);
    }
    assert forall|t: int| 0 <= t < 64 && has_bit(left_all & lr, t) implies (if w { t >= 7 } else { t + 7 < 64 }) by {
        lemma_bit_logic(left_all, lr, t as u64);
        lemma_fwd_bound(p & left_mask(w), enemies, w, 7, t);
    }
}

/// Adds the pawn moves of the side to move, in the order of `pawn_moves_spec`.
fn push_pawns(board: &Board, move_list: &mut MoveList, empty_squares: u64, enemies: u64, quiet: bool)
    requires
        old(move_list).wf(),
    ensures
        final(move_list).wf(),
        final(move_list)@ == old(move_list)@ + pawn_moves_spec(board@, empty_squares, enemies, quiet),
{
    let white = board.is_white_turn();
    let own = if white {
        board.get_bitboard(WHITE_PIECES)
    } else {
        board.get_bitboard(BLACK_PIECES)
    };
    let pawn_bitboard = board.get_bitboard(PAWNS) & own;
    let ghost l0 = move_list@;
    if quiet {
        push_pawn_pushes(board, move_list, pawn_bitboard, empty_squares);
    }
    let ghost l1 = move_list@;
    push_pawn_captures(board, move_list, pawn_bitboard, empty_squares, enemies);
    let ghost l2 = move_list@;
    let ep = board.get_en_passant_target();
    if ep != 0 {
        push_en_passant(board, move_list, pawn_bitboard, ep);
    }
    assert(move_list@ =~= old(move_list)@ + pawn_moves_spec(board@, empty_squares, enemies, quiet));
}

fn push_pawn_pushes(board: &Board, move_list: &mut MoveList, pawn_bitboard: u64, empty_squares: u64)
    requires
        old(move_list).wf(),
        pawn_bitboard == own_pawns(board@),
    ensures
        final(move_list).wf(),
        final(move_list)@ == old(move_list)@ + pawn_push_moves(board@, empty_squares),
{
    let white = board.is_white_turn();
    let lr = if white {
        RANK_8
    } else {
        RANK_1
    };
    let third = if white {
        RANK_3
    } else {
        RANK_6
    };
    let single_pushes = (forward(pawn_bitboard, white, 8) & empty_squares) & !lr;
    let double_pushes = forward(single_pushes & third, white, 8) & empty_squares;
    proof {
        lemma_pawn_sets(pawn_bitboard, empty_squares, 0, white);
    }
    push_pawn_moves(board, move_list, single_pushes, white, 8, 0, 0, false);
    push_pawn_moves(board, move_list, double_pushes, white, 16, FLAG_DOUBLE_PUSH, 0, false);
    assert(move_list@ =~= old(move_list)@ + pawn_push_moves(board@, empty_squares));
}

fn push_pawn_captures(board: &Board, move_list: &mut MoveList, pawn_bitboard: u64, empty_squares: u64, enemies: u64)
    requires
        old(move_list).wf(),
        pawn_bitboard == own_pawns(board@),
    ensures
        final(move_list).wf(),
        final(move_list)@ == old(move_list)@ + pawn_capture_moves(board@, empty_squares, enemies),
{
    let white = board.is_white_turn();
    let lr = if white {
        RANK_8
    } else {
        RANK_1
    };
    let rmask = if white {
        ZERO_H_FILE
    } else {
        ZERO_A_FILE
    };
    let lmask = if white {
        ZERO_A_FILE
    } else {
        ZERO_H_FILE
    };
    let promoting_pushes = (forward(pawn_bitboard, white, 8) & empty_squares) & lr;
    let right_all = forward(pawn_bitboard & rmask, white, 9) & enemies;
    let left_all = forward(pawn_bitboard & lmask, white, 7) & enemies;
    proof {
        lemma_pawn_sets(pawn_bitboard, empty_squares, enemies, white);
    }
    push_pawn_moves(board, move_list, right_all & !lr, white, 9, 0, 1, false);
    push_pawn_moves(board, move_list, left_all & !lr, white, 7, 0, 1, false);
    push_pawn_moves(board, move_list, promoting_pushes, white, 8, 0, 0, true);
    push_pawn_moves(board, move_list, right_all & lr, white, 9, 0, 1, true);
    push_pawn_moves(board, move_list, left_all & lr, white, 7, 0, 1, true);
    assert(move_list@ =~= old(move_list)@ + pawn_capture_moves(board@, empty_squares, enemies));
}

fn push_en_passant(board: &Board, move_list: &mut MoveList, pawn_bitboard: u64, ep: u64)
    requires
        old(move_list).wf(),
        pawn_bitboard == own_pawns(board@),
        ep == board@.en_passant_target,
        ep != 0,
    ensures
        final(move_list).wf(),
        final(move_list)@ == old(move_list)@ + pawn_en_passant_moves(board@),
{
    let white = board.is_white_turn();
    let rmask = if white {
        ZERO_H_FILE
    } else {
        ZERO_A_FILE
    };
    let lmask = if white {
        ZERO_A_FILE
    } else {
        ZERO_H_FILE
    };
    let right_ep = forward(pawn_bitboard & rmask, white, 9) & ep;
    let left_ep = forward(pawn_bitboard & lmask, white, 7) & ep;
    proof {
        lemma_pawn_sets(pawn_bitboard, 0, ep, white);
    }
    push_pawn_moves(board, move_list, right_ep, white, 9, FLAG_EN_PASSANT, 2, false);
    push_pawn_moves(board, move_list, left_ep, white, 7, FLAG_EN_PASSANT, 2, false);
    assert(move_list@ =~= old(move_list)@ + pawn_en_passant_moves(board@));
}

/// Adds the knight (or king) moves of the side to move to the squares of `mask`.
fn push_leaper_moves(board: &Board, move_list: &mut MoveList, piece: usize, mask: u64)
    requires
        old(move_list).wf(),
        piece == KNIGHTS || piece == KINGS,
    ensures
        final(move_list).wf(),
        final(move_list)@ == old(move_list)@ + piece_moves(board@, piece as int, leaper_fn(piece as int), mask),
{
    let current_color = if board.is_white_turn() {
        WHITE_PIECES
    } else {
        BLACK_PIECES
    };
    let pieces = board.get_bitboard(piece) & board.get_bitboard(current_color);
    let ghost g = piece_fn(board@, piece as int, leaper_fn(piece as int), mask);
    let mut bb = pieces;
    while bb != 0
        invariant
            move_list.wf(),
            piece == KNIGHTS || piece == KINGS,
            g == piece_fn(board@, piece as int, leaper_fn(piece as int), mask),
            move_list@ + walk(bb, g) == old(move_list)@ + walk(pieces, g),
        decreases bb,
    {
        let start_square = bb.trailing_zeros();
        proof {
            lemma_lowest(bb);
            lemma_walk_step(bb, g);
            lemma_clear_lowest_smaller(bb);
        }
        let attacks = if piece == KNIGHTS {
            knight_attacks(start_square as usize)
        } else {
            king_attacks(start_square as usize)
        };
        let ghost before = move_list@;
        let ghost bb0 = bb;
        push_targets(board, move_list, start_square, attacks & mask, piece);
        bb &= bb - 1;
        assert(bb == clear_lowest(bb0));
        assert(move_list@ + walk(bb, g) =~= before + walk(bb0, g));
    }
}

/// Adds the bishop, rook or queen moves of the side to move to the squares of `mask`.
fn push_slider_moves(
    board: &Board,
    move_list: &mut MoveList,
    piece: usize,
    occupied_squares: u64,
    mask: u64,
    magic_bitboards: &MagicBitBoards,
)
    requires
        old(move_list).wf(),
        piece == BISHOPS || piece == ROOKS || piece == QUEENS,
        magic_bitboards.wf(),
    ensures
        final(move_list).wf(),
        final(move_list)@ == old(move_list)@ + piece_moves(
            board@,
            piece as int,
            slider_fn(*magic_bitboards, piece as int, occupied_squares),
            mask,
        ),
{
    let current_color = if board.is_white_turn() {
        WHITE_PIECES
    } else {
        BLACK_PIECES
    };
    let pieces = board.get_bitboard(piece) & board.get_bitboard(current_color);
    let ghost g = piece_fn(board@, piece as int, slider_fn(*magic_bitboards, piece as int, occupied_squares), mask);
    let mut bb = pieces;
    while bb != 0
        invariant
            move_list.wf(),
            piece == BISHOPS || piece == ROOKS || piece == QUEENS,
            magic_bitboards.wf(),
            g == piece_fn(board@, piece as int, slider_fn(*magic_bitboards, piece as int, occupied_squares), mask),
            move_list@ + walk(bb, g) == old(move_list)@ + walk(pieces, g),
        decreases bb,
    {
        let start_square = bb.trailing_zeros();
        proof {
            lemma_lowest(bb);
            lemma_walk_step(bb, g);
            lemma_clear_lowest_smaller(bb);
        }
        let attacks = if piece == BISHOPS {
            magic_bitboards.get_bishop_attacks(start_square as usize, occupied_squares)
        } else if piece == ROOKS {
            magic_bitboards.get_rook_attacks(start_square as usize, occupied_squares)
        } else {
            magic_bitboards.get_bishop_attacks(start_square as usize, occupied_squares)
                | magic_bitboards.get_rook_attacks(start_square as usize, occupied_squares)
        };
        let ghost before = move_list@;
        let ghost bb0 = bb;
        push_targets(board, move_list, start_square, attacks & mask, piece);
        bb &= bb - 1;
        assert(bb == clear_lowest(bb0));
        assert(move_list@ + walk(bb, g) =~= before + walk(bb0, g));
    }
}

/// Adds one castling move when `castle_move` allows it.
fn try_castle(
    board: &Board,
    move_list: &mut MoveList,
    occupied_squares: u64,
    magic_bitboards: &MagicBitBoards,
    right: u8,
    path: u64,
    king_sq: usize,
    pass_sq: usize,
    dest: usize,
    flag: u32,
)
    requires
        old(move_list).wf(),
        magic_bitboards.wf(),
        king_sq < 64,
        pass_sq < 64,
        dest < 64,
    ensures
        final(move_list).wf(),
        final(move_list)@ == old(move_list)@ + castle_move(
            board@,
            *magic_bitboards,
            occupied_squares,
            right,
            path,
            king_sq as int,
            pass_sq as int,
            dest as int,
            flag,
        ),
{
    if (board.get_castling_rights() & right) != 0 {
        // Path check
        if (occupied_squares & path) == 0 {
            // Safety check
            if !is_square_attacked(king_sq, occupied_squares, board, magic_bitboards) && !is_square_attacked(
                pass_sq,
                occupied_squares,
                board,
                magic_bitboards,
            ) && !is_square_attacked(dest, occupied_squares, board, magic_bitboards) {
                move_list.add_move(Move::new(king_sq as u32, dest as u32, flag, KINGS as u32, EMPTY_SQUARE as u32));
            }
        }
    }
    assert(move_list@ =~= old(move_list)@ + castle_move(
        board@,
        *magic_bitboards,
        occupied_squares,
        right,
        path,
        king_sq as int,
        pass_sq as int,
        dest as int,
        flag,
    ));
}

// ---------------------------------------------------------------------------------------------
// Generators
// ---------------------------------------------------------------------------------------------
pub fn generate_psuedo_legal_moves(board: &Board, move_list: &mut MoveList, magic_bitboards: &MagicBitBoards)
    requires
        old(move_list).wf(),
        magic_bitboards.wf(),
    ensures
        final(move_list).wf(),
        final(move_list)@ == old(move_list)@ + pseudo_legal_moves(board@, *magic_bitboards),
{
    let occupied_squares: u64 = board.get_bitboard(WHITE_PIECES) | board.get_bitboard(BLACK_PIECES);
    let empty_squares: u64 = !occupied_squares;

    let ghost l0 = move_list@;
    generate_pawn_moves(board, move_list, empty_squares);
    generate_knight_moves(board, move_list);
    generate_king_moves(board, move_list, occupied_squares, magic_bitboards);
    generate_bishop_moves(board, move_list, occupied_squares, magic_bitboards);
    generate_rook_moves(board, move_list, occupied_squares, magic_bitboards);
    generate_queen_moves(board, move_list, occupied_squares, magic_bitboards);
    assert(move_list@ =~= l0 + pseudo_legal_moves(board@, *magic_bitboards));
}

pub fn generate_pawn_moves(board: &Board, move_list: &mut MoveList, empty_squares: u64)
    requires
        old(move_list).wf(),
    ensures
        final(move_list).wf(),
        final(move_list)@ == old(move_list)@ + pawn_moves_spec(
            board@,
            empty_squares,
            board@.bitboards[board@.enemy_color()],
            true,
        ),
{
    let enemies = if board.is_white_turn() {
        board.get_bitboard(BLACK_PIECES)
    } else {
        board.get_bitboard(WHITE_PIECES)
    };
    push_pawns(board, move_list, empty_squares, enemies, true);
}

pub fn generate_knight_moves(board: &Board, move_list: &mut MoveList)
    requires
        old(move_list).wf(),
    ensures
        final(move_list).wf(),
        final(move_list)@ == old(move_list)@ + piece_moves(
            board@,
            KNIGHTS as int,
            leaper_fn(KNIGHTS as int),
            not_own(board@),
        ),
{
    let current_color = if board.is_white_turn() {
        WHITE_PIECES
    } else {
        BLACK_PIECES
    };
    push_leaper_moves(board, move_list, KNIGHTS, !board.get_bitboard(current_color));
}

pub fn generate_king_moves(
    board: &Board,
    move_list: &mut MoveList,
    occupied_squares: u64,
    magic_bitboards: &MagicBitBoards,
)
    requires
        old(move_list).wf(),
        magic_bitboards.wf(),
    ensures
        final(move_list).wf(),
        final(move_list)@ == old(move_list)@ + king_moves_spec(board@, *magic_bitboards, occupied_squares),
{
    let current_color = if board.is_white_turn() {
        WHITE_PIECES
    } else {
        BLACK_PIECES
    };
    let ghost l0 = move_list@;
    push_leaper_moves(board, move_list, KINGS, !board.get_bitboard(current_color));
    let ghost l1 = move_list@;
    if board.is_white_turn() {
        // White king side, then queen side
        try_castle(board, move_list, occupied_squares, magic_bitboards, 1, (1u64 << 5) | (1u64 << 6), 4, 5, 6, FLAG_KING_CASTLE);
        try_castle(
            board,
            move_list,
            occupied_squares,
            magic_bitboards,
            2,
            (1u64 << 1) | (1u64 << 2) | (1u64 << 3),
            4,
            3,
            2,
            FLAG_QUEEN_CASTLE,
        );
    } else {
        // Black king side, then queen side
        try_castle(board, move_list, occupied_squares, magic_bitboards, 4, (1u64 << 61) | (1u64 << 62), 60, 61, 62, FLAG_KING_CASTLE);
        try_castle(
            board,
            move_list,
            occupied_squares,
            magic_bitboards,
            8,
            (1u64 << 57) | (1u64 << 58) | (1u64 << 59),
            60,
            59,
            58,
            FLAG_QUEEN_CASTLE,
        );
    }
    assert(move_list@ =~= l0 + king_moves_spec(board@, *magic_bitboards, occupied_squares));
}

pub fn generate_rook_moves(
    board: &Board,
    move_list: &mut MoveList,
    occupied_squares: u64,
    magic_bitboards: &MagicBitBoards,
)
    requires
        old(move_list).wf(),
        magic_bitboards.wf(),
    ensures
        final(move_list).wf(),
        final(move_list)@ == old(move_list)@ + piece_moves(
            board@,
            ROOKS as int,
            slider_fn(*magic_bitboards, ROOKS as int, occupied_squares),
            not_own(board@),
        ),
{
    let current_color = if board.is_white_turn() {
        WHITE_PIECES
    } else {
        BLACK_PIECES
    };
    push_slider_moves(board, move_list, ROOKS, occupied_squares, !board.get_bitboard(current_color), magic_bitboards);
}

pub fn generate_bishop_moves(
    board: &Board,
    move_list: &mut MoveList,
    occupied_squares: u64,
    magic_bitboards: &MagicBitBoards,
)
    requires
        old(move_list).wf(),
        magic_bitboards.wf(),
    ensures
        final(move_list).wf(),
        final(move_list)@ == old(move_list)@ + piece_moves(
            board@,
            BISHOPS as int,
            slider_fn(*magic_bitboards, BISHOPS as int, occupied_squares),
            not_own(board@),
        ),
{
    let current_color = if board.is_white_turn() {
        WHITE_PIECES
    } else {
        BLACK_PIECES
    };
    push_slider_moves(board, move_list, BISHOPS, occupied_squares, !board.get_bitboard(current_color), magic_bitboards);
}

pub fn generate_queen_moves(
    board: &Board,
    move_list: &mut MoveList,
    occupied_squares: u64,
    magic_bitboards: &MagicBitBoards,
)
    requires
        old(move_list).wf(),
        magic_bitboards.wf(),
    ensures
        final(move_list).wf(),
        final(move_list)@ == old(move_list)@ + piece_moves(
            board@,
            QUEENS as int,
            slider_fn(*magic_bitboards, QUEENS as int, occupied_squares),
            not_own(board@),
        ),
{
    let current_color = if board.is_white_turn() {
        WHITE_PIECES
    } else {
        BLACK_PIECES
    };
    push_slider_moves(board, move_list, QUEENS, occupied_squares, !board.get_bitboard(current_color), magic_bitboards);
}

pub fn generate_tactical_moves(board: &Board, move_list: &mut MoveList, magic_bitboards: &MagicBitBoards)
    requires
        old(move_list).wf(),
        magic_bitboards.wf(),
    ensures
        final(move_list).wf(),
        final(move_list)@ == old(move_list)@ + tactical_moves(board@, *magic_bitboards),
{
    let occupied_squares = board.get_bitboard(WHITE_PIECES) | board.get_bitboard(BLACK_PIECES);
    let enemies = if board.is_white_turn() {
        board.get_bitboard(BLACK_PIECES)
    } else {
        board.get_bitboard(WHITE_PIECES)
    };
    let empty_squares = !occupied_squares;

    let ghost l0 = move_list@;
    generate_tactical_pawn_moves(board, move_list, empty_squares, enemies);
    generate_tactical_piece_moves(board, move_list, occupied_squares, enemies, magic_bitboards);
    assert(move_list@ =~= l0 + tactical_moves(board@, *magic_bitboards));
}

pub fn generate_tactical_pawn_moves(board: &Board, move_list: &mut MoveList, empty_squares: u64, enemies: u64)
    requires
        old(move_list).wf(),
    ensures
        final(move_list).wf(),
        final(move_list)@ == old(move_list)@ + pawn_moves_spec(board@, empty_squares, enemies, false),
{
    push_pawns(board, move_list, empty_squares, enemies, false);
}

pub fn generate_tactical_piece_moves(
    board: &Board,
    move_list: &mut MoveList,
    occupied_squares: u64,
    enemies: u64,
    magic_bitboards: &MagicBitBoards,
)
    requires
        old(move_list).wf(),
        magic_bitboards.wf(),
    ensures
        final(move_list).wf(),
        final(move_list)@ == old(move_list)@ + tactical_piece_moves_spec(
            board@,
            *magic_bitboards,
            occupied_squares,
            enemies,
        ),
{
    let ghost l0 = move_list@;
    // Knights, kings (no castling), bishops, rooks, queens
    push_leaper_moves(board, move_list, KNIGHTS, enemies);
    push_leaper_moves(board, move_list, KINGS, enemies);
    push_slider_moves(board, move_list, BISHOPS, occupied_squares, enemies, magic_bitboards);
    push_slider_moves(board, move_list, ROOKS, occupied_squares, enemies, magic_bitboards);
    push_slider_moves(board, move_list, QUEENS, occupied_squares, enemies, magic_bitboards);
    assert(move_list@ =~= l0 + tactical_piece_moves_spec(board@, *magic_bitboards, occupied_squares, enemies));
}

pub fn is_square_attacked(
    square: usize,
    occupied_squares: u64,
    board: &Board,
    magic_bitboards: &MagicBitBoards,
) -> (r: bool)
    requires
        square < 64,
        magic_bitboards.wf(),
    ensures
        r == square_attacked(board@, *magic_bitboards, square as int, occupied_squares),
{
    let enemy_color: usize = if board.is_white_turn() {
        BLACK_PIECES
    } else {
        WHITE_PIECES
    };

    let mut current_bitboard = board.get_bitboard(KNIGHTS) & board.get_bitboard(enemy_color);
    if current_bitboard & knight_attacks(square) > 0 {
        return true;
    }
    current_bitboard = board.get_bitboard(KINGS) & board.get_bitboard(enemy_color);
    if current_bitboard & king_attacks(square) > 0 {
        return true;
    }
    current_bitboard = board.get_bitboard(PAWNS) & board.get_bitboard(enemy_color);
    let target_mask = 1u64 << square;

    if board.is_white_turn() {
        let left_attack = (target_mask & ZERO_A_FILE) << 7;
        let right_attack = (target_mask & ZERO_H_FILE) << 9;
        if current_bitboard & (left_attack | right_attack) > 0 {
            return true;
        }
    } else {
        let left_attack = (target_mask & ZERO_H_FILE) >> 7;
        let right_attack = (target_mask & ZERO_A_FILE) >> 9;
        if current_bitboard & (left_attack | right_attack) > 0 {
            return true;
        }
    }
    let enemy_rooks_and_queens = board.get_bitboard(ROOKS) | board.get_bitboard(QUEENS);
    if (enemy_rooks_and_queens & board.get_bitboard(enemy_color)) & magic_bitboards.get_rook_attacks(
        square,
        occupied_squares,
    ) > 0 {
        return true;
    }
    let enemy_bishops_and_queens = board.get_bitboard(BISHOPS) | board.get_bitboard(QUEENS);
    if (enemy_bishops_and_queens & board.get_bitboard(enemy_color)) & magic_bitboards.get_bishop_attacks(
        square,
        occupied_squares,
    ) > 0 {
        return true;
    }
    false
}

/// Whether the move just made left the mover's king safe. The board is handed back as it
/// came.
pub fn is_move_legal(board: &mut Board, magic_bitboards: &MagicBitBoards) -> (r: bool)
    requires
        magic_bitboards.wf(),
    ensures
        final(board)@ == old(board)@,
        r == mover_king_safe(old(board)@, *magic_bitboards),
{
    board.turn_end();
    let current_color = if board.is_white_turn() {
        WHITE_PIECES
    } else {
        BLACK_PIECES
    };
    let king_bitboard = board.get_bitboard(KINGS) & board.get_bitboard(current_color);
    if king_bitboard == 0 {
        board.turn_end();
        return false;
    }
    let king_square = king_bitboard.trailing_zeros() as usize;
    proof {
        lemma_lowest(king_bitboard);
    }
    let occupied_squares = board.get_bitboard(WHITE_PIECES) | board.get_bitboard(BLACK_PIECES);
    let is_in_check = is_square_attacked(king_square, occupied_squares, board, magic_bitboards);
    board.turn_end();
    !is_in_check
}

// Static Exchange Evaluation. Simulates the full sequence of captures on
// `target_square`, assuming both sides always recapture with their least
// valuable attacker, and returns the net material result for the side
// initiating the capture (the side to move when this is called). A negative
// result means the initiating capture is a material-losing trade even after
// all recaptures are accounted for.
//
// This ignores absolute pins for speed (standard simplification used by
// essentially all engines that implement SEE).
pub fn static_exchange_evaluation(
    board: &Board,
    target_square: usize,
    from_square: usize,
    attacking_piece: usize,
    magic_bitboards: &MagicBitBoards,
) -> (r: i32)
    requires
        target_square < 64,
        from_square < 64,
        attacking_piece < 6,
        board@.pieces[target_square as int] < 6,
        magic_bitboards.wf(),
    ensures
        r == see_spec(board@, *magic_bitboards, target_square as int, from_square as int, attacking_piece as int),
{
    let mut gain = [0i32; 32];
    let mut depth = 0usize;
    let mut occupancy = board.get_bitboard(WHITE_PIECES) | board.get_bitboard(BLACK_PIECES);
    let mut side_is_white = board.is_white_turn();
    let mut current_attacker_piece = attacking_piece;

    gain[0] = PIECE_VALUES[board.get_piece_from_array(target_square as u32) as usize];
    occupancy &= !(1u64 << from_square);

    let ghost v = board@;
    let ghost mb = *magic_bitboards;
    let ghost t = target_square as int;
    let ghost mut prefix: Seq<int> = seq![gain[0] as int];
    let ghost full = see_gains(v, mb, t, occupancy, side_is_white, attacking_piece as int, prefix);
    let mut done = false;
    while !done
        invariant
            v == board@,
            mb == *magic_bitboards,
            mb.wf(),
            t == target_square,
            t < 64,
            current_attacker_piece < 6,
            depth < 32,
            !done ==> depth < 31,
            done ==> depth >= 1,
            prefix.len() == depth + 1,
            forall|k: int| 0 <= k <= depth ==> gain[k] == prefix[k],
            forall|k: int| 0 <= k <= depth ==> -20000 * (k + 1) <= #[trigger] prefix[k] <= 20000 * (k + 1),
            full == if done {
                prefix
            } else {
                see_gains(v, mb, t, occupancy, side_is_white, current_attacker_piece as int, prefix)
            },
        decreases 32 - depth + (if done { 0int } else { 1int }),
    {
        assert(PIECE_VALUES[current_attacker_piece as int] <= 20000);
        let ghost pre = prefix;
        let ghost occ0 = occupancy;
        let ghost white0 = side_is_white;
        let ghost attacker0 = current_attacker_piece as int;
        depth += 1;
        gain[depth] = PIECE_VALUES[current_attacker_piece] - gain[depth - 1];
        proof {
            prefix = prefix.push(gain[depth as int] as int);
        }
        if gain[depth].max(-gain[depth - 1]) < 0 {
            done = true;
        } else {
            side_is_white = !side_is_white;
            match least_valuable_attacker(board, target_square, occupancy, side_is_white, magic_bitboards) {
                Some((attacker_square, piece)) => {
                    occupancy &= !(1u64 << attacker_square);
                    current_attacker_piece = piece;
                    if depth >= 31 {
                        done = true;
                    }
                },
                None => {
                    done = true;
                },
            }
        }
        assert(see_gains(v, mb, t, occ0, white0, attacker0, pre) == if done {
            prefix
        } else {
            see_gains(v, mb, t, occupancy, side_is_white, current_attacker_piece as int, prefix)
        });
    }

    // The last gain is what the last capturer would win if it were taken in turn; no
    // recapture follows, so it is left out of the fold.
    depth -= 1;
    let ghost top = depth as int;
    let ghost folded = full.drop_last();
    assert forall|k: int| 0 <= k <= top implies -640000 <= #[trigger] folded[k] <= 640000 by {
        assert(-20000 * (k + 1) <= full[k] <= 20000 * (k + 1));
    }
    while depth > 0
        invariant
            depth <= top,
            top < 32,
            folded.len() == top + 1,
            forall|k: int| 0 <= k < depth ==> gain[k] == folded[k],
            gain[depth as int] == see_fold(folded, depth as int),
            forall|k: int| 0 <= k <= top ==> -640000 <= #[trigger] folded[k] <= 640000,
            -640000 <= see_fold(folded, depth as int) <= 640000,
        decreases depth,
    {
        assert(gain[depth - 1] == folded[depth - 1]);
        assert(-640000 <= folded[depth - 1] <= 640000);
        gain[depth - 1] = -(-gain[depth - 1]).max(gain[depth]);
        depth -= 1;
    }
    gain[0]
}

fn least_valuable_attacker(
    board: &Board,
    target_square: usize,
    occupancy: u64,
    white_attacker: bool,
    magic_bitboards: &MagicBitBoards,
) -> (r: Option<(usize, usize)>)
    requires
        target_square < 64,
        magic_bitboards.wf(),
    ensures
        r == least_valuable_attacker_spec(board@, *magic_bitboards, target_square as int, occupancy, white_attacker),
        r matches Some((sq, piece)) ==> sq < 64 && piece < 6,
{
    let color_bb = (if white_attacker {
        board.get_bitboard(WHITE_PIECES)
    } else {
        board.get_bitboard(BLACK_PIECES)
    }) & occupancy;

    // Pawns
    let pawns = board.get_bitboard(PAWNS) & color_bb;
    let mut pawn_attackers = 0u64;
    if white_attacker {
        if target_square % 8 != 0 && target_square >= 9 {
            pawn_attackers |= 1u64 << (target_square - 9);
        }
        if target_square % 8 != 7 && target_square >= 7 {
            pawn_attackers |= 1u64 << (target_square - 7);
        }
    } else {
        if target_square % 8 != 7 && target_square + 9 < 64 {
            pawn_attackers |= 1u64 << (target_square + 9);
        }
        if target_square % 8 != 0 && target_square + 7 < 64 {
            pawn_attackers |= 1u64 << (target_square + 7);
        }
    }
    pawn_attackers &= pawns;
    if pawn_attackers != 0 {
        proof {
            lemma_lowest(pawn_attackers);
        }
        return Some((pawn_attackers.trailing_zeros() as usize, PAWNS));
    }
    // Knights
    let knights = board.get_bitboard(KNIGHTS) & color_bb & knight_attacks(target_square);
    if knights != 0 {
        proof {
            lemma_lowest(knights);
        }
        return Some((knights.trailing_zeros() as usize, KNIGHTS));
    }
    // Bishops (recomputed against the current occupancy so x-ray attackers are found)
    let bishop_attacks = magic_bitboards.get_bishop_attacks(target_square, occupancy);
    let bishops = board.get_bitboard(BISHOPS) & color_bb & bishop_attacks;
    if bishops != 0 {
        proof {
            lemma_lowest(bishops);
        }
        return Some((bishops.trailing_zeros() as usize, BISHOPS));
    }
    // Rooks
    let rook_attacks = magic_bitboards.get_rook_attacks(target_square, occupancy);
    let rooks = board.get_bitboard(ROOKS) & color_bb & rook_attacks;
    if rooks != 0 {
        proof {
            lemma_lowest(rooks);
        }
        return Some((rooks.trailing_zeros() as usize, ROOKS));
    }
    // Queens
    let queens = board.get_bitboard(QUEENS) & color_bb & (bishop_attacks | rook_attacks);
    if queens != 0 {
        proof {
            lemma_lowest(queens);
        }
        return Some((queens.trailing_zeros() as usize, QUEENS));
    }
    // King
    let king = board.get_bitboard(KINGS) & color_bb & king_attacks(target_square);
    if king != 0 {
        proof {
            lemma_lowest(king);
        }
        return Some((king.trailing_zeros() as usize, KINGS));
    }
    None
}

} // verus!
