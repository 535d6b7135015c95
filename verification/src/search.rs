use vstd::prelude::*;
use vstd::std_specs::bits::u64_trailing_zeros;
use std::time::{Duration, Instant};
use crate::bits::lemma_lowest;
use crate::board::{
    Board, BoardView, make_move_spec, make_null_move_spec, unmake_move_spec, unmake_null_move_spec,
    can_unmake, KNIGHTS, BISHOPS, ROOKS, QUEENS, KINGS, WHITE_PIECES, BLACK_PIECES, EMPTY_SQUARE,
    FLAG_PROMOTE_QUEEN, FLAG_PROMOTE_KNIGHT, FLAG_EN_PASSANT,
};
use crate::board_laws::{lemma_make_unmake, lemma_make_move_wf, lemma_make_move_fields, lemma_null_move, lemma_eval_bounds};
use crate::constants::PIECE_VALUES;
use crate::evaluation::{evaluation_board, evaluation_spec};
use crate::magics::MagicBitBoards;
use crate::movedata::Move;
use crate::movegen_laws::{lemma_pseudo_legal_moves_ok, lemma_tactical_moves_ok, lemma_move_ok_makeable};
use crate::movegenerator::{
    MoveList, generate_psuedo_legal_moves, generate_tactical_moves, is_move_legal, is_square_attacked,
    static_exchange_evaluation, pseudo_legal_moves, tactical_moves, mover_king_safe, square_attacked,
    occupied, scorable, is_score_order, lemma_score_order_covers, tried_before, move_score, see_spec,
};
use crate::perft::is_legal;
use crate::transposition::{NodeType, TranspositionTable};
use crate::search_value::{
    SearchTables, minimax_value, minimax_moves, minimax_loop, minimax_child, minimax_finish, node_scores,
    tt_lookup, tt_score_at, tt_score_from, suggested_move, has_piece_material, is_quiet_move, record_cutoff,
    lemma_minimax_value_unfold, lemma_minimax_moves_unfold, lemma_minimax_child_unfold, lemma_minimax_loop_end,
    lemma_minimax_loop_step, lemma_minimax_step_unfold, minimax_step, root_value, root_loop, root_step, root_child,
    lemma_root_loop, lemma_root_step, deepening, fresh_tables, lemma_deepening, lemma_fresh_tables_unique, reply_depth, late_move_ok, after_cutoff,
    move_gives_check, tt_cutoff,
};
use crate::zobrist::Zobrist;
use crate::clock::{clock_kept, lemma_clock_kept_same, lemma_clock_kept_trans};

verus! {

broadcast use crate::clock::lemma_clock_kept_trans;

// ---------------------------------------------------------------------------------------------
// Clock
// ---------------------------------------------------------------------------------------------
#[verifier::external_type_specification]
#[verifier::external_body]
pub struct ExInstant(Instant);

/// `Instant::now()`. The reading depends on the clock; nothing is stated of it.
#[verifier::external_body]
fn instant_now() -> (r: Instant) {
    Instant::now()
}

/// `Duration::from_millis`. The duration is opaque here; nothing is stated of it.
#[verifier::external_body]
fn duration_from_millis(ms: u64) -> (r: Duration) {
    Duration::from_millis(ms)
}

/// `Instant::checked_add`: the instant `d` after `t`, or `None` when it cannot be
/// represented. Which of the two comes back depends on the platform's clock; nothing is
/// stated of it.
#[verifier::external_body]
fn instant_checked_add(t: Instant, d: Duration) -> (r: Option<Instant>) {
    t.checked_add(d)
}

/// `now >= end` on instants. Both are clock readings; nothing is stated of the result.
#[verifier::external_body]
fn instant_reached(now: Instant, end: Instant) -> (r: bool) {
    now >= end
}

// ---------------------------------------------------------------------------------------------
// Search state
// ---------------------------------------------------------------------------------------------
pub const MAX_SCORE: i32 = 50000;
pub const MIN_SCORE: i32 = -50000;

/// Margin for delta pruning in the quiescence search.
pub const DELTA_MARGIN: i32 = 200;

pub struct SearchInfo {
    pub end_time: Instant,
    pub stopped: bool,
    pub nodes: u64,
    pub killer_moves: [[Move; 100]; 2],
    pub history_moves: [[i32; 64]; 12],
    /// The nodes visited since the search began, without wrapping.
    pub visited: Ghost<int>,
    /// The clock readings taken so far, one every 2048 nodes: whether the time was up.
    pub readings: Ghost<Seq<bool>>,
}

/// A clock reading happens at a multiple of 2048 visited nodes.
pub open spec fn clock_reading(c: int) -> bool {
    c % 2048 == 0
}

/// Some clock reading happened after `before` nodes, up to `after`.
pub open spec fn clock_read_between(before: int, after: int) -> bool {
    exists|c: int| before < c <= after && #[trigger] clock_reading(c)
}

/// If the search was running at `a` and is stopped at `b`, the clock reading that stopped it
/// came after `a`'s node count and no later than node `limit`.
pub open spec fn stopped_within(a: SearchInfo, b: SearchInfo, limit: int) -> bool {
    !a.stopped && b.stopped ==> clock_read_between(a.visited@, limit)
}

/// A stop within a later call's own nodes is a stop within the whole search's, when the
/// later call ends no later.
proof fn lemma_stop_chain(a: SearchInfo, b: SearchInfo, c: SearchInfo, l2: int, limit: int)
    requires
        stopped_within(a, b, limit),
        stopped_within(b, c, l2),
        !b.stopped ==> l2 <= limit,
        a.visited@ <= b.visited@,
        b.stopped ==> c.stopped,
    ensures
        stopped_within(a, c, limit),
{
    if !a.stopped && c.stopped && !b.stopped {
        let w = choose|w: int| b.visited@ < w <= l2 && #[trigger] clock_reading(w);
        assert(a.visited@ < w <= limit);
    }
}

impl SearchInfo {
    /// The node counter is the number of nodes visited, wrapping at 2^64.
    pub open spec fn counts_ok(&self) -> bool {
        &&& self.visited@ >= 0
        &&& self.nodes as int == self.visited@ % 0x1_0000_0000_0000_0000
        &&& self.readings@.len() == self.visited@ / 2048
    }

    pub fn new(time_limit_ms: u64) -> (r: Self)
        ensures
            !r.stopped,
            r.nodes == 0,
            r.visited@ == 0,
            r.readings@ == Seq::<bool>::empty(),
            r.counts_ok(),
            forall|i: int, d: int| 0 <= i < 2 && 0 <= d < 100 ==> #[trigger] r.killer_moves[i][d] == Move::spec_new(0, 0, 0, 0, 0),
            forall|p: int, s: int| 0 <= p < 12 && 0 <= s < 64 ==> #[trigger] r.history_moves[p][s] == 0,
    {
        let now = instant_now();
        let end_time = match instant_checked_add(now, duration_from_millis(time_limit_ms)) {
            Some(t) => t,
            None => now,
        };
        let null_move = Move::new(0, 0, 0, 0, 0);
        SearchInfo {
            end_time,
            stopped: false,
            nodes: 0,
            killer_moves: [[null_move; 100]; 2],
            history_moves: [[0; 64]; 12],
            visited: Ghost(0),
            readings: Ghost(Seq::empty()),
        }
    }

    /// Counts one more node visited and, every 2048 nodes, stops once the time is up.
    pub fn visit_node(&mut self)
        requires
            old(self).counts_ok(),
        ensures
            final(self).counts_ok(),
            final(self).visited@ == old(self).visited@ + 1,
            final(self).end_time == old(self).end_time,
            final(self).killer_moves == old(self).killer_moves,
            final(self).history_moves == old(self).history_moves,
            clock_kept(*old(self), *final(self)),
            final(self).stopped ==> old(self).stopped || clock_reading(final(self).visited@),
    {
        self.nodes = self.nodes.wrapping_add(1);
        proof {
            self.visited = Ghost(self.visited@ + 1);
            let v = self.visited@;
            assert(0x1_0000_0000_0000_0000int == 2048 * 0x20_0000_0000_0000int);
            vstd::arithmetic::div_mod::lemma_mod_mod(v, 2048, 0x20_0000_0000_0000int);
            vstd::arithmetic::div_mod::lemma_mod_mod(v - 1, 2048, 0x20_0000_0000_0000int);
        }
        let ghost before = *self;
        self.check_time();
        proof {
            let v = self.visited@;
            vstd::arithmetic::div_mod::lemma_mod_mod(v, 2048, 0x20_0000_0000_0000int);
            assert(v / 2048 == (v - 1) / 2048 + if v % 2048 == 0 { 1int } else { 0int }) by (nonlinear_arith)
                requires
                    v >= 1,
            ;
            let n = before.readings@.len() as int;
            if before.nodes % 2048 == 0 {
                assert(before.readings@ =~= self.readings@.subrange(0, n));
                if self.readings@.last() {
                    assert(self.readings@[n]);
                }
            } else {
                lemma_clock_kept_same(before, *self);
            }
            lemma_clock_kept_same(*old(self), before);
        }
    }

    /// Every 2048 nodes, reads the clock and stops once the time is up.
    pub fn check_time(&mut self)
        ensures
            final(self).nodes == old(self).nodes,
            final(self).visited == old(self).visited,
            final(self).end_time == old(self).end_time,
            final(self).killer_moves == old(self).killer_moves,
            final(self).history_moves == old(self).history_moves,
            old(self).nodes % 2048 != 0 ==> final(self).readings == old(self).readings,
            old(self).nodes % 2048 != 0 ==> final(self).stopped == old(self).stopped,
            old(self).nodes % 2048 == 0 ==> final(self).readings@.len() == old(self).readings@.len() + 1,
            old(self).nodes % 2048 == 0 ==> final(self).readings@.drop_last() == old(self).readings@,
            old(self).nodes % 2048 == 0 ==> final(self).stopped == (old(self).stopped || final(self).readings@.last()),
    {
        if self.nodes % 2048 == 0 {
            let time_up = instant_reached(instant_now(), self.end_time);
            self.note_clock(time_up);
            assert(self.readings@.drop_last() =~= old(self).readings@);
        }
    }

    /// Takes a clock reading, `time_up` telling whether the time is up: at a multiple of 2048
    /// nodes it is recorded, and the search stops when the time is up; otherwise nothing
    /// changes.
    pub fn note_clock(&mut self, time_up: bool)
        ensures
            final(self).stopped == (old(self).stopped || (old(self).nodes % 2048 == 0 && time_up)),
            final(self).readings@ == if old(self).nodes % 2048 == 0 {
                old(self).readings@.push(time_up)
            } else {
                old(self).readings@
            },
            final(self).nodes == old(self).nodes,
            final(self).visited == old(self).visited,
            final(self).end_time == old(self).end_time,
            final(self).killer_moves == old(self).killer_moves,
            final(self).history_moves == old(self).history_moves,
    {
        if self.nodes % 2048 == 0 {
            proof {
                self.readings = Ghost(self.readings@.push(time_up));
            }
            if time_up {
                self.stopped = true;
            }
        }
    }
}

// ---------------------------------------------------------------------------------------------
// What the search keeps
// ---------------------------------------------------------------------------------------------
/// A consistent position whose half-move clock has room for the plies still to come.
pub open spec fn search_ready(v: BoardView, ply: int) -> bool {
    &&& v.wf()
    &&& 0 <= ply <= 255
    &&& v.halfmove_clock + (255 - ply) < u32::MAX
}

/// The move a search reports: none (all zero), or a pseudo-legal move that leaves the mover's
/// king safe.
pub open spec fn reported_move_ok(v: BoardView, mb: MagicBitBoards, z: Zobrist, m: Move) -> bool {
    m == Move::spec_new(0, 0, 0, 0, 0) || (pseudo_legal_moves(v, mb).contains(m) && mover_king_safe(
        make_move_spec(v, m, z),
        mb,
    ))
}

/// The side to move has no king, or its king is attacked.
pub open spec fn in_check_spec(v: BoardView, mb: MagicBitBoards) -> bool {
    let kings = v.bitboards[KINGS as int] & v.bitboards[v.own_color()];
    kings == 0 || square_attacked(v, mb, u64_trailing_zeros(kings) as int, occupied(v))
}

/// A move the generator produced can be made and unmade again, and the position after it is
/// ready for one more ply.
proof fn lemma_child(v: BoardView, m: Move, z: Zobrist, ply: int)
    requires
        search_ready(v, ply),
        ply < 255,
        v.move_ok(m),
    ensures
        v.can_make(m),
        search_ready(make_move_spec(v, m, z), ply + 1),
        can_unmake(make_move_spec(v, m, z), m),
        unmake_move_spec(make_move_spec(v, m, z), m) == v,
{
    lemma_move_ok_makeable(v, m);
    lemma_make_move_wf(v, m, z);
    lemma_make_move_fields(v, m, z);
    lemma_make_unmake(v, m, z);
}

/// Passing the turn can be undone, and the position after it is ready for one more ply.
proof fn lemma_null_child(v: BoardView, z: Zobrist, ply: int)
    requires
        search_ready(v, ply),
        ply < 255,
    ensures
        search_ready(make_null_move_spec(v, z), ply + 1),
        unmake_null_move_spec(make_null_move_spec(v, z)) == v,
{
    lemma_null_move(v, z);
}

/// The killer slot as an option: empty when it holds the all-zero move.
fn killer_option(k: Move) -> (r: Option<Move>)
    ensures
        r == if k.start() != 0 || k.target() != 0 {
            Some(k)
        } else {
            None::<Move>
        },
{
    if k.get_start() != 0 || k.get_target() != 0 {
        Some(k)
    } else {
        None
    }
}

/// The move a transposition-table entry suggests, when it names one.
fn tt_move_of(tt: &TranspositionTable, key: u64) -> (r: Option<Move>)
    requires
        tt.wf(),
    ensures
        r == if tt.slot_entry(key).zobrist_key == key && (tt.slot_entry(key).best_move.start() != 0
            || tt.slot_entry(key).best_move.target() != 0) {
            Some(tt.slot_entry(key).best_move)
        } else {
            None::<Move>
        },
{
    let mut tt_move: Option<Move> = None;
    if let Some(entry) = tt.probe(key) {
        if entry.best_move.get_start() != 0 || entry.best_move.get_target() != 0 {
            tt_move = Some(entry.best_move);
        }
    }
    tt_move
}

/// The scores are the moves' ordering scores.
#[verifier::opaque]
pub open spec fn scored_by(
    scores: Seq<i32>,
    moves: Seq<Move>,
    white_to_move: bool,
    tt_move: Option<Move>,
    killer_1: Option<Move>,
    killer_2: Option<Move>,
    history: [[i32; 64]; 12],
) -> bool {
    &&& scores.len() == moves.len()
    &&& forall|k: int|
        0 <= k < moves.len() ==> #[trigger] scores[k] == move_score(white_to_move, moves[k], tt_move, killer_1, killer_2, history)
}

/// Generates and orders the pseudo-legal moves of the position.
fn ordered_moves(
    board: &Board,
    magic_bitboards: &MagicBitBoards,
    tt_move: Option<Move>,
    killer_1: Option<Move>,
    killer_2: Option<Move>,
    history: &[[i32; 64]; 12],
    tactical_only: bool,
) -> (r: MoveList)
    requires
        board@.wf(),
        magic_bitboards.wf(),
    ensures
        r@ == if tactical_only {
            tactical_moves(board@, *magic_bitboards)
        } else {
            pseudo_legal_moves(board@, *magic_bitboards)
        },
        r.wf(),
        r.order_seq().len() == r@.len(),
        scored_by(r.score_seq(), r@, board@.white_to_move, tt_move, killer_1, killer_2, *history),
        is_score_order(r.score_seq(), r.order_seq()),
        forall|k: int| 0 <= k < r@.len() ==> board@.move_ok(#[trigger] r@[k]),
{
    let mut move_list = MoveList::new();
    if tactical_only {
        generate_tactical_moves(board, &mut move_list, magic_bitboards);
    } else {
        generate_psuedo_legal_moves(board, &mut move_list, magic_bitboards);
    }
    proof {
        lemma_pseudo_legal_moves_ok(board@, *magic_bitboards);
        lemma_tactical_moves_ok(board@, *magic_bitboards);
        assert(move_list@ =~= if tactical_only {
            tactical_moves(board@, *magic_bitboards)
        } else {
            pseudo_legal_moves(board@, *magic_bitboards)
        });
        assert forall|k: int| 0 <= k < move_list@.len() implies scorable(#[trigger] move_list@[k]) by {
            lemma_move_ok_makeable(board@, move_list@[k]);
        }
    }
    move_list.score_moves(board, tt_move, killer_1, killer_2, history);
    assert(scored_by(move_list.score_seq(), move_list@, board@.white_to_move, tt_move, killer_1, killer_2, *history)) by {
        reveal(scored_by);
    }
    move_list
}

/// Only one order lists every index once, best score first, ties in the order added.
pub proof fn lemma_score_order_unique(scores: Seq<i32>, o1: Seq<usize>, o2: Seq<usize>)
    requires
        is_score_order(scores, o1),
        is_score_order(scores, o2),
    ensures
        o1 == o2,
{
    if o1.len() > 0 {
        lemma_score_order_prefix(scores, o1, o2, o1.len() - 1);
    }
    assert(o1 =~= o2);
}

/// Two score orders agree on their first `i + 1` positions.
proof fn lemma_score_order_prefix(scores: Seq<i32>, o1: Seq<usize>, o2: Seq<usize>, i: int)
    requires
        is_score_order(scores, o1),
        is_score_order(scores, o2),
        0 <= i < o1.len(),
    ensures
        forall|p: int| 0 <= p <= i ==> o1[p] == o2[p],
    decreases i,
{
    if i > 0 {
        lemma_score_order_prefix(scores, o1, o2, i - 1);
    }
    let a = o1[i];
    let b = o2[i];
    lemma_score_order_covers(scores, o1, b as int);
    let j = choose|j: int| 0 <= j < o1.len() && o1[j] == b;
    lemma_score_order_covers(scores, o2, a as int);
    let k = choose|k: int| 0 <= k < o2.len() && o2[k] == a;
    if a != b {
        if j < i {
            assert(o2[j] == b);
            assert(false);
        }
        if k < i {
            assert(o1[k] == a);
            assert(false);
        }
        assert(j != i);
        assert(k != i);
        assert(tried_before(scores, o1[i], o1[j]));
        assert(tried_before(scores, o2[i], o2[k]));
        assert(false);
    }
}

/// The order in which moves with these scores are tried.
pub open spec fn score_order(scores: Seq<i32>) -> Seq<usize> {
    choose|o: Seq<usize>| is_score_order(scores, o)
}

/// When no move, taken in score order, has a property, no move of the list has it.
proof fn lemma_none_in_order(moves: Seq<Move>, scores: Seq<i32>, order: Seq<usize>, p: spec_fn(Move) -> bool)
    requires
        is_score_order(scores, order),
        order.len() == moves.len(),
        forall|j: int| 0 <= j < order.len() ==> !p(moves[#[trigger] order[j] as int]),
    ensures
        forall|k: int| 0 <= k < moves.len() ==> !p(#[trigger] moves[k]),
{
    assert forall|k: int| 0 <= k < moves.len() implies !p(#[trigger] moves[k]) by {
        lemma_score_order_covers(scores, order, k);
        let j = choose|j: int| 0 <= j < order.len() && order[j] == k;
        assert(!p(moves[order[j] as int]));
    }
}

// ---------------------------------------------------------------------------------------------
// Search
// ---------------------------------------------------------------------------------------------
/// Iterative deepening from depth 1 to 64 while time remains. After the search of each
/// depth, whether it was stopped and whether the clock then said the time was up (the clock
/// is read only when it was not stopped) are appended to `depth_checks`; the next depth is
/// searched exactly when both are false. After each finished depth, its depth and the node
/// count so far are appended to `depth_reports`; the move returned is the one the last
/// finished depth chose (`deepening`), the all-zero move if none finished.
#[verifier::rlimit(40)]
pub fn get_best_move(
    board: &mut Board,
    time_limit_ms: u64,
    magic_bitboards: &MagicBitBoards,
    zobrist: &Zobrist,
    tt: &mut TranspositionTable,
    depth_reports: &mut Vec<(u8, u64)>,
    depth_checks: &mut Vec<(bool, bool)>,
) -> (r: Move)
    requires
        search_ready(old(board)@, 0),
        magic_bitboards.wf(),
        old(tt).wf(),
    ensures
        final(board)@ == old(board)@,
        final(tt).wf(),
        reported_move_ok(old(board)@, *magic_bitboards, *zobrist, r),
        old(depth_reports)@.len() <= final(depth_reports)@.len() <= old(depth_reports)@.len() + 64,
        final(depth_reports)@.subrange(0, old(depth_reports)@.len() as int) == old(depth_reports)@,
        forall|j: int|
            old(depth_reports)@.len() <= j < final(depth_reports)@.len() ==> (#[trigger] final(depth_reports)@[j]).0
                == j - old(depth_reports)@.len() + 1,
        final(depth_reports)@.len() == old(depth_reports)@.len() ==> r == Move::spec_new(0, 0, 0, 0, 0),
        forall|st: SearchTables|
            fresh_tables(st, old(tt)@) ==> #[trigger] deepening(
                old(board)@,
                *magic_bitboards,
                *zobrist,
                st,
                (final(depth_reports)@.len() - old(depth_reports)@.len()) as nat,
            ).0 == r,
        final(depth_reports)@.len() > old(depth_reports)@.len() && has_legal_move(
            old(board)@,
            *magic_bitboards,
            *zobrist,
        ) ==> r != Move::spec_new(0, 0, 0, 0, 0),
        final(depth_checks)@.subrange(0, old(depth_checks)@.len() as int) == old(depth_checks)@,
        final(depth_checks)@.len() - old(depth_checks)@.len() == if final(depth_reports)@.len() - old(depth_reports)@.len()
            < 64 {
            final(depth_reports)@.len() - old(depth_reports)@.len() + 1
        } else {
            64int
        },
        forall|j: int|
            old(depth_checks)@.len() <= j < old(depth_checks)@.len() + (final(depth_reports)@.len() - old(
                depth_reports,
            )@.len()) ==> #[trigger] final(depth_checks)@[j] == (false, false),
        final(depth_reports)@.len() - old(depth_reports)@.len() < 64 ==> {
            let last = final(depth_checks)@.last();
            last.0 || last.1
        },
        forall|j: int|
            old(depth_checks)@.len() <= j < final(depth_checks)@.len() ==> (#[trigger] final(depth_checks)@[j]).0
                ==> !final(depth_checks)@[j].1,
        forall|st: SearchTables, j: int|
            #![trigger fresh_tables(st, old(tt)@), final(depth_checks)@[j]]
            fresh_tables(st, old(tt)@) && old(depth_checks)@.len() <= j < final(depth_checks)@.len()
                && final(depth_checks)@[j].0 ==> clock_read_between(
                deepening(old(board)@, *magic_bitboards, *zobrist, st, (j - old(depth_checks)@.len()) as nat).1.3,
                deepening(old(board)@, *magic_bitboards, *zobrist, st, (j - old(depth_checks)@.len() + 1) as nat).1.3,
            ),
        forall|st: SearchTables, j: int|
            #![trigger fresh_tables(st, old(tt)@), final(depth_reports)@[j]]
            fresh_tables(st, old(tt)@) && old(depth_reports)@.len() <= j < final(depth_reports)@.len()
                ==> final(depth_reports)@[j].1 as int == deepening(
                old(board)@,
                *magic_bitboards,
                *zobrist,
                st,
                (j - old(depth_reports)@.len() + 1) as nat,
            ).1.3 % 0x1_0000_0000_0000_0000,
{
    let ghost v = board@;
    let ghost reports0 = depth_reports@;
    let ghost checks0 = depth_checks@;
    let ghost mut ended = false;
    let mut best_overall_move = Move::new(0, 0, 0, 0, 0);
    let mut info = SearchInfo::new(time_limit_ms);
    let ghost st_init: SearchTables = (tt@, info.killer_moves, info.history_moves, info.visited@);
    assert(fresh_tables(st_init, old(tt)@));
    proof {
        lemma_deepening(v, *magic_bitboards, *zobrist, st_init, 0);
    }
    let mut current_depth: u8 = 1;
    while current_depth <= 64
        invariant_except_break
            !ended,
            !info.stopped,
            !info.stopped ==> (tt@, info.killer_moves, info.history_moves, info.visited@) == deepening(
                v,
                *magic_bitboards,
                *zobrist,
                st_init,
                (current_depth - 1) as nat,
            ).1,
        invariant
            board@ == v,
            info.counts_ok(),
            search_ready(v, 0),
            magic_bitboards.wf(),
            tt.wf(),
            1 <= current_depth <= 65,
            reported_move_ok(v, *magic_bitboards, *zobrist, best_overall_move),
            reports0 == old(depth_reports)@,
            depth_reports@.len() == reports0.len() + current_depth - 1,
            checks0 == old(depth_checks)@,
            depth_checks@.len() == checks0.len() + current_depth - 1 + if ended { 1int } else { 0int },
            depth_checks@.subrange(0, checks0.len() as int) == checks0,
            forall|j: int|
                checks0.len() <= j < checks0.len() + current_depth - 1 ==> #[trigger] depth_checks@[j] == (false, false),
            forall|j: int|
                checks0.len() <= j < depth_checks@.len() ==> (#[trigger] depth_checks@[j]).0 ==> !depth_checks@[j].1,
            forall|j: int|
                checks0.len() <= j < depth_checks@.len() ==> (#[trigger] depth_checks@[j]).0 ==> clock_read_between(
                    deepening(v, *magic_bitboards, *zobrist, st_init, (j - checks0.len()) as nat).1.3,
                    deepening(v, *magic_bitboards, *zobrist, st_init, (j - checks0.len() + 1) as nat).1.3,
                ),
            ended ==> current_depth <= 64 && (depth_checks@.last().0 || depth_checks@.last().1),
            depth_reports@.subrange(0, reports0.len() as int) == reports0,
            forall|j: int|
                reports0.len() <= j < depth_reports@.len() ==> (#[trigger] depth_reports@[j]).0 == j - reports0.len() + 1,
            forall|j: int|
                reports0.len() <= j < depth_reports@.len() ==> (#[trigger] depth_reports@[j]).1 as int == deepening(
                    v,
                    *magic_bitboards,
                    *zobrist,
                    st_init,
                    (j - reports0.len() + 1) as nat,
                ).1.3 % 0x1_0000_0000_0000_0000,
            current_depth == 1 ==> best_overall_move == Move::spec_new(0, 0, 0, 0, 0),
            fresh_tables(st_init, old(tt)@),
            best_overall_move == deepening(v, *magic_bitboards, *zobrist, st_init, (current_depth - 1) as nat).0,
            current_depth > 1 && has_legal_move(v, *magic_bitboards, *zobrist) ==> best_overall_move != Move::spec_new(
                0,
                0,
                0,
                0,
                0,
            ),
        ensures
            ended || current_depth > 64,
        decreases 65 - current_depth,
    {
        let ghost info_before = info;
        let current_best_move = search_root(board, current_depth, magic_bitboards, &mut info, zobrist, tt);
        proof {
            lemma_deepening(v, *magic_bitboards, *zobrist, st_init, (current_depth - 1) as nat);
        }
        let stopped = info.stopped;
        let time_up = if stopped {
            false
        } else {
            instant_reached(instant_now(), info.end_time)
        };
        let ghost checks_before = depth_checks@;
        depth_checks.push((stopped, time_up));
        proof {
            assert(depth_checks@.subrange(0, checks0.len() as int) =~= checks_before.subrange(0, checks0.len() as int));
            assert forall|j: int| checks0.len() <= j < depth_checks@.len() implies (#[trigger] depth_checks@[j]).0
                ==> !depth_checks@[j].1 by {
                if j < checks_before.len() {
                    assert(depth_checks@[j] == checks_before[j]);
                }
            }
            assert forall|j: int| checks0.len() <= j < depth_checks@.len() implies (#[trigger] depth_checks@[j]).0
                ==> clock_read_between(
                deepening(v, *magic_bitboards, *zobrist, st_init, (j - checks0.len()) as nat).1.3,
                deepening(v, *magic_bitboards, *zobrist, st_init, (j - checks0.len() + 1) as nat).1.3,
            ) by {
                if j < checks_before.len() {
                    assert(depth_checks@[j] == checks_before[j]);
                } else {
                    assert(depth_checks@[j] == (stopped, time_up));
                    assert((j - checks0.len()) as nat == (current_depth - 1) as nat);
                }
            }
            assert forall|j: int| checks0.len() <= j < checks0.len() + current_depth - 1 implies #[trigger] depth_checks@[j]
                == (false, false) by {
                assert(depth_checks@[j] == checks_before[j]);
            }
        }
        if stopped || time_up {
            proof {
                ended = true;
            }
            break;
        }
        let ghost before = depth_reports@;
        depth_reports.push((current_depth, info.nodes));
        proof {
            assert(depth_reports@.subrange(0, reports0.len() as int) =~= before.subrange(0, reports0.len() as int));
            assert(info.visited@ == deepening(v, *magic_bitboards, *zobrist, st_init, current_depth as nat).1.3);
        }
        best_overall_move = current_best_move;
        current_depth += 1;
        proof {
            assert forall|j: int| checks0.len() <= j < checks0.len() + current_depth - 1 implies #[trigger] depth_checks@[j]
                == (false, false) by {
                if j < checks0.len() + current_depth - 2 {
                    assert(depth_checks@[j] == checks_before[j]);
                } else {
                    assert(depth_checks@[j] == (stopped, time_up));
                }
            }
        }
    }
    proof {
        assert forall|st: SearchTables| fresh_tables(st, old(tt)@) implies #[trigger] deepening(
            v,
            *magic_bitboards,
            *zobrist,
            st,
            (depth_reports@.len() - reports0.len()) as nat,
        ).0 == best_overall_move by {
            lemma_fresh_tables_unique(st, st_init, old(tt)@);
        }
        assert forall|st: SearchTables, j: int|
            #![trigger fresh_tables(st, old(tt)@), depth_checks@[j]]
            fresh_tables(st, old(tt)@) && checks0.len() <= j < depth_checks@.len() && depth_checks@[j].0 implies clock_read_between(
                deepening(v, *magic_bitboards, *zobrist, st, (j - checks0.len()) as nat).1.3,
                deepening(v, *magic_bitboards, *zobrist, st, (j - checks0.len() + 1) as nat).1.3,
            ) by {
            lemma_fresh_tables_unique(st, st_init, old(tt)@);
        }
        assert forall|st: SearchTables, j: int|
            #![trigger fresh_tables(st, old(tt)@), depth_reports@[j]]
            fresh_tables(st, old(tt)@) && reports0.len() <= j < depth_reports@.len() implies depth_reports@[j].1 as int
                == deepening(v, *magic_bitboards, *zobrist, st, (j - reports0.len() + 1) as nat).1.3
                % 0x1_0000_0000_0000_0000 by {
            lemma_fresh_tables_unique(st, st_init, old(tt)@);
        }
    }
    best_overall_move
}

/// Some pseudo-legal move of the position leaves the mover's king safe.
pub open spec fn has_legal_move(v: BoardView, mb: MagicBitBoards, z: Zobrist) -> bool {
    exists|k: int|
        0 <= k < pseudo_legal_moves(v, mb).len() && mover_king_safe(
            make_move_spec(v, #[trigger] pseudo_legal_moves(v, mb)[k], z),
            mb,
        )
}

/// Searches every root move to `depth` with principal-variation windows and returns the
/// best (the all-zero move when none is legal). Unless the clock stops it, the move and the
/// tables it leaves are `root_value`'s.
#[verifier::rlimit(100)]
pub fn search_root(
    board: &mut Board,
    depth: u8,
    magic_bitboards: &MagicBitBoards,
    info: &mut SearchInfo,
    zobrist: &Zobrist,
    tt: &mut TranspositionTable,
) -> (r: Move)
    requires
        search_ready(old(board)@, 0),
        magic_bitboards.wf(),
        old(info).counts_ok(),
        old(tt).wf(),
        1 <= depth < 100,
    ensures
        final(board)@ == old(board)@,
        final(tt).wf(),
        reported_move_ok(old(board)@, *magic_bitboards, *zobrist, r),
        old(info).stopped ==> final(info).stopped,
        final(info).counts_ok(),
        old(info).visited@ <= final(info).visited@,
        final(info).stopped ==> old(info).stopped || clock_read_between(old(info).visited@, final(info).visited@),
        clock_kept(*old(info), *final(info)),
        has_legal_move(old(board)@, *magic_bitboards, *zobrist) ==> r != Move::spec_new(0, 0, 0, 0, 0),
        stopped_within(
            *old(info),
            *final(info),
            root_value(
                old(board)@,
                *magic_bitboards,
                *zobrist,
                (old(tt)@, old(info).killer_moves, old(info).history_moves, old(info).visited@),
                depth,
            ).1.3,
        ),
        !final(info).stopped ==> (r, (final(tt)@, final(info).killer_moves, final(info).history_moves, final(info).visited@)) == root_value(
            old(board)@,
            *magic_bitboards,
            *zobrist,
            (old(tt)@, old(info).killer_moves, old(info).history_moves, old(info).visited@),
            depth,
        ),
{
    let ghost v = board@;
    let ghost mb = *magic_bitboards;
    let ghost z = *zobrist;
    let ghost null = Move::spec_new(0, 0, 0, 0, 0);
    let ghost st0: SearchTables = (tt@, info.killer_moves, info.history_moves, info.visited@);
    let ghost target = root_value(v, mb, z, st0, depth);
    proof {
        Move::lemma_spec_new(0, 0, 0, 0, 0);
    }
    let mut best_score = MIN_SCORE;
    let mut best_move = Move::new(0, 0, 0, 0, 0);
    let mut alpha = MIN_SCORE;
    let tt_move = tt_move_of(tt, board.get_zobrist_key());
    assert(tt_move == suggested_move(tt_lookup(st0.0, v.zobrist_key)));

    let k1 = info.killer_moves[0][depth as usize];
    let k2 = info.killer_moves[1][depth as usize];
    let killer_1 = killer_option(k1);
    let killer_2 = killer_option(k2);

    let mut move_list = ordered_moves(board, magic_bitboards, tt_move, killer_1, killer_2, &info.history_moves, false);
    let ghost moves = pseudo_legal_moves(v, mb);
    let ghost order = score_order(node_scores(v, moves, tt_move, k1, k2, st0.2));
    proof {
        assert(move_list.score_seq() =~= node_scores(v, moves, tt_move, k1, k2, st0.2)) by {
            reveal(scored_by);
        }
        lemma_score_order_unique(node_scores(v, moves, tt_move, k1, k2, st0.2), move_list.order_seq(), order);
        assert(no_legal_among(v, mb, z, moves, order, 0)) by {
            reveal(no_legal_among);
        }
        assert(target == root_loop(v, mb, z, depth, moves, order, 0, MIN_SCORE, MIN_SCORE, null, 0, st0)) by {
            reveal(root_value);
        }
        lemma_root_loop(v, mb, z, depth, moves, order, 0, MIN_SCORE, MIN_SCORE, null, 0, st0);
    }
    let mut legal_moves_played: usize = 0;
    let count = move_list.get_count();
    let mut i: usize = 0;
    while i < count
        invariant_except_break
            legal_moves_played <= i,
            !info.stopped ==> target == root_loop(
                v,
                mb,
                z,
                depth,
                moves,
                order,
                i as int,
                alpha,
                best_score,
                best_move,
                legal_moves_played as int,
                (tt@, info.killer_moves, info.history_moves, info.visited@),
            ),
            i >= count ==> root_loop(
                v,
                mb,
                z,
                depth,
                moves,
                order,
                i as int,
                alpha,
                best_score,
                best_move,
                legal_moves_played as int,
                (tt@, info.killer_moves, info.history_moves, info.visited@),
            ) == (best_move, (tt@, info.killer_moves, info.history_moves, info.visited@)),
        invariant
            board@ == v,
            info.counts_ok(),
            old(info).visited@ <= info.visited@,
            info.stopped ==> old(info).stopped || clock_read_between(old(info).visited@, info.visited@),
            clock_kept(*old(info), *info),
            stopped_within(*old(info), *info, target.1.3),
            search_ready(v, 0),
            magic_bitboards.wf(),
            mb == *magic_bitboards,
            z == *zobrist,
            tt.wf(),
            1 <= depth < 100,
            count == move_list@.len(),
            move_list@ == moves,
            moves == pseudo_legal_moves(v, mb),
            move_list.order_seq() == order,
            move_list.wf(),
            move_list.order_seq().len() == count,
            forall|k: int| 0 <= k < count ==> v.move_ok(#[trigger] move_list@[k]),
            best_move == null || legal_listed(v, mb, z, moves, best_move),
            old(info).stopped ==> info.stopped,
            is_score_order(move_list.score_seq(), move_list.order_seq()),
            null == Move::spec_new(0, 0, 0, 0, 0),
            null.start() == 0 && null.target() == 0,
            legal_moves_played > 0 ==> best_move != null,
            legal_moves_played == 0 ==> no_legal_among(v, mb, z, moves, order, i as int),
            i <= count,
            target == root_value(
                old(board)@,
                *magic_bitboards,
                *zobrist,
                (old(tt)@, old(info).killer_moves, old(info).history_moves, old(info).visited@),
                depth,
            ),
        ensures
            legal_moves_played == 0 ==> i == count,
            !info.stopped ==> target == (best_move, (tt@, info.killer_moves, info.history_moves, info.visited@)),
        decreases count - i,
    {
        let the_move = move_list.pick_move(i);
        proof {
            let k = move_list.order_seq()[i as int] as int;
            assert(move_list@[k] == the_move);
            assert(the_move == moves[order[i as int] as int]);
            assert(the_move != null) by {
                assert(the_move.start() != the_move.target());
            }
            lemma_legal_listed(v, mb, z, moves, order[i as int] as int);
            lemma_root_loop(
                v,
                mb,
                z,
                depth,
                moves,
                order,
                i as int,
                alpha,
                best_score,
                best_move,
                legal_moves_played as int,
                (tt@, info.killer_moves, info.history_moves, info.visited@),
            );
        }
        let ghost legal_before = legal_moves_played;
        let ghost before_move = *info;
        let ghost step_result = root_step(
            v,
            mb,
            z,
            depth,
            the_move,
            alpha,
            best_score,
            best_move,
            legal_moves_played as int,
            (tt@, info.killer_moves, info.history_moves, info.visited@),
        );
        proof {
            lemma_root_loop_visits(
                v,
                mb,
                z,
                depth,
                moves,
                order,
                i as int,
                alpha,
                best_score,
                best_move,
                legal_moves_played as int,
                (tt@, info.killer_moves, info.history_moves, info.visited@),
            );
        }
        let stopped = search_root_move(
            board,
            the_move,
            depth,
            &mut alpha,
            &mut best_score,
            &mut best_move,
            &mut legal_moves_played,
            magic_bitboards,
            info,
            zobrist,
            tt,
        );
        proof {
            if legal_moves_played == 0 {
                lemma_no_legal_among_step(v, mb, z, moves, order, i as int);
            }
            lemma_stop_chain(*old(info), before_move, *info, step_result.4.3, target.1.3);
        }
        if stopped {
            break;
        }
        i += 1;
        proof {
            if i >= count {
                lemma_root_loop(
                    v,
                    mb,
                    z,
                    depth,
                    moves,
                    order,
                    i as int,
                    alpha,
                    best_score,
                    best_move,
                    legal_moves_played as int,
                    (tt@, info.killer_moves, info.history_moves, info.visited@),
                );
            }
        }
    }
    assert(reported_move_ok(v, *magic_bitboards, *zobrist, best_move)) by {
        reveal(is_legal);
        reveal(legal_listed);
    }
    proof {
        if legal_moves_played == 0 {
            let safe = |m: Move| mover_king_safe(make_move_spec(v, m, *zobrist), *magic_bitboards);
            assert forall|j: int| 0 <= j < count implies !safe(move_list@[#[trigger] move_list.order_seq()[j] as int]) by {
                reveal(no_legal_among);
                reveal(is_legal);
                assert(!is_legal(v, mb, z, moves[order[j] as int]));
            }
            lemma_none_in_order(move_list@, move_list.score_seq(), move_list.order_seq(), safe);
        }
    }
    best_move
}

/// The move is one of `moves` and legal.
#[verifier::opaque]
spec fn legal_listed(v: BoardView, mb: MagicBitBoards, z: Zobrist, moves: Seq<Move>, m: Move) -> bool {
    moves.contains(m) && is_legal(v, mb, z, m)
}

/// A legal move of the list is listed and legal.
proof fn lemma_legal_listed(v: BoardView, mb: MagicBitBoards, z: Zobrist, moves: Seq<Move>, k: int)
    requires
        0 <= k < moves.len(),
    ensures
        is_legal(v, mb, z, moves[k]) ==> legal_listed(v, mb, z, moves, moves[k]),
{
    reveal(legal_listed);
}

/// None of the first `i` moves in `order` is legal.
#[verifier::opaque]
spec fn no_legal_among(v: BoardView, mb: MagicBitBoards, z: Zobrist, moves: Seq<Move>, order: Seq<usize>, i: int) -> bool {
    forall|j: int| 0 <= j < i ==> !is_legal(v, mb, z, #[trigger] moves[order[j] as int])
}

/// Passing over one more move that is not legal.
proof fn lemma_no_legal_among_step(v: BoardView, mb: MagicBitBoards, z: Zobrist, moves: Seq<Move>, order: Seq<usize>, i: int)
    requires
        no_legal_among(v, mb, z, moves, order, i),
        !is_legal(v, mb, z, moves[order[i] as int]),
    ensures
        no_legal_among(v, mb, z, moves, order, i + 1),
{
    reveal(no_legal_among);
}

/// Searches one root move, as `root_step` says: a legal move is made, its reply searched
/// with principal-variation windows and the move unmade; the first legal move becomes the
/// best move, and a better score takes its place. Answers whether the clock stopped the
/// search.
fn search_root_move(
    board: &mut Board,
    the_move: Move,
    depth: u8,
    alpha: &mut i32,
    best_score: &mut i32,
    best_move: &mut Move,
    legal_moves_played: &mut usize,
    magic_bitboards: &MagicBitBoards,
    info: &mut SearchInfo,
    zobrist: &Zobrist,
    tt: &mut TranspositionTable,
) -> (stopped: bool)
    requires
        search_ready(old(board)@, 0),
        old(board)@.move_ok(the_move),
        magic_bitboards.wf(),
        old(info).counts_ok(),
        old(tt).wf(),
        1 <= depth < 100,
        *old(legal_moves_played) < usize::MAX,
    ensures
        final(board)@ == old(board)@,
        final(tt).wf(),
        old(info).stopped ==> final(info).stopped,
        final(info).counts_ok(),
        old(info).visited@ <= final(info).visited@,
        final(info).stopped ==> old(info).stopped || clock_read_between(old(info).visited@, final(info).visited@),
        clock_kept(*old(info), *final(info)),
        stopped ==> final(info).stopped && is_legal(old(board)@, *magic_bitboards, *zobrist, the_move),
        !stopped ==> !final(info).stopped || old(info).stopped,
        stopped_within(
            *old(info),
            *final(info),
            root_step(
                old(board)@,
                *magic_bitboards,
                *zobrist,
                depth,
                the_move,
                *old(alpha),
                *old(best_score),
                *old(best_move),
                *old(legal_moves_played) as int,
                (old(tt)@, old(info).killer_moves, old(info).history_moves, old(info).visited@),
            ).4.3,
        ),
        *final(legal_moves_played) == *old(legal_moves_played) + if is_legal(old(board)@, *magic_bitboards, *zobrist, the_move) {
            1int
        } else {
            0int
        },
        *final(best_move) == *old(best_move) || (*final(best_move) == the_move && is_legal(
            old(board)@,
            *magic_bitboards,
            *zobrist,
            the_move,
        )),
        is_legal(old(board)@, *magic_bitboards, *zobrist, the_move) && *old(legal_moves_played) == 0 ==> *final(best_move)
            == the_move,
        !final(info).stopped ==> (
            *final(alpha),
            *final(best_score),
            *final(best_move),
            *final(legal_moves_played) as int,
            (final(tt)@, final(info).killer_moves, final(info).history_moves, final(info).visited@),
        ) == root_step(
            old(board)@,
            *magic_bitboards,
            *zobrist,
            depth,
            the_move,
            *old(alpha),
            *old(best_score),
            *old(best_move),
            *old(legal_moves_played) as int,
            (old(tt)@, old(info).killer_moves, old(info).history_moves, old(info).visited@),
        ),
{
    let ghost v = board@;
    let ghost mb = *magic_bitboards;
    let ghost z = *zobrist;
    let beta = MAX_SCORE;
    proof {
        lemma_root_step(
            v,
            mb,
            z,
            depth,
            the_move,
            *alpha,
            *best_score,
            *best_move,
            *legal_moves_played as int,
            (tt@, info.killer_moves, info.history_moves, info.visited@),
        );
        lemma_child(v, the_move, *zobrist, 0);
    }
    board.make_move(&the_move, zobrist);
    let legal = is_move_legal(board, magic_bitboards);
    assert(legal == is_legal(v, mb, z, the_move)) by {
        reveal(is_legal);
    }
    if !legal {
        board.unmake_move(&the_move);
        return false;
    }
    *legal_moves_played = *legal_moves_played + 1;
    let ghost i0 = *info;
    let ghost st0: SearchTables = (tt@, info.killer_moves, info.history_moves, info.visited@);
    let ghost c = make_move_spec(v, the_move, z);
    let ghost a0 = *alpha;
    let ghost d = (depth - 1) as u8;
    let ghost full = root_child(c, mb, z, st0, depth, a0, *legal_moves_played as int);
    let ghost na = 0i32.wrapping_sub(a0).wrapping_sub(1);
    let ghost nb = 0i32.wrapping_sub(a0);
    let ghost r_spec = minimax_value(c, mb, z, st0, d, na, nb, true, 1);
    proof {
        if *legal_moves_played != 1 {
            lemma_value_visits(c, mb, z, r_spec.1, d, 0i32.wrapping_sub(MAX_SCORE), 0i32.wrapping_sub(a0), true, 1);
        }
    }
    let mut score: i32 = 0;
    if *legal_moves_played == 1 {
        // 1. First move (PV): Search with Full Window
        *best_move = the_move;
        *best_score = MIN_SCORE;
        score = 0i32.wrapping_sub(
            minimax(board, depth - 1, 0i32.wrapping_sub(beta), 0i32.wrapping_sub(*alpha), magic_bitboards, info, zobrist, tt, true, 1),
        );
    } else {
        // 2. Subsequent moves: Search with Zero Window
        score = 0i32.wrapping_sub(
            minimax(
                board,
                depth - 1,
                0i32.wrapping_sub(*alpha).wrapping_sub(1),
                0i32.wrapping_sub(*alpha),
                magic_bitboards,
                info,
                zobrist,
                tt,
                true,
                1,
            ),
        );
        proof {
            lemma_stop_chain(i0, i0, *info, r_spec.1.3, full.1.3);
        }
        // 3. PVS Fail-High: If the move beats alpha, re-search with Full Window
        if score > *alpha {
            let ghost i2 = *info;
            score = 0i32.wrapping_sub(
                minimax(board, depth - 1, 0i32.wrapping_sub(beta), 0i32.wrapping_sub(*alpha), magic_bitboards, info, zobrist, tt, true, 1),
            );
            proof {
                lemma_stop_chain(
                    i0,
                    i2,
                    *info,
                    minimax_value(c, mb, z, r_spec.1, d, 0i32.wrapping_sub(MAX_SCORE), 0i32.wrapping_sub(a0), true, 1).1.3,
                    full.1.3,
                );
            }
        }
    }
    board.unmake_move(&the_move);
    if info.stopped {
        return true;
    }
    if score > *best_score {
        *best_score = score;
        *best_move = the_move;
    }
    if score > *alpha {
        *alpha = score;
    }
    false
}

/// Alpha-beta search `depth` plies deep from `ply`, with draw detection, transposition-table
/// cutoffs, null-move pruning, check extensions, late-move reductions and killer and
/// history updates. Unless the clock stops it, the score and the tables it leaves are
/// `minimax_value`'s; once stopped it answers 0. It stops only on a clock reading taken
/// within the nodes that the whole search would visit.
#[verifier::rlimit(100)]
pub fn minimax(
    board: &mut Board,
    depth: u8,
    alpha_in: i32,
    beta: i32,
    magic_bitboards: &MagicBitBoards,
    info: &mut SearchInfo,
    zobrist: &Zobrist,
    tt: &mut TranspositionTable,
    allow_null: bool,
    ply: u8,
) -> (r: i32)
    requires
        search_ready(old(board)@, ply as int),
        magic_bitboards.wf(),
        old(info).counts_ok(),
        old(tt).wf(),
        depth < 100,
    ensures
        final(board)@ == old(board)@,
        final(tt).wf(),
        old(info).stopped ==> final(info).stopped,
        final(info).counts_ok(),
        old(info).visited@ <= final(info).visited@,
        final(info).stopped ==> old(info).stopped || clock_read_between(old(info).visited@, final(info).visited@),
        clock_kept(*old(info), *final(info)),
        old(info).stopped ==> r == 0 && final(tt)@ == old(tt)@ && final(info).visited@ == old(info).visited@ + 1,
        old(info).visited@ + 1 <= final(info).visited@,
        stopped_within(
            *old(info),
            *final(info),
            minimax_value(
                old(board)@,
                *magic_bitboards,
                *zobrist,
                (old(tt)@, old(info).killer_moves, old(info).history_moves, old(info).visited@),
                depth,
                alpha_in,
                beta,
                allow_null,
                ply as int,
            ).1.3,
        ),
        !final(info).stopped ==> (r, (final(tt)@, final(info).killer_moves, final(info).history_moves, final(info).visited@))
            == minimax_value(
            old(board)@,
            *magic_bitboards,
            *zobrist,
            (old(tt)@, old(info).killer_moves, old(info).history_moves, old(info).visited@),
            depth,
            alpha_in,
            beta,
            allow_null,
            ply as int,
        ),
    decreases 255 - ply, 1int,
{
    let ghost v = board@;
    let ghost mb = *magic_bitboards;
    let ghost z = *zobrist;
    let ghost st0: SearchTables = (tt@, info.killer_moves, info.history_moves, info.visited@);
    let ghost target = minimax_value(v, mb, z, st0, depth, alpha_in, beta, allow_null, ply as int);
    proof {
        lemma_minimax_value_unfold(v, mb, z, st0, depth, alpha_in, beta, allow_null, ply as int);
        lemma_value_visits(v, mb, z, st0, depth, alpha_in, beta, allow_null, ply as int);
    }
    let mut alpha = alpha_in;
    info.visit_node();
    if info.stopped {
        proof {
            if !old(info).stopped {
                assert(clock_reading(info.visited@));
            }
        }
        return 0;
    }
    let ghost entered = *info;
    if depth == 0 {
        return quiescence_search(board, alpha, beta, magic_bitboards, info, zobrist, ply);
    }
    // Draw detection: must happen before the TT probe. A repeated or 50-move
    // position is a draw regardless of what an earlier search path stored in
    // the TT for this zobrist key (graph-history-interaction safety).
    if ply > 0 && (board.is_repetition() || board.is_fifty_move_draw()) {
        return 0;
    }

    let mut tt_move: Option<Move> = None;
    let original_alpha = alpha;
    let probed = tt.probe(board.get_zobrist_key());
    assert(probed == tt_lookup(st0.0, v.zobrist_key));
    if let Some(entry) = probed {
        if entry.best_move.get_start() != 0 || entry.best_move.get_target() != 0 {
            tt_move = Some(entry.best_move);
        }
        if entry.depth >= depth {
            let mut tt_score = entry.score;
            if tt_score > 40000 {
                tt_score = tt_score.wrapping_sub(ply as i32);
            }
            if tt_score < -40000 {
                tt_score = tt_score.wrapping_add(ply as i32);
            }
            assert(tt_score == tt_score_at(entry.score, ply as int));
            match entry.node_type {
                NodeType::Exact => {
                    return tt_score;
                },
                NodeType::Alpha => {
                    if tt_score <= alpha {
                        return tt_score;
                    }
                },
                NodeType::Beta => {
                    if tt_score >= beta {
                        return tt_score;
                    }
                },
            }
        }
    }
    assert(tt_move == suggested_move(tt_lookup(st0.0, v.zobrist_key)));

    let current_color = if board.is_white_turn() {
        WHITE_PIECES
    } else {
        BLACK_PIECES
    };
    let has_non_pawn_material = (board.get_bitboard(ROOKS) | board.get_bitboard(KNIGHTS) | board.get_bitboard(BISHOPS)
        | board.get_bitboard(QUEENS)) & board.get_bitboard(current_color) != 0;
    assert(has_non_pawn_material == has_piece_material(v));

    let in_check = is_current_player_in_check(board, magic_bitboards);
    let ghost mut st1: SearchTables = (tt@, info.killer_moves, info.history_moves, info.visited@);
    // A null move needs a ply to spare.
    if allow_null && depth >= 3 && has_non_pawn_material && !in_check && ply < 255 {
        proof {
            lemma_null_child(v, *zobrist, ply as int);
        }
        board.make_null_move(zobrist);
        let ghost before_null = *info;
        let ghost null_reply = minimax_value(
            make_null_move_spec(v, z),
            mb,
            z,
            (tt@, info.killer_moves, info.history_moves, info.visited@),
            (depth - 3) as u8,
            0i32.wrapping_sub(beta),
            0i32.wrapping_sub(beta).wrapping_add(1),
            false,
            ply + 1,
        );
        proof {
            lemma_moves_visits(v, mb, z, null_reply.1, depth, alpha_in, beta, ply as int, tt_move, in_check);
        }
        let reply = minimax(board, depth - 3, 0i32.wrapping_sub(beta), 0i32.wrapping_sub(beta).wrapping_add(1), magic_bitboards, info, zobrist, tt, false, ply + 1);
        proof {
            lemma_stop_chain(*old(info), before_null, *info, null_reply.1.3, target.1.3);
        }
        let null_score = 0i32.wrapping_sub(reply);
        board.unmake_null_move();
        proof {
            st1 = (tt@, info.killer_moves, info.history_moves, info.visited@);
        }
        if info.stopped {
            return 0;
        }
        if null_score >= beta {
            return beta;
        }
    }
    assert(!info.stopped ==> target == minimax_moves(v, mb, z, st1, depth, alpha_in, beta, ply as int, tt_move, in_check));

    let k1 = info.killer_moves[0][depth as usize];
    let k2 = info.killer_moves[1][depth as usize];
    let killer_1 = killer_option(k1);
    let killer_2 = killer_option(k2);
    let mut best_score = MIN_SCORE;
    let mut best_move = Move::new(0, 0, 0, 0, 0);
    let mut move_list = ordered_moves(board, magic_bitboards, tt_move, killer_1, killer_2, &info.history_moves, false);
    let ghost moves = pseudo_legal_moves(v, mb);
    let ghost order = score_order(node_scores(v, moves, tt_move, k1, k2, st1.2));
    proof {
        assert(move_list.score_seq() =~= node_scores(v, moves, tt_move, k1, k2, st1.2)) by {
            reveal(scored_by);
        }
        lemma_score_order_unique(node_scores(v, moves, tt_move, k1, k2, st1.2), move_list.order_seq(), order);
        lemma_minimax_moves_unfold(v, mb, z, st1, depth, alpha_in, beta, ply as int, tt_move, in_check);
        Move::lemma_spec_new(0, 0, 0, 0, 0);
    }
    let mut legal_moves_played: usize = 0;
    let count = move_list.get_count();
    let mut i: usize = 0;
    proof {
        if count == 0 {
            lemma_minimax_loop_end(
                v,
                mb,
                z,
                depth,
                alpha_in,
                beta,
                ply as int,
                in_check,
                k1,
                k2,
                moves,
                order,
                0,
                alpha,
                best_score,
                best_move,
                0,
                st1,
            );
        }
    }
    while i < count
        invariant_except_break
            legal_moves_played <= i,
            !info.stopped,
            target == minimax_loop(
                v,
                mb,
                z,
                depth,
                alpha_in,
                beta,
                ply as int,
                in_check,
                k1,
                k2,
                moves,
                order,
                i as int,
                alpha,
                best_score,
                best_move,
                legal_moves_played as int,
                (tt@, info.killer_moves, info.history_moves, info.visited@),
            ),
        invariant
            board@ == v,
            info.counts_ok(),
            old(info).visited@ <= info.visited@,
            old(info).visited@ + 1 <= info.visited@,
            info.stopped ==> old(info).stopped || clock_read_between(old(info).visited@, info.visited@),
            clock_kept(*old(info), *info),
            stopped_within(*old(info), *info, target.1.3),
            search_ready(v, ply as int),
            magic_bitboards.wf(),
            mb == *magic_bitboards,
            z == *zobrist,
            tt.wf(),
            1 <= depth < 100,
            count == move_list@.len(),
            move_list.wf(),
            move_list@ == moves,
            moves == pseudo_legal_moves(v, mb),
            move_list.order_seq() == order,
            move_list.order_seq().len() == count,
            forall|k: int| 0 <= k < count ==> v.move_ok(#[trigger] move_list@[k]),
            old(info).stopped ==> info.stopped,
            in_check == in_check_spec(v, mb),
            original_alpha == alpha_in,
            target == minimax_value(
                old(board)@,
                *magic_bitboards,
                *zobrist,
                (old(tt)@, old(info).killer_moves, old(info).history_moves, old(info).visited@),
                depth,
                alpha_in,
                beta,
                allow_null,
                ply as int,
            ),
            i >= count ==> minimax_loop(
                v,
                mb,
                z,
                depth,
                alpha_in,
                beta,
                ply as int,
                in_check,
                k1,
                k2,
                moves,
                order,
                i as int,
                alpha,
                best_score,
                best_move,
                legal_moves_played as int,
                (tt@, info.killer_moves, info.history_moves, info.visited@),
            ) == minimax_finish(
                v,
                depth,
                alpha_in,
                beta,
                ply as int,
                in_check,
                best_score,
                best_move,
                legal_moves_played as int,
                (tt@, info.killer_moves, info.history_moves, info.visited@),
            ),
        ensures
            board@ == v,
            tt.wf(),
            old(info).stopped ==> info.stopped,
            !info.stopped ==> target == minimax_finish(
                v,
                depth,
                alpha_in,
                beta,
                ply as int,
                in_check,
                best_score,
                best_move,
                legal_moves_played as int,
                (tt@, info.killer_moves, info.history_moves, info.visited@),
            ),
        decreases count - i,
    {
        let the_move = move_list.pick_move(i);
        proof {
            let k = move_list.order_seq()[i as int] as int;
            assert(move_list@[k] == the_move);
            assert(the_move == moves[order[i as int] as int]);
        }
        if ply == 255 {
            // No ply left to search a reply.
            proof {
                lemma_minimax_loop_end(
                    v,
                    mb,
                    z,
                    depth,
                    alpha_in,
                    beta,
                    ply as int,
                    in_check,
                    k1,
                    k2,
                    moves,
                    order,
                    i as int,
                    alpha,
                    best_score,
                    best_move,
                    legal_moves_played as int,
                    (tt@, info.killer_moves, info.history_moves, info.visited@),
                );
            }
            break;
        }
        proof {
            lemma_minimax_loop_step(
                v,
                mb,
                z,
                depth,
                alpha_in,
                beta,
                ply as int,
                in_check,
                k1,
                k2,
                moves,
                order,
                i as int,
                alpha,
                best_score,
                best_move,
                legal_moves_played as int,
                (tt@, info.killer_moves, info.history_moves, info.visited@),
            );
        }
        let ghost before_move = *info;
        let ghost step_result = minimax_step(
            v,
            mb,
            z,
            depth,
            beta,
            ply as int,
            in_check,
            k1,
            k2,
            the_move,
            alpha,
            best_score,
            best_move,
            legal_moves_played as int,
            (tt@, info.killer_moves, info.history_moves, info.visited@),
        );
        proof {
            lemma_loop_visits(
                v,
                mb,
                z,
                depth,
                alpha_in,
                beta,
                ply as int,
                in_check,
                k1,
                k2,
                moves,
                order,
                i as int,
                alpha,
                best_score,
                best_move,
                legal_moves_played as int,
                (tt@, info.killer_moves, info.history_moves, info.visited@),
            );
        }
        let stop = search_node_move(
            board,
            the_move,
            depth,
            beta,
            in_check,
            k1,
            k2,
            &mut alpha,
            &mut best_score,
            &mut best_move,
            &mut legal_moves_played,
            magic_bitboards,
            info,
            zobrist,
            tt,
            ply,
        );
        proof {
            lemma_stop_chain(*old(info), before_move, *info, step_result.5.3, target.1.3);
        }
        if stop {
            break;
        }
        i += 1;
        proof {
            if i >= count {
                lemma_minimax_loop_end(
                    v,
                    mb,
                    z,
                    depth,
                    alpha_in,
                    beta,
                    ply as int,
                    in_check,
                    k1,
                    k2,
                    moves,
                    order,
                    i as int,
                    alpha,
                    best_score,
                    best_move,
                    legal_moves_played as int,
                    (tt@, info.killer_moves, info.history_moves, info.visited@),
                );
            }
        }
    }

    proof {
        reveal(minimax_finish);
    }
    // Game Over Detection
    if legal_moves_played == 0 {
        if in_check {
            return -49000 + (ply as i32);
        } else {
            return 0;
        }
    }
    if info.stopped {
        return 0;
    }
    let node_type = if best_score <= original_alpha {
        NodeType::Alpha
    } else if best_score >= beta {
        NodeType::Beta
    } else {
        NodeType::Exact
    };
    let mut store_score = best_score;
    if store_score > 40000 {
        store_score = store_score.wrapping_add(ply as i32);
    }
    if store_score < -40000 {
        store_score = store_score.wrapping_sub(ply as i32);
    }
    assert(store_score == tt_score_from(best_score, ply as int));
    tt.store(board.get_zobrist_key(), depth, store_score, node_type, best_move);
    best_score
}

/// Searches one move of a node's move loop, as `minimax_step` says: a legal move is made,
/// its reply searched and the move unmade; the score raises the best score and alpha, and a
/// quiet move reaching beta is remembered. Answers whether the loop ends: at a cutoff, or
/// when the clock stopped the search.
fn search_node_move(
    board: &mut Board,
    the_move: Move,
    depth: u8,
    beta: i32,
    in_check: bool,
    k1: Move,
    k2: Move,
    alpha: &mut i32,
    best_score: &mut i32,
    best_move: &mut Move,
    legal_moves_played: &mut usize,
    magic_bitboards: &MagicBitBoards,
    info: &mut SearchInfo,
    zobrist: &Zobrist,
    tt: &mut TranspositionTable,
    ply: u8,
) -> (stop: bool)
    requires
        search_ready(old(board)@, ply as int),
        ply < 255,
        old(board)@.move_ok(the_move),
        magic_bitboards.wf(),
        old(info).counts_ok(),
        old(tt).wf(),
        1 <= depth < 100,
        *old(legal_moves_played) < usize::MAX,
        !old(info).stopped,
    ensures
        final(board)@ == old(board)@,
        final(tt).wf(),
        old(info).stopped ==> final(info).stopped,
        final(info).counts_ok(),
        old(info).visited@ <= final(info).visited@,
        final(info).stopped ==> old(info).stopped || clock_read_between(old(info).visited@, final(info).visited@),
        clock_kept(*old(info), *final(info)),
        final(info).stopped ==> stop,
        stopped_within(
            *old(info),
            *final(info),
            minimax_step(
                old(board)@,
                *magic_bitboards,
                *zobrist,
                depth,
                beta,
                ply as int,
                in_check,
                k1,
                k2,
                the_move,
                *old(alpha),
                *old(best_score),
                *old(best_move),
                *old(legal_moves_played) as int,
                (old(tt)@, old(info).killer_moves, old(info).history_moves, old(info).visited@),
            ).5.3,
        ),
        *final(legal_moves_played) <= *old(legal_moves_played) + 1,
        !final(info).stopped ==> (
            stop,
            *final(alpha),
            *final(best_score),
            *final(best_move),
            *final(legal_moves_played) as int,
            (final(tt)@, final(info).killer_moves, final(info).history_moves, final(info).visited@),
        ) == minimax_step(
            old(board)@,
            *magic_bitboards,
            *zobrist,
            depth,
            beta,
            ply as int,
            in_check,
            k1,
            k2,
            the_move,
            *old(alpha),
            *old(best_score),
            *old(best_move),
            *old(legal_moves_played) as int,
            (old(tt)@, old(info).killer_moves, old(info).history_moves, old(info).visited@),
        ),
    decreases 254 - ply, 3int,
{
    let ghost v = board@;
    let ghost mb = *magic_bitboards;
    let ghost z = *zobrist;
    proof {
        lemma_minimax_step_unfold(
            v,
            mb,
            z,
            depth,
            beta,
            ply as int,
            in_check,
            k1,
            k2,
            the_move,
            *alpha,
            *best_score,
            *best_move,
            *legal_moves_played as int,
            (tt@, info.killer_moves, info.history_moves, info.visited@),
        );
        lemma_child(v, the_move, *zobrist, ply as int);
    }
    board.make_move(&the_move, zobrist);
    let legal = is_move_legal(board, magic_bitboards);
    assert(legal == is_legal(v, mb, z, the_move)) by {
        reveal(is_legal);
    }
    if !legal {
        board.unmake_move(&the_move);
        return false;
    }
    *legal_moves_played = *legal_moves_played + 1;
    let gives_check = is_current_player_in_check(board, magic_bitboards);  // Evaluates opponent's king
    assert(gives_check == move_gives_check(v, mb, z, the_move)) by {
        reveal(move_gives_check);
    }
    let is_capture = the_move.get_captured_piece() != EMPTY_SQUARE as usize;
    let is_promotion = the_move.get_flags() >= FLAG_PROMOTE_QUEEN && the_move.get_flags() <= FLAG_PROMOTE_KNIGHT;
    let is_quiet = !is_capture && !is_promotion;
    let is_killer = the_move == k1 || the_move == k2;
    let extension: u8 = if gives_check && ply < 20 {
        1
    } else {
        0
    };
    let new_depth = (depth - 1) + extension;
    let lmr_ok = is_quiet && !in_check && !gives_check && !is_killer;
    assert(is_quiet == is_quiet_move(the_move));
    assert(new_depth == reply_depth(depth, gives_check, ply as int));
    assert(lmr_ok == late_move_ok(the_move, in_check, gives_check, k1, k2));
    let ghost child_full = minimax_child(
        make_move_spec(v, the_move, z),
        mb,
        z,
        (tt@, info.killer_moves, info.history_moves, info.visited@),
        new_depth,
        *alpha,
        beta,
        ply as int,
        *legal_moves_played as int,
        lmr_ok,
    );
    proof {
        assert(after_cutoff(child_full.1, depth, the_move, v.white_to_move).3 == child_full.1.3) by {
            reveal(after_cutoff);
            reveal(record_cutoff);
        }
    }
    let score = search_move(board, new_depth, *alpha, beta, magic_bitboards, info, zobrist, tt, ply, *legal_moves_played, lmr_ok);
    board.unmake_move(&the_move);
    if info.stopped {
        return true;
    }
    if score > *best_score {
        *best_score = score;
        *best_move = the_move;
    }
    if score > *alpha {
        *alpha = score;
    }
    if *alpha >= beta {
        let d = depth as usize;
        let ghost searched: SearchTables = (tt@, info.killer_moves, info.history_moves, info.visited@);
        if is_quiet && the_move != info.killer_moves[0][d] {
            let white = board.is_white_turn();
            record_quiet_cutoff(info, depth, the_move, white);
        }
        assert((tt@, info.killer_moves, info.history_moves, info.visited@) == after_cutoff(searched, depth, the_move, v.white_to_move)) by {
            reveal(after_cutoff);
            reveal(record_cutoff);
        }
        return true;
    }
    false
}

/// Remembers a quiet move that caused a cutoff at `depth`: it becomes the first killer, the
/// old first killer the second, and its history score grows by `depth` squared.
fn record_quiet_cutoff(info: &mut SearchInfo, depth: u8, the_move: Move, white_to_move: bool)
    requires
        depth < 100,
    ensures
        final(info).stopped == old(info).stopped,
        final(info).nodes == old(info).nodes,
        final(info).visited == old(info).visited,
        final(info).readings == old(info).readings,
        final(info).end_time == old(info).end_time,
        final(info).killer_moves == record_cutoff(
            (Seq::empty(), old(info).killer_moves, old(info).history_moves, 0int),
            depth as int,
            the_move,
            white_to_move,
        ).1,
        final(info).history_moves == record_cutoff(
            (Seq::empty(), old(info).killer_moves, old(info).history_moves, 0int),
            depth as int,
            the_move,
            white_to_move,
        ).2,
{
    let ghost before: SearchTables = (Seq::empty(), info.killer_moves, info.history_moves, 0int);
    let d = depth as usize;
    info.killer_moves[1][d] = info.killer_moves[0][d];
    info.killer_moves[0][d] = the_move;
    let color_offset: usize = if white_to_move {
        0
    } else {
        6
    };
    let piece = (the_move.get_piece() + color_offset) % 12;
    proof {
        the_move.lemma_fields_bounded();
    }
    let target_square = the_move.get_target() as usize;
    proof {
        assert((depth as i32) * (depth as i32) <= 10000) by (nonlinear_arith)
            requires
                depth < 100,
        ;
    }
    let bonus = (depth as i32) * (depth as i32);
    info.history_moves[piece][target_square] = info.history_moves[piece][target_square].wrapping_add(bonus);
    proof {
        reveal(record_cutoff);
        let after = record_cutoff(before, depth as int, the_move, white_to_move);
        assert(info.killer_moves@ =~= after.1@);
        assert(info.history_moves@ =~= after.2@);
    }
}

/// Searches the reply to the `n`-th legal move of a node at `ply`, the move already made
/// on the board: the first with a full window, the others as `minimax_child` says.
fn search_move(
    board: &mut Board,
    new_depth: u8,
    alpha: i32,
    beta: i32,
    magic_bitboards: &MagicBitBoards,
    info: &mut SearchInfo,
    zobrist: &Zobrist,
    tt: &mut TranspositionTable,
    ply: u8,
    n: usize,
    lmr_ok: bool,
) -> (r: i32)
    requires
        ply < 255,
        search_ready(old(board)@, ply + 1),
        magic_bitboards.wf(),
        old(info).counts_ok(),
        old(tt).wf(),
        new_depth < 100,
        n >= 1,
    ensures
        final(board)@ == old(board)@,
        final(tt).wf(),
        old(info).stopped ==> final(info).stopped,
        final(info).counts_ok(),
        old(info).visited@ <= final(info).visited@,
        final(info).stopped ==> old(info).stopped || clock_read_between(old(info).visited@, final(info).visited@),
        clock_kept(*old(info), *final(info)),
        stopped_within(
            *old(info),
            *final(info),
            minimax_child(
                old(board)@,
                *magic_bitboards,
                *zobrist,
                (old(tt)@, old(info).killer_moves, old(info).history_moves, old(info).visited@),
                new_depth,
                alpha,
                beta,
                ply as int,
                n as int,
                lmr_ok,
            ).1.3,
        ),
        !final(info).stopped ==> (r, (final(tt)@, final(info).killer_moves, final(info).history_moves, final(info).visited@))
            == minimax_child(
            old(board)@,
            *magic_bitboards,
            *zobrist,
            (old(tt)@, old(info).killer_moves, old(info).history_moves, old(info).visited@),
            new_depth,
            alpha,
            beta,
            ply as int,
            n as int,
            lmr_ok,
        ),
    decreases 254 - ply, 2int,
{
    let ghost c = board@;
    let ghost st0: SearchTables = (tt@, info.killer_moves, info.history_moves, info.visited@);
    let ghost mb = *magic_bitboards;
    let ghost z = *zobrist;
    let ghost full = minimax_child(c, mb, z, st0, new_depth, alpha, beta, ply as int, n as int, lmr_ok);
    let ghost i0 = *info;
    let ghost na = 0i32.wrapping_sub(alpha).wrapping_sub(1);
    let ghost nb = 0i32.wrapping_sub(alpha);
    let ghost reduce_spec = new_depth >= 3 && n >= 4 && lmr_ok;
    let ghost reduced_spec = if reduce_spec {
        let r = minimax_value(c, mb, z, st0, (new_depth - 1) as u8, na, nb, true, ply + 1);
        (0i32.wrapping_sub(r.0), r.1)
    } else {
        (0i32, st0)
    };
    let ghost r_spec = minimax_value(c, mb, z, reduced_spec.1, new_depth, na, nb, true, ply + 1);
    proof {
        lemma_minimax_child_unfold(c, *magic_bitboards, *zobrist, st0, new_depth, alpha, beta, ply as int, n as int, lmr_ok);
        if n != 1 {
            if reduce_spec {
                lemma_value_visits(c, mb, z, st0, (new_depth - 1) as u8, na, nb, true, ply + 1);
            }
            lemma_value_visits(c, mb, z, reduced_spec.1, new_depth, na, nb, true, ply + 1);
            lemma_value_visits(c, mb, z, r_spec.1, new_depth, 0i32.wrapping_sub(beta), 0i32.wrapping_sub(alpha), true, ply + 1);
            // every reply search of the full search ends no later than it
            assert(reduced_spec.1.3 <= full.1.3);
            assert(r_spec.1.3 <= full.1.3 || (reduce_spec && reduced_spec.0 <= alpha));
        }
    }
    if n == 1 {
        // 1. PV Move: Full Window Search
        let r = minimax(board, new_depth, 0i32.wrapping_sub(beta), 0i32.wrapping_sub(alpha), magic_bitboards, info, zobrist, tt, true, ply + 1);
        return 0i32.wrapping_sub(r);
    }
    let ghost i1 = *info;
    // 2. Non-PV Moves: Zero Window Search
    let mut score: i32 = 0;
    let mut needs_full_search = true;
    let reduce = new_depth >= 3 && n >= 4 && lmr_ok;
    let ghost mut st1: SearchTables = st0;
    if reduce {
        // LMR with Zero Window
        let r = minimax(
            board,
            new_depth - 1,
            0i32.wrapping_sub(alpha).wrapping_sub(1),
            0i32.wrapping_sub(alpha),
            magic_bitboards,
            info,
            zobrist,
            tt,
            true,
            ply + 1,
        );
        score = 0i32.wrapping_sub(r);
        proof {
            st1 = (tt@, info.killer_moves, info.history_moves, info.visited@);
            lemma_stop_chain(i0, i0, *info, reduced_spec.1.3, full.1.3);
            i1 = *info;
        }
        needs_full_search = score > alpha;  // If it beats alpha, LMR failed, need full depth zero-window
    }
    if needs_full_search {
        let ghost i1b = *info;
        // Normal Depth with Zero Window
        let r = minimax(
            board,
            new_depth,
            0i32.wrapping_sub(alpha).wrapping_sub(1),
            0i32.wrapping_sub(alpha),
            magic_bitboards,
            info,
            zobrist,
            tt,
            true,
            ply + 1,
        );
        score = 0i32.wrapping_sub(r);
        proof {
            lemma_stop_chain(i0, i1b, *info, r_spec.1.3, full.1.3);
        }
        // 3. PVS Fail-High: If better than alpha but not a beta cutoff, Re-Search with Full Window
        if score > alpha && score < beta {
            let ghost i2 = *info;
            let r2 = minimax(board, new_depth, 0i32.wrapping_sub(beta), 0i32.wrapping_sub(alpha), magic_bitboards, info, zobrist, tt, true, ply + 1);
            score = 0i32.wrapping_sub(r2);
            proof {
                lemma_stop_chain(
                    i0,
                    i2,
                    *info,
                    minimax_value(c, mb, z, r_spec.1, new_depth, 0i32.wrapping_sub(beta), 0i32.wrapping_sub(alpha), true, ply + 1).1.3,
                    full.1.3,
                );
            }
        }
    }
    score
}

fn is_current_player_in_check(board: &Board, magic_bitboards: &MagicBitBoards) -> (r: bool)
    requires
        magic_bitboards.wf(),
    ensures
        r == in_check_spec(board@, *magic_bitboards),
{
    let current_color = if board.is_white_turn() {
        WHITE_PIECES
    } else {
        BLACK_PIECES
    };
    let king_bitboard = board.get_bitboard(KINGS) & board.get_bitboard(current_color);
    if king_bitboard == 0 {
        return true;
    }
    proof {
        lemma_lowest(king_bitboard);
    }
    let king_square = king_bitboard.trailing_zeros() as usize;
    let occupied_squares = board.get_bitboard(WHITE_PIECES) | board.get_bitboard(BLACK_PIECES);
    is_square_attacked(king_square, occupied_squares, board, magic_bitboards)
}

// ---------------------------------------------------------------------------------------------
// The quiescence search's value
// ---------------------------------------------------------------------------------------------
/// The moves the quiescence search tries: every move when in check, else the captures and
/// promotions.
#[verifier::opaque]
pub open spec fn quiescence_moves(v: BoardView, mb: MagicBitBoards) -> Seq<Move> {
    if in_check_spec(v, mb) {
        pseudo_legal_moves(v, mb)
    } else {
        tactical_moves(v, mb)
    }
}

/// Their ordering scores, with no hash move and no killers.
#[verifier::opaque]
pub open spec fn quiescence_scores(v: BoardView, mb: MagicBitBoards, h: [[i32; 64]; 12]) -> Seq<i32> {
    let moves = quiescence_moves(v, mb);
    Seq::new(moves.len(), |k: int| move_score(v.white_to_move, moves[k], None, None, None, h) as i32)
}

/// A plain capture out of check is skipped when even winning the captured piece with a
/// margin cannot reach `alpha` (delta pruning), or when the exchange on the square loses
/// material.
#[verifier::opaque]
pub open spec fn quiescence_pruned(v: BoardView, mb: MagicBitBoards, m: Move, in_check: bool, pat: int, alpha: i32) -> bool {
    let captured = m.captured() as int;
    &&& !in_check
    &&& captured != EMPTY_SQUARE
    &&& !(FLAG_PROMOTE_QUEEN <= m.flags() && m.flags() <= FLAG_PROMOTE_KNIGHT)
    &&& m.flags() != FLAG_EN_PASSANT
    &&& (pat + PIECE_VALUES[captured] + DELTA_MARGIN < alpha || see_spec(
        v,
        mb,
        m.target() as int,
        m.start() as int,
        m.piece() as int,
    ) < 0)
}

/// The result once the moves are done: mated when in check without a legal move, else
/// `alpha`.
pub open spec fn quiescence_end(in_check: bool, legal: int, alpha: i32, ply: int) -> i32 {
    if in_check && legal == 0 {
        (-49000 + ply) as i32
    } else {
        alpha
    }
}

/// The value of the quiescence search at `ply` in the window (`alpha`, `beta`), with the
/// history table `h` ordering the moves, when the clock does not stop it: beta when the
/// opponent has no king; out of check the static evaluation stands pat (beta when it
/// reaches beta, else it raises alpha); then the moves in score order, fail-hard.
#[verifier::opaque]
pub open spec fn quiescence_value(
    v: BoardView,
    mb: MagicBitBoards,
    z: Zobrist,
    h: [[i32; 64]; 12],
    alpha: i32,
    beta: i32,
    ply: int,
) -> i32
    decreases 255 - ply, 1int, 0int,
{
    let in_check = in_check_spec(v, mb);
    if !in_check && v.bitboards[KINGS as int] & v.bitboards[v.enemy_color()] == 0 {
        beta
    } else {
        let pat: int = if in_check {
            0
        } else {
            evaluation_spec(v, mb)
        };
        if !in_check && pat >= beta {
            beta
        } else {
            let alpha1: i32 = if !in_check && pat > alpha {
                pat as i32
            } else {
                alpha
            };
            quiescence_loop(v, mb, z, h, in_check, pat, 0, alpha1, beta, 0, ply)
        }
    }
}

/// The quiescence search's move loop from the `i`-th move in score order on, `legal` legal
/// moves having been searched.
#[verifier::opaque]
pub open spec fn quiescence_loop(
    v: BoardView,
    mb: MagicBitBoards,
    z: Zobrist,
    h: [[i32; 64]; 12],
    in_check: bool,
    pat: int,
    i: int,
    alpha: i32,
    beta: i32,
    legal: int,
    ply: int,
) -> i32
    decreases 255 - ply, 0int, quiescence_moves(v, mb).len() - i,
{
    let moves = quiescence_moves(v, mb);
    let order = score_order(quiescence_scores(v, mb, h));
    if i < 0 || i >= moves.len() {
        quiescence_end(in_check, legal, alpha, ply)
    } else {
        let m = moves[order[i] as int];
        if quiescence_pruned(v, mb, m, in_check, pat, alpha) {
            quiescence_loop(v, mb, z, h, in_check, pat, i + 1, alpha, beta, legal, ply)
        } else if ply >= 255 {
            quiescence_end(in_check, legal, alpha, ply)
        } else if !is_legal(v, mb, z, m) {
            quiescence_loop(v, mb, z, h, in_check, pat, i + 1, alpha, beta, legal, ply)
        } else {
            let score = 0i32.wrapping_sub(
                quiescence_value(
                    make_move_spec(v, m, z),
                    mb,
                    z,
                    h,
                    0i32.wrapping_sub(beta),
                    0i32.wrapping_sub(alpha),
                    ply + 1,
                ),
            );
            if score >= beta {
                beta
            } else {
                quiescence_loop(v, mb, z, h, in_check, pat, i + 1, if score > alpha {
                    score
                } else {
                    alpha
                }, beta, legal + 1, ply)
            }
        }
    }
}

/// The nodes the quiescence search at `ply` visits, itself included, when the clock does not
/// stop it: one for a node that returns before its moves, else one more than its move loop.
#[verifier::opaque]
pub open spec fn quiescence_nodes(
    v: BoardView,
    mb: MagicBitBoards,
    z: Zobrist,
    h: [[i32; 64]; 12],
    alpha: i32,
    beta: i32,
    ply: int,
) -> int
    decreases 255 - ply, 1int, 0int,
{
    let in_check = in_check_spec(v, mb);
    if !in_check && v.bitboards[KINGS as int] & v.bitboards[v.enemy_color()] == 0 {
        1
    } else {
        let pat: int = if in_check {
            0
        } else {
            evaluation_spec(v, mb)
        };
        if !in_check && pat >= beta {
            1
        } else {
            let alpha1: i32 = if !in_check && pat > alpha {
                pat as i32
            } else {
                alpha
            };
            1 + quiescence_loop_nodes(v, mb, z, h, in_check, pat, 0, alpha1, beta, ply)
        }
    }
}

/// The nodes the quiescence search's move loop visits from the `i`-th move on.
#[verifier::opaque]
pub open spec fn quiescence_loop_nodes(
    v: BoardView,
    mb: MagicBitBoards,
    z: Zobrist,
    h: [[i32; 64]; 12],
    in_check: bool,
    pat: int,
    i: int,
    alpha: i32,
    beta: i32,
    ply: int,
) -> int
    decreases 255 - ply, 0int, quiescence_moves(v, mb).len() - i,
{
    let moves = quiescence_moves(v, mb);
    let order = score_order(quiescence_scores(v, mb, h));
    if i < 0 || i >= moves.len() {
        0
    } else {
        let m = moves[order[i] as int];
        if quiescence_pruned(v, mb, m, in_check, pat, alpha) {
            quiescence_loop_nodes(v, mb, z, h, in_check, pat, i + 1, alpha, beta, ply)
        } else if ply >= 255 {
            0
        } else if !is_legal(v, mb, z, m) {
            quiescence_loop_nodes(v, mb, z, h, in_check, pat, i + 1, alpha, beta, ply)
        } else {
            let c = make_move_spec(v, m, z);
            let child_nodes = quiescence_nodes(c, mb, z, h, 0i32.wrapping_sub(beta), 0i32.wrapping_sub(alpha), ply + 1);
            let score = 0i32.wrapping_sub(
                quiescence_value(c, mb, z, h, 0i32.wrapping_sub(beta), 0i32.wrapping_sub(alpha), ply + 1),
            );
            if score >= beta {
                child_nodes
            } else {
                child_nodes + quiescence_loop_nodes(v, mb, z, h, in_check, pat, i + 1, if score > alpha {
                    score
                } else {
                    alpha
                }, beta, ply)
            }
        }
    }
}

// ---------------------------------------------------------------------------------------------
// The node count only grows
// ---------------------------------------------------------------------------------------------
/// A node's search counts at least that node: the count it leaves is above the one it got.
proof fn lemma_value_visits(
    v: BoardView,
    mb: MagicBitBoards,
    z: Zobrist,
    st: SearchTables,
    depth: u8,
    alpha: i32,
    beta: i32,
    allow_null: bool,
    ply: int,
)
    ensures
        minimax_value(v, mb, z, st, depth, alpha, beta, allow_null, ply).1.3 >= st.3 + 1,
    decreases 255 - ply, 3int, 0int,
{
    lemma_minimax_value_unfold(v, mb, z, st, depth, alpha, beta, allow_null, ply);
    let st1 = (st.0, st.1, st.2, st.3 + 1);
    if depth == 0 {
        lemma_quiescence_nodes_positive(v, mb, z, st1.2, alpha, beta, ply);
    } else if ply > 0 && (v.repeated() || v.halfmove_clock >= 100) {
    } else {
        let entry = tt_lookup(st1.0, v.zobrist_key);
        let cut = match entry {
            Some(e) => tt_cutoff(e, depth, alpha, beta, ply),
            None => None,
        };
        if cut is None {
            let tt_move = suggested_move(entry);
            let in_check = in_check_spec(v, mb);
            if allow_null && depth >= 3 && has_piece_material(v) && !in_check && ply < 255 {
                let nv = make_null_move_spec(v, z);
                let d3 = (depth - 3) as u8;
                let nb = 0i32.wrapping_sub(beta);
                let na = 0i32.wrapping_sub(beta).wrapping_add(1);
                lemma_value_visits(nv, mb, z, st1, d3, nb, na, false, ply + 1);
                let reply = minimax_value(nv, mb, z, st1, d3, nb, na, false, ply + 1);
                lemma_moves_visits(v, mb, z, reply.1, depth, alpha, beta, ply, tt_move, in_check);
            } else {
                lemma_moves_visits(v, mb, z, st1, depth, alpha, beta, ply, tt_move, in_check);
            }
        }
    }
}

/// A node's move loop never lowers the count.
proof fn lemma_moves_visits(
    v: BoardView,
    mb: MagicBitBoards,
    z: Zobrist,
    st: SearchTables,
    depth: u8,
    alpha: i32,
    beta: i32,
    ply: int,
    tt_move: Option<Move>,
    in_check: bool,
)
    ensures
        minimax_moves(v, mb, z, st, depth, alpha, beta, ply, tt_move, in_check).1.3 >= st.3,
    decreases 255 - ply, 2int, 0int,
{
    lemma_minimax_moves_unfold(v, mb, z, st, depth, alpha, beta, ply, tt_move, in_check);
    let k1 = st.1[0][depth as int];
    let k2 = st.1[1][depth as int];
    let moves = pseudo_legal_moves(v, mb);
    let order = score_order(node_scores(v, moves, tt_move, k1, k2, st.2));
    lemma_loop_visits(v, mb, z, depth, alpha, beta, ply, in_check, k1, k2, moves, order, 0, alpha, MIN_SCORE, Move::spec_new(0, 0, 0, 0, 0), 0, st);
}

/// The move loop from any move on never lowers the count.
proof fn lemma_loop_visits(
    v: BoardView,
    mb: MagicBitBoards,
    z: Zobrist,
    depth: u8,
    original_alpha: i32,
    beta: i32,
    ply: int,
    in_check: bool,
    k1: Move,
    k2: Move,
    moves: Seq<Move>,
    order: Seq<usize>,
    i: int,
    alpha: i32,
    best_score: i32,
    best_move: Move,
    legal: int,
    st: SearchTables,
)
    ensures
        minimax_loop(v, mb, z, depth, original_alpha, beta, ply, in_check, k1, k2, moves, order, i, alpha, best_score, best_move, legal, st).1.3 >= st.3,
        0 <= i < moves.len() && ply < 255 ==> minimax_loop(v, mb, z, depth, original_alpha, beta, ply, in_check, k1, k2, moves, order, i, alpha, best_score, best_move, legal, st).1.3
            >= minimax_step(v, mb, z, depth, beta, ply, in_check, k1, k2, moves[order[i] as int], alpha, best_score, best_move, legal, st).5.3,
    decreases 255 - ply, 1int, moves.len() - i,
{
    if i < 0 {
        assert(minimax_loop(v, mb, z, depth, original_alpha, beta, ply, in_check, k1, k2, moves, order, i, alpha, best_score, best_move, legal, st)
            == minimax_finish(v, depth, original_alpha, beta, ply, in_check, best_score, best_move, legal, st)) by {
            reveal(minimax_loop);
        }
        assert(minimax_finish(v, depth, original_alpha, beta, ply, in_check, best_score, best_move, legal, st).1.3 == st.3) by {
            reveal(minimax_finish);
        }
    } else if i >= moves.len() || ply >= 255 {
        lemma_minimax_loop_end(v, mb, z, depth, original_alpha, beta, ply, in_check, k1, k2, moves, order, i, alpha, best_score, best_move, legal, st);
        assert(minimax_finish(v, depth, original_alpha, beta, ply, in_check, best_score, best_move, legal, st).1.3 == st.3) by {
            reveal(minimax_finish);
        }
    } else {
        lemma_minimax_loop_step(v, mb, z, depth, original_alpha, beta, ply, in_check, k1, k2, moves, order, i, alpha, best_score, best_move, legal, st);
        let s = minimax_step(v, mb, z, depth, beta, ply, in_check, k1, k2, moves[order[i] as int], alpha, best_score, best_move, legal, st);
        lemma_step_visits(v, mb, z, depth, beta, ply, in_check, k1, k2, moves[order[i] as int], alpha, best_score, best_move, legal, st);
        if s.0 {
            assert(minimax_finish(v, depth, original_alpha, beta, ply, in_check, s.2, s.3, s.4, s.5).1.3 == s.5.3) by {
                reveal(minimax_finish);
            }
        } else {
            lemma_loop_visits(v, mb, z, depth, original_alpha, beta, ply, in_check, k1, k2, moves, order, i + 1, s.1, s.2, s.3, s.4, s.5);
        }
    }
}

/// One move of a node's loop never lowers the count.
proof fn lemma_step_visits(
    v: BoardView,
    mb: MagicBitBoards,
    z: Zobrist,
    depth: u8,
    beta: i32,
    ply: int,
    in_check: bool,
    k1: Move,
    k2: Move,
    m: Move,
    alpha: i32,
    best_score: i32,
    best_move: Move,
    legal: int,
    st: SearchTables,
)
    ensures
        minimax_step(v, mb, z, depth, beta, ply, in_check, k1, k2, m, alpha, best_score, best_move, legal, st).5.3 >= st.3,
    decreases 255 - ply - 1, 5int, 0int,
{
    if ply >= 255 || ply < 0 {
        assert(minimax_step(v, mb, z, depth, beta, ply, in_check, k1, k2, m, alpha, best_score, best_move, legal, st).5 == st) by {
            reveal(minimax_step);
        }
    } else {
        lemma_minimax_step_unfold(v, mb, z, depth, beta, ply, in_check, k1, k2, m, alpha, best_score, best_move, legal, st);
        if is_legal(v, mb, z, m) {
            let gives_check = move_gives_check(v, mb, z, m);
            let child = minimax_child(
                make_move_spec(v, m, z),
                mb,
                z,
                st,
                reply_depth(depth, gives_check, ply),
                alpha,
                beta,
                ply,
                legal + 1,
                late_move_ok(m, in_check, gives_check, k1, k2),
            );
            lemma_child_visits(
                make_move_spec(v, m, z),
                mb,
                z,
                st,
                reply_depth(depth, gives_check, ply),
                alpha,
                beta,
                ply,
                legal + 1,
                late_move_ok(m, in_check, gives_check, k1, k2),
            );
            assert(after_cutoff(child.1, depth, m, v.white_to_move).3 == child.1.3) by {
                reveal(after_cutoff);
                reveal(record_cutoff);
            }
        }
    }
}

/// The reply searches of one move never lower the count.
proof fn lemma_child_visits(
    c: BoardView,
    mb: MagicBitBoards,
    z: Zobrist,
    st: SearchTables,
    new_depth: u8,
    alpha: i32,
    beta: i32,
    ply: int,
    n: int,
    lmr_ok: bool,
)
    ensures
        minimax_child(c, mb, z, st, new_depth, alpha, beta, ply, n, lmr_ok).1.3 >= st.3,
    decreases 255 - ply - 1, 4int, 0int,
{
    lemma_minimax_child_unfold(c, mb, z, st, new_depth, alpha, beta, ply, n, lmr_ok);
    if !(ply >= 255 || ply < 0) {
        if n == 1 {
            lemma_value_visits(c, mb, z, st, new_depth, 0i32.wrapping_sub(beta), 0i32.wrapping_sub(alpha), true, ply + 1);
        } else {
            let reduce = new_depth >= 3 && n >= 4 && lmr_ok;
            let na = 0i32.wrapping_sub(alpha).wrapping_sub(1);
            let nb = 0i32.wrapping_sub(alpha);
            if reduce {
                lemma_value_visits(c, mb, z, st, (new_depth - 1) as u8, na, nb, true, ply + 1);
            }
            let reduced = if reduce {
                let r = minimax_value(c, mb, z, st, (new_depth - 1) as u8, na, nb, true, ply + 1);
                (0i32.wrapping_sub(r.0), r.1)
            } else {
                (0i32, st)
            };
            lemma_value_visits(c, mb, z, reduced.1, new_depth, na, nb, true, ply + 1);
            let r = minimax_value(c, mb, z, reduced.1, new_depth, na, nb, true, ply + 1);
            lemma_value_visits(c, mb, z, r.1, new_depth, 0i32.wrapping_sub(beta), 0i32.wrapping_sub(alpha), true, ply + 1);
        }
    }
}

/// A root move's searches never lower the count.
proof fn lemma_root_step_visits(
    v: BoardView,
    mb: MagicBitBoards,
    z: Zobrist,
    depth: u8,
    m: Move,
    alpha: i32,
    best_score: i32,
    best_move: Move,
    legal: int,
    st: SearchTables,
)
    ensures
        root_step(v, mb, z, depth, m, alpha, best_score, best_move, legal, st).4.3 >= st.3,
{
    lemma_root_step(v, mb, z, depth, m, alpha, best_score, best_move, legal, st);
    if is_legal(v, mb, z, m) {
        let c = make_move_spec(v, m, z);
        let d = (depth - 1) as u8;
        if legal + 1 == 1 {
            lemma_value_visits(c, mb, z, st, d, 0i32.wrapping_sub(MAX_SCORE), 0i32.wrapping_sub(alpha), true, 1);
        } else {
            let na = 0i32.wrapping_sub(alpha).wrapping_sub(1);
            let nb = 0i32.wrapping_sub(alpha);
            lemma_value_visits(c, mb, z, st, d, na, nb, true, 1);
            let r = minimax_value(c, mb, z, st, d, na, nb, true, 1);
            lemma_value_visits(c, mb, z, r.1, d, 0i32.wrapping_sub(MAX_SCORE), 0i32.wrapping_sub(alpha), true, 1);
        }
    }
}

/// The root loop from any move on never lowers the count, and ends no earlier than its
/// next move's searches.
proof fn lemma_root_loop_visits(
    v: BoardView,
    mb: MagicBitBoards,
    z: Zobrist,
    depth: u8,
    moves: Seq<Move>,
    order: Seq<usize>,
    i: int,
    alpha: i32,
    best_score: i32,
    best_move: Move,
    legal: int,
    st: SearchTables,
)
    requires
        0 <= i,
    ensures
        root_loop(v, mb, z, depth, moves, order, i, alpha, best_score, best_move, legal, st).1.3 >= st.3,
        i < moves.len() ==> root_loop(v, mb, z, depth, moves, order, i, alpha, best_score, best_move, legal, st).1.3
            >= root_step(v, mb, z, depth, moves[order[i] as int], alpha, best_score, best_move, legal, st).4.3,
    decreases moves.len() - i,
{
    lemma_root_loop(v, mb, z, depth, moves, order, i, alpha, best_score, best_move, legal, st);
    if i < moves.len() {
        let s = root_step(v, mb, z, depth, moves[order[i] as int], alpha, best_score, best_move, legal, st);
        lemma_root_step_visits(v, mb, z, depth, moves[order[i] as int], alpha, best_score, best_move, legal, st);
        lemma_root_loop_visits(v, mb, z, depth, moves, order, i + 1, s.0, s.1, s.2, s.3, s.4);
    }
}

/// How the node count of the quiescence search starts.
proof fn lemma_quiescence_nodes_start(
    v: BoardView,
    mb: MagicBitBoards,
    z: Zobrist,
    h: [[i32; 64]; 12],
    alpha: i32,
    beta: i32,
    ply: int,
)
    ensures
        quiescence_nodes(v, mb, z, h, alpha, beta, ply) == ({
            let in_check = in_check_spec(v, mb);
            if !in_check && v.bitboards[KINGS as int] & v.bitboards[v.enemy_color()] == 0 {
                1
            } else {
                let pat: int = if in_check {
                    0
                } else {
                    evaluation_spec(v, mb)
                };
                if !in_check && pat >= beta {
                    1
                } else {
                    let alpha1: i32 = if !in_check && pat > alpha {
                        pat as i32
                    } else {
                        alpha
                    };
                    1 + quiescence_loop_nodes(v, mb, z, h, in_check, pat, 0, alpha1, beta, ply)
                }
            }
        }),
{
    reveal(quiescence_nodes);
    reveal(quiescence_loop_nodes);
}

/// One step of the node count of the quiescence search's move loop, and its end.
proof fn lemma_quiescence_nodes_step(
    v: BoardView,
    mb: MagicBitBoards,
    z: Zobrist,
    h: [[i32; 64]; 12],
    in_check: bool,
    pat: int,
    i: int,
    alpha: i32,
    beta: i32,
    ply: int,
    m: Move,
)
    requires
        0 <= i,
        i < quiescence_moves(v, mb).len() ==> m == quiescence_moves(v, mb)[score_order(quiescence_scores(v, mb, h))[i] as int],
    ensures
        i >= quiescence_moves(v, mb).len() ==> quiescence_loop_nodes(v, mb, z, h, in_check, pat, i, alpha, beta, ply) == 0,
        i < quiescence_moves(v, mb).len() && quiescence_pruned(v, mb, m, in_check, pat, alpha) ==> quiescence_loop_nodes(
            v,
            mb,
            z,
            h,
            in_check,
            pat,
            i,
            alpha,
            beta,
            ply,
        ) == quiescence_loop_nodes(v, mb, z, h, in_check, pat, i + 1, alpha, beta, ply),
        i < quiescence_moves(v, mb).len() && !quiescence_pruned(v, mb, m, in_check, pat, alpha) && ply >= 255
            ==> quiescence_loop_nodes(v, mb, z, h, in_check, pat, i, alpha, beta, ply) == 0,
        i < quiescence_moves(v, mb).len() && !quiescence_pruned(v, mb, m, in_check, pat, alpha) && ply < 255
            && !is_legal(v, mb, z, m) ==> quiescence_loop_nodes(v, mb, z, h, in_check, pat, i, alpha, beta, ply)
            == quiescence_loop_nodes(v, mb, z, h, in_check, pat, i + 1, alpha, beta, ply),
        i < quiescence_moves(v, mb).len() && !quiescence_pruned(v, mb, m, in_check, pat, alpha) && ply < 255
            && is_legal(v, mb, z, m) ==> ({
            let c = make_move_spec(v, m, z);
            let child_nodes = quiescence_nodes(c, mb, z, h, 0i32.wrapping_sub(beta), 0i32.wrapping_sub(alpha), ply + 1);
            let score = 0i32.wrapping_sub(
                quiescence_value(c, mb, z, h, 0i32.wrapping_sub(beta), 0i32.wrapping_sub(alpha), ply + 1),
            );
            quiescence_loop_nodes(v, mb, z, h, in_check, pat, i, alpha, beta, ply) == if score >= beta {
                child_nodes
            } else {
                child_nodes + quiescence_loop_nodes(v, mb, z, h, in_check, pat, i + 1, if score > alpha {
                    score
                } else {
                    alpha
                }, beta, ply)
            }
        }),
{
    reveal(quiescence_nodes);
    reveal(quiescence_loop_nodes);
}

/// The quiescence search visits at least its own node.
proof fn lemma_quiescence_nodes_positive(
    v: BoardView,
    mb: MagicBitBoards,
    z: Zobrist,
    h: [[i32; 64]; 12],
    alpha: i32,
    beta: i32,
    ply: int,
)
    ensures
        quiescence_nodes(v, mb, z, h, alpha, beta, ply) >= 1,
    decreases 255 - ply, 1int, 0int,
{
    reveal(quiescence_nodes);
    reveal(quiescence_loop_nodes);
    lemma_quiescence_loop_nodes_nonneg(v, mb, z, h, in_check_spec(v, mb), if in_check_spec(v, mb) { 0 } else { evaluation_spec(v, mb) }, 0, if !in_check_spec(v, mb) && evaluation_spec(v, mb) > alpha { evaluation_spec(v, mb) as i32 } else { alpha }, beta, ply);
}

proof fn lemma_quiescence_loop_nodes_nonneg(
    v: BoardView,
    mb: MagicBitBoards,
    z: Zobrist,
    h: [[i32; 64]; 12],
    in_check: bool,
    pat: int,
    i: int,
    alpha: i32,
    beta: i32,
    ply: int,
)
    ensures
        quiescence_loop_nodes(v, mb, z, h, in_check, pat, i, alpha, beta, ply) >= 0,
    decreases 255 - ply, 0int, quiescence_moves(v, mb).len() - i,
{
    reveal(quiescence_nodes);
    reveal(quiescence_loop_nodes);
    let moves = quiescence_moves(v, mb);
    let order = score_order(quiescence_scores(v, mb, h));
    if 0 <= i < moves.len() {
        let m = moves[order[i] as int];
        if ply < 255 {
            let c = make_move_spec(v, m, z);
            lemma_quiescence_nodes_positive(c, mb, z, h, 0i32.wrapping_sub(beta), 0i32.wrapping_sub(alpha), ply + 1);
            let score = 0i32.wrapping_sub(
                quiescence_value(c, mb, z, h, 0i32.wrapping_sub(beta), 0i32.wrapping_sub(alpha), ply + 1),
            );
            lemma_quiescence_loop_nodes_nonneg(v, mb, z, h, in_check, pat, i + 1, if score > alpha {
                score
            } else {
                alpha
            }, beta, ply);
        }
        lemma_quiescence_loop_nodes_nonneg(v, mb, z, h, in_check, pat, i + 1, alpha, beta, ply);
    }
}

/// One step of the quiescence search's move loop.
proof fn lemma_quiescence_step(
    v: BoardView,
    mb: MagicBitBoards,
    z: Zobrist,
    h: [[i32; 64]; 12],
    in_check: bool,
    pat: int,
    i: int,
    alpha: i32,
    beta: i32,
    legal: int,
    ply: int,
    m: Move,
)
    requires
        0 <= i < quiescence_moves(v, mb).len(),
        m == quiescence_moves(v, mb)[score_order(quiescence_scores(v, mb, h))[i] as int],
    ensures
        quiescence_pruned(v, mb, m, in_check, pat, alpha) ==> quiescence_loop(v, mb, z, h, in_check, pat, i, alpha, beta, legal, ply)
            == quiescence_loop(v, mb, z, h, in_check, pat, i + 1, alpha, beta, legal, ply),
        !quiescence_pruned(v, mb, m, in_check, pat, alpha) && ply >= 255 ==> quiescence_loop(
            v,
            mb,
            z,
            h,
            in_check,
            pat,
            i,
            alpha,
            beta,
            legal,
            ply,
        ) == quiescence_end(in_check, legal, alpha, ply),
        !quiescence_pruned(v, mb, m, in_check, pat, alpha) && ply < 255 && !is_legal(v, mb, z, m) ==> quiescence_loop(v, mb, z, h, in_check, pat, i, alpha, beta, legal, ply) == quiescence_loop(
            v,
            mb,
            z,
            h,
            in_check,
            pat,
            i + 1,
            alpha,
            beta,
            legal,
            ply,
        ),
        !quiescence_pruned(v, mb, m, in_check, pat, alpha) && ply < 255 && is_legal(v, mb, z, m) ==> ({
            let score = 0i32.wrapping_sub(
                quiescence_value(
                    make_move_spec(v, m, z),
                    mb,
                    z,
                    h,
                    0i32.wrapping_sub(beta),
                    0i32.wrapping_sub(alpha),
                    ply + 1,
                ),
            );
            quiescence_loop(v, mb, z, h, in_check, pat, i, alpha, beta, legal, ply) == if score >= beta {
                beta
            } else {
                quiescence_loop(v, mb, z, h, in_check, pat, i + 1, if score > alpha {
                    score
                } else {
                    alpha
                }, beta, legal + 1, ply)
            }
        }),
{
    reveal(quiescence_value);
    reveal(quiescence_loop);
}

/// The quiescence search's move loop past its last move.
proof fn lemma_quiescence_done(
    v: BoardView,
    mb: MagicBitBoards,
    z: Zobrist,
    h: [[i32; 64]; 12],
    in_check: bool,
    pat: int,
    i: int,
    alpha: i32,
    beta: i32,
    legal: int,
    ply: int,
)
    requires
        i >= quiescence_moves(v, mb).len(),
    ensures
        quiescence_loop(v, mb, z, h, in_check, pat, i, alpha, beta, legal, ply) == quiescence_end(in_check, legal, alpha, ply),
{
    reveal(quiescence_value);
    reveal(quiescence_loop);
}

/// How the quiescence value starts: beta without an enemy king or when standing pat reaches
/// beta, else the move loop.
proof fn lemma_quiescence_start(
    v: BoardView,
    mb: MagicBitBoards,
    z: Zobrist,
    h: [[i32; 64]; 12],
    alpha: i32,
    beta: i32,
    ply: int,
)
    ensures
        quiescence_value(v, mb, z, h, alpha, beta, ply) == ({
            let in_check = in_check_spec(v, mb);
            if !in_check && v.bitboards[KINGS as int] & v.bitboards[v.enemy_color()] == 0 {
                beta
            } else {
                let pat: int = if in_check {
                    0
                } else {
                    evaluation_spec(v, mb)
                };
                if !in_check && pat >= beta {
                    beta
                } else {
                    let alpha1: i32 = if !in_check && pat > alpha {
                        pat as i32
                    } else {
                        alpha
                    };
                    quiescence_loop(v, mb, z, h, in_check, pat, 0, alpha1, beta, 0, ply)
                }
            }
        }),
{
    reveal(quiescence_value);
    reveal(quiescence_loop);
}

/// Searches captures (every move when in check) until the position is quiet, so that the
/// static evaluation is not taken in the middle of an exchange. Unless the clock stops it,
/// the result is `quiescence_value`; once stopped it answers 0. It stops only on a clock
/// reading taken within the nodes that the whole search would visit.
#[verifier::rlimit(40)]
fn quiescence_search(
    board: &mut Board,
    alpha_in: i32,
    beta: i32,
    magic_bitboards: &MagicBitBoards,
    info: &mut SearchInfo,
    zobrist: &Zobrist,
    ply: u8,
) -> (r: i32)
    requires
        search_ready(old(board)@, ply as int),
        magic_bitboards.wf(),
        old(info).counts_ok(),
    ensures
        final(board)@ == old(board)@,
        final(info).history_moves == old(info).history_moves,
        final(info).killer_moves == old(info).killer_moves,
        old(info).stopped ==> final(info).stopped,
        final(info).counts_ok(),
        old(info).visited@ <= final(info).visited@,
        final(info).stopped ==> old(info).stopped || clock_read_between(old(info).visited@, final(info).visited@),
        clock_kept(*old(info), *final(info)),
        old(info).stopped ==> r == 0 && final(info).visited@ == old(info).visited@ + 1,
        old(info).visited@ + 1 <= final(info).visited@,
        !final(info).stopped ==> final(info).visited@ == old(info).visited@ + quiescence_nodes(
            old(board)@,
            *magic_bitboards,
            *zobrist,
            old(info).history_moves,
            alpha_in,
            beta,
            ply as int,
        ),
        !old(info).stopped && final(info).stopped ==> clock_read_between(
            old(info).visited@,
            old(info).visited@ + quiescence_nodes(
                old(board)@,
                *magic_bitboards,
                *zobrist,
                old(info).history_moves,
                alpha_in,
                beta,
                ply as int,
            ),
        ),
        !final(info).stopped ==> r == quiescence_value(
            old(board)@,
            *magic_bitboards,
            *zobrist,
            old(info).history_moves,
            alpha_in,
            beta,
            ply as int,
        ),
        r == beta || (r == -49000 + ply && in_check_spec(old(board)@, *magic_bitboards)) || r == alpha_in || (alpha_in
            < r && r < beta) || (r == 0 && final(info).stopped && final(info).visited@ == old(info).visited@ + 1),
    decreases 255 - ply, 0int,
{
    let ghost alpha0 = alpha_in;
    let ghost v = board@;
    let ghost mb = *magic_bitboards;
    let ghost z = *zobrist;
    let ghost h = info.history_moves;
    let ghost target = quiescence_value(v, mb, z, h, alpha_in, beta, ply as int);
    let ghost node_target = info.visited@ + quiescence_nodes(v, mb, z, h, alpha_in, beta, ply as int);
    proof {
        lemma_quiescence_start(v, mb, z, h, alpha_in, beta, ply as int);
        lemma_quiescence_nodes_start(v, mb, z, h, alpha_in, beta, ply as int);
        lemma_quiescence_nodes_positive(v, mb, z, h, alpha_in, beta, ply as int);
    }
    let mut alpha = alpha_in;
    info.visit_node();
    if info.stopped {
        proof {
            if !old(info).stopped {
                assert(clock_reading(info.visited@));
            }
        }
        return 0;
    }
    let in_check = is_current_player_in_check(board, magic_bitboards);
    let mut pat: i32 = 0;
    if !in_check {
        let enemy_color = if board.is_white_turn() {
            BLACK_PIECES
        } else {
            WHITE_PIECES
        };
        if board.get_bitboard(KINGS) & board.get_bitboard(enemy_color) == 0 {
            // The opponent's king is gone: nothing to evaluate.
            return beta;
        }
        proof {
            lemma_eval_bounds(v);
        }
        pat = evaluation_board(board, magic_bitboards);
        if pat >= beta {
            return beta;
        }
        if pat > alpha {
            alpha = pat;
        }
    }
    // Generate ALL moves if in check to find evasions
    let mut move_list = ordered_moves(board, magic_bitboards, None, None, None, &info.history_moves, !in_check);
    let ghost moves = quiescence_moves(v, mb);
    let ghost order = score_order(quiescence_scores(v, mb, h));
    proof {
        assert(move_list@ == moves) by {
            reveal(quiescence_moves);
        }
        assert(move_list.score_seq() =~= quiescence_scores(v, mb, h)) by {
            reveal(scored_by);
            reveal(quiescence_scores);
            reveal(quiescence_moves);
        }
        lemma_score_order_unique(quiescence_scores(v, mb, h), move_list.order_seq(), order);
    }
    let mut legal_moves: usize = 0;
    let count = move_list.get_count();
    let mut i: usize = 0;
    proof {
        if count == 0 {
            lemma_quiescence_nodes_step(v, mb, z, h, in_check, pat as int, 0, alpha, beta, ply as int, Move::spec_new(0, 0, 0, 0, 0));
            lemma_quiescence_done(v, mb, z, h, in_check, pat as int, 0, alpha, beta, 0, ply as int);
        }
    }
    while i < count
        invariant_except_break
            legal_moves <= i,
        invariant
            board@ == v,
            info.counts_ok(),
            old(info).visited@ <= info.visited@,
            old(info).visited@ + 1 <= info.visited@,
            info.stopped ==> old(info).stopped || clock_read_between(old(info).visited@, info.visited@),
            info.stopped ==> clock_read_between(old(info).visited@, node_target),
            clock_kept(*old(info), *info),
            search_ready(v, ply as int),
            magic_bitboards.wf(),
            mb == *magic_bitboards,
            z == *zobrist,
            count == move_list@.len(),
            move_list.wf(),
            move_list@ == moves,
            move_list.order_seq() == order,
            moves == quiescence_moves(v, mb),
            order == score_order(quiescence_scores(v, mb, h)),
            move_list.order_seq().len() == count,
            in_check == in_check_spec(v, mb),
            forall|k: int| 0 <= k < count ==> v.move_ok(#[trigger] move_list@[k]),
            old(info).stopped ==> info.stopped,
            info.history_moves == h,
            h == old(info).history_moves,
            alpha0 == alpha_in,
            target == quiescence_value(old(board)@, *magic_bitboards, *zobrist, old(info).history_moves, alpha0, beta, ply as int),
            info.killer_moves == old(info).killer_moves,
            -1_100_000_000 <= pat <= 1_100_000_000,
            v == old(board)@,
            alpha == alpha0 || (alpha0 < alpha && alpha < beta),
            !old(info).stopped,
            !info.stopped ==> target == quiescence_loop(
                v,
                mb,
                z,
                h,
                in_check,
                pat as int,
                i as int,
                alpha,
                beta,
                legal_moves as int,
                ply as int,
            ),
            i >= count ==> quiescence_loop(v, mb, z, h, in_check, pat as int, i as int, alpha, beta, legal_moves as int, ply as int)
                == quiescence_end(in_check, legal_moves as int, alpha, ply as int),
            node_target == old(info).visited@ + quiescence_nodes(old(board)@, *magic_bitboards, *zobrist, old(info).history_moves, alpha0, beta, ply as int),
            !info.stopped ==> node_target == info.visited@ + quiescence_loop_nodes(v, mb, z, h, in_check, pat as int, i as int, alpha, beta, ply as int),
            i >= count ==> quiescence_loop_nodes(v, mb, z, h, in_check, pat as int, i as int, alpha, beta, ply as int) == 0,
        ensures
            board@ == v,
            old(info).stopped ==> info.stopped,
            info.history_moves == h,
            info.killer_moves == old(info).killer_moves,
            alpha == alpha0 || (alpha0 < alpha && alpha < beta),
            !info.stopped ==> target == quiescence_end(in_check, legal_moves as int, alpha, ply as int),
            !info.stopped ==> node_target == info.visited@,
        decreases count - i,
    {
        let the_move = move_list.pick_move(i);
        proof {
            let k = move_list.order_seq()[i as int] as int;
            assert(move_list@[k] == the_move);
            lemma_move_ok_makeable(v, the_move);
        }
        // Pruning only applies to quiet-search captures when not in check —
        // when in check we must consider every evasion, no matter how it scores.
        let mut pruned = false;
        if !in_check {
            let captured = the_move.get_captured_piece();
            let is_capture = captured != EMPTY_SQUARE as usize;
            let is_promotion = the_move.get_flags() >= FLAG_PROMOTE_QUEEN && the_move.get_flags() <= FLAG_PROMOTE_KNIGHT;
            let is_en_passant = the_move.get_flags() == FLAG_EN_PASSANT;
            if is_capture && !is_promotion && !is_en_passant {
                proof {
                    the_move.lemma_fields_bounded();
                    assert(v.pieces[the_move.target() as int] < 6 || v.pieces[the_move.target() as int] == EMPTY_SQUARE);
                    assert(captured == v.pieces[the_move.target() as int]);
                    assert(captured < 6);
                    assert(0 <= PIECE_VALUES[captured as int] <= 20000) by {
                        if captured == 0 {} else if captured == 1 {} else if captured == 2 {} else if captured == 3 {} else if captured == 4 {} else {}
                    }
                }
                // Delta pruning: even winning the captured piece outright can't reach alpha.
                let captured_value = PIECE_VALUES[captured];
                if pat + captured_value + DELTA_MARGIN < alpha {
                    pruned = true;
                } else {
                    // SEE pruning: skip captures that are a losing trade after all recaptures.
                    let see_score = static_exchange_evaluation(
                        board,
                        the_move.get_target() as usize,
                        the_move.get_start() as usize,
                        the_move.get_piece(),
                        magic_bitboards,
                    );
                    if see_score < 0 {
                        pruned = true;
                    }
                }
            }
        }
        assert(pruned == quiescence_pruned(v, mb, the_move, in_check, pat as int, alpha)) by {
            reveal(quiescence_pruned);
        }
        proof {
            lemma_quiescence_step(v, mb, z, h, in_check, pat as int, i as int, alpha, beta, legal_moves as int, ply as int, the_move);
            lemma_quiescence_nodes_step(v, mb, z, h, in_check, pat as int, i as int, alpha, beta, ply as int, the_move);
        }
        if !pruned {
            if ply == 255 {
                // No ply left to search a reply.
                break;
            }
            proof {
                lemma_child(v, the_move, *zobrist, ply as int);
            }
            board.make_move(&the_move, zobrist);
            let ghost child_view = board@;
            let legal = is_move_legal(board, magic_bitboards);
            assert(legal == is_legal(v, mb, z, the_move)) by {
                reveal(is_legal);
            }
            if legal {
                let ghost alpha_before = alpha;
                let ghost legal_before = legal_moves as int;
                let ghost history_before = info.history_moves;
                let ghost visited_before = info.visited@;
                let ghost stopped_before = info.stopped;
                legal_moves += 1;
                let child = quiescence_search(board, 0i32.wrapping_sub(beta), 0i32.wrapping_sub(alpha), magic_bitboards, info, zobrist, ply + 1);
                proof {
                    if info.stopped && !stopped_before {
                        let c = make_move_spec(v, the_move, z);
                        let child_nodes = quiescence_nodes(c, mb, z, h, 0i32.wrapping_sub(beta), 0i32.wrapping_sub(alpha_before), ply + 1);
                        let score = 0i32.wrapping_sub(
                            quiescence_value(c, mb, z, h, 0i32.wrapping_sub(beta), 0i32.wrapping_sub(alpha_before), ply + 1),
                        );
                        lemma_quiescence_loop_nodes_nonneg(v, mb, z, h, in_check, pat as int, i + 1, if score > alpha_before {
                            score
                        } else {
                            alpha_before
                        }, beta, ply as int);
                        assert(visited_before + child_nodes <= node_target);
                        let w = choose|w: int| visited_before < w <= visited_before + child_nodes && #[trigger] clock_reading(w);
                        assert(old(info).visited@ < w <= node_target);
                    }
                }
                assert(info.history_moves == history_before);
                assert(!info.stopped ==> child == quiescence_value(
                    make_move_spec(v, the_move, z),
                    mb,
                    z,
                    h,
                    0i32.wrapping_sub(beta),
                    0i32.wrapping_sub(alpha_before),
                    ply + 1,
                ));
                let score = 0i32.wrapping_sub(child);
                board.unmake_move(&the_move);
                assert(board@ == v);
                if score >= beta {
                    return beta;
                }
                if score > alpha {
                    alpha = score;
                }
            } else {
                board.unmake_move(&the_move);
            }
        }
        i += 1;
        proof {
            if i >= count {
                lemma_quiescence_nodes_step(v, mb, z, h, in_check, pat as int, i as int, alpha, beta, ply as int, the_move);
                lemma_quiescence_done(v, mb, z, h, in_check, pat as int, i as int, alpha, beta, legal_moves as int, ply as int);
            }
        }
    }
    if in_check && legal_moves == 0 {
        return -49000 + (ply as i32);
    }
    alpha
}

} // verus!
