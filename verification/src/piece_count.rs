use vstd::prelude::*;
use crate::bits::{has_bit, popcount};
use crate::board::{
    BoardView, PAWNS, ROOKS, EMPTY_SQUARE, FLAG_EN_PASSANT, make_move_spec, make_move_pieces, castle_rook_start,
    castle_rook_target, promoted_piece, is_promotion_flag, is_castle_flag,
};
use crate::board_laws::{lemma_make_move_fields, lemma_make_move_wf};
use crate::movedata::Move;
use crate::movegen_laws::lemma_square_facts;
use crate::movegenerator::occupied;
use crate::zobrist::Zobrist;

verus! {

// ---------------------------------------------------------------------------------------------
// Counting the pieces on the board
// ---------------------------------------------------------------------------------------------
/// The set squares of `x` from square `i` on.
pub open spec fn bits_from(x: u64, i: int) -> int
    decreases 64 - i,
{
    if i >= 64 || i < 0 {
        0
    } else {
        (if has_bit(x, i) { 1int } else { 0int }) + bits_from(x, i + 1)
    }
}

/// The occupied squares of a mailbox from square `i` on.
pub open spec fn occupied_from(p: Seq<u8>, i: int) -> int
    decreases 64 - i,
{
    if i >= 64 || i < 0 {
        0
    } else {
        (if p[i] != EMPTY_SQUARE { 1int } else { 0int }) + occupied_from(p, i + 1)
    }
}

proof fn lemma_shift_step(x: u64, i: u64)
    by (bit_vector)
    requires
        i < 63,
    ensures
        (x >> i) / 2 == x >> ((i + 1) as u64),
        ((x >> i) % 2 == 1) == ((x >> i) & 1u64 == 1u64),
        x >> 63u64 <= 1,
{
}

/// The number of set bits counted square by square.
proof fn lemma_popcount_from(x: u64, i: int)
    requires
        0 <= i < 64,
    ensures
        popcount(x >> (i as u64)) == bits_from(x, i),
    decreases 64 - i,
{
    lemma_shift_step(x, 0);
    if i == 63 {
        let y = x >> 63u64;
        assert(bits_from(x, 64) == 0);
        assert(popcount(y / 2) == 0) by {
            assert(y / 2 == 0);
        }
        assert(y % 2 == 1 <==> has_bit(x, 63)) by {
            assert((y == 1) <==> ((x >> 63u64) & 1u64 == 1u64)) by (bit_vector)
                requires y == x >> 63u64;
        }
    } else {
        lemma_shift_step(x, i as u64);
        lemma_popcount_from(x, i + 1);
        let y = x >> (i as u64);
        assert(popcount(y) == (y % 2) as nat + popcount(y / 2));
    }
}

/// Changing one square of a mailbox changes its occupied count by what left and what came.
proof fn lemma_occupied_update(p: Seq<u8>, k: int, x: u8, i: int)
    requires
        p.len() == 64,
        0 <= k < 64,
        0 <= i,
    ensures
        occupied_from(p.update(k, x), i) == occupied_from(p, i) - (if i <= k && p[k] != EMPTY_SQUARE { 1int } else { 0int })
            + (if i <= k && x != EMPTY_SQUARE { 1int } else { 0int }),
    decreases 64 - i,
{
    if i < 64 {
        lemma_occupied_update(p, k, x, i + 1);
    }
}

/// On a consistent board the occupied squares of the bitboards are those of the mailbox.
proof fn lemma_occupied_count(v: BoardView, i: int)
    requires
        v.mailbox_ok(),
        0 <= i <= 64,
    ensures
        bits_from(occupied(v), i) == occupied_from(v.pieces, i),
    decreases 64 - i,
{
    if i < 64 {
        lemma_square_facts(v, i);
        lemma_occupied_count(v, i + 1);
    }
}

/// The number of pieces on a consistent board: the set squares of the occupied bitboard.
pub open spec fn piece_count(v: BoardView) -> nat {
    popcount(occupied(v))
}

/// A move takes one piece off the board when it captures, en passant included, and none
/// otherwise.
pub proof fn lemma_make_move_count(v: BoardView, m: Move, z: Zobrist)
    requires
        v.wf(),
        v.move_ok(m),
        v.can_make(m),
    ensures
        piece_count(make_move_spec(v, m, z)) == piece_count(v) - if v.pieces[m.target() as int] != EMPTY_SQUARE
            || m.flags() == FLAG_EN_PASSANT {
            1int
        } else {
            0int
        },
{
    let a = make_move_spec(v, m, z);
    lemma_make_move_fields(v, m, z);
    lemma_make_move_wf(v, m, z);
    m.lemma_fields_bounded();
    lemma_popcount_from(occupied(v), 0);
    lemma_popcount_from(occupied(a), 0);
    assert(occupied(v) >> 0u64 == occupied(v) && occupied(a) >> 0u64 == occupied(a)) by {
        let x = occupied(v);
        let y = occupied(a);
        assert(x >> 0u64 == x && y >> 0u64 == y) by (bit_vector);
    }
    lemma_occupied_count(v, 0);
    lemma_occupied_count(a, 0);
    let s = m.start() as int;
    let t = m.target() as int;
    let f = m.flags();
    let cs: int = if v.white_to_move { t - 8 } else { t + 8 };
    let rs = castle_rook_start(f, t);
    let rt = castle_rook_target(f, t);
    let q0 = v.pieces;
    let q1a = q0.update(s, EMPTY_SQUARE);
    let q1 = q1a.update(t, m.piece() as u8);
    lemma_occupied_update(q0, s, EMPTY_SQUARE, 0);
    lemma_occupied_update(q1a, t, m.piece() as u8, 0);
    assert(q0[s] != EMPTY_SQUARE);
    assert(q1a[t] == q0[t]);
    let q2 = if is_promotion_flag(f) { q1.update(t, promoted_piece(f) as u8) } else { q1 };
    if is_promotion_flag(f) {
        lemma_occupied_update(q1, t, promoted_piece(f) as u8, 0);
    }
    let q3 = if f == FLAG_EN_PASSANT { q2.update(cs, EMPTY_SQUARE) } else { q2 };
    if f == FLAG_EN_PASSANT {
        lemma_square_facts(v, cs);
        lemma_square_facts(v, s);
        assert(cs != s && cs != t);
        assert(q2[cs] == PAWNS);
        lemma_occupied_update(q2, cs, EMPTY_SQUARE, 0);
    }
    if is_castle_flag(f) {
        assert(q3[rs] == ROOKS);
        assert(q3[rt] == EMPTY_SQUARE);
        lemma_occupied_update(q3, rs, EMPTY_SQUARE, 0);
        lemma_occupied_update(q3.update(rs, EMPTY_SQUARE), rt, ROOKS as u8, 0);
    }
    assert(a.pieces == make_move_pieces(v, m));
}

} // verus!
