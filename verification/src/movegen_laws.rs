use vstd::prelude::*;
use crate::bits::{has_bit, walk, lemma_walk_all, lemma_walk_contains, lemma_bit_logic, lemma_bit_ops, lemma_shift_bits};
use crate::board::{
    BoardView, bit_row, PAWNS, KNIGHTS, BISHOPS, ROOKS, QUEENS, KINGS, WHITE_PIECES, BLACK_PIECES, EMPTY_SQUARE,
    FLAG_PROMOTE_QUEEN, FLAG_PROMOTE_ROOK, FLAG_PROMOTE_BISHOP, FLAG_PROMOTE_KNIGHT, FLAG_DOUBLE_PUSH, FLAG_KING_CASTLE, FLAG_QUEEN_CASTLE, FLAG_EN_PASSANT,
};
use crate::board_laws::lemma_eval_bounds;
use crate::constants::{
    RANK_1, RANK_3, RANK_6, RANK_8, ZERO_A_FILE, ZERO_H_FILE, knight_jump, king_step,
    lemma_knight_attacks, lemma_king_attacks,
};
use crate::magics::{MagicBitBoards, rook_attacked, bishop_attacked};
use crate::movedata::Move;
use crate::movegenerator::{
    occupied, not_own, own_pawns, fwd, last_rank, third_rank, right_mask, left_mask, pawn_start,
    pawn_fn, pawn_push_moves, pawn_capture_moves, pawn_en_passant_moves, pawn_moves_spec,
    target_moves, piece_moves, piece_fn, castle_move, castling_moves, king_moves_spec, leaper_fn,
    slider_fn, pseudo_legal_moves, tactical_moves, tactical_piece_moves_spec, scorable,
    lemma_fwd_bound,
};

verus! {

/// What a consistent board says about one square.
pub proof fn lemma_square_facts(v: BoardView, sq: int)
    requires
        v.mailbox_ok(),
        0 <= sq < 64,
    ensures
        forall|p: int| 0 <= p < 6 ==> (has_bit(#[trigger] v.bitboards[p], sq) <==> v.pieces[sq] == p),
        has_bit(occupied(v), sq) <==> v.pieces[sq] != EMPTY_SQUARE,
        has_bit(!occupied(v), sq) <==> v.pieces[sq] == EMPTY_SQUARE,
        v.pieces[sq] != EMPTY_SQUARE <==> (v.is_white_at(sq) || v.is_black_at(sq)),
        !(v.is_white_at(sq) && v.is_black_at(sq)),
        has_bit(not_own(v), sq) <==> !v.own_at(sq),
        has_bit(v.bitboards[v.own_color()], sq) <==> v.own_at(sq),
        has_bit(v.bitboards[v.enemy_color()], sq) <==> v.enemy_at(sq),
        v.enemy_at(sq) ==> !v.own_at(sq),
{
    assert(v.square_ok(sq));
    let r = bit_row(v.bitboards, sq);
    assert forall|p: int| 0 <= p < 6 implies (has_bit(#[trigger] v.bitboards[p], sq) <==> v.pieces[sq] == p) by {
        assert(r[p] == has_bit(v.bitboards[p], sq));
    }
    assert(r[6] == v.is_white_at(sq));
    assert(r[7] == v.is_black_at(sq));
    lemma_bit_logic(v.bitboards[WHITE_PIECES as int], v.bitboards[BLACK_PIECES as int], sq as u64);
    lemma_bit_logic(occupied(v), occupied(v), sq as u64);
    lemma_bit_logic(v.bitboards[v.own_color()], v.bitboards[v.own_color()], sq as u64);
}

/// A property of every item of two sequences holds of every item of their concatenation.
pub proof fn lemma_concat_all<A>(a: Seq<A>, b: Seq<A>, p: spec_fn(A) -> bool)
    requires
        forall|k: int| 0 <= k < a.len() ==> p(#[trigger] a[k]),
        forall|k: int| 0 <= k < b.len() ==> p(#[trigger] b[k]),
    ensures
        forall|k: int| 0 <= k < (a + b).len() ==> p(#[trigger] (a + b)[k]),
{
    assert forall|k: int| 0 <= k < (a + b).len() implies p(#[trigger] (a + b)[k]) by {
        if k < a.len() {
            assert((a + b)[k] == a[k]);
        } else {
            assert((a + b)[k] == b[k - a.len()]);
        }
    }
}

/// A move of one of the side's pieces to a square it does not hold can be made.
proof fn lemma_target_move_ok(v: BoardView, s: u32, piece: int, t: u32)
    requires
        v.wf(),
        s < 64,
        t < 64,
        0 <= piece < 6,
        v.pieces[s as int] == piece,
        v.own_at(s as int),
        !v.own_at(t as int),
    ensures
        target_moves(v, s, piece)(t).len() == 1,
        v.move_ok(target_moves(v, s, piece)(t)[0]),
        piece != PAWNS && (piece == KINGS ==> t != s + 2 && s != t + 2) ==> move_shape_ok(v, target_moves(v, s, piece)(t)[0]),
{
    lemma_square_facts(v, t as int);
    assert(v.pieces[t as int] < 6 || v.pieces[t as int] == EMPTY_SQUARE);
    Move::lemma_spec_new(s, t, 0, piece as u32, v.pieces[t as int] as u32);
}

/// The moves of a kind of piece onto squares the side does not hold can all be made.
pub proof fn lemma_piece_moves_ok(v: BoardView, piece: int, attacks: spec_fn(u32) -> u64, mask: u64)
    requires
        v.wf(),
        0 <= piece < 6,
        forall|t: int| 0 <= t < 64 && has_bit(mask, t) ==> !v.own_at(t),
    ensures
        forall|k: int|
            0 <= k < piece_moves(v, piece, attacks, mask).len() ==> v.move_ok(
                #[trigger] piece_moves(v, piece, attacks, mask)[k],
            ),
        piece != PAWNS && (piece == KINGS ==> forall|s: u32, t: u32|
            s < 64 && t < 64 && #[trigger] has_bit(attacks(s), t as int) ==> t != s + 2 && s != t + 2) ==> forall|k: int|
            0 <= k < piece_moves(v, piece, attacks, mask).len() ==> move_shape_ok(
                v,
                #[trigger] piece_moves(v, piece, attacks, mask)[k],
            ),
{
    let shaped = piece != PAWNS && (piece == KINGS ==> forall|s: u32, t: u32|
        s < 64 && t < 64 && #[trigger] has_bit(attacks(s), t as int) ==> t != s + 2 && s != t + 2);
    let ok = |m: Move| v.move_ok(m) && (shaped ==> move_shape_ok(v, m));
    let pieces = v.bitboards[piece] & v.bitboards[v.own_color()];
    let f = piece_fn(v, piece, attacks, mask);
    assert forall|s: u32, k: int| s < 64 && has_bit(pieces, s as int) && 0 <= k < f(s).len() implies ok(
        #[trigger] f(s)[k],
    ) by {
        lemma_bit_logic(v.bitboards[piece], v.bitboards[v.own_color()], s as u64);
        lemma_square_facts(v, s as int);
        let g = target_moves(v, s, piece);
        assert forall|t: u32, j: int| t < 64 && has_bit(attacks(s) & mask, t as int) && 0 <= j < g(t).len() implies ok(
            #[trigger] g(t)[j],
        ) by {
            lemma_bit_logic(attacks(s), mask, t as u64);
            lemma_target_move_ok(v, s, piece, t);
            if shaped && piece == KINGS {
                assert(has_bit(attacks(s), t as int));
                assert(t != s + 2 && s != t + 2);
            }
        }
        lemma_walk_all(attacks(s) & mask, g, ok);
    }
    lemma_walk_all(pieces, f, ok);
}

proof fn lemma_castle_path_bits(occ: u64)
    by (bit_vector)
    ensures
        occ & ((1u64 << 5u64) | (1u64 << 6u64)) == 0u64 ==> (occ >> 5u64) & 1u64 != 1u64 && (occ >> 6u64)
            & 1u64 != 1u64,
        occ & ((1u64 << 1u64) | (1u64 << 2u64) | (1u64 << 3u64)) == 0u64 ==> (occ >> 2u64) & 1u64 != 1u64
            && (occ >> 3u64) & 1u64 != 1u64,
        occ & ((1u64 << 61u64) | (1u64 << 62u64)) == 0u64 ==> (occ >> 61u64) & 1u64 != 1u64 && (occ
            >> 62u64) & 1u64 != 1u64,
        occ & ((1u64 << 57u64) | (1u64 << 58u64) | (1u64 << 59u64)) == 0u64 ==> (occ >> 58u64) & 1u64
            != 1u64 && (occ >> 59u64) & 1u64 != 1u64,
{
}

proof fn lemma_rank_bits(u: u64)
    by (bit_vector)
    requires
        u < 64,
    ensures
        (RANK_3 >> u) & 1u64 == 1u64 <==> 16 <= u < 24,
        (RANK_6 >> u) & 1u64 == 1u64 <==> 40 <= u < 48,
{
}

/// The castling moves the generator offers on a consistent board can be made.
pub proof fn lemma_castling_ok(v: BoardView, mb: MagicBitBoards)
    requires
        v.wf(),
    ensures
        forall|k: int|
            0 <= k < castling_moves(v, mb, occupied(v)).len() ==> v.move_ok(
                #[trigger] castling_moves(v, mb, occupied(v))[k],
            ),
        forall|k: int|
            0 <= k < castling_moves(v, mb, occupied(v)).len() ==> move_shape_ok(
                v,
                #[trigger] castling_moves(v, mb, occupied(v))[k],
            ),
{
    let occ = occupied(v);
    lemma_castle_path_bits(occ);
    lemma_square_facts(v, 2);
    lemma_square_facts(v, 3);
    lemma_square_facts(v, 5);
    lemma_square_facts(v, 6);
    lemma_square_facts(v, 58);
    lemma_square_facts(v, 59);
    lemma_square_facts(v, 61);
    lemma_square_facts(v, 62);
    Move::lemma_spec_new(4, 6, FLAG_KING_CASTLE, KINGS as u32, EMPTY_SQUARE as u32);
    Move::lemma_spec_new(4, 2, FLAG_QUEEN_CASTLE, KINGS as u32, EMPTY_SQUARE as u32);
    Move::lemma_spec_new(60, 62, FLAG_KING_CASTLE, KINGS as u32, EMPTY_SQUARE as u32);
    Move::lemma_spec_new(60, 58, FLAG_QUEEN_CASTLE, KINGS as u32, EMPTY_SQUARE as u32);
    let ok = |m: Move| v.move_ok(m) && move_shape_ok(v, m);
    if v.white_to_move {
        let a = castle_move(v, mb, occ, 1, (1u64 << 5u64) | (1u64 << 6u64), 4, 5, 6, FLAG_KING_CASTLE);
        let b = castle_move(v, mb, occ, 2, (1u64 << 1u64) | (1u64 << 2u64) | (1u64 << 3u64), 4, 3, 2, FLAG_QUEEN_CASTLE);
        lemma_concat_all(a, b, ok);
    } else {
        let a = castle_move(v, mb, occ, 4, (1u64 << 61u64) | (1u64 << 62u64), 60, 61, 62, FLAG_KING_CASTLE);
        let b = castle_move(v, mb, occ, 8, (1u64 << 57u64) | (1u64 << 58u64) | (1u64 << 59u64), 60, 59, 58, FLAG_QUEEN_CASTLE);
        lemma_concat_all(a, b, ok);
    }
}

/// A generated move's flag follows from where it goes: a double push exactly for a pawn
/// moving two ranks, castling exactly for a king moving two files, en passant exactly for a
/// pawn moving across files onto an empty square; and the move is the one its fields pack to.
pub open spec fn move_shape_ok(v: BoardView, m: Move) -> bool {
    let s = m.start() as int;
    let t = m.target() as int;
    let p = m.piece();
    let f = m.flags();
    &&& m == Move::spec_new(m.start(), m.target(), m.flags(), m.piece(), m.captured())
    &&& (f == FLAG_DOUBLE_PUSH <==> (p == PAWNS && (t == s + 16 || s == t + 16)))
    &&& (f == FLAG_KING_CASTLE <==> (p == KINGS && t == s + 2))
    &&& (f == FLAG_QUEEN_CASTLE <==> (p == KINGS && s == t + 2))
    &&& (f == FLAG_EN_PASSANT <==> (p == PAWNS && v.pieces[t] == EMPTY_SQUARE && s % 8 != t % 8))
}

/// A move the quiescence search looks at: a capture, en passant or a promotion.
pub open spec fn is_tactical_move(m: Move) -> bool {
    m.captured() != EMPTY_SQUARE || (FLAG_EN_PASSANT <= m.flags() && m.flags() <= FLAG_PROMOTE_KNIGHT)
}

/// A pawn move whose start square holds one of the side's pawns, and whose target is empty,
/// an enemy piece, or the en-passant square, as its kind says, can be made.
proof fn lemma_pawn_fn_ok(v: BoardView, t: u32, dist: u32, flags: u32, mode: int, promote: bool)
    requires
        v.wf(),
        t < 64,
        7 <= dist <= 16,
        v.white_to_move ==> t >= dist,
        !v.white_to_move ==> t + dist < 64,
        v.pieces[pawn_start(v.white_to_move, dist, t) as int] == PAWNS,
        v.own_at(pawn_start(v.white_to_move, dist, t) as int),
        0 <= mode < 3,
        mode == 0 ==> v.pieces[t as int] == EMPTY_SQUARE,
        mode == 1 ==> v.enemy_at(t as int),
        mode == 2 ==> !promote && flags == FLAG_EN_PASSANT && has_bit(v.en_passant_target, t as int),
        !promote ==> (flags == 0 || flags == FLAG_DOUBLE_PUSH || flags == FLAG_EN_PASSANT),
        !promote && flags == FLAG_EN_PASSANT ==> mode == 2,
        !promote && flags == FLAG_DOUBLE_PUSH ==> mode == 0 && dist == 16 && (if v.white_to_move {
            8 <= t - 16 < 16 && v.pieces[t - 8] == EMPTY_SQUARE
        } else {
            48 <= t + 16 < 56 && v.pieces[t + 8] == EMPTY_SQUARE
        }),
    ensures
        forall|k: int|
            0 <= k < pawn_fn(v, v.white_to_move, dist, flags, mode, promote)(t).len() ==> v.move_ok(
                #[trigger] pawn_fn(v, v.white_to_move, dist, flags, mode, promote)(t)[k],
            ),
        forall|k: int|
            0 <= k < pawn_fn(v, v.white_to_move, dist, flags, mode, promote)(t).len() ==> (is_tactical_move(
                #[trigger] pawn_fn(v, v.white_to_move, dist, flags, mode, promote)(t)[k],
            ) <==> (promote || mode != 0)),
        (dist == 16 <==> (!promote && flags == FLAG_DOUBLE_PUSH)) && (mode == 0 <==> (dist == 8 || dist == 16)) && (
        mode != 0 ==> (dist == 7 || dist == 9)) ==> forall|k: int|
            0 <= k < pawn_fn(v, v.white_to_move, dist, flags, mode, promote)(t).len() ==> move_shape_ok(
                v,
                #[trigger] pawn_fn(v, v.white_to_move, dist, flags, mode, promote)(t)[k],
            ),
{
    let w = v.white_to_move;
    let s = pawn_start(w, dist, t);
    lemma_square_facts(v, t as int);
    let c: u32 = if mode == 0 {
        EMPTY_SQUARE as u32
    } else if mode == 1 {
        v.pieces[t as int] as u32
    } else {
        PAWNS as u32
    };
    if mode == 2 {
        let e = v.ep_square();
        lemma_bit_ops(0, 0, 0, t as u64);
        assert(v.en_passant_target != 0);
        lemma_bit_ops(0, e as u64, e as u64, t as u64);
        assert(t == e);
    }
    Move::lemma_spec_new(s, t, flags, PAWNS as u32, c);
    Move::lemma_spec_new(s, t, 5, PAWNS as u32, c);
    Move::lemma_spec_new(s, t, 6, PAWNS as u32, c);
    Move::lemma_spec_new(s, t, 7, PAWNS as u32, c);
    Move::lemma_spec_new(s, t, 8, PAWNS as u32, c);
    if dist == 7 || dist == 9 {
        assert(s % 8 != t % 8);
    }
    if dist == 8 || dist == 16 {
        assert(s % 8 == t % 8);
    }
    if mode == 1 {
        assert(v.pieces[t as int] != EMPTY_SQUARE);
    }
}

/// A square of the side's own pawns holds a pawn of the side.
proof fn lemma_own_pawn(v: BoardView, s: int)
    requires
        v.wf(),
        0 <= s < 64,
        has_bit(own_pawns(v), s),
    ensures
        v.pieces[s] == PAWNS,
        v.own_at(s),
{
    lemma_bit_logic(v.bitboards[PAWNS as int], v.bitboards[v.own_color()], s as u64);
    lemma_square_facts(v, s);
}

/// Pushes and double pushes can be made.
proof fn lemma_pawn_push_ok(v: BoardView)
    requires
        v.wf(),
    ensures
        forall|k: int|
            0 <= k < pawn_push_moves(v, !occupied(v)).len() ==> v.move_ok(
                #[trigger] pawn_push_moves(v, !occupied(v))[k],
            ),
        forall|k: int|
            0 <= k < pawn_push_moves(v, !occupied(v)).len() ==> !is_tactical_move(
                #[trigger] pawn_push_moves(v, !occupied(v))[k],
            ),
        forall|k: int|
            0 <= k < pawn_push_moves(v, !occupied(v)).len() ==> move_shape_ok(
                v,
                #[trigger] pawn_push_moves(v, !occupied(v))[k],
            ),
{
    let w = v.white_to_move;
    let p = own_pawns(v);
    let empty = !occupied(v);
    let lr = last_rank(w);
    let single = (fwd(p, w, 8) & empty) & !lr;
    let double = fwd(single & third_rank(w), w, 8) & empty;
    let ok = |m: Move| v.move_ok(m) && !is_tactical_move(m) && move_shape_ok(v, m);
    let f1 = pawn_fn(v, w, 8, 0, 0, false);
    let f2 = pawn_fn(v, w, 16, FLAG_DOUBLE_PUSH, 0, false);
    assert forall|t: u32, k: int| t < 64 && has_bit(single, t as int) && 0 <= k < f1(t).len() implies ok(
        #[trigger] f1(t)[k],
    ) by {
        lemma_bit_logic(fwd(p, w, 8) & empty, !lr, t as u64);
        lemma_fwd_bound(p, empty, w, 8, t as int);
        lemma_own_pawn(v, pawn_start(w, 8, t) as int);
        lemma_square_facts(v, t as int);
        lemma_pawn_fn_ok(v, t, 8, 0, 0, false);
    }
    assert forall|t: u32, k: int| t < 64 && has_bit(double, t as int) && 0 <= k < f2(t).len() implies ok(
        #[trigger] f2(t)[k],
    ) by {
        lemma_fwd_bound(single & third_rank(w), empty, w, 8, t as int);
        let u: int = if w {
            t - 8
        } else {
            t + 8
        };
        lemma_bit_logic(single, third_rank(w), u as u64);
        lemma_rank_bits(u as u64);
        lemma_bit_logic(fwd(p, w, 8) & empty, !lr, u as u64);
        lemma_fwd_bound(p, empty, w, 8, u);
        lemma_own_pawn(v, pawn_start(w, 16, t) as int);
        lemma_square_facts(v, t as int);
        lemma_square_facts(v, u);
        lemma_pawn_fn_ok(v, t, 16, FLAG_DOUBLE_PUSH, 0, false);
    }
    lemma_walk_all(single, f1, ok);
    lemma_walk_all(double, f2, ok);
    lemma_concat_all(walk(single, f1), walk(double, f2), ok);
}

/// Captures towards one side, split at the last rank, can be made.
proof fn lemma_pawn_capture_side_ok(v: BoardView, m: u64, lm: u64, shift: u64, dist: u32, promote: bool)
    requires
        v.wf(),
        dist == 7 || dist == 9,
        shift == dist,
        m == (if dist == 9 {
            right_mask(v.white_to_move)
        } else {
            left_mask(v.white_to_move)
        }),
        lm == (if promote {
            last_rank(v.white_to_move)
        } else {
            !last_rank(v.white_to_move)
        }),
    ensures
        forall|k: int|
            0 <= k < walk(
                (fwd(own_pawns(v) & m, v.white_to_move, shift) & v.bitboards[v.enemy_color()]) & lm,
                pawn_fn(v, v.white_to_move, dist, 0, 1, promote),
            ).len() ==> v.move_ok(
                #[trigger] walk(
                    (fwd(own_pawns(v) & m, v.white_to_move, shift) & v.bitboards[v.enemy_color()]) & lm,
                    pawn_fn(v, v.white_to_move, dist, 0, 1, promote),
                )[k],
            ),
        forall|k: int|
            0 <= k < walk(
                (fwd(own_pawns(v) & m, v.white_to_move, shift) & v.bitboards[v.enemy_color()]) & lm,
                pawn_fn(v, v.white_to_move, dist, 0, 1, promote),
            ).len() ==> is_tactical_move(
                #[trigger] walk(
                    (fwd(own_pawns(v) & m, v.white_to_move, shift) & v.bitboards[v.enemy_color()]) & lm,
                    pawn_fn(v, v.white_to_move, dist, 0, 1, promote),
                )[k],
            ),
        forall|k: int|
            0 <= k < walk(
                (fwd(own_pawns(v) & m, v.white_to_move, shift) & v.bitboards[v.enemy_color()]) & lm,
                pawn_fn(v, v.white_to_move, dist, 0, 1, promote),
            ).len() ==> move_shape_ok(
                v,
                #[trigger] walk(
                    (fwd(own_pawns(v) & m, v.white_to_move, shift) & v.bitboards[v.enemy_color()]) & lm,
                    pawn_fn(v, v.white_to_move, dist, 0, 1, promote),
                )[k],
            ),
{
    let w = v.white_to_move;
    let p = own_pawns(v);
    let enemies = v.bitboards[v.enemy_color()];
    let c0 = fwd(p & m, w, shift) & enemies;
    let targets = c0 & lm;
    let f = pawn_fn(v, w, dist, 0, 1, promote);
    let ok = |mv: Move| v.move_ok(mv) && is_tactical_move(mv) && move_shape_ok(v, mv);
    assert forall|t: u32, k: int| t < 64 && has_bit(targets, t as int) && 0 <= k < f(t).len() implies ok(
        #[trigger] f(t)[k],
    ) by {
        lemma_bit_logic(c0, lm, t as u64);
        lemma_fwd_bound(p & m, enemies, w, shift, t as int);
        let u: int = if w {
            t - dist
        } else {
            t + dist
        };
        lemma_bit_logic(p, m, u as u64);
        lemma_own_pawn(v, u);
        lemma_square_facts(v, t as int);
        lemma_pawn_fn_ok(v, t, dist, 0, 1, promote);
    }
    lemma_walk_all(targets, f, ok);
}

/// Captures, promoting pushes and promoting captures can be made.
proof fn lemma_pawn_capture_ok(v: BoardView)
    requires
        v.wf(),
    ensures
        forall|k: int|
            0 <= k < pawn_capture_moves(v, !occupied(v), v.bitboards[v.enemy_color()]).len() ==> v.move_ok(
                #[trigger] pawn_capture_moves(v, !occupied(v), v.bitboards[v.enemy_color()])[k],
            ),
        forall|k: int|
            0 <= k < pawn_capture_moves(v, !occupied(v), v.bitboards[v.enemy_color()]).len() ==> is_tactical_move(
                #[trigger] pawn_capture_moves(v, !occupied(v), v.bitboards[v.enemy_color()])[k],
            ),
        forall|k: int|
            0 <= k < pawn_capture_moves(v, !occupied(v), v.bitboards[v.enemy_color()]).len() ==> move_shape_ok(
                v,
                #[trigger] pawn_capture_moves(v, !occupied(v), v.bitboards[v.enemy_color()])[k],
            ),
{
    let w = v.white_to_move;
    let p = own_pawns(v);
    let empty = !occupied(v);
    let lr = last_rank(w);
    let ok = |m: Move| v.move_ok(m) && is_tactical_move(m) && move_shape_ok(v, m);
    let promo = (fwd(p, w, 8) & empty) & lr;
    let fp = pawn_fn(v, w, 8, 0, 0, true);
    assert forall|t: u32, k: int| t < 64 && has_bit(promo, t as int) && 0 <= k < fp(t).len() implies ok(
        #[trigger] fp(t)[k],
    ) by {
        lemma_bit_logic(fwd(p, w, 8) & empty, lr, t as u64);
        lemma_fwd_bound(p, empty, w, 8, t as int);
        lemma_own_pawn(v, pawn_start(w, 8, t) as int);
        lemma_square_facts(v, t as int);
        lemma_pawn_fn_ok(v, t, 8, 0, 0, true);
    }
    lemma_walk_all(promo, fp, ok);
    lemma_pawn_capture_side_ok(v, right_mask(w), !lr, 9, 9, false);
    lemma_pawn_capture_side_ok(v, left_mask(w), !lr, 7, 7, false);
    lemma_pawn_capture_side_ok(v, right_mask(w), lr, 9, 9, true);
    lemma_pawn_capture_side_ok(v, left_mask(w), lr, 7, 7, true);
    let enemies = v.bitboards[v.enemy_color()];
    let rc0 = fwd(p & right_mask(w), w, 9) & enemies;
    let lc0 = fwd(p & left_mask(w), w, 7) & enemies;
    let a = walk(rc0 & !lr, pawn_fn(v, w, 9, 0, 1, false));
    let b = walk(lc0 & !lr, pawn_fn(v, w, 7, 0, 1, false));
    let c = walk(promo, fp);
    let d = walk(rc0 & lr, pawn_fn(v, w, 9, 0, 1, true));
    let e = walk(lc0 & lr, pawn_fn(v, w, 7, 0, 1, true));
    lemma_concat_all(a, b, ok);
    lemma_concat_all(a + b, c, ok);
    lemma_concat_all(a + b + c, d, ok);
    lemma_concat_all(a + b + c + d, e, ok);
}

/// En-passant captures towards one side can be made.
proof fn lemma_en_passant_side_ok(v: BoardView, m: u64, shift: u64, dist: u32)
    requires
        v.wf(),
        v.en_passant_target != 0,
        dist == 7 || dist == 9,
        shift == dist,
        m == (if dist == 9 {
            right_mask(v.white_to_move)
        } else {
            left_mask(v.white_to_move)
        }),
    ensures
        forall|k: int|
            0 <= k < walk(
                fwd(own_pawns(v) & m, v.white_to_move, shift) & v.en_passant_target,
                pawn_fn(v, v.white_to_move, dist, FLAG_EN_PASSANT, 2, false),
            ).len() ==> v.move_ok(
                #[trigger] walk(
                    fwd(own_pawns(v) & m, v.white_to_move, shift) & v.en_passant_target,
                    pawn_fn(v, v.white_to_move, dist, FLAG_EN_PASSANT, 2, false),
                )[k],
            ),
        forall|k: int|
            0 <= k < walk(
                fwd(own_pawns(v) & m, v.white_to_move, shift) & v.en_passant_target,
                pawn_fn(v, v.white_to_move, dist, FLAG_EN_PASSANT, 2, false),
            ).len() ==> is_tactical_move(
                #[trigger] walk(
                    fwd(own_pawns(v) & m, v.white_to_move, shift) & v.en_passant_target,
                    pawn_fn(v, v.white_to_move, dist, FLAG_EN_PASSANT, 2, false),
                )[k],
            ),
        forall|k: int|
            0 <= k < walk(
                fwd(own_pawns(v) & m, v.white_to_move, shift) & v.en_passant_target,
                pawn_fn(v, v.white_to_move, dist, FLAG_EN_PASSANT, 2, false),
            ).len() ==> move_shape_ok(
                v,
                #[trigger] walk(
                    fwd(own_pawns(v) & m, v.white_to_move, shift) & v.en_passant_target,
                    pawn_fn(v, v.white_to_move, dist, FLAG_EN_PASSANT, 2, false),
                )[k],
            ),
{
    let w = v.white_to_move;
    let p = own_pawns(v);
    let ep = v.en_passant_target;
    let targets = fwd(p & m, w, shift) & ep;
    let f = pawn_fn(v, w, dist, FLAG_EN_PASSANT, 2, false);
    let ok = |mv: Move| v.move_ok(mv) && is_tactical_move(mv) && move_shape_ok(v, mv);
    assert forall|t: u32, k: int| t < 64 && has_bit(targets, t as int) && 0 <= k < f(t).len() implies ok(
        #[trigger] f(t)[k],
    ) by {
        lemma_fwd_bound(p & m, ep, w, shift, t as int);
        let u: int = if w {
            t - dist
        } else {
            t + dist
        };
        lemma_bit_logic(p, m, u as u64);
        lemma_own_pawn(v, u);
        lemma_pawn_fn_ok(v, t, dist, FLAG_EN_PASSANT, 2, false);
    }
    lemma_walk_all(targets, f, ok);
}

/// The pawn moves the generator produces on a consistent board can be made.
pub proof fn lemma_pawn_moves_ok(v: BoardView, quiet: bool)
    requires
        v.wf(),
    ensures
        forall|k: int|
            0 <= k < pawn_moves_spec(v, !occupied(v), v.bitboards[v.enemy_color()], quiet).len() ==> v.move_ok(
                #[trigger] pawn_moves_spec(v, !occupied(v), v.bitboards[v.enemy_color()], quiet)[k],
            ),
        forall|k: int|
            0 <= k < pawn_moves_spec(v, !occupied(v), v.bitboards[v.enemy_color()], quiet).len() ==> move_shape_ok(
                v,
                #[trigger] pawn_moves_spec(v, !occupied(v), v.bitboards[v.enemy_color()], quiet)[k],
            ),
{
    let ok = |m: Move| v.move_ok(m) && move_shape_ok(v, m);
    let w = v.white_to_move;
    let pushes: Seq<Move> = if quiet {
        pawn_push_moves(v, !occupied(v))
    } else {
        Seq::empty()
    };
    lemma_pawn_push_ok(v);
    lemma_pawn_capture_ok(v);
    if v.en_passant_target != 0 {
        lemma_en_passant_side_ok(v, right_mask(w), 9, 9);
        lemma_en_passant_side_ok(v, left_mask(w), 7, 7);
        let p = own_pawns(v);
        let ep = v.en_passant_target;
        lemma_concat_all(
            walk(fwd(p & right_mask(w), w, 9) & ep, pawn_fn(v, w, 9, FLAG_EN_PASSANT, 2, false)),
            walk(fwd(p & left_mask(w), w, 7) & ep, pawn_fn(v, w, 7, FLAG_EN_PASSANT, 2, false)),
            ok,
        );
    }
    let caps = pawn_capture_moves(v, !occupied(v), v.bitboards[v.enemy_color()]);
    lemma_concat_all(pushes, caps, ok);
    lemma_concat_all(pushes + caps, pawn_en_passant_moves(v), ok);
}

/// Filtering keeps a sequence whole when every item passes.
proof fn lemma_filter_all<A>(s: Seq<A>, p: spec_fn(A) -> bool)
    requires
        forall|k: int| 0 <= k < s.len() ==> p(#[trigger] s[k]),
    ensures
        s.filter(p) == s,
    decreases s.len(),
{
    reveal(Seq::filter);
    if s.len() > 0 {
        lemma_filter_all(s.drop_last(), p);
        assert(p(s[s.len() - 1]));
        assert(s.drop_last().push(s.last()) =~= s);
    }
}

/// Filtering empties a sequence when no item passes.
proof fn lemma_filter_none<A>(s: Seq<A>, p: spec_fn(A) -> bool)
    requires
        forall|k: int| 0 <= k < s.len() ==> !p(#[trigger] s[k]),
    ensures
        s.filter(p) == Seq::<A>::empty(),
    decreases s.len(),
{
    reveal(Seq::filter);
    if s.len() > 0 {
        lemma_filter_none(s.drop_last(), p);
        assert(!p(s[s.len() - 1]));
    }
}

/// On a consistent board, the tactical pawn moves are the pawn moves that capture, take en
/// passant or promote, in the order of the full list: the quiet pushes are exactly what is
/// left out.
#[verifier::rlimit(40)]
#[verifier::spinoff_prover]
pub proof fn lemma_tactical_pawn_moves_filter(v: BoardView)
    requires
        v.wf(),
    ensures
        pawn_moves_spec(v, !occupied(v), v.bitboards[v.enemy_color()], false) == pawn_moves_spec(
            v,
            !occupied(v),
            v.bitboards[v.enemy_color()],
            true,
        ).filter(|m: Move| is_tactical_move(m)),
{
    let e = !occupied(v);
    let en = v.bitboards[v.enemy_color()];
    let w = v.white_to_move;
    let pushes = pawn_push_moves(v, e);
    let caps = pawn_capture_moves(v, e, en);
    let eps = pawn_en_passant_moves(v);
    let p = |m: Move| is_tactical_move(m);
    lemma_pawn_push_ok(v);
    lemma_pawn_capture_ok(v);
    if v.en_passant_target != 0 {
        lemma_en_passant_side_ok(v, right_mask(w), 9, 9);
        lemma_en_passant_side_ok(v, left_mask(w), 7, 7);
        let own = own_pawns(v);
        let ep = v.en_passant_target;
        lemma_concat_all(
            walk(fwd(own & right_mask(w), w, 9) & ep, pawn_fn(v, w, 9, FLAG_EN_PASSANT, 2, false)),
            walk(fwd(own & left_mask(w), w, 7) & ep, pawn_fn(v, w, 7, FLAG_EN_PASSANT, 2, false)),
            p,
        );
    }
    lemma_filter_none(pushes, p);
    lemma_filter_all(caps, p);
    lemma_filter_all(eps, p);
    Seq::filter_distributes_over_add(pushes, caps, p);
    Seq::filter_distributes_over_add(pushes + caps, eps, p);
    assert(Seq::<Move>::empty() + caps + eps =~= caps + eps);
    assert(Seq::<Move>::empty() + caps =~= caps);
}

/// Every pseudo-legal move the generator produces on a consistent board can be made on it:
/// the piece stands on its start square, the captured piece on its target (or behind it, en
/// passant), and the squares a double push or castling passes are as the move needs.
pub proof fn lemma_pseudo_legal_moves_ok(v: BoardView, mb: MagicBitBoards)
    requires
        v.wf(),
    ensures
        forall|k: int|
            0 <= k < pseudo_legal_moves(v, mb).len() ==> v.move_ok(#[trigger] pseudo_legal_moves(v, mb)[k]),
        forall|k: int|
            0 <= k < pseudo_legal_moves(v, mb).len() ==> move_shape_ok(v, #[trigger] pseudo_legal_moves(v, mb)[k]),
{
    let ok = |m: Move| v.move_ok(m) && move_shape_ok(v, m);
    let occ = occupied(v);
    let no = not_own(v);
    assert forall|t: int| 0 <= t < 64 && has_bit(no, t) implies !v.own_at(t) by {
        lemma_square_facts(v, t);
    }
    lemma_pawn_moves_ok(v, true);
    lemma_piece_moves_ok(v, 1, leaper_fn(1), no);
    assert forall|s: u32, t: u32|
        s < 64 && t < 64 && #[trigger] has_bit(leaper_fn(KINGS as int)(s), t as int) implies t != s + 2 && s != t + 2 by {
        lemma_king_attacks(s as u64, t as u64);
    }
    lemma_piece_moves_ok(v, KINGS as int, leaper_fn(KINGS as int), no);
    lemma_castling_ok(v, mb);
    lemma_piece_moves_ok(v, 2, slider_fn(mb, 2, occ), no);
    lemma_piece_moves_ok(v, 3, slider_fn(mb, 3, occ), no);
    lemma_piece_moves_ok(v, 4, slider_fn(mb, 4, occ), no);
    let a = pawn_moves_spec(v, !occ, v.bitboards[v.enemy_color()], true);
    let b = piece_moves(v, 1, leaper_fn(1), no);
    let c = king_moves_spec(v, mb, occ);
    lemma_concat_all(piece_moves(v, KINGS as int, leaper_fn(KINGS as int), no), castling_moves(v, mb, occ), ok);
    let d = piece_moves(v, 2, slider_fn(mb, 2, occ), no);
    let e = piece_moves(v, 3, slider_fn(mb, 3, occ), no);
    let f = piece_moves(v, 4, slider_fn(mb, 4, occ), no);
    lemma_concat_all(a, b, ok);
    lemma_concat_all(a + b, c, ok);
    lemma_concat_all(a + b + c, d, ok);
    lemma_concat_all(a + b + c + d, e, ok);
    lemma_concat_all(a + b + c + d + e, f, ok);
}

/// Every tactical move the generator produces on a consistent board can be made on it.
pub proof fn lemma_tactical_moves_ok(v: BoardView, mb: MagicBitBoards)
    requires
        v.wf(),
    ensures
        forall|k: int| 0 <= k < tactical_moves(v, mb).len() ==> v.move_ok(#[trigger] tactical_moves(v, mb)[k]),
{
    let ok = |m: Move| v.move_ok(m);
    let occ = occupied(v);
    let en = v.bitboards[v.enemy_color()];
    assert forall|t: int| 0 <= t < 64 && has_bit(en, t) implies !v.own_at(t) by {
        lemma_square_facts(v, t);
    }
    lemma_pawn_moves_ok(v, false);
    lemma_piece_moves_ok(v, 1, leaper_fn(1), en);
    lemma_piece_moves_ok(v, KINGS as int, leaper_fn(KINGS as int), en);
    lemma_piece_moves_ok(v, 2, slider_fn(mb, 2, occ), en);
    lemma_piece_moves_ok(v, 3, slider_fn(mb, 3, occ), en);
    lemma_piece_moves_ok(v, 4, slider_fn(mb, 4, occ), en);
    let a = piece_moves(v, 1, leaper_fn(1), en);
    let b = piece_moves(v, KINGS as int, leaper_fn(KINGS as int), en);
    let c = piece_moves(v, 2, slider_fn(mb, 2, occ), en);
    let d = piece_moves(v, 3, slider_fn(mb, 3, occ), en);
    let e = piece_moves(v, 4, slider_fn(mb, 4, occ), en);
    lemma_concat_all(a, b, ok);
    lemma_concat_all(a + b, c, ok);
    lemma_concat_all(a + b + c, d, ok);
    lemma_concat_all(a + b + c + d, e, ok);
    lemma_concat_all(pawn_moves_spec(v, !occ, en, false), tactical_piece_moves_spec(v, mb, occ, en), ok);
}

/// A move that `move_ok` accepts on a consistent board can be made (given room in the
/// half-move clock) and scored.
pub proof fn lemma_move_ok_makeable(v: BoardView, m: Move)
    requires
        v.wf(),
        v.move_ok(m),
    ensures
        v.halfmove_clock < u32::MAX ==> v.can_make(m),
        scorable(m),
{
    lemma_eval_bounds(v);
    m.lemma_fields_bounded();
}

/// A move of one of the side's knights or its king onto a square it attacks and the side
/// does not hold is among the moves of that piece kind.
proof fn lemma_leaper_move_listed(v: BoardView, piece: int, s: u32, t: u32)
    requires
        v.mailbox_ok(),
        piece == KNIGHTS || piece == KINGS,
        s < 64,
        t < 64,
        v.pieces[s as int] == piece,
        v.own_at(s as int),
        has_bit(leaper_fn(piece)(s), t as int),
        !v.own_at(t as int),
    ensures
        piece_moves(v, piece, leaper_fn(piece), not_own(v)).contains(
            Move::spec_new(s, t, 0, piece as u32, v.pieces[t as int] as u32),
        ),
{
    let no = not_own(v);
    let pieces = v.bitboards[piece] & v.bitboards[v.own_color()];
    let attacks = leaper_fn(piece)(s) & no;
    lemma_square_facts(v, s as int);
    lemma_square_facts(v, t as int);
    lemma_bit_logic(v.bitboards[piece], v.bitboards[v.own_color()], s as u64);
    lemma_bit_logic(leaper_fn(piece)(s), no, t as u64);
    let g = target_moves(v, s, piece);
    let m = Move::spec_new(s, t, 0, piece as u32, v.pieces[t as int] as u32);
    assert(g(t)[0] == m);
    lemma_walk_contains(attacks, g, t, 0);
    let f = piece_fn(v, piece, leaper_fn(piece), no);
    let fs = f(s);
    assert(fs == walk(attacks, g));
    let j = choose|j: int| 0 <= j < fs.len() && #[trigger] fs[j] == m;
    lemma_walk_contains(pieces, f, s, j);
}

/// Every knight jump of the side to move onto a square it does not hold is generated.
pub proof fn lemma_knight_moves_complete(v: BoardView, mb: MagicBitBoards, s: u32, t: u32)
    requires
        v.wf(),
        s < 64,
        t < 64,
        v.pieces[s as int] == KNIGHTS,
        v.own_at(s as int),
        knight_jump(s as u64, t as u64),
        !v.own_at(t as int),
    ensures
        pseudo_legal_moves(v, mb).contains(Move::spec_new(s, t, 0, KNIGHTS as u32, v.pieces[t as int] as u32)),
{
    lemma_knight_attacks(s as u64, t as u64);
    lemma_leaper_move_listed(v, KNIGHTS as int, s, t);
    let occ = occupied(v);
    let no = not_own(v);
    let a = pawn_moves_spec(v, !occ, v.bitboards[v.enemy_color()], true);
    let b = piece_moves(v, KNIGHTS as int, leaper_fn(KNIGHTS as int), no);
    let rest = king_moves_spec(v, mb, occ) + piece_moves(v, 2, slider_fn(mb, 2, occ), no) + piece_moves(
        v,
        3,
        slider_fn(mb, 3, occ),
        no,
    ) + piece_moves(v, 4, slider_fn(mb, 4, occ), no);
    let m = Move::spec_new(s, t, 0, KNIGHTS as u32, v.pieces[t as int] as u32);
    let j = choose|j: int| 0 <= j < b.len() && #[trigger] b[j] == m;
    assert(pseudo_legal_moves(v, mb) =~= a + b + rest);
    assert((a + b + rest)[a.len() + j] == m);
}

/// Every king step of the side to move onto a square it does not hold is generated.
pub proof fn lemma_king_moves_complete(v: BoardView, mb: MagicBitBoards, s: u32, t: u32)
    requires
        v.wf(),
        s < 64,
        t < 64,
        v.pieces[s as int] == KINGS,
        v.own_at(s as int),
        king_step(s as u64, t as u64),
        !v.own_at(t as int),
    ensures
        pseudo_legal_moves(v, mb).contains(Move::spec_new(s, t, 0, KINGS as u32, v.pieces[t as int] as u32)),
{
    lemma_king_attacks(s as u64, t as u64);
    lemma_leaper_move_listed(v, KINGS as int, s, t);
    let occ = occupied(v);
    let no = not_own(v);
    let a = pawn_moves_spec(v, !occ, v.bitboards[v.enemy_color()], true) + piece_moves(
        v,
        KNIGHTS as int,
        leaper_fn(KNIGHTS as int),
        no,
    );
    let k = piece_moves(v, KINGS as int, leaper_fn(KINGS as int), no);
    let c = castling_moves(v, mb, occ);
    let rest = piece_moves(v, 2, slider_fn(mb, 2, occ), no) + piece_moves(v, 3, slider_fn(mb, 3, occ), no)
        + piece_moves(v, 4, slider_fn(mb, 4, occ), no);
    let m = Move::spec_new(s, t, 0, KINGS as u32, v.pieces[t as int] as u32);
    let j = choose|j: int| 0 <= j < k.len() && #[trigger] k[j] == m;
    assert(pseudo_legal_moves(v, mb) =~= a + (k + c) + rest);
    assert((a + (k + c) + rest)[a.len() + j] == m);
}

proof fn lemma_edge_masks(u: u64)
    by (bit_vector)
    requires
        u < 64,
    ensures
        (RANK_8 >> u) & 1u64 == 1u64 <==> u >= 56,
        (RANK_1 >> u) & 1u64 == 1u64 <==> u < 8,
        (ZERO_H_FILE >> u) & 1u64 == 1u64 <==> u % 8 != 7,
        (ZERO_A_FILE >> u) & 1u64 == 1u64 <==> u % 8 != 0,
{
}

/// Whatever one part of a concatenation contains, the whole contains.
proof fn lemma_concat_contains<A>(a: Seq<A>, b: Seq<A>, x: A)
    ensures
        a.contains(x) ==> (a + b).contains(x),
        b.contains(x) ==> (a + b).contains(x),
{
    if a.contains(x) {
        let j = choose|j: int| 0 <= j < a.len() && a[j] == x;
        assert((a + b)[j] == x);
    }
    if b.contains(x) {
        let j = choose|j: int| 0 <= j < b.len() && b[j] == x;
        assert((a + b)[a.len() + j] == x);
    }
}

/// The square `k` squares ahead of `s` for the side to move.
pub open spec fn ahead(white: bool, s: int, k: int) -> int {
    if white {
        s + k
    } else {
        s - k
    }
}

/// Whether `s` lies on the rank the side's pawns start from.
pub open spec fn pawn_home(white: bool, s: int) -> bool {
    if white {
        8 <= s < 16
    } else {
        48 <= s < 56
    }
}

/// Whether `t` lies on the rank where the side's pawns promote.
pub open spec fn promotion_rank(white: bool, t: int) -> bool {
    if white {
        t >= 56
    } else {
        t < 8
    }
}

/// A pawn move the generator lists, given the target square's membership in the walked set.
proof fn lemma_pawn_listed(v: BoardView, targets: u64, dist: u32, flags: u32, mode: int, promote: bool, t: u32, k: int)
    requires
        t < 64,
        has_bit(targets, t as int),
        0 <= k < pawn_fn(v, v.white_to_move, dist, flags, mode, promote)(t).len(),
    ensures
        walk(targets, pawn_fn(v, v.white_to_move, dist, flags, mode, promote)).contains(
            pawn_fn(v, v.white_to_move, dist, flags, mode, promote)(t)[k],
        ),
{
    lemma_walk_contains(targets, pawn_fn(v, v.white_to_move, dist, flags, mode, promote), t, k);
}

/// A pawn move the pawn part lists is among the pseudo-legal moves.
proof fn lemma_pawn_part_listed(v: BoardView, mb: MagicBitBoards, x: Move)
    requires
        pawn_moves_spec(v, !occupied(v), v.bitboards[v.enemy_color()], true).contains(x),
    ensures
        pseudo_legal_moves(v, mb).contains(x),
{
    let occ = occupied(v);
    let no = not_own(v);
    let a = pawn_moves_spec(v, !occ, v.bitboards[v.enemy_color()], true);
    let b = piece_moves(v, KNIGHTS as int, leaper_fn(KNIGHTS as int), no);
    let c = king_moves_spec(v, mb, occ);
    let d = piece_moves(v, 2, slider_fn(mb, 2, occ), no);
    let e = piece_moves(v, 3, slider_fn(mb, 3, occ), no);
    let f = piece_moves(v, 4, slider_fn(mb, 4, occ), no);
    lemma_concat_contains(a, b, x);
    lemma_concat_contains(a + b, c, x);
    lemma_concat_contains(a + b + c, d, x);
    lemma_concat_contains(a + b + c + d, e, x);
    lemma_concat_contains(a + b + c + d + e, f, x);
}

/// A single push onto an empty square short of the last rank is in the walked push set, and
/// so is a double push from the home rank over two empty squares.
proof fn lemma_push_targets(v: BoardView, s: u32)
    requires
        v.wf(),
        s < 64,
        v.pieces[s as int] == PAWNS,
        v.own_at(s as int),
        0 <= ahead(v.white_to_move, s as int, 8) < 64,
        !promotion_rank(v.white_to_move, ahead(v.white_to_move, s as int, 8)),
        v.pieces[ahead(v.white_to_move, s as int, 8)] == EMPTY_SQUARE,
    ensures
        ({
            let w = v.white_to_move;
            let single = (fwd(own_pawns(v), w, 8) & !occupied(v)) & !last_rank(w);
            &&& has_bit(single, ahead(w, s as int, 8))
            &&& (pawn_home(w, s as int) && v.pieces[ahead(w, s as int, 16)] == EMPTY_SQUARE ==> has_bit(
                fwd(single & third_rank(w), w, 8) & !occupied(v),
                ahead(w, s as int, 16),
            ))
        }),
{
    let w = v.white_to_move;
    let p = own_pawns(v);
    let empty = !occupied(v);
    let lr = last_rank(w);
    let t1 = ahead(w, s as int, 8);
    let single = (fwd(p, w, 8) & empty) & !lr;
    lemma_bit_logic(v.bitboards[PAWNS as int], v.bitboards[v.own_color()], s as u64);
    lemma_square_facts(v, s as int);
    lemma_square_facts(v, t1);
    lemma_edge_masks(t1 as u64);
    lemma_shift_bits(p, 8, t1 as u64);
    lemma_bit_logic(fwd(p, w, 8), empty, t1 as u64);
    lemma_bit_logic(fwd(p, w, 8) & empty, !lr, t1 as u64);
    lemma_bit_logic(lr, lr, t1 as u64);
    if pawn_home(w, s as int) && v.pieces[ahead(w, s as int, 16)] == EMPTY_SQUARE {
        let t2 = ahead(w, s as int, 16);
        lemma_square_facts(v, t2);
        lemma_rank_bits(t1 as u64);
        lemma_bit_logic(single, third_rank(w), t1 as u64);
        lemma_shift_bits(single & third_rank(w), 8, t2 as u64);
        lemma_bit_logic(fwd(single & third_rank(w), w, 8), empty, t2 as u64);
    }
}

/// Every single push of a pawn of the side to move onto an empty square short of the last
/// rank, and every double push from the home rank over two empty squares, is generated.
pub proof fn lemma_pawn_pushes_complete(v: BoardView, mb: MagicBitBoards, s: u32)
    requires
        v.wf(),
        s < 64,
        v.pieces[s as int] == PAWNS,
        v.own_at(s as int),
        0 <= ahead(v.white_to_move, s as int, 8) < 64,
        !promotion_rank(v.white_to_move, ahead(v.white_to_move, s as int, 8)),
        v.pieces[ahead(v.white_to_move, s as int, 8)] == EMPTY_SQUARE,
    ensures
        pseudo_legal_moves(v, mb).contains(
            Move::spec_new(s, ahead(v.white_to_move, s as int, 8) as u32, 0, PAWNS as u32, EMPTY_SQUARE as u32),
        ),
        pawn_home(v.white_to_move, s as int) && v.pieces[ahead(v.white_to_move, s as int, 16)] == EMPTY_SQUARE
            ==> pseudo_legal_moves(v, mb).contains(
            Move::spec_new(
                s,
                ahead(v.white_to_move, s as int, 16) as u32,
                FLAG_DOUBLE_PUSH,
                PAWNS as u32,
                EMPTY_SQUARE as u32,
            ),
        ),
{
    let w = v.white_to_move;
    let empty = !occupied(v);
    let single = (fwd(own_pawns(v), w, 8) & empty) & !last_rank(w);
    let double_set = fwd(single & third_rank(w), w, 8) & empty;
    let f1 = pawn_fn(v, w, 8, 0, 0, false);
    let f2 = pawn_fn(v, w, 16, FLAG_DOUBLE_PUSH, 0, false);
    let pushes = pawn_push_moves(v, empty);
    let caps = pawn_capture_moves(v, empty, v.bitboards[v.enemy_color()]);
    let eps = pawn_en_passant_moves(v);
    lemma_push_targets(v, s);
    let t1 = ahead(w, s as int, 8) as u32;
    lemma_pawn_listed(v, single, 8, 0, 0, false, t1, 0);
    let x1 = f1(t1)[0];
    lemma_concat_contains(walk(single, f1), walk(double_set, f2), x1);
    lemma_concat_contains(pushes, caps, x1);
    lemma_concat_contains(pushes + caps, eps, x1);
    lemma_pawn_part_listed(v, mb, x1);
    if pawn_home(w, s as int) && v.pieces[ahead(w, s as int, 16)] == EMPTY_SQUARE {
        let t2 = ahead(w, s as int, 16) as u32;
        lemma_pawn_listed(v, double_set, 16, FLAG_DOUBLE_PUSH, 0, false, t2, 0);
        let x2 = f2(t2)[0];
        lemma_concat_contains(walk(single, f1), walk(double_set, f2), x2);
        lemma_concat_contains(pushes, caps, x2);
        lemma_concat_contains(pushes + caps, eps, x2);
        lemma_pawn_part_listed(v, mb, x2);
    }
}

/// A diagonal capture target of the pawn on `s` is in the walked capture set of its side
/// (`d` squares ahead, 9 or 7), short of or on the last rank as the target lies.
proof fn lemma_capture_targets(v: BoardView, s: u32, t: u32, d: u64)
    requires
        v.wf(),
        s < 64,
        t < 64,
        v.pieces[s as int] == PAWNS,
        v.own_at(s as int),
        v.enemy_at(t as int),
        d == 9 || d == 7,
        t as int == ahead(v.white_to_move, s as int, d as int),
        t % 8 == s % 8 + 1 || t % 8 + 1 == s % 8,
    ensures
        ({
            let w = v.white_to_move;
            let mask = if d == 9 {
                right_mask(w)
            } else {
                left_mask(w)
            };
            let c = fwd(own_pawns(v) & mask, w, d) & v.bitboards[v.enemy_color()];
            &&& !promotion_rank(w, t as int) ==> has_bit(c & !last_rank(w), t as int)
            &&& promotion_rank(w, t as int) ==> has_bit(c & last_rank(w), t as int)
        }),
{
    let w = v.white_to_move;
    let p = own_pawns(v);
    let mask = if d == 9 {
        right_mask(w)
    } else {
        left_mask(w)
    };
    let enemies = v.bitboards[v.enemy_color()];
    let lr = last_rank(w);
    lemma_bit_logic(v.bitboards[PAWNS as int], v.bitboards[v.own_color()], s as u64);
    lemma_square_facts(v, s as int);
    lemma_square_facts(v, t as int);
    lemma_edge_masks(s as u64);
    lemma_edge_masks(t as u64);
    assert(has_bit(mask, s as int));
    lemma_bit_logic(p, mask, s as u64);
    lemma_shift_bits(p & mask, d, t as u64);
    assert(has_bit(fwd(p & mask, w, d), t as int));
    lemma_bit_logic(fwd(p & mask, w, d), enemies, t as u64);
    let c = fwd(p & mask, w, d) & enemies;
    lemma_bit_logic(c, lr, t as u64);
    lemma_bit_logic(c, !lr, t as u64);
    lemma_bit_logic(lr, lr, t as u64);
}

/// Every diagonal capture of an enemy piece by a pawn of the side to move is generated:
/// one move short of the last rank, the four promotions on it.
pub proof fn lemma_pawn_captures_complete(v: BoardView, mb: MagicBitBoards, s: u32, t: u32)
    requires
        v.wf(),
        s < 64,
        t < 64,
        v.pieces[s as int] == PAWNS,
        v.own_at(s as int),
        v.enemy_at(t as int),
        t as int == ahead(v.white_to_move, s as int, 9) || t as int == ahead(v.white_to_move, s as int, 7),
        t % 8 == s % 8 + 1 || t % 8 + 1 == s % 8,
    ensures
        !promotion_rank(v.white_to_move, t as int) ==> pseudo_legal_moves(v, mb).contains(
            Move::spec_new(s, t, 0, PAWNS as u32, v.pieces[t as int] as u32),
        ),
        promotion_rank(v.white_to_move, t as int) ==> {
            &&& pseudo_legal_moves(v, mb).contains(
                Move::spec_new(s, t, FLAG_PROMOTE_QUEEN, PAWNS as u32, v.pieces[t as int] as u32),
            )
            &&& pseudo_legal_moves(v, mb).contains(
                Move::spec_new(s, t, FLAG_PROMOTE_ROOK, PAWNS as u32, v.pieces[t as int] as u32),
            )
            &&& pseudo_legal_moves(v, mb).contains(
                Move::spec_new(s, t, FLAG_PROMOTE_BISHOP, PAWNS as u32, v.pieces[t as int] as u32),
            )
            &&& pseudo_legal_moves(v, mb).contains(
                Move::spec_new(s, t, FLAG_PROMOTE_KNIGHT, PAWNS as u32, v.pieces[t as int] as u32),
            )
        },
{
    let w = v.white_to_move;
    let d: u64 = if t as int == ahead(w, s as int, 9) {
        9
    } else {
        7
    };
    lemma_capture_targets(v, s, t, d);
    let p = own_pawns(v);
    let empty = !occupied(v);
    let enemies = v.bitboards[v.enemy_color()];
    let lr = last_rank(w);
    let rc0 = fwd(p & right_mask(w), w, 9) & enemies;
    let lc0 = fwd(p & left_mask(w), w, 7) & enemies;
    let a = walk(rc0 & !lr, pawn_fn(v, w, 9, 0, 1, false));
    let b = walk(lc0 & !lr, pawn_fn(v, w, 7, 0, 1, false));
    let c = walk((fwd(p, w, 8) & empty) & lr, pawn_fn(v, w, 8, 0, 0, true));
    let dd = walk(rc0 & lr, pawn_fn(v, w, 9, 0, 1, true));
    let e = walk(lc0 & lr, pawn_fn(v, w, 7, 0, 1, true));
    let caps = pawn_capture_moves(v, empty, enemies);
    assert(caps == a + b + c + dd + e);
    let pushes = pawn_push_moves(v, empty);
    let eps = pawn_en_passant_moves(v);
    let promote = promotion_rank(w, t as int);
    let f = pawn_fn(v, w, d as u32, 0, 1, promote);
    assert(pawn_start(w, d as u32, t) == s);
    let count: int = if promote {
        4
    } else {
        1
    };
    assert forall|k: int| 0 <= k < count implies pseudo_legal_moves(v, mb).contains(#[trigger] f(t)[k]) by {
        let x = f(t)[k];
        if d == 9 {
            if promote {
                lemma_pawn_listed(v, rc0 & lr, 9, 0, 1, true, t, k);
                lemma_concat_contains(a + b + c, dd, x);
                lemma_concat_contains(a + b + c + dd, e, x);
            } else {
                lemma_pawn_listed(v, rc0 & !lr, 9, 0, 1, false, t, k);
                lemma_concat_contains(a, b, x);
                lemma_concat_contains(a + b, c, x);
                lemma_concat_contains(a + b + c, dd, x);
                lemma_concat_contains(a + b + c + dd, e, x);
            }
        } else {
            if promote {
                lemma_pawn_listed(v, lc0 & lr, 7, 0, 1, true, t, k);
                lemma_concat_contains(a + b + c + dd, e, x);
            } else {
                lemma_pawn_listed(v, lc0 & !lr, 7, 0, 1, false, t, k);
                lemma_concat_contains(a, b, x);
                lemma_concat_contains(a + b, c, x);
                lemma_concat_contains(a + b + c, dd, x);
                lemma_concat_contains(a + b + c + dd, e, x);
            }
        }
        lemma_concat_contains(pushes, caps, x);
        lemma_concat_contains(pushes + caps, eps, x);
        lemma_pawn_part_listed(v, mb, x);
    }
    if promote {
        assert(pseudo_legal_moves(v, mb).contains(f(t)[0]));
        assert(pseudo_legal_moves(v, mb).contains(f(t)[1]));
        assert(pseudo_legal_moves(v, mb).contains(f(t)[2]));
        assert(pseudo_legal_moves(v, mb).contains(f(t)[3]));
    } else {
        assert(pseudo_legal_moves(v, mb).contains(f(t)[0]));
    }
}

/// Every push of a pawn of the side to move onto an empty square of the last rank is
/// generated as the four promotions.
pub proof fn lemma_pawn_promotions_complete(v: BoardView, mb: MagicBitBoards, s: u32)
    requires
        v.wf(),
        s < 64,
        v.pieces[s as int] == PAWNS,
        v.own_at(s as int),
        0 <= ahead(v.white_to_move, s as int, 8) < 64,
        promotion_rank(v.white_to_move, ahead(v.white_to_move, s as int, 8)),
        v.pieces[ahead(v.white_to_move, s as int, 8)] == EMPTY_SQUARE,
    ensures
        ({
            let t = ahead(v.white_to_move, s as int, 8) as u32;
            &&& pseudo_legal_moves(v, mb).contains(
                Move::spec_new(s, t, FLAG_PROMOTE_QUEEN, PAWNS as u32, EMPTY_SQUARE as u32),
            )
            &&& pseudo_legal_moves(v, mb).contains(
                Move::spec_new(s, t, FLAG_PROMOTE_ROOK, PAWNS as u32, EMPTY_SQUARE as u32),
            )
            &&& pseudo_legal_moves(v, mb).contains(
                Move::spec_new(s, t, FLAG_PROMOTE_BISHOP, PAWNS as u32, EMPTY_SQUARE as u32),
            )
            &&& pseudo_legal_moves(v, mb).contains(
                Move::spec_new(s, t, FLAG_PROMOTE_KNIGHT, PAWNS as u32, EMPTY_SQUARE as u32),
            )
        }),
{
    let w = v.white_to_move;
    let t = ahead(w, s as int, 8) as u32;
    let p = own_pawns(v);
    let empty = !occupied(v);
    let enemies = v.bitboards[v.enemy_color()];
    let lr = last_rank(w);
    let targets = (fwd(p, w, 8) & empty) & lr;
    lemma_bit_logic(v.bitboards[PAWNS as int], v.bitboards[v.own_color()], s as u64);
    lemma_square_facts(v, s as int);
    lemma_square_facts(v, t as int);
    lemma_edge_masks(t as u64);
    lemma_shift_bits(p, 8, t as u64);
    lemma_bit_logic(fwd(p, w, 8), empty, t as u64);
    lemma_bit_logic(fwd(p, w, 8) & empty, lr, t as u64);
    assert(has_bit(targets, t as int));
    let rc0 = fwd(p & right_mask(w), w, 9) & enemies;
    let lc0 = fwd(p & left_mask(w), w, 7) & enemies;
    let a = walk(rc0 & !lr, pawn_fn(v, w, 9, 0, 1, false));
    let b = walk(lc0 & !lr, pawn_fn(v, w, 7, 0, 1, false));
    let c = walk(targets, pawn_fn(v, w, 8, 0, 0, true));
    let dd = walk(rc0 & lr, pawn_fn(v, w, 9, 0, 1, true));
    let e = walk(lc0 & lr, pawn_fn(v, w, 7, 0, 1, true));
    let caps = pawn_capture_moves(v, empty, enemies);
    assert(caps == a + b + c + dd + e);
    let pushes = pawn_push_moves(v, empty);
    let eps = pawn_en_passant_moves(v);
    let f = pawn_fn(v, w, 8, 0, 0, true);
    assert(pawn_start(w, 8, t) == s);
    assert forall|k: int| 0 <= k < 4 implies pseudo_legal_moves(v, mb).contains(#[trigger] f(t)[k]) by {
        let x = f(t)[k];
        lemma_pawn_listed(v, targets, 8, 0, 0, true, t, k);
        lemma_concat_contains(a + b, c, x);
        lemma_concat_contains(a + b + c, dd, x);
        lemma_concat_contains(a + b + c + dd, e, x);
        lemma_concat_contains(pushes, caps, x);
        lemma_concat_contains(pushes + caps, eps, x);
        lemma_pawn_part_listed(v, mb, x);
    }
    assert(pseudo_legal_moves(v, mb).contains(f(t)[0]));
    assert(pseudo_legal_moves(v, mb).contains(f(t)[1]));
    assert(pseudo_legal_moves(v, mb).contains(f(t)[2]));
    assert(pseudo_legal_moves(v, mb).contains(f(t)[3]));
}

/// Every en-passant capture onto the en-passant square by a pawn of the side to move
/// diagonally behind it is generated.
pub proof fn lemma_en_passant_complete(v: BoardView, mb: MagicBitBoards, s: u32, t: u32)
    requires
        v.wf(),
        s < 64,
        t < 64,
        v.pieces[s as int] == PAWNS,
        v.own_at(s as int),
        has_bit(v.en_passant_target, t as int),
        t as int == ahead(v.white_to_move, s as int, 9) || t as int == ahead(v.white_to_move, s as int, 7),
        t % 8 == s % 8 + 1 || t % 8 + 1 == s % 8,
    ensures
        pseudo_legal_moves(v, mb).contains(Move::spec_new(s, t, FLAG_EN_PASSANT, PAWNS as u32, PAWNS as u32)),
{
    let w = v.white_to_move;
    let d: u64 = if t as int == ahead(w, s as int, 9) {
        9
    } else {
        7
    };
    let p = own_pawns(v);
    let ep = v.en_passant_target;
    let mask = if d == 9 {
        right_mask(w)
    } else {
        left_mask(w)
    };
    lemma_bit_logic(v.bitboards[PAWNS as int], v.bitboards[v.own_color()], s as u64);
    lemma_square_facts(v, s as int);
    lemma_edge_masks(s as u64);
    lemma_bit_logic(p, mask, s as u64);
    lemma_shift_bits(p & mask, d, t as u64);
    lemma_bit_logic(fwd(p & mask, w, d), ep, t as u64);
    assert(ep != 0) by {
        assert((0u64 >> (t as u64)) & 1u64 == 0u64) by (bit_vector);
    }
    let empty = !occupied(v);
    let enemies = v.bitboards[v.enemy_color()];
    let x = Move::spec_new(s, t, FLAG_EN_PASSANT, PAWNS as u32, PAWNS as u32);
    let f9 = pawn_fn(v, w, 9, FLAG_EN_PASSANT, 2, false);
    let f7 = pawn_fn(v, w, 7, FLAG_EN_PASSANT, 2, false);
    let a = walk(fwd(p & right_mask(w), w, 9) & ep, f9);
    let b = walk(fwd(p & left_mask(w), w, 7) & ep, f7);
    let eps = pawn_en_passant_moves(v);
    assert(eps == a + b);
    if d == 9 {
        assert(pawn_start(w, 9, t) == s);
        lemma_pawn_listed(v, fwd(p & right_mask(w), w, 9) & ep, 9, FLAG_EN_PASSANT, 2, false, t, 0);
        assert(f9(t)[0] == x);
    } else {
        assert(pawn_start(w, 7, t) == s);
        lemma_pawn_listed(v, fwd(p & left_mask(w), w, 7) & ep, 7, FLAG_EN_PASSANT, 2, false, t, 0);
        assert(f7(t)[0] == x);
    }
    lemma_concat_contains(a, b, x);
    let pushes = pawn_push_moves(v, empty);
    let caps = pawn_capture_moves(v, empty, enemies);
    lemma_concat_contains(pushes + caps, eps, x);
    lemma_pawn_part_listed(v, mb, x);
}

/// Every castling move whose conditions hold (the right kept, the squares between king and
/// rook empty, and neither the king's square nor the two it crosses and lands on attacked)
/// is generated.
pub proof fn lemma_castling_complete(v: BoardView, mb: MagicBitBoards, x: Move)
    requires
        castling_moves(v, mb, occupied(v)).contains(x),
    ensures
        pseudo_legal_moves(v, mb).contains(x),
{
    let occ = occupied(v);
    let no = not_own(v);
    let a = pawn_moves_spec(v, !occ, v.bitboards[v.enemy_color()], true);
    let b = piece_moves(v, KNIGHTS as int, leaper_fn(KNIGHTS as int), no);
    let k = piece_moves(v, KINGS as int, leaper_fn(KINGS as int), no);
    let c = king_moves_spec(v, mb, occ);
    let d = piece_moves(v, 2, slider_fn(mb, 2, occ), no);
    let e = piece_moves(v, 3, slider_fn(mb, 3, occ), no);
    let f = piece_moves(v, 4, slider_fn(mb, 4, occ), no);
    lemma_concat_contains(k, castling_moves(v, mb, occ), x);
    lemma_concat_contains(a + b, c, x);
    lemma_concat_contains(a + b + c, d, x);
    lemma_concat_contains(a + b + c + d, e, x);
    lemma_concat_contains(a + b + c + d + e, f, x);
}

/// A move of a piece of the side to move to a square its attack set holds and it does not
/// occupy is among that piece type's moves.
proof fn lemma_piece_move_listed(v: BoardView, piece: int, attacks: spec_fn(u32) -> u64, s: u32, t: u32)
    requires
        v.mailbox_ok(),
        0 <= piece < 6,
        s < 64,
        t < 64,
        v.pieces[s as int] == piece,
        v.own_at(s as int),
        has_bit(attacks(s), t as int),
        !v.own_at(t as int),
    ensures
        piece_moves(v, piece, attacks, not_own(v)).contains(Move::spec_new(s, t, 0, piece as u32, v.pieces[t as int] as u32)),
{
    let no = not_own(v);
    let pieces = v.bitboards[piece] & v.bitboards[v.own_color()];
    let a = attacks(s) & no;
    lemma_square_facts(v, s as int);
    lemma_square_facts(v, t as int);
    lemma_bit_logic(v.bitboards[piece], v.bitboards[v.own_color()], s as u64);
    lemma_bit_logic(attacks(s), no, t as u64);
    let g = target_moves(v, s, piece);
    let m = Move::spec_new(s, t, 0, piece as u32, v.pieces[t as int] as u32);
    assert(g(t)[0] == m);
    lemma_walk_contains(a, g, t, 0);
    let f = piece_fn(v, piece, attacks, no);
    let fs = f(s);
    assert(fs == walk(a, g));
    let j = choose|j: int| 0 <= j < fs.len() && #[trigger] fs[j] == m;
    lemma_walk_contains(pieces, f, s, j);
}

/// Every move of a bishop, rook or queen of the side to move along its lines, up to and
/// including the first occupied square, onto a square it does not hold is generated.
pub proof fn lemma_slider_moves_complete(v: BoardView, mb: MagicBitBoards, s: u32, t: u32)
    requires
        v.wf(),
        mb.wf(),
        s < 64,
        t < 64,
        v.pieces[s as int] == BISHOPS || v.pieces[s as int] == ROOKS || v.pieces[s as int] == QUEENS,
        v.own_at(s as int),
        !v.own_at(t as int),
        v.pieces[s as int] != ROOKS ==> bishop_attacked(s as int, occupied(v), t as int) || (v.pieces[s as int]
            == QUEENS && rook_attacked(s as int, occupied(v), t as int)),
        v.pieces[s as int] == ROOKS ==> rook_attacked(s as int, occupied(v), t as int),
    ensures
        pseudo_legal_moves(v, mb).contains(
            Move::spec_new(s, t, 0, v.pieces[s as int] as u32, v.pieces[t as int] as u32),
        ),
{
    let occ = occupied(v);
    let no = not_own(v);
    let piece = v.pieces[s as int] as int;
    mb.lemma_lookups(s as int, occ);
    lemma_bit_logic(mb.bishop_lookup(s as int, occ), mb.rook_lookup(s as int, occ), t as u64);
    assert(has_bit(mb.rook_lookup(s as int, occ), t as int) == rook_attacked(s as int, occ, t as int));
    assert(has_bit(mb.bishop_lookup(s as int, occ), t as int) == bishop_attacked(s as int, occ, t as int));
    assert(has_bit(slider_fn(mb, piece, occ)(s), t as int));
    lemma_piece_move_listed(v, piece, slider_fn(mb, piece, occ), s, t);
    let m = Move::spec_new(s, t, 0, piece as u32, v.pieces[t as int] as u32);
    let a = pawn_moves_spec(v, !occ, v.bitboards[v.enemy_color()], true);
    let b = piece_moves(v, KNIGHTS as int, leaper_fn(KNIGHTS as int), no);
    let c = king_moves_spec(v, mb, occ);
    let d = piece_moves(v, 2, slider_fn(mb, 2, occ), no);
    let e = piece_moves(v, 3, slider_fn(mb, 3, occ), no);
    let f = piece_moves(v, 4, slider_fn(mb, 4, occ), no);
    lemma_concat_contains(a + b + c, d, m);
    lemma_concat_contains(a + b + c + d, e, m);
    lemma_concat_contains(a + b + c + d + e, f, m);
}

} // verus!
