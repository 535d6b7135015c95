use vstd::prelude::*;
use crate::bits::sq_bit;
use crate::board::{lemma_rows_ext, sum_squares, lemma_sum_update, lemma_sum_same, ep_file_key};
use crate::board::{make_null_move_spec, unmake_null_move_spec, lemma_position_frame,
    BoardView, make_move_spec, make_move_fields, make_move_bitboards, make_move_pieces,
    make_move_eval, make_move_phase, make_move_key, make_move_ep, make_move_castling, mm_meta,
    mm_capture, mm_move, mm_promote, mm_en_passant, mm_castle, mm_finish, um_main, um_castle,
    um_capture, unmake_move_spec, can_unmake, bit_row, bb_clear, bb_set, bb_toggle2,
    lemma_row_ops, is_promotion_flag, promoted_piece, is_castle_flag, castle_rook_start,
    castle_rook_target, EMPTY_SQUARE, PAWNS, ROOKS, FLAG_EN_PASSANT, FLAG_KING_CASTLE,
    FLAG_QUEEN_CASTLE, FLAG_DOUBLE_PUSH,
};
use crate::movedata::Move;
use crate::constants::CASTLING_RIGHTS_UPDATE_TABLE;
use vstd::std_specs::bits::{u64_trailing_zeros, axiom_u64_trailing_zeros};
use crate::zobrist::Zobrist;

verus! {

/// Under its preconditions, `make_move` changes each field as `make_move_fields` says.
pub proof fn lemma_make_move_fields(v: BoardView, m: Move, z: Zobrist)
    requires
        v.can_make(m),
    ensures
        make_move_spec(v, m, z) == make_move_fields(v, m, z),
{
    reveal(mm_meta);
    reveal(mm_capture);
    reveal(mm_move);
    reveal(mm_promote);
    reveal(mm_en_passant);
    reveal(mm_castle);
    reveal(mm_finish);
    m.lemma_fields_bounded();
    let t = m.target() as int;
    crate::board::lemma_pst_value_bound(v.pieces[t] as usize, t as usize, !v.white_to_move);
    crate::board::lemma_pst_value_bound(m.piece() as usize, m.start() as usize, v.white_to_move);
    crate::board::lemma_pst_value_bound(m.piece() as usize, t as usize, v.white_to_move);
    crate::board::lemma_pst_value_bound(PAWNS, t as usize, v.white_to_move);
    crate::board::lemma_pst_value_bound(promoted_piece(m.flags()) as usize, t as usize, v.white_to_move);
    let cs: int = if v.white_to_move { t - 8 } else { t + 8 };
    if m.flags() == FLAG_EN_PASSANT {
        crate::board::lemma_pst_value_bound(PAWNS, cs as usize, !v.white_to_move);
    }
    if is_castle_flag(m.flags()) {
        crate::board::lemma_pst_value_bound(ROOKS, castle_rook_start(m.flags(), t) as usize, v.white_to_move);
        crate::board::lemma_pst_value_bound(ROOKS, castle_rook_target(m.flags(), t) as usize, v.white_to_move);
    }
    let a = make_move_spec(v, m, z);
    let b = make_move_fields(v, m, z);
    assert(a.bitboards == b.bitboards);
    assert(a.pieces == b.pieces);
    assert(a.zobrist_key == b.zobrist_key);
    assert(a.incremental_eval == b.incremental_eval);
    assert(a.phase_weight == b.phase_weight);
}

pub open spec fn row_clear(r: Seq<bool>, i: int, a: int, sq: int) -> Seq<bool> {
    r.update(i, r[i] && sq != a)
}

pub open spec fn row_set(r: Seq<bool>, i: int, a: int, sq: int) -> Seq<bool> {
    r.update(i, r[i] || sq == a)
}

pub open spec fn row_toggle2(r: Seq<bool>, i: int, a: int, c: int, sq: int) -> Seq<bool> {
    r.update(i, r[i] != (sq == a || sq == c))
}

/// The bitboard row of square `sq` after `make_move`.
pub open spec fn make_row(v: BoardView, m: Move, sq: int) -> Seq<bool> {
    let s = m.start() as int;
    let t = m.target() as int;
    let p = m.piece() as int;
    let f = m.flags();
    let w = v.white_to_move;
    let me = v.own_color();
    let en = v.enemy_color();
    let c = v.pieces[t] as int;
    let cs: int = if w { t - 8 } else { t + 8 };
    let rs = castle_rook_start(f, t);
    let rt = castle_rook_target(f, t);
    let r0 = bit_row(v.bitboards, sq);
    let r1 = if v.pieces[t] != EMPTY_SQUARE {
        row_clear(row_clear(r0, c, t, sq), en, t, sq)
    } else {
        r0
    };
    let r2 = row_toggle2(row_toggle2(r1, p, s, t, sq), me, s, t, sq);
    let r3 = if is_promotion_flag(f) {
        row_set(row_clear(r2, PAWNS as int, t, sq), promoted_piece(f), t, sq)
    } else {
        r2
    };
    let r4 = if f == FLAG_EN_PASSANT {
        row_clear(row_clear(r3, PAWNS as int, cs, sq), en, cs, sq)
    } else {
        r3
    };
    if is_castle_flag(f) {
        row_toggle2(row_toggle2(r4, ROOKS as int, rs, rt, sq), me, rs, rt, sq)
    } else {
        r4
    }
}

pub proof fn lemma_make_row(v: BoardView, m: Move, sq: int)
    requires
        v.can_make(m),
        0 <= sq < 64,
    ensures
        bit_row(make_move_bitboards(v, m), sq) == make_row(v, m, sq),
{
    m.lemma_fields_bounded();
    let s = m.start() as int;
    let t = m.target() as int;
    let p = m.piece() as int;
    let f = m.flags();
    let w = v.white_to_move;
    let me = v.own_color();
    let en = v.enemy_color();
    let c = v.pieces[t] as int;
    let cs: int = if w { t - 8 } else { t + 8 };
    let rs = castle_rook_start(f, t);
    let rt = castle_rook_target(f, t);
    let b0 = v.bitboards;
    let b1 = if v.pieces[t] != EMPTY_SQUARE {
        lemma_row_ops(b0, c, t, t, sq);
        lemma_row_ops(bb_clear(b0, c, t), en, t, t, sq);
        bb_clear(bb_clear(b0, c, t), en, t)
    } else {
        b0
    };
    lemma_row_ops(b1, p, s, t, sq);
    lemma_row_ops(bb_toggle2(b1, p, s, t), me, s, t, sq);
    let b2 = bb_toggle2(bb_toggle2(b1, p, s, t), me, s, t);
    let b3 = if is_promotion_flag(f) {
        lemma_row_ops(b2, PAWNS as int, t, t, sq);
        lemma_row_ops(bb_clear(b2, PAWNS as int, t), promoted_piece(f), t, t, sq);
        bb_set(bb_clear(b2, PAWNS as int, t), promoted_piece(f), t)
    } else {
        b2
    };
    let b4 = if f == FLAG_EN_PASSANT {
        lemma_row_ops(b3, PAWNS as int, cs, cs, sq);
        lemma_row_ops(bb_clear(b3, PAWNS as int, cs), en, cs, cs, sq);
        bb_clear(bb_clear(b3, PAWNS as int, cs), en, cs)
    } else {
        b3
    };
    if is_castle_flag(f) {
        lemma_row_ops(b4, ROOKS as int, rs, rt, sq);
        lemma_row_ops(bb_toggle2(b4, ROOKS as int, rs, rt), me, rs, rt, sq);
    }
}

/// The bitboard row that a square holding `c` (white or not) has on a consistent board.
pub open spec fn canonical_row(c: u8, white: bool) -> Seq<bool> {
    Seq::new(
        8,
        |i: int|
            if i < 6 {
                c as int == i
            } else if c == EMPTY_SQUARE {
                false
            } else if i == 6 {
                white
            } else {
                !white
            },
    )
}

pub proof fn lemma_canonical(v: BoardView, sq: int)
    requires
        v.bitboards.len() == 8,
        0 <= sq < 64,
        v.pieces[sq] < 6 || v.pieces[sq] == EMPTY_SQUARE,
    ensures
        v.square_ok(sq) <==> bit_row(v.bitboards, sq) == canonical_row(v.pieces[sq], v.is_white_at(sq)),
{
    let r = bit_row(v.bitboards, sq);
    let k = canonical_row(v.pieces[sq], v.is_white_at(sq));
    if v.square_ok(sq) {
        assert(r =~= k);
    }
    if r == k {
        assert forall|p: int| 0 <= p < 6 implies #[trigger] r[p] <==> v.pieces[sq] == p by {
            assert(r[p] == k[p]);
        }
        assert(r[6] == k[6] && r[7] == k[7]);
    }
}

pub open spec fn row_ok(r: Seq<bool>, q: u8) -> bool {
    &&& forall|p: int| 0 <= p < 6 ==> (#[trigger] r[p] <==> q == p)
    &&& ((r[6] || r[7]) <==> q != EMPTY_SQUARE)
    &&& !(r[6] && r[7])
}

/// The per-square content of `make_move` for one kind of move.
pub proof fn lemma_make_square_kind(v: BoardView, m: Move, sq: int)
    requires
        v.basic(),
        v.square_ok(sq),
        v.move_ok(m),
        v.can_make(m),
        0 <= sq < 64,
    ensures
        row_ok(make_row(v, m, sq), make_move_pieces(v, m)[sq]),
{
    m.lemma_fields_bounded();
    lemma_canonical(v, sq);
    let f = m.flags();
    if f == FLAG_EN_PASSANT {
        lemma_make_square_ep(v, m, sq);
    } else if is_castle_flag(f) {
        lemma_make_square_castle(v, m, sq);
    } else if is_promotion_flag(f) {
        lemma_make_square_promo(v, m, sq);
    } else {
        lemma_make_square_plain(v, m, sq);
    }
}

proof fn lemma_make_square_plain(v: BoardView, m: Move, sq: int)
    requires
        v.basic(),
        bit_row(v.bitboards, sq) == canonical_row(v.pieces[sq], v.is_white_at(sq)),
        v.move_ok(m),
        v.can_make(m),
        0 <= sq < 64,
        m.flags() != FLAG_EN_PASSANT,
        !is_castle_flag(m.flags()),
        !is_promotion_flag(m.flags()),
    ensures
        row_ok(make_row(v, m, sq), make_move_pieces(v, m)[sq]),
{
    m.lemma_fields_bounded();
    let t = m.target() as int;
    let s = m.start() as int;
    let r = make_row(v, m, sq);
    let q = make_move_pieces(v, m)[sq];
    let r0 = bit_row(v.bitboards, sq);
    assert(v.own_at(s) == (if v.white_to_move { r0[6] } else { r0[7] }) || sq != s);
    if sq == s {
        assert(q == EMPTY_SQUARE);
        assert(forall|i: int| 0 <= i < 8 ==> !#[trigger] r[i]);
    } else if sq == t {
        assert(q == m.piece() as u8);
        assert(forall|i: int| 0 <= i < 6 ==> (#[trigger] r[i] <==> i == m.piece()));
        assert(r0 == canonical_row(v.pieces[t], v.is_white_at(t)));
        assert(v.is_white_at(t) == r0[6]);
        assert(v.is_black_at(t) == r0[7]);
        assert(!r0[v.own_color()]);
        assert(r[v.own_color()]);
        assert(!r[v.enemy_color()]);
    } else {
        assert(r == r0);
        assert(q == v.pieces[sq]);
    }
}

proof fn lemma_make_square_promo(v: BoardView, m: Move, sq: int)
    requires
        v.basic(),
        bit_row(v.bitboards, sq) == canonical_row(v.pieces[sq], v.is_white_at(sq)),
        v.move_ok(m),
        v.can_make(m),
        0 <= sq < 64,
        is_promotion_flag(m.flags()),
    ensures
        row_ok(make_row(v, m, sq), make_move_pieces(v, m)[sq]),
{
    m.lemma_fields_bounded();
    let t = m.target() as int;
    let s = m.start() as int;
    let r = make_row(v, m, sq);
    let q = make_move_pieces(v, m)[sq];
    let r0 = bit_row(v.bitboards, sq);
    if sq == s {
        assert(q == EMPTY_SQUARE);
        assert(forall|i: int| 0 <= i < 8 ==> !#[trigger] r[i]);
    } else if sq == t {
        assert(q == promoted_piece(m.flags()) as u8);
        assert(r0 == canonical_row(v.pieces[t], v.is_white_at(t)));
        assert(v.is_white_at(t) == r0[6]);
        assert(v.is_black_at(t) == r0[7]);
        assert(!r0[v.own_color()]);
        assert(forall|i: int| 0 <= i < 6 ==> (#[trigger] r[i] <==> i == promoted_piece(m.flags())));
        assert(r[v.own_color()]);
        assert(!r[v.enemy_color()]);
    } else {
        assert(r == r0);
        assert(q == v.pieces[sq]);
    }
}

proof fn lemma_make_square_ep(v: BoardView, m: Move, sq: int)
    requires
        v.basic(),
        bit_row(v.bitboards, sq) == canonical_row(v.pieces[sq], v.is_white_at(sq)),
        v.move_ok(m),
        v.can_make(m),
        0 <= sq < 64,
        m.flags() == FLAG_EN_PASSANT,
    ensures
        row_ok(make_row(v, m, sq), make_move_pieces(v, m)[sq]),
{
    m.lemma_fields_bounded();
    let t = m.target() as int;
    let s = m.start() as int;
    let w = v.white_to_move;
    let cs: int = if w { t - 8 } else { t + 8 };
    let r = make_row(v, m, sq);
    let q = make_move_pieces(v, m)[sq];
    let r0 = bit_row(v.bitboards, sq);
    assert(v.is_white_at(sq) == r0[6]);
    assert(v.is_black_at(sq) == r0[7]);
    if sq == s {
        assert(q == EMPTY_SQUARE);
        assert(forall|i: int| 0 <= i < 8 ==> !#[trigger] r[i]);
    } else if sq == t {
        assert(q == PAWNS as u8);
        assert(forall|i: int| 0 <= i < 6 ==> (#[trigger] r[i] <==> i == PAWNS));
        assert(r[v.own_color()]);
        assert(!r[v.enemy_color()]);
    } else if sq == cs {
        assert(q == EMPTY_SQUARE);
        assert(forall|i: int| 0 <= i < 8 ==> !#[trigger] r[i]);
    } else {
        assert(r == r0);
        assert(q == v.pieces[sq]);
    }
}

proof fn lemma_make_square_castle(v: BoardView, m: Move, sq: int)
    requires
        v.basic(),
        bit_row(v.bitboards, sq) == canonical_row(v.pieces[sq], v.is_white_at(sq)),
        v.move_ok(m),
        v.can_make(m),
        0 <= sq < 64,
        is_castle_flag(m.flags()),
    ensures
        row_ok(make_row(v, m, sq), make_move_pieces(v, m)[sq]),
{
    m.lemma_fields_bounded();
}

/// `make_move` keeps bitboards and mailbox in agreement, square by square.
pub proof fn lemma_make_square_ok(v: BoardView, m: Move, z: Zobrist, sq: int)
    requires
        v.wf(),
        v.move_ok(m),
        v.can_make(m),
        0 <= sq < 64,
    ensures
        make_move_spec(v, m, z).square_ok(sq),
{
    lemma_make_move_fields(v, m, z);
    lemma_make_row(v, m, sq);
    assert(v.square_ok(sq));
    lemma_make_square_kind(v, m, sq);
}

proof fn lemma_rights_values(x: u8)
    by (bit_vector)
    ensures
        x == 15 ==> (x & 1u8 != 0 && x & 2u8 != 0 && x & 4u8 != 0 && x & 8u8 != 0),
        x == 13 ==> (x & 1u8 != 0 && x & 2u8 == 0 && x & 4u8 != 0 && x & 8u8 != 0),
        x == 12 ==> (x & 1u8 == 0 && x & 2u8 == 0 && x & 4u8 != 0 && x & 8u8 != 0),
        x == 14 ==> (x & 1u8 == 0 && x & 2u8 != 0 && x & 4u8 != 0 && x & 8u8 != 0),
        x == 7 ==> (x & 1u8 != 0 && x & 2u8 != 0 && x & 4u8 != 0 && x & 8u8 == 0),
        x == 3 ==> (x & 1u8 != 0 && x & 2u8 != 0 && x & 4u8 == 0 && x & 8u8 == 0),
        x == 11 ==> (x & 1u8 != 0 && x & 2u8 != 0 && x & 4u8 == 0 && x & 8u8 != 0),
{
}

/// Which castling rights each square's entry of the update table keeps.
pub proof fn lemma_castling_table(i: int)
    requires
        0 <= i < 64,
    ensures
        (CASTLING_RIGHTS_UPDATE_TABLE[i] & 1u8 != 0) <==> (i != 4 && i != 7),
        (CASTLING_RIGHTS_UPDATE_TABLE[i] & 2u8 != 0) <==> (i != 4 && i != 0),
        (CASTLING_RIGHTS_UPDATE_TABLE[i] & 4u8 != 0) <==> (i != 60 && i != 63),
        (CASTLING_RIGHTS_UPDATE_TABLE[i] & 8u8 != 0) <==> (i != 60 && i != 56),
{
    lemma_rights_values(CASTLING_RIGHTS_UPDATE_TABLE[i]);
}

/// The lowest set square of a one-square bitboard is that square.
pub proof fn lemma_single_square(k: int)
    requires
        0 <= k < 64,
    ensures
        u64_trailing_zeros(sq_bit(k)) == k,
        sq_bit(k) != 0,
{
    axiom_u64_trailing_zeros(sq_bit(k));
    let t = u64_trailing_zeros(sq_bit(k));
    crate::bits::lemma_bit_ops(0, k as u64, k as u64, k as u64);
    assert(sq_bit(k) != 0) by {
        crate::bits::lemma_bit_ops(0, k as u64, k as u64, k as u64);
    }
    if t < 64 {
        crate::bits::lemma_bit_ops(0, k as u64, k as u64, t as u64);
    }
}

/// Pieces and rows of the squares that `make_move` leaves alone.
pub open spec fn untouched(m: Move, white: bool, sq: int) -> bool {
    let s = m.start() as int;
    let t = m.target() as int;
    let f = m.flags();
    let cs: int = if white { t - 8 } else { t + 8 };
    &&& sq != s
    &&& sq != t
    &&& (f == FLAG_EN_PASSANT ==> sq != cs)
    &&& (is_castle_flag(f) ==> sq != castle_rook_start(f, t) && sq != castle_rook_target(f, t))
}

pub proof fn lemma_row_noop(r: Seq<bool>, i: int, a: int, c: int, sq: int)
    requires
        r.len() == 8,
        0 <= i < 8,
    ensures
        sq != a ==> row_clear(r, i, a, sq) == r,
        sq != a ==> row_set(r, i, a, sq) == r,
        sq != a && sq != c ==> row_toggle2(r, i, a, c, sq) == r,
{
    if sq != a {
        assert(row_clear(r, i, a, sq) =~= r);
        assert(row_set(r, i, a, sq) =~= r);
        if sq != c {
            assert(row_toggle2(r, i, a, c, sq) =~= r);
        }
    }
}

pub proof fn lemma_make_untouched(v: BoardView, m: Move, sq: int)
    requires
        v.can_make(m),
        0 <= sq < 64,
        untouched(m, v.white_to_move, sq),
    ensures
        make_row(v, m, sq) == bit_row(v.bitboards, sq),
        make_move_pieces(v, m)[sq] == v.pieces[sq],
{
    m.lemma_fields_bounded();
    let s = m.start() as int;
    let t = m.target() as int;
    let p = m.piece() as int;
    let f = m.flags();
    let w = v.white_to_move;
    let me = v.own_color();
    let en = v.enemy_color();
    let c = v.pieces[t] as int;
    let cs: int = if w { t - 8 } else { t + 8 };
    let rs = castle_rook_start(f, t);
    let rt = castle_rook_target(f, t);
    let r0 = bit_row(v.bitboards, sq);
    if v.pieces[t] != EMPTY_SQUARE {
        lemma_row_noop(r0, c, t, t, sq);
        lemma_row_noop(row_clear(r0, c, t, sq), en, t, t, sq);
    }
    lemma_row_noop(r0, p, s, t, sq);
    lemma_row_noop(row_toggle2(r0, p, s, t, sq), me, s, t, sq);
    lemma_row_noop(r0, PAWNS as int, t, t, sq);
    if is_promotion_flag(f) {
        lemma_row_noop(row_clear(r0, PAWNS as int, t, sq), promoted_piece(f), t, t, sq);
    }
    if f == FLAG_EN_PASSANT {
        lemma_row_noop(r0, PAWNS as int, cs, cs, sq);
        lemma_row_noop(row_clear(r0, PAWNS as int, cs, sq), en, cs, cs, sq);
    }
    if is_castle_flag(f) {
        lemma_row_noop(r0, ROOKS as int, rs, rt, sq);
        lemma_row_noop(row_toggle2(r0, ROOKS as int, rs, rt, sq), me, rs, rt, sq);
    }
    assert(make_row(v, m, sq) == r0);
}

/// `make_move` of a legal-shaped move keeps the castling and en-passant invariants.
pub proof fn lemma_make_castling_ep(v: BoardView, m: Move, z: Zobrist)
    requires
        v.wf(),
        v.move_ok(m),
        v.can_make(m),
    ensures
        make_move_spec(v, m, z).castling_ok(),
        make_move_spec(v, m, z).ep_ok(),
{
    lemma_make_move_fields(v, m, z);
    m.lemma_fields_bounded();
    let n = make_move_spec(v, m, z);
    let s = m.start() as int;
    let t = m.target() as int;
    let cr = v.castling_rights;
    let a = CASTLING_RIGHTS_UPDATE_TABLE[s];
    let b = CASTLING_RIGHTS_UPDATE_TABLE[t];
    crate::board::lemma_rights_mask(cr, a, b);
    lemma_castling_table(s);
    lemma_castling_table(t);
    assert forall|sq: int| 0 <= sq < 64 && untouched(m, v.white_to_move, sq) implies n.pieces[sq]
        == v.pieces[sq] && n.is_white_at(sq) == v.is_white_at(sq) && n.is_black_at(sq) == v.is_black_at(sq) by {
        lemma_make_untouched(v, m, sq);
        lemma_make_row(v, m, sq);
        assert(bit_row(n.bitboards, sq)[6] == bit_row(v.bitboards, sq)[6]);
        assert(bit_row(n.bitboards, sq)[7] == bit_row(v.bitboards, sq)[7]);
    }
    assert(untouched(m, v.white_to_move, 0) || n.castling_rights & 2u8 == 0);
    assert(n.castling_ok());
    if m.flags() == crate::board::FLAG_DOUBLE_PUSH {
        let e = (m.start() + m.target()) / 2;
        lemma_single_square(e);
        assert(n.ep_square() == e);
        lemma_make_row(v, m, t);
        assert(v.square_ok(t));
        lemma_canonical(v, t);
        lemma_make_untouched(v, m, e);
        lemma_make_row(v, m, e);
        assert(bit_row(n.bitboards, t)[v.own_color()]);
    }
}

/// Sum of `g(k) - f(k)` over the squares `ks`.
pub open spec fn sum_list(f: spec_fn(int) -> int, g: spec_fn(int) -> int, ks: Seq<int>) -> int
    decreases ks.len(),
{
    if ks.len() == 0 {
        0
    } else {
        sum_list(f, g, ks.drop_last()) + g(ks.last()) - f(ks.last())
    }
}

proof fn lemma_sum_list_congr(f: spec_fn(int) -> int, g: spec_fn(int) -> int, h: spec_fn(int) -> int, ks: Seq<int>)
    requires
        forall|j: int| 0 <= j < ks.len() ==> #[trigger] g(ks[j]) == h(ks[j]),
    ensures
        sum_list(f, g, ks) == sum_list(f, h, ks),
    decreases ks.len(),
{
    if ks.len() > 0 {
        let d = ks.drop_last();
        assert forall|j: int| 0 <= j < d.len() implies #[trigger] g(d[j]) == h(d[j]) by {
            assert(d[j] == ks[j]);
        }
        lemma_sum_list_congr(f, g, h, d);
        assert(g(ks.last()) == h(ks[ks.len() - 1]));
    }
}

/// When `f` and `g` agree away from the distinct squares `ks`, their sums differ by the
/// differences on `ks`.
pub proof fn lemma_sum_diff(f: spec_fn(int) -> int, g: spec_fn(int) -> int, n: int, ks: Seq<int>)
    requires
        ks.no_duplicates(),
        forall|j: int| 0 <= j < ks.len() ==> 0 <= #[trigger] ks[j] < n,
        forall|i: int| 0 <= i < n && !ks.contains(i) ==> #[trigger] f(i) == g(i),
    ensures
        sum_squares(g, n) == sum_squares(f, n) + sum_list(f, g, ks),
    decreases ks.len(),
{
    if ks.len() == 0 {
        lemma_sum_same(f, g, n);
    } else {
        let k = ks.last();
        let d = ks.drop_last();
        let h = |i: int| if i == k { f(i) } else { g(i) };
        assert(0 <= k < n) by {
            assert(ks[ks.len() - 1] == k);
        }
        lemma_sum_update(h, g, n, k);
        assert forall|j: int| 0 <= j < d.len() implies 0 <= #[trigger] d[j] < n by {
            assert(d[j] == ks[j]);
        }
        assert forall|i: int| 0 <= i < n && !d.contains(i) implies #[trigger] f(i) == h(i) by {
            if i != k {
                if ks.contains(i) {
                    let j = choose|j: int| 0 <= j < ks.len() && ks[j] == i;
                    if j < ks.len() - 1 {
                        assert(d[j] == i);
                    }
                }
            }
        }
        lemma_sum_diff(f, h, n, d);
        assert forall|j: int| 0 <= j < d.len() implies #[trigger] h(d[j]) == g(d[j]) by {
            assert(d[j] == ks[j]);
            assert(ks[j] != ks[ks.len() - 1]);
        }
        lemma_sum_list_congr(f, h, g, d);
    }
}

/// The colours of the squares a move changes, before and after.
proof fn lemma_make_colors(v: BoardView, m: Move, z: Zobrist)
    requires
        v.wf(),
        v.move_ok(m),
        v.can_make(m),
    ensures
        ({
            let n = make_move_spec(v, m, z);
            let w = v.white_to_move;
            let s = m.start() as int;
            let t = m.target() as int;
            let f = m.flags();
            let cs: int = if w { t - 8 } else { t + 8 };
            &&& v.is_white_at(s) == w
            &&& (v.pieces[t] != EMPTY_SQUARE ==> v.is_white_at(t) == !w)
            &&& n.is_white_at(t) == w
            &&& (f == FLAG_EN_PASSANT ==> v.is_white_at(cs) == !w)
            &&& (is_castle_flag(f) ==> v.is_white_at(castle_rook_start(f, t)) == w && n.is_white_at(
                castle_rook_target(f, t),
            ) == w)
        }),
{
    lemma_make_move_fields(v, m, z);
    m.lemma_fields_bounded();
    let w = v.white_to_move;
    let s = m.start() as int;
    let t = m.target() as int;
    let f = m.flags();
    let n = make_move_spec(v, m, z);
    assert(v.square_ok(s));
    assert(v.square_ok(t));
    lemma_canonical(v, t);
    lemma_make_row(v, m, t);
    let r0 = bit_row(v.bitboards, t);
    assert(r0 == canonical_row(v.pieces[t], v.is_white_at(t)));
    assert(v.is_white_at(t) == r0[6]);
    assert(v.is_black_at(t) == r0[7]);
    assert(!r0[v.own_color()]);
    assert(make_row(v, m, t)[v.own_color()]);
    assert(!make_row(v, m, t)[v.enemy_color()]);
    assert(n.is_white_at(t) == w);
    if f == FLAG_EN_PASSANT {
        let cs: int = if w { t - 8 } else { t + 8 };
        assert(v.square_ok(cs));
    }
    if is_castle_flag(f) {
        let rs = castle_rook_start(f, t);
        let rt = castle_rook_target(f, t);
        assert(v.square_ok(rs));
        assert(v.square_ok(rt));
        lemma_canonical(v, rt);
        lemma_make_row(v, m, rt);
        let q0 = bit_row(v.bitboards, rt);
        assert(q0 == canonical_row(v.pieces[rt], v.is_white_at(rt)));
        assert(!q0[6] && !q0[7]);
        assert(make_row(v, m, rt)[v.own_color()]);
        assert(!make_row(v, m, rt)[v.enemy_color()]);
    }
}

/// `make_move` keeps the incremental evaluation and phase equal to their recomputation.
pub proof fn lemma_make_eval(v: BoardView, m: Move, z: Zobrist)
    requires
        v.wf(),
        v.move_ok(m),
        v.can_make(m),
    ensures
        make_move_spec(v, m, z).eval_total() == make_move_eval(v, m),
        make_move_spec(v, m, z).phase_total() == make_move_phase(v, m),
{
    lemma_make_move_fields(v, m, z);
    lemma_make_colors(v, m, z);
    m.lemma_fields_bounded();
    let n = make_move_spec(v, m, z);
    let w = v.white_to_move;
    let s = m.start() as int;
    let t = m.target() as int;
    let f = m.flags();
    let cs: int = if w { t - 8 } else { t + 8 };
    let rs = castle_rook_start(f, t);
    let rt = castle_rook_target(f, t);
    let ks = if f == FLAG_EN_PASSANT {
        seq![s, t, cs]
    } else if is_castle_flag(f) {
        seq![s, t, rs, rt]
    } else {
        seq![s, t]
    };
    assert forall|i: int| 0 <= i < 64 && !ks.contains(i) implies untouched(m, w, i) by {
        assert(ks[0] == s && ks[1] == t);
        if f == FLAG_EN_PASSANT {
            assert(ks[2] == cs);
        }
        if is_castle_flag(f) {
            assert(ks[2] == rs && ks[3] == rt);
        }
    }
    assert forall|i: int| 0 <= i < 64 && !ks.contains(i) implies #[trigger] v.value_fn()(i) == n.value_fn()(i)
        && v.phase_fn()(i) == n.phase_fn()(i) by {
        lemma_make_untouched(v, m, i);
        lemma_make_row(v, m, i);
        assert(bit_row(n.bitboards, i)[6] == bit_row(v.bitboards, i)[6]);
    }
    assert forall|i: int| 0 <= i < 64 && !ks.contains(i) implies #[trigger] v.phase_fn()(i) == n.phase_fn()(i) by {
        lemma_make_untouched(v, m, i);
    }
    lemma_sum_diff(v.value_fn(), n.value_fn(), 64, ks);
    lemma_sum_diff(v.phase_fn(), n.phase_fn(), 64, ks);
    reveal_with_fuel(sum_list, 5);
}

/// Making a move that fits the board keeps the board consistent.
pub proof fn lemma_make_move_wf(v: BoardView, m: Move, z: Zobrist)
    requires
        v.wf(),
        v.move_ok(m),
        v.can_make(m),
    ensures
        make_move_spec(v, m, z).wf(),
{
    lemma_make_move_fields(v, m, z);
    lemma_make_eval(v, m, z);
    lemma_make_castling_ep(v, m, z);
    m.lemma_fields_bounded();
    let n = make_move_spec(v, m, z);
    crate::board::lemma_rights_mask(
        v.castling_rights,
        CASTLING_RIGHTS_UPDATE_TABLE[m.start() as int],
        CASTLING_RIGHTS_UPDATE_TABLE[m.target() as int],
    );
    assert forall|sq: int| 0 <= sq < 64 implies #[trigger] n.square_ok(sq) by {
        lemma_make_square_ok(v, m, z, sq);
    }
    assert forall|sq: int| 0 <= sq < 64 implies (#[trigger] n.pieces[sq] < 6 || n.pieces[sq] == EMPTY_SQUARE) by {
        assert(v.pieces[sq] < 6 || v.pieces[sq] == EMPTY_SQUARE);
    }
    assert(n.basic());
    assert(n.mailbox_ok());
    lemma_eval_bounds(n);
    assert(n.incremental_eval == n.eval_total());
    assert(n.phase_weight == n.phase_total());
}

/// The recomputed evaluation and phase of any board lie within fixed bounds.
pub proof fn lemma_eval_bounds(v: BoardView)
    requires
        v.basic(),
    ensures
        -60800 <= v.eval_total() <= 60800,
        -256 <= v.phase_total() <= 256,
{
    assert forall|i: int| 0 <= i < 64 implies -950 <= #[trigger] v.value_fn()(i) <= 950 by {
        crate::board::lemma_pst_value_bound(v.pieces[i] as usize, i as usize, v.is_white_at(i));
    }
    assert forall|i: int| 0 <= i < 64 implies -4 <= #[trigger] v.phase_fn()(i) <= 4 by {}
    crate::board::lemma_sum_bound(v.value_fn(), 64, 950);
    crate::board::lemma_sum_bound(v.phase_fn(), 64, 4);
}

/// The bitboard row of square `sq` after `unmake_move`, from the row before; `w` is the side
/// that had made the move.
pub open spec fn unmake_row(r0: Seq<bool>, w: bool, m: Move, sq: int) -> Seq<bool> {
    let s = m.start() as int;
    let t = m.target() as int;
    let p = m.piece() as int;
    let f = m.flags();
    let c = m.captured() as int;
    let me: int = if w { 6 } else { 7 };
    let en: int = if w { 7 } else { 6 };
    let cs: int = if w { t - 8 } else { t + 8 };
    let rs = castle_rook_start(f, t);
    let rt = castle_rook_target(f, t);
    let r1 = row_toggle2(r0, me, t, s, sq);
    let r2 = if is_promotion_flag(f) {
        row_set(row_clear(r1, promoted_piece(f), t, sq), PAWNS as int, s, sq)
    } else {
        row_toggle2(r1, p, t, s, sq)
    };
    let r3 = if is_castle_flag(f) {
        row_toggle2(row_toggle2(r2, ROOKS as int, rs, rt, sq), me, rs, rt, sq)
    } else {
        r2
    };
    if f == FLAG_EN_PASSANT {
        row_set(row_set(r3, PAWNS as int, cs, sq), en, cs, sq)
    } else if c != EMPTY_SQUARE {
        row_set(row_set(r3, c, t, sq), en, t, sq)
    } else {
        r3
    }
}

proof fn lemma_um_main_row(v: BoardView, m: Move, sq: int)
    requires
        v.bitboards.len() == 8,
        !is_promotion_flag(m.flags()) ==> m.piece() < 8,
        0 <= sq < 64,
    ensures
        bit_row(um_main(v, m).bitboards, sq) == ({
            let s = m.start() as int;
            let t = m.target() as int;
            let f = m.flags();
            let me: int = if v.white_to_move { 6 } else { 7 };
            let r1 = row_toggle2(bit_row(v.bitboards, sq), me, t, s, sq);
            if is_promotion_flag(f) {
                row_set(row_clear(r1, promoted_piece(f), t, sq), PAWNS as int, s, sq)
            } else {
                row_toggle2(r1, m.piece() as int, t, s, sq)
            }
        }),
{
    reveal(um_main);
    m.lemma_fields_bounded();
    let s = m.start() as int;
    let t = m.target() as int;
    let f = m.flags();
    let me = v.own_color();
    let b0 = v.bitboards;
    lemma_row_ops(b0, me, t, s, sq);
    let b1 = bb_toggle2(b0, me, t, s);
    if is_promotion_flag(f) {
        lemma_row_ops(b1, promoted_piece(f), t, t, sq);
        lemma_row_ops(bb_clear(b1, promoted_piece(f), t), PAWNS as int, s, s, sq);
    } else {
        lemma_row_ops(b1, m.piece() as int, t, s, sq);
    }
}

proof fn lemma_um_castle_row(v: BoardView, m: Move, sq: int)
    requires
        v.bitboards.len() == 8,
        m.flags() == FLAG_KING_CASTLE ==> 1 <= m.target() && m.target() + 1 < 64,
        m.flags() == FLAG_QUEEN_CASTLE ==> 2 <= m.target() && m.target() + 1 < 64,
        0 <= sq < 64,
    ensures
        bit_row(um_castle(v, m).bitboards, sq) == ({
            let t = m.target() as int;
            let f = m.flags();
            let me: int = if v.white_to_move { 6 } else { 7 };
            let rs = castle_rook_start(f, t);
            let rt = castle_rook_target(f, t);
            let r2 = bit_row(v.bitboards, sq);
            if is_castle_flag(f) {
                row_toggle2(row_toggle2(r2, ROOKS as int, rs, rt, sq), me, rs, rt, sq)
            } else {
                r2
            }
        }),
{
    reveal(um_castle);
    m.lemma_fields_bounded();
    let t = m.target() as int;
    let f = m.flags();
    let rs = castle_rook_start(f, t);
    let rt = castle_rook_target(f, t);
    if is_castle_flag(f) {
        lemma_row_ops(v.bitboards, ROOKS as int, rs, rt, sq);
        lemma_row_ops(bb_toggle2(v.bitboards, ROOKS as int, rs, rt), v.own_color(), rs, rt, sq);
    }
}

proof fn lemma_um_capture_row(v: BoardView, m: Move, sq: int)
    requires
        v.bitboards.len() == 8,
        m.flags() != FLAG_EN_PASSANT && m.captured() != EMPTY_SQUARE ==> m.captured() < 8,
        m.flags() == FLAG_EN_PASSANT ==> if v.white_to_move {
            m.target() >= 8
        } else {
            m.target() + 8 < 64
        },
        0 <= sq < 64,
    ensures
        bit_row(um_capture(v, m).bitboards, sq) == ({
            let t = m.target() as int;
            let c = m.captured() as int;
            let en: int = if v.white_to_move { 7 } else { 6 };
            let cs: int = if v.white_to_move { t - 8 } else { t + 8 };
            let r3 = bit_row(v.bitboards, sq);
            if m.flags() == FLAG_EN_PASSANT {
                row_set(row_set(r3, PAWNS as int, cs, sq), en, cs, sq)
            } else if c != EMPTY_SQUARE {
                row_set(row_set(r3, c, t, sq), en, t, sq)
            } else {
                r3
            }
        }),
{
    reveal(um_capture);
    m.lemma_fields_bounded();
    let t = m.target() as int;
    let c = m.captured() as int;
    let en = v.enemy_color();
    let cs: int = if v.white_to_move { t - 8 } else { t + 8 };
    if m.flags() == FLAG_EN_PASSANT {
        lemma_row_ops(v.bitboards, PAWNS as int, cs, cs, sq);
        lemma_row_ops(bb_set(v.bitboards, PAWNS as int, cs), en, cs, cs, sq);
    } else if c != EMPTY_SQUARE {
        lemma_row_ops(v.bitboards, c, t, t, sq);
        lemma_row_ops(bb_set(v.bitboards, c, t), en, t, t, sq);
    }
}

proof fn lemma_um_frame(v: BoardView, m: Move)
    requires
        v.bitboards.len() == 8,
        !is_promotion_flag(m.flags()) ==> m.piece() < 8,
    ensures
        um_main(v, m).white_to_move == v.white_to_move,
        um_main(v, m).bitboards.len() == v.bitboards.len(),
        um_castle(v, m).white_to_move == v.white_to_move,
        um_castle(v, m).bitboards.len() == v.bitboards.len(),
{
    reveal(um_main);
    reveal(um_castle);
}

pub proof fn lemma_unmake_row(v: BoardView, m: Move, sq: int)
    requires
        can_unmake(v, m),
        0 <= sq < 64,
    ensures
        bit_row(unmake_move_spec(v, m).bitboards, sq) == unmake_row(bit_row(v.bitboards, sq), !v.white_to_move, m, sq),
{
    let v1 = BoardView { white_to_move: !v.white_to_move, ..v }.restored();
    assert(v1.bitboards == v.bitboards && v1.white_to_move == !v.white_to_move);
    m.lemma_fields_bounded();
    lemma_um_frame(v1, m);
    lemma_um_frame(um_main(v1, m), m);
    lemma_um_main_row(v1, m, sq);
    lemma_um_castle_row(um_main(v1, m), m, sq);
    lemma_um_capture_row(um_castle(um_main(v1, m), m), m, sq);
}

/// Unmaking leaves alone the rows of squares the move did not touch.
proof fn lemma_unmake_untouched(r: Seq<bool>, w: bool, m: Move, sq: int)
    requires
        r.len() == 8,
        m.piece() < 6,
        m.flags() != FLAG_EN_PASSANT && m.captured() != EMPTY_SQUARE ==> m.captured() < 8,
        0 <= sq < 64,
        untouched(m, w, sq),
    ensures
        unmake_row(r, w, m, sq) == r,
{
    m.lemma_fields_bounded();
    let s = m.start() as int;
    let t = m.target() as int;
    let p = m.piece() as int;
    let f = m.flags();
    let c = m.captured() as int;
    let me: int = if w { 6 } else { 7 };
    let en: int = if w { 7 } else { 6 };
    let cs: int = if w { t - 8 } else { t + 8 };
    let rs = castle_rook_start(f, t);
    let rt = castle_rook_target(f, t);
    lemma_row_noop(r, me, t, s, sq);
    assert(row_toggle2(r, me, t, s, sq) == r);
    lemma_row_noop(r, promoted_piece(f), t, t, sq);
    lemma_row_noop(row_clear(r, promoted_piece(f), t, sq), PAWNS as int, s, s, sq);
    lemma_row_noop(r, p, t, s, sq);
    if is_castle_flag(f) {
        lemma_row_noop(r, ROOKS as int, rs, rt, sq);
        lemma_row_noop(row_toggle2(r, ROOKS as int, rs, rt, sq), me, rs, rt, sq);
    }
    if f == FLAG_EN_PASSANT {
        lemma_row_noop(r, PAWNS as int, cs, cs, sq);
        lemma_row_noop(row_set(r, PAWNS as int, cs, sq), en, cs, cs, sq);
    } else if c != EMPTY_SQUARE {
        lemma_row_noop(r, c, t, t, sq);
        lemma_row_noop(row_set(r, c, t, sq), en, t, t, sq);
    }
    assert(unmake_row(r, w, m, sq) == r);
}

/// The row of each square comes back after making and unmaking a move.
proof fn lemma_restore_row(v: BoardView, m: Move, sq: int)
    requires
        v.wf(),
        v.move_ok(m),
        v.can_make(m),
        0 <= sq < 64,
    ensures
        unmake_row(make_row(v, m, sq), v.white_to_move, m, sq) == bit_row(v.bitboards, sq),
{
    m.lemma_fields_bounded();
    let w = v.white_to_move;
    let s = m.start() as int;
    let t = m.target() as int;
    let f = m.flags();
    let cs: int = if w { t - 8 } else { t + 8 };
    let rs = castle_rook_start(f, t);
    let rt = castle_rook_target(f, t);
    assert(v.square_ok(sq));
    lemma_canonical(v, sq);
    let r0 = bit_row(v.bitboards, sq);
    assert(v.is_white_at(sq) == r0[6]);
    assert(v.is_black_at(sq) == r0[7]);
    if untouched(m, w, sq) {
        lemma_make_untouched(v, m, sq);
        lemma_unmake_untouched(r0, w, m, sq);
    } else if sq == s {
        lemma_restore_start(v, m);
    } else if sq == t {
        lemma_restore_target(v, m);
    } else if f == FLAG_EN_PASSANT {
        let u = unmake_row(make_row(v, m, sq), w, m, sq);
        assert(u =~= r0);
    } else {
        let u = unmake_row(make_row(v, m, sq), w, m, sq);
        assert(u =~= r0);
    }
}

proof fn lemma_restore_start(v: BoardView, m: Move)
    requires
        v.basic(),
        v.move_ok(m),
        v.can_make(m),
        bit_row(v.bitboards, m.start() as int) == canonical_row(v.pieces[m.start() as int], v.is_white_at(m.start() as int)),
        v.is_white_at(m.start() as int) == bit_row(v.bitboards, m.start() as int)[6],
        v.is_black_at(m.start() as int) == bit_row(v.bitboards, m.start() as int)[7],
    ensures
        unmake_row(make_row(v, m, m.start() as int), v.white_to_move, m, m.start() as int) == bit_row(
            v.bitboards,
            m.start() as int,
        ),
{
    m.lemma_fields_bounded();
    let s = m.start() as int;
    let r0 = bit_row(v.bitboards, s);
    let r = make_row(v, m, s);
    assert(forall|i: int| 0 <= i < 8 ==> !#[trigger] r[i]);
    let u = unmake_row(r, v.white_to_move, m, s);
    assert(u =~= r0);
}

proof fn lemma_restore_target(v: BoardView, m: Move)
    requires
        v.basic(),
        v.move_ok(m),
        v.can_make(m),
        bit_row(v.bitboards, m.target() as int) == canonical_row(v.pieces[m.target() as int], v.is_white_at(m.target() as int)),
        v.is_white_at(m.target() as int) == bit_row(v.bitboards, m.target() as int)[6],
        v.is_black_at(m.target() as int) == bit_row(v.bitboards, m.target() as int)[7],
    ensures
        unmake_row(make_row(v, m, m.target() as int), v.white_to_move, m, m.target() as int) == bit_row(
            v.bitboards,
            m.target() as int,
        ),
{
    m.lemma_fields_bounded();
    let t = m.target() as int;
    let r0 = bit_row(v.bitboards, t);
    let r = make_row(v, m, t);
    assert(!r0[v.own_color()]);
    let u = unmake_row(r, v.white_to_move, m, t);
    assert(u =~= r0);
}

/// Unmaking a move right after making it gives back the board exactly.
pub proof fn lemma_make_unmake(v: BoardView, m: Move, z: Zobrist)
    requires
        v.wf(),
        v.move_ok(m),
        v.can_make(m),
    ensures
        can_unmake(make_move_spec(v, m, z), m),
        unmake_move_spec(make_move_spec(v, m, z), m) == v,
{
    reveal(um_main);
    reveal(um_castle);
    reveal(um_capture);
    lemma_make_move_fields(v, m, z);
    m.lemma_fields_bounded();
    let n = make_move_spec(v, m, z);
    let u = unmake_move_spec(n, m);
    assert(can_unmake(n, m));
    assert forall|sq: int| 0 <= sq < 64 implies #[trigger] bit_row(u.bitboards, sq) == bit_row(v.bitboards, sq) by {
        lemma_unmake_row(n, m, sq);
        lemma_make_row(v, m, sq);
        lemma_restore_row(v, m, sq);
    }
    lemma_rows_ext(u.bitboards, v.bitboards);
    assert(u.pieces =~= v.pieces);
    assert(u.history =~= v.history);
}

/// Passing the turn keeps the board consistent, and taking the pass back restores it.
pub proof fn lemma_null_move(v: BoardView, z: Zobrist)
    requires
        v.wf(),
    ensures
        make_null_move_spec(v, z).wf(),
        unmake_null_move_spec(make_null_move_spec(v, z)) == v,
{
    let n = make_null_move_spec(v, z);
    lemma_position_frame(v, n, z, 64);
    assert(forall|sq: int| 0 <= sq < 64 ==> #[trigger] n.square_ok(sq) == v.square_ok(sq));
    assert(n.mailbox_ok());
    let u = unmake_null_move_spec(n);
    assert(u.history =~= v.history);
}

// ---------------------------------------------------------------------------------------------
// The incremental hash key
// ---------------------------------------------------------------------------------------------
/// The key contribution of square `sq`: its piece's key, or nothing when it is empty.
pub open spec fn key_fn(v: BoardView, z: Zobrist) -> spec_fn(int) -> u64 {
    |sq: int|
        if v.pieces[sq] != EMPTY_SQUARE {
            z.piece_keys[v.pieces[sq] + (if v.is_white_at(sq) {
                0int
            } else {
                6int
            })][sq]
        } else {
            0u64
        }
}

/// `f(0) ^ f(1) ^ ... ^ f(n - 1)`.
pub open spec fn xor_squares(f: spec_fn(int) -> u64, n: int) -> u64
    decreases n,
{
    if n <= 0 {
        0
    } else {
        xor_squares(f, n - 1) ^ f(n - 1)
    }
}

/// The changes of `f` into `g` at the squares `ks`.
pub open spec fn xor_list(f: spec_fn(int) -> u64, g: spec_fn(int) -> u64, ks: Seq<int>) -> u64
    decreases ks.len(),
{
    if ks.len() == 0 {
        0
    } else {
        xor_list(f, g, ks.drop_last()) ^ (f(ks.last()) ^ g(ks.last()))
    }
}

proof fn lemma_xor_laws(a: u64, b: u64, c: u64)
    by (bit_vector)
    ensures
        a ^ 0u64 == a,
        a ^ a == 0u64,
        (a ^ b) ^ c == a ^ (b ^ c),
        a ^ b == b ^ a,
        (a ^ b) ^ b == a,
        (a ^ b) ^ (b ^ c) == a ^ c,
        (a ^ b) ^ c == (a ^ c) ^ b,
{
}

proof fn lemma_pieces_hash_xor(v: BoardView, z: Zobrist, n: int)
    requires
        v.basic(),
        0 <= n <= 64,
    ensures
        v.pieces_hash(z, n) == xor_squares(key_fn(v, z), n),
    decreases n,
{
    if n > 0 {
        lemma_pieces_hash_xor(v, z, n - 1);
        lemma_xor_laws(v.pieces_hash(z, n - 1), 0, 0);
    }
}

proof fn lemma_xor_same(f: spec_fn(int) -> u64, g: spec_fn(int) -> u64, n: int)
    requires
        forall|i: int| 0 <= i < n ==> #[trigger] f(i) == g(i),
    ensures
        xor_squares(f, n) == xor_squares(g, n),
    decreases n,
{
    if n > 0 {
        lemma_xor_same(f, g, n - 1);
    }
}

/// Changing `f` at one square changes the total by the old and new values there.
proof fn lemma_xor_update(f: spec_fn(int) -> u64, g: spec_fn(int) -> u64, n: int, k: int)
    requires
        0 <= k < n,
        forall|i: int| 0 <= i < n && i != k ==> #[trigger] f(i) == g(i),
    ensures
        xor_squares(g, n) == xor_squares(f, n) ^ (f(k) ^ g(k)),
    decreases n,
{
    let xf = xor_squares(f, n - 1);
    if n - 1 == k {
        lemma_xor_same(f, g, n - 1);
        lemma_xor_laws(xf, f(k), g(k));
    } else {
        lemma_xor_update(f, g, n - 1, k);
        let d = f(k) ^ g(k);
        let y = f(n - 1);
        lemma_xor_laws(xf, d, y);
    }
}

/// When `f` and `g` agree away from the distinct squares `ks`, their totals differ by the
/// changes on `ks`.
proof fn lemma_xor_diff(f: spec_fn(int) -> u64, g: spec_fn(int) -> u64, n: int, ks: Seq<int>)
    requires
        ks.no_duplicates(),
        forall|j: int| 0 <= j < ks.len() ==> 0 <= #[trigger] ks[j] < n,
        forall|i: int| 0 <= i < n && !ks.contains(i) ==> #[trigger] f(i) == g(i),
    ensures
        xor_squares(g, n) == xor_squares(f, n) ^ xor_list(f, g, ks),
    decreases ks.len(),
{
    if ks.len() == 0 {
        lemma_xor_same(f, g, n);
        lemma_xor_laws(xor_squares(f, n), 0, 0);
    } else {
        let k = ks.last();
        let d = ks.drop_last();
        let h = |i: int| if i == k { f(i) } else { g(i) };
        assert(0 <= k < n) by {
            assert(ks[ks.len() - 1] == k);
        }
        lemma_xor_update(h, g, n, k);
        assert forall|j: int| 0 <= j < d.len() implies 0 <= #[trigger] d[j] < n by {
            assert(d[j] == ks[j]);
        }
        assert forall|i: int| 0 <= i < n && !d.contains(i) implies #[trigger] f(i) == h(i) by {
            if i != k {
                if ks.contains(i) {
                    let j = choose|j: int| 0 <= j < ks.len() && ks[j] == i;
                    if j < ks.len() - 1 {
                        assert(d[j] == i);
                    }
                }
            }
        }
        lemma_xor_diff(f, h, n, d);
        assert forall|j: int| 0 <= j < d.len() implies #[trigger] h(d[j]) == g(d[j]) by {
            assert(d[j] == ks[j]);
            assert(ks[j] != ks[ks.len() - 1]);
        }
        lemma_xor_list_congr(f, h, g, d);
        lemma_xor_laws(xor_squares(f, n), xor_list(f, g, d), f(k) ^ g(k));
    }
}

proof fn lemma_xor_list_congr(f: spec_fn(int) -> u64, g: spec_fn(int) -> u64, h: spec_fn(int) -> u64, ks: Seq<int>)
    requires
        forall|j: int| 0 <= j < ks.len() ==> #[trigger] g(ks[j]) == h(ks[j]),
    ensures
        xor_list(f, g, ks) == xor_list(f, h, ks),
    decreases ks.len(),
{
    if ks.len() > 0 {
        let d = ks.drop_last();
        assert forall|j: int| 0 <= j < d.len() implies #[trigger] g(d[j]) == h(d[j]) by {
            assert(d[j] == ks[j]);
        }
        lemma_xor_list_congr(f, g, h, d);
        assert(g(ks.last()) == h(ks[ks.len() - 1]));
    }
}

proof fn lemma_hash_algebra(
    key: u64,
    p: u64,
    c1: u64,
    e1: u64,
    c2: u64,
    e2: u64,
    s: u64,
    sv: u64,
    sn: u64,
    ks: u64,
    cap: u64,
    kt: u64,
    pa: u64,
    pb: u64,
    epk: u64,
    ra: u64,
    rb: u64,
    t2: u64,
)
    by (bit_vector)
    requires
        key == ((p ^ c1) ^ e1) ^ sv,
        sv ^ s == sn,
        t2 == (kt ^ pa) ^ pb,
    ensures
        ((((((((((((key ^ c1) ^ e1) ^ c2) ^ e2) ^ cap) ^ ks) ^ kt) ^ pa) ^ pb) ^ epk) ^ ra) ^ rb) ^ s == (((p
            ^ ((((ks ^ (cap ^ t2)) ^ epk) ^ ra) ^ rb)) ^ c2) ^ e2) ^ sn,
{
}

proof fn lemma_diff_shapes(ks: u64, cap: u64, t2: u64, epk: u64, ra: u64, rb: u64)
    by (bit_vector)
    ensures
        (0u64 ^ (ks ^ 0u64)) ^ (cap ^ t2) == (((ks ^ (cap ^ t2)) ^ 0u64) ^ 0u64) ^ 0u64,
        ((0u64 ^ (ks ^ 0u64)) ^ (cap ^ t2)) ^ (epk ^ 0u64) == (((ks ^ (cap ^ t2)) ^ epk) ^ 0u64) ^ 0u64,
        (((0u64 ^ (ks ^ 0u64)) ^ (cap ^ t2)) ^ (ra ^ 0u64)) ^ (0u64 ^ rb) == (((ks ^ (cap ^ t2)) ^ 0u64) ^ ra)
            ^ rb,
{
}

/// `make_move` keeps the hash key equal to the key recomputed from the position: the
/// incremental update hashes out and in exactly what changed.
pub proof fn lemma_make_move_key(v: BoardView, m: Move, z: Zobrist)
    requires
        v.wf(),
        v.move_ok(m),
        v.can_make(m),
        v.zobrist_key == v.zobrist_hash(z),
    ensures
        make_move_spec(v, m, z).zobrist_key == make_move_spec(v, m, z).zobrist_hash(z),
{
    lemma_make_move_fields(v, m, z);
    lemma_make_colors(v, m, z);
    lemma_make_move_wf(v, m, z);
    m.lemma_fields_bounded();
    let n = make_move_spec(v, m, z);
    let w = v.white_to_move;
    let s = m.start() as int;
    let t = m.target() as int;
    let p = m.piece() as int;
    let f = m.flags();
    let cs: int = if w { t - 8 } else { t + 8 };
    let rs = castle_rook_start(f, t);
    let rt = castle_rook_target(f, t);
    let ks = if f == FLAG_EN_PASSANT {
        seq![s, t, cs]
    } else if is_castle_flag(f) {
        seq![s, t, rs, rt]
    } else {
        seq![s, t]
    };
    let fv = key_fn(v, z);
    let fn_ = key_fn(n, z);
    assert forall|i: int| 0 <= i < 64 && !ks.contains(i) implies untouched(m, w, i) by {
        assert(ks[0] == s && ks[1] == t);
        if f == FLAG_EN_PASSANT {
            assert(ks[2] == cs);
        }
        if is_castle_flag(f) {
            assert(ks[2] == rs && ks[3] == rt);
        }
    }
    assert forall|i: int| 0 <= i < 64 && !ks.contains(i) implies #[trigger] fv(i) == fn_(i) by {
        lemma_make_untouched(v, m, i);
        lemma_make_row(v, m, i);
        assert(bit_row(n.bitboards, i)[6] == bit_row(v.bitboards, i)[6]);
    }
    lemma_pieces_hash_xor(v, z, 64);
    lemma_pieces_hash_xor(n, z, 64);
    lemma_xor_diff(fv, fn_, 64, ks);

    // The keys that change
    let my_off: int = if w { 0 } else { 6 };
    let en_off: int = if w { 6 } else { 0 };
    let promo = is_promotion_flag(f);
    let castle = is_castle_flag(f);
    let k_s = z.piece_keys[p + my_off][s];
    let cap = if v.pieces[t] != EMPTY_SQUARE { z.piece_keys[v.pieces[t] as int + en_off][t] } else { 0u64 };
    let k_t = z.piece_keys[p + my_off][t];
    let pa = if promo { z.piece_keys[PAWNS + my_off][t] } else { 0u64 };
    let pb = if promo { z.piece_keys[promoted_piece(f) + my_off][t] } else { 0u64 };
    let epk = if f == FLAG_EN_PASSANT { z.piece_keys[PAWNS + en_off][cs] } else { 0u64 };
    let ra = if castle { z.piece_keys[ROOKS + my_off][rs] } else { 0u64 };
    let rb = if castle { z.piece_keys[ROOKS + my_off][rt] } else { 0u64 };
    let t2 = fn_(t);

    // The squares' keys before and after
    assert(fv(s) == k_s);
    assert(fn_(s) == 0u64);
    assert(fv(t) == cap);
    lemma_xor_laws(k_t, 0, 0);
    lemma_xor_laws(k_t, k_t, pb);
    lemma_xor_laws(pb, 0, 0);
    lemma_xor_laws(0, pb, 0);
    assert(n.pieces[t] == (if promo { promoted_piece(f) as u8 } else { p as u8 }));
    assert(n.is_white_at(t) == w);
    if promo {
        assert(p == PAWNS);
        assert(t2 == pb);
    } else {
        assert(t2 == k_t);
    }
    assert(t2 == (k_t ^ pa) ^ pb);
    if f == FLAG_EN_PASSANT {
        assert(fv(cs) == epk);
        assert(fn_(cs) == 0u64);
    }
    if castle {
        assert(fv(rs) == ra);
        assert(fn_(rs) == 0u64);
        assert(fv(rt) == 0u64);
        assert(fn_(rt) == rb);
    }
    reveal_with_fuel(xor_list, 5);
    lemma_diff_shapes(k_s, cap, t2, epk, ra, rb);
    let d = (((k_s ^ (cap ^ t2)) ^ epk) ^ ra) ^ rb;
    assert(xor_list(fv, fn_, ks) == d);

    // The whole keys
    let pv = v.pieces_hash(z, 64);
    let c1 = z.castling_keys[v.castling_rights as int];
    let e1 = if v.en_passant_target != 0 { ep_file_key(z, v.en_passant_target) } else { 0u64 };
    let sv = if !w { z.side_to_move } else { 0u64 };
    let c2 = z.castling_keys[make_move_castling(v, m) as int];
    let e2 = if make_move_ep(m) != 0 { ep_file_key(z, make_move_ep(m)) } else { 0u64 };
    let sn = if w { z.side_to_move } else { 0u64 };
    lemma_xor_laws(pv ^ c1, 0, 0);
    lemma_xor_laws((pv ^ c1) ^ e1, 0, 0);
    assert(v.zobrist_key == ((pv ^ c1) ^ e1) ^ sv);
    lemma_xor_laws(z.side_to_move, 0, 0);
    lemma_xor_laws(0, z.side_to_move, 0);
    lemma_xor_laws(z.side_to_move, z.side_to_move, 0);
    assert(sv ^ z.side_to_move == sn);
    let pn = pv ^ d;
    lemma_xor_laws(pn ^ c2, 0, 0);
    lemma_xor_laws((pn ^ c2) ^ e2, 0, 0);
    assert(n.zobrist_hash(z) == ((pn ^ c2) ^ e2) ^ sn);

    let key = v.zobrist_key;
    let k2 = (key ^ c1) ^ e1;
    lemma_xor_laws(key ^ c1, 0, 0);
    let k4 = (k2 ^ c2) ^ e2;
    lemma_xor_laws(k2 ^ c2, 0, 0);
    let k5 = k4 ^ cap;
    lemma_xor_laws(k4, 0, 0);
    let k6 = (k5 ^ k_s) ^ k_t;
    let k7 = (k6 ^ pa) ^ pb;
    lemma_xor_laws(k6, 0, 0);
    lemma_xor_laws(k6 ^ 0, 0, 0);
    let k8 = k7 ^ epk;
    lemma_xor_laws(k7, 0, 0);
    let k9 = (k8 ^ ra) ^ rb;
    lemma_xor_laws(k8, 0, 0);
    lemma_xor_laws(k8 ^ 0, 0, 0);
    assert(make_move_key(v, m, z) == k9 ^ z.side_to_move);
    lemma_hash_algebra(key, pv, c1, e1, c2, e2, z.side_to_move, sv, sn, k_s, cap, k_t, pa, pb, epk, ra, rb, t2);
}

/// Passing the turn keeps the hash key equal to the recomputed key.
pub proof fn lemma_null_move_key(v: BoardView, z: Zobrist)
    requires
        v.zobrist_key == v.zobrist_hash(z),
    ensures
        make_null_move_spec(v, z).zobrist_key == make_null_move_spec(v, z).zobrist_hash(z),
{
    let n = make_null_move_spec(v, z);
    lemma_position_frame(v, n, z, 64);
    let pv = v.pieces_hash(z, 64);
    let c1 = z.castling_keys[v.castling_rights as int];
    let e1 = if v.en_passant_target != 0 { ep_file_key(z, v.en_passant_target) } else { 0u64 };
    let s = z.side_to_move;
    lemma_xor_laws(pv ^ c1, 0, 0);
    lemma_xor_laws(pv ^ c1, e1, e1);
    lemma_xor_laws((pv ^ c1) ^ e1, s, s);
    lemma_xor_laws(pv ^ c1, s, s);
    lemma_xor_laws(((pv ^ c1) ^ e1) ^ s, e1, s);
    lemma_xor_laws((pv ^ c1) ^ e1, s, e1);
    lemma_xor_laws(pv ^ c1, e1, s);
    lemma_hash_null(pv ^ c1, e1, s);
}

proof fn lemma_hash_null(a: u64, e: u64, s: u64)
    by (bit_vector)
    ensures
        ((a ^ e) ^ e) ^ s == a ^ s,
        (((a ^ e) ^ s) ^ e) ^ s == a,
        (a ^ e) ^ s ^ s == a ^ e,
{
}

} // verus!
