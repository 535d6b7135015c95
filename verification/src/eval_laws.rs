use vstd::prelude::*;
use vstd::std_specs::bits::u64_trailing_zeros;
use crate::bits::{has_bit, lemma_bit_logic, sum_bits, clear_lowest, lemma_lowest, lemma_clear_lowest_smaller};
use crate::board::{sum_squares, lemma_sum_update, lemma_sum_same};
use crate::board::{BoardView, PAWNS, WHITE_PIECES, BLACK_PIECES};
use crate::evaluation::{passed_fn, is_passed, enemy_pawns_of, in_front_span, passed_pawn_spec, side_bb, PASSED_BONUS};

verus! {

/// Square `sq` seen from the other side of the board: the same file, the rank counted from
/// the other end.
pub open spec fn flip(sq: int) -> int {
    (7 - sq / 8) * 8 + sq % 8
}

/// `u` holds `v`'s pawns turned round: each pawn on the flipped square, with its colour
/// swapped.
pub open spec fn pawns_mirrored(u: BoardView, v: BoardView) -> bool {
    &&& forall|x: int| 0 <= x < 64 ==> #[trigger] has_bit(u.bitboards[PAWNS as int], x) == has_bit(v.bitboards[PAWNS as int], flip(x))
    &&& forall|x: int|
        0 <= x < 64 ==> #[trigger] has_bit(u.bitboards[WHITE_PIECES as int], x) == has_bit(v.bitboards[BLACK_PIECES as int], flip(x))
    &&& forall|x: int|
        0 <= x < 64 ==> #[trigger] has_bit(u.bitboards[BLACK_PIECES as int], x) == has_bit(v.bitboards[WHITE_PIECES as int], flip(x))
}

/// Flipping keeps the file, counts the rank from the other end, and undoes itself.
proof fn lemma_flip(x: int)
    requires
        0 <= x < 64,
    ensures
        0 <= flip(x) < 64,
        flip(x) / 8 == 7 - x / 8,
        flip(x) % 8 == x % 8,
        flip(flip(x)) == x,
{
    vstd::arithmetic::div_mod::lemma_fundamental_div_mod_converse(flip(x), 8, 7 - x / 8, x % 8);
    vstd::arithmetic::div_mod::lemma_fundamental_div_mod_converse(x, 8, x / 8, x % 8);
}

/// A pawn on `s` is passed in `v` exactly when the pawn of the other colour on the flipped
/// square is passed in the board turned round.
proof fn lemma_passed_mirror(u: BoardView, v: BoardView, s: int, white: bool)
    requires
        pawns_mirrored(u, v),
        0 <= s < 64,
    ensures
        is_passed(u, flip(s), !white) == is_passed(v, s, white),
{
    lemma_flip(s);
    let eu = enemy_pawns_of(u, !white);
    let ev = enemy_pawns_of(v, white);
    assert forall|y: int| 0 <= y < 64 implies #[trigger] has_bit(eu, y) == has_bit(ev, flip(y))
        && in_front_span(flip(s), y, !white) == in_front_span(s, flip(y), white) by {
        lemma_flip(y);
        assert(has_bit(u.bitboards[PAWNS as int], y) == has_bit(v.bitboards[PAWNS as int], flip(y)));
        assert(has_bit(u.bitboards[WHITE_PIECES as int], y) == has_bit(v.bitboards[BLACK_PIECES as int], flip(y)));
        assert(has_bit(u.bitboards[BLACK_PIECES as int], y) == has_bit(v.bitboards[WHITE_PIECES as int], flip(y)));
        lemma_bit_logic(u.bitboards[PAWNS as int], u.bitboards[WHITE_PIECES as int], y as u64);
        lemma_bit_logic(u.bitboards[PAWNS as int], u.bitboards[BLACK_PIECES as int], y as u64);
        lemma_bit_logic(v.bitboards[PAWNS as int], v.bitboards[WHITE_PIECES as int], flip(y) as u64);
        lemma_bit_logic(v.bitboards[PAWNS as int], v.bitboards[BLACK_PIECES as int], flip(y) as u64);
    }
    if is_passed(v, s, white) {
        assert forall|y: int| 0 <= y < 64 && #[trigger] has_bit(eu, y) implies !in_front_span(flip(s), y, !white) by {
            lemma_flip(y);
            assert(has_bit(ev, flip(y)));
        }
    }
    if is_passed(u, flip(s), !white) {
        assert forall|x: int| 0 <= x < 64 && #[trigger] has_bit(ev, x) implies !in_front_span(s, x, white) by {
            lemma_flip(x);
            assert(has_bit(eu, flip(x)));
            assert(flip(flip(x)) == x);
        }
    }
}

/// The passed-pawn bonus is colour-blind: a black passed pawn on rank `r` (counted from
/// white's side, from 0) earns what a white passed pawn earns on the flipped square, rank
/// `7 - r`, in the board turned round, and the other way about.
pub proof fn lemma_passed_bonus_mirror(u: BoardView, v: BoardView, s: int)
    requires
        pawns_mirrored(u, v),
        0 <= s < 64,
    ensures
        passed_fn(v, false)(s as u32) == passed_fn(u, true)(flip(s) as u32),
        passed_fn(v, true)(s as u32) == passed_fn(u, false)(flip(s) as u32),
        is_passed(v, s, false) ==> passed_fn(v, false)(s as u32) == PASSED_BONUS[7 - s / 8],
        is_passed(v, s, true) ==> passed_fn(v, true)(s as u32) == PASSED_BONUS[s / 8],
{
    lemma_flip(s);
    lemma_passed_mirror(u, v, s, false);
    lemma_passed_mirror(u, v, s, true);
}

/// `f` over the squares of `bb`, as a function of every square (0 off `bb`).
pub open spec fn on_squares(bb: u64, f: spec_fn(u32) -> int) -> spec_fn(int) -> int {
    |x: int| if has_bit(bb, x) { f(x as u32) } else { 0 }
}

/// A sum over the set squares of a bitboard is the sum over all squares of the board.
proof fn lemma_sum_bits_squares(bb: u64, f: spec_fn(u32) -> int)
    ensures
        sum_bits(bb, f) == sum_squares(on_squares(bb, f), 64),
    decreases bb,
{
    if bb == 0 {
        assert forall|i: int| 0 <= i < 64 implies #[trigger] on_squares(bb, f)(i) == (|x: int| 0int)(i) by {
            crate::bits::lemma_bit_ops(0, 0, 0, i as u64);
        }
        lemma_sum_same(|x: int| 0int, on_squares(bb, f), 64);
        lemma_sum_zero(64);
    } else {
        lemma_lowest(bb);
        lemma_clear_lowest_smaller(bb);
        let t = u64_trailing_zeros(bb) as int;
        let rest = clear_lowest(bb);
        lemma_sum_bits_squares(rest, f);
        assert forall|i: int| 0 <= i < 64 && i != t implies #[trigger] on_squares(rest, f)(i) == on_squares(bb, f)(i) by {}
        lemma_sum_update(on_squares(rest, f), on_squares(bb, f), 64, t);
        assert(!has_bit(rest, t));
    }
}

proof fn lemma_sum_zero(n: int)
    requires
        n >= 0,
    ensures
        sum_squares(|x: int| 0int, n) == 0,
    decreases n,
{
    if n > 0 {
        lemma_sum_zero(n - 1);
    }
}

/// Summing over the board turned round is summing over the board.
proof fn lemma_sum_flip(h: spec_fn(int) -> int)
    ensures
        sum_squares(|x: int| h(flip(x)), 64) == sum_squares(h, 64),
{
    reveal_with_fuel(sum_squares, 65);
}

/// The passed-pawn terms are colour-blind: in the board turned round with colours swapped,
/// white's passed pawns earn what black's earned, and black's what white's earned.
pub proof fn lemma_passed_pawns_mirror(u: BoardView, v: BoardView)
    requires
        pawns_mirrored(u, v),
    ensures
        passed_pawn_spec(u, true) == passed_pawn_spec(v, false),
        passed_pawn_spec(u, false) == passed_pawn_spec(v, true),
{
    lemma_passed_side_mirror(u, v, true);
    lemma_passed_side_mirror(u, v, false);
}

proof fn lemma_passed_side_mirror(u: BoardView, v: BoardView, white: bool)
    requires
        pawns_mirrored(u, v),
    ensures
        passed_pawn_spec(u, white) == passed_pawn_spec(v, !white),
{
    let bu = u.bitboards[PAWNS as int] & side_bb(u, white);
    let bv = v.bitboards[PAWNS as int] & side_bb(v, !white);
    let hu = on_squares(bu, passed_fn(u, white));
    let hv = on_squares(bv, passed_fn(v, !white));
    lemma_sum_bits_squares(bu, passed_fn(u, white));
    lemma_sum_bits_squares(bv, passed_fn(v, !white));
    assert forall|x: int| 0 <= x < 64 implies #[trigger] hu(x) == (|y: int| hv(flip(y)))(x) by {
        lemma_flip(x);
        let fx = flip(x);
        assert(has_bit(u.bitboards[PAWNS as int], x) == has_bit(v.bitboards[PAWNS as int], fx));
        assert(has_bit(u.bitboards[WHITE_PIECES as int], x) == has_bit(v.bitboards[BLACK_PIECES as int], fx));
        assert(has_bit(u.bitboards[BLACK_PIECES as int], x) == has_bit(v.bitboards[WHITE_PIECES as int], fx));
        lemma_bit_logic(u.bitboards[PAWNS as int], side_bb(u, white), x as u64);
        lemma_bit_logic(v.bitboards[PAWNS as int], side_bb(v, !white), fx as u64);
        lemma_passed_bonus_mirror(u, v, fx);
        assert(flip(fx) == x);
    }
    lemma_sum_same(hu, |y: int| hv(flip(y)), 64);
    lemma_sum_flip(hv);
}

} // verus!
