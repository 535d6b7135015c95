use vstd::prelude::*;
use vstd::std_specs::bits::u64_trailing_zeros;
use crate::bits::{has_bit, lemma_bit_logic, lemma_bit_ops, lemma_lowest};
use crate::board::{BoardView, KINGS, PAWNS, WHITE_PIECES, BLACK_PIECES};
use crate::constants::{king_attacks_spec, lemma_king_attacks};
use crate::magics::MagicBitBoards;
use crate::movegenerator::{square_attacked, mover_king_safe, occupied, least_valuable_attacker_spec, pawn_sources};

verus! {

/// Two squares touch: different, at most one rank and one file apart.
pub open spec fn adjacent(a: int, b: int) -> bool {
    &&& a != b
    &&& a / 8 - 1 <= b / 8 <= a / 8 + 1
    &&& a % 8 - 1 <= b % 8 <= a % 8 + 1
}

/// A bitboard holding square `k` is not empty.
proof fn lemma_bit_nonzero(x: u64, k: int)
    requires
        0 <= k < 64,
        has_bit(x, k),
    ensures
        x > 0,
{
    if x == 0 {
        lemma_bit_ops(0, 0, 0, k as u64);
    }
}

/// A square next to a king of the side not to move is attacked.
pub proof fn lemma_adjacent_king_attacks(v: BoardView, mb: MagicBitBoards, sq: int, occ: u64, k: int)
    requires
        0 <= sq < 64,
        0 <= k < 64,
        has_bit(v.bitboards[KINGS as int], k),
        has_bit(v.bitboards[v.enemy_color()], k),
        adjacent(sq, k),
    ensures
        square_attacked(v, mb, sq, occ),
{
    let e = v.bitboards[v.enemy_color()];
    let ka = king_attacks_spec(sq as u64);
    lemma_king_attacks(sq as u64, k as u64);
    lemma_bit_logic(v.bitboards[KINGS as int], e, k as u64);
    lemma_bit_logic(v.bitboards[KINGS as int] & e, ka, k as u64);
    lemma_bit_nonzero((v.bitboards[KINGS as int] & e) & ka, k);
}

/// After a move that leaves the mover's king safe, no king of the side now to move stands
/// next to it: the two kings never touch.
pub proof fn lemma_safe_kings_apart(v: BoardView, mb: MagicBitBoards, k: int)
    requires
        mover_king_safe(v, mb),
        0 <= k < 64,
        has_bit(v.bitboards[KINGS as int], k),
        has_bit(v.bitboards[if v.white_to_move { WHITE_PIECES as int } else { BLACK_PIECES as int }], k),
    ensures
        ({
            let mover = if v.white_to_move { BLACK_PIECES as int } else { WHITE_PIECES as int };
            let km = u64_trailing_zeros(v.bitboards[KINGS as int] & v.bitboards[mover]) as int;
            !adjacent(km, k)
        }),
{
    let u = BoardView { white_to_move: !v.white_to_move, ..v };
    let mover = if v.white_to_move { BLACK_PIECES as int } else { WHITE_PIECES as int };
    let kings = v.bitboards[KINGS as int] & v.bitboards[mover];
    let km = u64_trailing_zeros(kings) as int;
    lemma_lowest(kings);
    if adjacent(km, k) {
        assert(u.enemy_color() == if v.white_to_move { WHITE_PIECES as int } else { BLACK_PIECES as int });
        lemma_adjacent_king_attacks(u, mb, km, occupied(v), k);
        assert(false);
    }
}

/// A white pawn on `x` attacks `t`: one rank up, one file to either side, not across the
/// board's edge. A black pawn attacks one rank down.
pub open spec fn pawn_attacks_square(x: int, t: int, white: bool) -> bool {
    if white {
        (t == x + 9 && x % 8 != 7) || (t == x + 7 && x % 8 != 0)
    } else {
        (x == t + 9 && x % 8 != 0) || (x == t + 7 && x % 8 != 7)
    }
}

/// The squares the exchange evaluation looks for pawns on are exactly those from which a pawn
/// of that colour attacks the target.
proof fn lemma_pawn_sources(t: int, white: bool, x: int)
    requires
        0 <= t < 64,
        0 <= x < 64,
    ensures
        has_bit(pawn_sources(t, white), x) <==> pawn_attacks_square(x, t, white),
{
    let xu = x as u64;
    if white {
        let a = if t % 8 != 0 && t >= 9 { 0u64 | (1u64 << ((t - 9) as u64)) } else { 0u64 };
        if t >= 9 {
            lemma_bit_ops(0, (t - 9) as u64, (t - 9) as u64, xu);
        }
        lemma_bit_ops(0, 0, 0, xu);
        if t % 8 != 7 && t >= 7 {
            lemma_bit_ops(a, (t - 7) as u64, (t - 7) as u64, xu);
        }
    } else {
        let a = if t % 8 != 7 && t + 9 < 64 { 0u64 | (1u64 << ((t + 9) as u64)) } else { 0u64 };
        if t + 9 < 64 {
            lemma_bit_ops(0, (t + 9) as u64, (t + 9) as u64, xu);
        }
        lemma_bit_ops(0, 0, 0, xu);
        if t % 8 != 0 && t + 7 < 64 {
            lemma_bit_ops(a, (t + 7) as u64, (t + 7) as u64, xu);
        }
    }
}

/// The exchange evaluation's cheapest attacker, when it is a pawn, is a pawn of the attacking
/// colour, still on the board, that attacks the target by the pawn-capture rule; and when
/// some such pawn exists, the cheapest attacker is a pawn.
pub proof fn lemma_pawn_attacker(v: BoardView, mb: MagicBitBoards, t: int, occ: u64, white: bool)
    requires
        0 <= t < 64,
    ensures
        ({
            match least_valuable_attacker_spec(v, mb, t, occ, white) {
                Some((sq, piece)) => piece == PAWNS ==> {
                    &&& pawn_attacks_square(sq as int, t, white)
                    &&& has_bit(v.bitboards[PAWNS as int], sq as int)
                    &&& has_bit(v.bitboards[if white { WHITE_PIECES as int } else { BLACK_PIECES as int }], sq as int)
                    &&& has_bit(occ, sq as int)
                },
                None => true,
            }
        }),
        (exists|x: int|
            0 <= x < 64 && #[trigger] pawn_attacks_square(x, t, white) && has_bit(v.bitboards[PAWNS as int], x)
                && has_bit(v.bitboards[if white { WHITE_PIECES as int } else { BLACK_PIECES as int }], x) && has_bit(occ, x))
            ==> ({
            match least_valuable_attacker_spec(v, mb, t, occ, white) {
                Some((_, piece)) => piece == PAWNS,
                None => false,
            }
        }),
{
    let side = v.bitboards[if white { WHITE_PIECES as int } else { BLACK_PIECES as int }];
    let color_bb = side & occ;
    let own_pawns = v.bitboards[PAWNS as int] & color_bb;
    let pawns = pawn_sources(t, white) & own_pawns;
    if pawns != 0 {
        lemma_lowest(pawns);
        let x = u64_trailing_zeros(pawns) as int;
        lemma_bit_logic(pawn_sources(t, white), own_pawns, x as u64);
        lemma_bit_logic(v.bitboards[PAWNS as int], color_bb, x as u64);
        lemma_bit_logic(side, occ, x as u64);
        lemma_pawn_sources(t, white, x);
    }
    if exists|x: int|
        0 <= x < 64 && #[trigger] pawn_attacks_square(x, t, white) && has_bit(v.bitboards[PAWNS as int], x)
            && has_bit(side, x) && has_bit(occ, x) {
        let x = choose|x: int|
            0 <= x < 64 && #[trigger] pawn_attacks_square(x, t, white) && has_bit(v.bitboards[PAWNS as int], x)
                && has_bit(side, x) && has_bit(occ, x);
        lemma_pawn_sources(t, white, x);
        lemma_bit_logic(side, occ, x as u64);
        lemma_bit_logic(v.bitboards[PAWNS as int], color_bb, x as u64);
        lemma_bit_logic(pawn_sources(t, white), own_pawns, x as u64);
        if pawns == 0 {
            lemma_bit_ops(0, 0, 0, x as u64);
        }
    }
}

} // verus!
