use vstd::prelude::*;
use crate::bits::{count_ones, squares_of, clear_lowest, lemma_squares_of, lemma_lowest, lemma_bits_ext, has_bit, sq_bit, popcount, lemma_bit_ops, lemma_bit_test, lemma_popcount_set, lemma_bit_logic};
use crate::constants::{ROOK_MAGICS, BISHOP_MAGICS, RANK_1, RANK_8, FILE_A, FILE_H};
use crate::bits::{lemma_rank_mask, lemma_file_mask};
use vstd::std_specs::bits::u64_trailing_zeros;

verus! {

/// `k` steps in direction `d` (one of -1, 0, 1).
pub open spec fn step(d: int, k: int) -> int {
    if d > 0 {
        k
    } else if d < 0 {
        -k
    } else {
        0
    }
}

/// A direction of movement: one of the eight king steps.
pub open spec fn valid_dir(dr: int, df: int) -> bool {
    -1 <= dr <= 1 && -1 <= df <= 1 && (dr != 0 || df != 0)
}

/// The square `k` steps from `sq` along (`dr`, `df`) is on the board.
pub open spec fn ray_on_board(sq: int, dr: int, df: int, k: int) -> bool {
    &&& 0 <= sq / 8 + step(dr, k) < 8
    &&& 0 <= sq % 8 + step(df, k) < 8
}

/// The square `k` steps from `sq` along (`dr`, `df`).
pub open spec fn ray_sq(sq: int, dr: int, df: int, k: int) -> int {
    (sq / 8 + step(dr, k)) * 8 + sq % 8 + step(df, k)
}

/// Square `x` is reached from `sq` along (`dr`, `df`) before or at the first square that
/// `block` occupies.
pub open spec fn ray_attacked(sq: int, dr: int, df: int, block: u64, x: int) -> bool {
    exists|k: int|
        1 <= k && ray_on_board(sq, dr, df, k) && x == #[trigger] ray_sq(sq, dr, df, k) && (forall|j: int|
            1 <= j < k ==> !has_bit(block, #[trigger] ray_sq(sq, dr, df, j)))
}

/// Square `x` lies on the ray from `sq` along (`dr`, `df`), not on the last square before the
/// edge of the board.
pub open spec fn ray_masked(sq: int, dr: int, df: int, x: int) -> bool {
    exists|k: int| 1 <= k && ray_on_board(sq, dr, df, k + 1) && x == #[trigger] ray_sq(sq, dr, df, k)
}

/// Squares a rook on `sq` attacks when `block` holds the occupied squares.
pub open spec fn rook_attacked(sq: int, block: u64, x: int) -> bool {
    ||| ray_attacked(sq, 1, 0, block, x)
    ||| ray_attacked(sq, -1, 0, block, x)
    ||| ray_attacked(sq, 0, 1, block, x)
    ||| ray_attacked(sq, 0, -1, block, x)
}

/// Squares a bishop on `sq` attacks when `block` holds the occupied squares.
pub open spec fn bishop_attacked(sq: int, block: u64, x: int) -> bool {
    ||| ray_attacked(sq, 1, 1, block, x)
    ||| ray_attacked(sq, -1, 1, block, x)
    ||| ray_attacked(sq, -1, -1, block, x)
    ||| ray_attacked(sq, 1, -1, block, x)
}

/// The relevant-occupancy squares of a rook on `sq`: its rays without the edge squares.
pub open spec fn rook_masked(sq: int, x: int) -> bool {
    ||| ray_masked(sq, 1, 0, x)
    ||| ray_masked(sq, -1, 0, x)
    ||| ray_masked(sq, 0, 1, x)
    ||| ray_masked(sq, 0, -1, x)
}

/// The relevant-occupancy squares of a bishop on `sq`.
pub open spec fn bishop_masked(sq: int, x: int) -> bool {
    ||| ray_masked(sq, 1, 1, x)
    ||| ray_masked(sq, -1, 1, x)
    ||| ray_masked(sq, -1, -1, x)
    ||| ray_masked(sq, 1, -1, x)
}

/// Once a ray leaves the board it stays off it.
proof fn lemma_ray_off(sq: int, dr: int, df: int, k: int, k2: int)
    requires
        0 <= sq < 64,
        valid_dir(dr, df),
        1 <= k <= k2,
        !ray_on_board(sq, dr, df, k),
    ensures
        !ray_on_board(sq, dr, df, k2),
{
}

/// Only the squares before the edge matter along a ray: blockers off the relevance mask do
/// not change what the ray reaches.
proof fn lemma_ray_relevant(sq: int, dr: int, df: int, block: u64, mask: u64, x: int)
    requires
        0 <= sq < 64,
        valid_dir(dr, df),
        forall|y: int| 0 <= y < 64 && ray_masked(sq, dr, df, y) ==> has_bit(mask, y),
    ensures
        ray_attacked(sq, dr, df, block, x) == ray_attacked(sq, dr, df, block & mask, x),
{
    if ray_attacked(sq, dr, df, block, x) {
        let k = choose|k: int|
            1 <= k && ray_on_board(sq, dr, df, k) && x == #[trigger] ray_sq(sq, dr, df, k) && (forall|j: int|
                1 <= j < k ==> !has_bit(block, #[trigger] ray_sq(sq, dr, df, j)));
        assert forall|j: int| 1 <= j < k implies !has_bit(block & mask, #[trigger] ray_sq(sq, dr, df, j)) by {
            assert(ray_on_board(sq, dr, df, j + 1));
            lemma_bit_logic(block, mask, ray_sq(sq, dr, df, j) as u64);
        }
    }
    if ray_attacked(sq, dr, df, block & mask, x) {
        let k = choose|k: int|
            1 <= k && ray_on_board(sq, dr, df, k) && x == #[trigger] ray_sq(sq, dr, df, k) && (forall|j: int|
                1 <= j < k ==> !has_bit(block & mask, #[trigger] ray_sq(sq, dr, df, j)));
        assert forall|j: int| 1 <= j < k implies !has_bit(block, #[trigger] ray_sq(sq, dr, df, j)) by {
            assert(ray_on_board(sq, dr, df, j + 1));
            assert(ray_on_board(sq, dr, df, j));
            let y = ray_sq(sq, dr, df, j);
            assert(0 <= y < 64);
            assert(1 <= j && ray_on_board(sq, dr, df, j + 1) && y == ray_sq(sq, dr, df, j));
            assert(ray_masked(sq, dr, df, y));
            assert(has_bit(mask, y));
            assert(!has_bit(block & mask, y));
            lemma_bit_logic(block, mask, y as u64);
        }
    }
}

/// The rank and file of the square `k` steps along a ray that is still on the board.
proof fn lemma_ray_sq_coords(sq: int, dr: int, df: int, k: int)
    requires
        0 <= sq < 64,
        ray_on_board(sq, dr, df, k),
    ensures
        ray_sq(sq, dr, df, k) / 8 == sq / 8 + step(dr, k),
        ray_sq(sq, dr, df, k) % 8 == sq % 8 + step(df, k),
        0 <= ray_sq(sq, dr, df, k) < 64,
{
    let a = sq / 8 + step(dr, k);
    let b = sq % 8 + step(df, k);
    vstd::arithmetic::div_mod::lemma_fundamental_div_mod_converse(a * 8 + b, 8, a, b);
}

/// On an empty board, a ray's relevance squares are the squares it reaches except the last
/// one before the edge: those from which one more step along the ray stays on the board.
pub proof fn lemma_ray_mask_empty_board(sq: int, dr: int, df: int, x: int)
    requires
        0 <= sq < 64,
        valid_dir(dr, df),
    ensures
        ray_masked(sq, dr, df, x) <==> (ray_attacked(sq, dr, df, 0, x) && 0 <= x / 8 + dr < 8 && 0 <= x % 8 + df
            < 8),
{
    if ray_masked(sq, dr, df, x) {
        let k = choose|k: int| 1 <= k && ray_on_board(sq, dr, df, k + 1) && x == #[trigger] ray_sq(sq, dr, df, k);
        assert(ray_on_board(sq, dr, df, k));
        lemma_ray_sq_coords(sq, dr, df, k);
        assert forall|j: int| 1 <= j < k implies !has_bit(0u64, #[trigger] ray_sq(sq, dr, df, j)) by {
            assert(ray_on_board(sq, dr, df, j));
            lemma_ray_sq_coords(sq, dr, df, j);
            lemma_bit_ops(0, 0, 0, ray_sq(sq, dr, df, j) as u64);
        }
        assert(x == ray_sq(sq, dr, df, k));
    }
    if ray_attacked(sq, dr, df, 0, x) && 0 <= x / 8 + dr < 8 && 0 <= x % 8 + df < 8 {
        let k = choose|k: int|
            1 <= k && ray_on_board(sq, dr, df, k) && x == #[trigger] ray_sq(sq, dr, df, k) && (forall|j: int|
                1 <= j < k ==> !has_bit(0u64, #[trigger] ray_sq(sq, dr, df, j)));
        lemma_ray_sq_coords(sq, dr, df, k);
        assert(ray_on_board(sq, dr, df, k + 1));
        assert(x == ray_sq(sq, dr, df, k));
    }
}

/// On an empty board the rook's and the bishop's relevance squares are the squares they
/// attack, without the last square of each ray before the edge.
pub proof fn lemma_masks_empty_board(sq: int, x: int)
    requires
        0 <= sq < 64,
    ensures
        rook_masked(sq, x) <==> {
            ||| ray_attacked(sq, 1, 0, 0, x) && 0 <= x / 8 + 1 < 8
            ||| ray_attacked(sq, -1, 0, 0, x) && 0 <= x / 8 - 1 < 8
            ||| ray_attacked(sq, 0, 1, 0, x) && 0 <= x % 8 + 1 < 8
            ||| ray_attacked(sq, 0, -1, 0, x) && 0 <= x % 8 - 1 < 8
        },
        bishop_masked(sq, x) <==> {
            ||| ray_attacked(sq, 1, 1, 0, x) && 0 <= x / 8 + 1 < 8 && 0 <= x % 8 + 1 < 8
            ||| ray_attacked(sq, -1, 1, 0, x) && 0 <= x / 8 - 1 < 8 && 0 <= x % 8 + 1 < 8
            ||| ray_attacked(sq, -1, -1, 0, x) && 0 <= x / 8 - 1 < 8 && 0 <= x % 8 - 1 < 8
            ||| ray_attacked(sq, 1, -1, 0, x) && 0 <= x / 8 + 1 < 8 && 0 <= x % 8 - 1 < 8
        },
        rook_masked(sq, x) ==> rook_attacked(sq, 0, x),
        bishop_masked(sq, x) ==> bishop_attacked(sq, 0, x),
{
    lemma_ray_mask_empty_board(sq, 1, 0, x);
    lemma_ray_mask_empty_board(sq, -1, 0, x);
    lemma_ray_mask_empty_board(sq, 0, 1, x);
    lemma_ray_mask_empty_board(sq, 0, -1, x);
    lemma_ray_mask_empty_board(sq, 1, 1, x);
    lemma_ray_mask_empty_board(sq, -1, 1, x);
    lemma_ray_mask_empty_board(sq, -1, -1, x);
    lemma_ray_mask_empty_board(sq, 1, -1, x);
}

/// Square `x` is on the edge of the board beyond which a rook on `sq` never needs to look:
/// the first or last rank when it is not the rook's own rank, the a- or h-file when it is
/// not the rook's own file.
pub open spec fn rook_edge_square(sq: int, x: int) -> bool {
    ||| (x / 8 == 0 || x / 8 == 7) && x / 8 != sq / 8
    ||| (x % 8 == 0 || x % 8 == 7) && x % 8 != sq % 8
}

/// Square `x` is on the edge of the board.
pub open spec fn board_edge_square(x: int) -> bool {
    x / 8 == 0 || x / 8 == 7 || x % 8 == 0 || x % 8 == 7
}

/// The edge squares a rook on `sq` ignores, as a bitboard: the outer ranks off its rank and
/// the outer files off its file.
pub open spec fn rook_edges(sq: int) -> u64 {
    ((RANK_1 | RANK_8) & !(0xFFu64 << ((8 * (sq / 8)) as u64))) | ((FILE_A | FILE_H) & !(FILE_A << ((sq % 8) as u64)))
}

/// The board's inner squares, where bishop masks lie.
pub open spec fn inner_squares() -> u64 {
    0x007E_7E7E_7E7E_7E00u64
}

/// Along one ray from `sq` on an empty board, one more step stays on the board exactly when
/// the square reached is not an edge square for that piece.
proof fn lemma_ray_edge(sq: int, dr: int, df: int, x: int)
    requires
        0 <= sq < 64,
        valid_dir(dr, df),
        ray_attacked(sq, dr, df, 0, x),
    ensures
        0 <= x < 64,
        (dr == 0 || df == 0) ==> ((0 <= x / 8 + dr < 8 && 0 <= x % 8 + df < 8) <==> !rook_edge_square(sq, x)),
        (dr != 0 && df != 0) ==> ((0 <= x / 8 + dr < 8 && 0 <= x % 8 + df < 8) <==> !board_edge_square(x)),
{
    let k = choose|k: int|
        1 <= k && ray_on_board(sq, dr, df, k) && x == #[trigger] ray_sq(sq, dr, df, k) && (forall|j: int|
            1 <= j < k ==> !has_bit(0u64, #[trigger] ray_sq(sq, dr, df, j)));
    lemma_ray_sq_coords(sq, dr, df, k);
}

/// The rook's and the bishop's relevance squares are the squares they attack on an empty
/// board that are not edge squares for them.
pub proof fn lemma_masked_not_edge(sq: int, x: int)
    requires
        0 <= sq < 64,
        0 <= x < 64,
    ensures
        rook_masked(sq, x) <==> rook_attacked(sq, 0, x) && !rook_edge_square(sq, x),
        bishop_masked(sq, x) <==> bishop_attacked(sq, 0, x) && !board_edge_square(x),
{
    lemma_masks_empty_board(sq, x);
    if ray_attacked(sq, 1, 0, 0, x) { lemma_ray_edge(sq, 1, 0, x); }
    if ray_attacked(sq, -1, 0, 0, x) { lemma_ray_edge(sq, -1, 0, x); }
    if ray_attacked(sq, 0, 1, 0, x) { lemma_ray_edge(sq, 0, 1, x); }
    if ray_attacked(sq, 0, -1, 0, x) { lemma_ray_edge(sq, 0, -1, x); }
    if ray_attacked(sq, 1, 1, 0, x) { lemma_ray_edge(sq, 1, 1, x); }
    if ray_attacked(sq, -1, 1, 0, x) { lemma_ray_edge(sq, -1, 1, x); }
    if ray_attacked(sq, -1, -1, 0, x) { lemma_ray_edge(sq, -1, -1, x); }
    if ray_attacked(sq, 1, -1, 0, x) { lemma_ray_edge(sq, 1, -1, x); }
}

/// The edge bitboards hold exactly the edge squares.
proof fn lemma_edge_bits(sq: int, x: int)
    requires
        0 <= sq < 64,
        0 <= x < 64,
    ensures
        has_bit(rook_edges(sq), x) <==> rook_edge_square(sq, x),
        has_bit(inner_squares(), x) <==> !board_edge_square(x),
{
    let xu = x as u64;
    let rs = (8 * (sq / 8)) as u64;
    let fs = (sq % 8) as u64;
    assert(RANK_1 == 0xFFu64 << 0u64 && RANK_8 == 0xFFu64 << 56u64 && FILE_A == 0x0101_0101_0101_0101u64 << 0u64
        && FILE_H == 0x0101_0101_0101_0101u64 << 7u64) by (bit_vector);
    lemma_rank_mask(0, xu);
    lemma_rank_mask(56, xu);
    lemma_rank_mask(rs, xu);
    lemma_file_mask(0, xu);
    lemma_file_mask(7, xu);
    lemma_file_mask(fs, xu);
    lemma_bit_logic(RANK_1, RANK_8, xu);
    lemma_bit_logic(FILE_A, FILE_H, xu);
    lemma_bit_logic(RANK_1 | RANK_8, !(0xFFu64 << rs), xu);
    lemma_bit_logic(0xFFu64 << rs, 0, xu);
    lemma_bit_logic(FILE_A | FILE_H, !(FILE_A << fs), xu);
    lemma_bit_logic(FILE_A << fs, 0, xu);
    lemma_bit_logic((RANK_1 | RANK_8) & !(0xFFu64 << rs), (FILE_A | FILE_H) & !(FILE_A << fs), xu);
    assert(((0x007E_7E7E_7E7E_7E00u64 >> xu) & 1u64 == 1u64) <==> (xu / 8 != 0 && xu / 8 != 7 && xu % 8 != 0 && xu % 8 != 7))
        by (bit_vector)
        requires
            xu < 64,
    ;
}

/// The relevance masks are the empty-board attacks without the edge squares: for a rook the
/// outer ranks and files other than its own, for a bishop every edge square.
pub proof fn lemma_mask_formulas(sq: int)
    requires
        0 <= sq < 64,
    ensures
        bits_where(|x: int| rook_masked(sq, x), 64) == rook_rays(sq, 0) & !rook_edges(sq),
        bits_where(|x: int| bishop_masked(sq, x), 64) == bishop_rays(sq, 0) & inner_squares(),
{
    lemma_rays(sq, 0);
    lemma_bits_where(|x: int| rook_masked(sq, x), 64);
    lemma_bits_where(|x: int| bishop_masked(sq, x), 64);
    let rm = bits_where(|x: int| rook_masked(sq, x), 64);
    let bm = bits_where(|x: int| bishop_masked(sq, x), 64);
    assert forall|x: int| 0 <= x < 64 implies has_bit(rm, x) == has_bit(rook_rays(sq, 0) & !rook_edges(sq), x) by {
        lemma_masked_not_edge(sq, x);
        lemma_edge_bits(sq, x);
        lemma_bit_logic(rook_rays(sq, 0), !rook_edges(sq), x as u64);
        lemma_bit_logic(rook_edges(sq), 0, x as u64);
        assert(has_bit(rm, x) == rook_masked(sq, x));
        assert(has_bit(rook_rays(sq, 0), x) == rook_attacked(sq, 0, x));
        assert(has_bit(!rook_edges(sq), x) == !has_bit(rook_edges(sq), x));
    }
    assert forall|x: int| 0 <= x < 64 implies has_bit(bm, x) == has_bit(bishop_rays(sq, 0) & inner_squares(), x) by {
        lemma_masked_not_edge(sq, x);
        lemma_edge_bits(sq, x);
        lemma_bit_logic(bishop_rays(sq, 0), inner_squares(), x as u64);
        assert(has_bit(bm, x) == bishop_masked(sq, x));
        assert(has_bit(bishop_rays(sq, 0), x) == bishop_attacked(sq, 0, x));
    }
    lemma_bits_ext(rm, rook_rays(sq, 0) & !rook_edges(sq));
    lemma_bits_ext(bm, bishop_rays(sq, 0) & inner_squares());
}

/// A rook's attacks depend only on the occupancy of its relevance mask.
pub proof fn lemma_rook_relevant(sq: int, block: u64, mask: u64)
    requires
        0 <= sq < 64,
        forall|x: int| 0 <= x < 64 ==> (has_bit(mask, x) <==> rook_masked(sq, x)),
    ensures
        forall|x: int| rook_attacked(sq, block, x) == rook_attacked(sq, block & mask, x),
{
    assert forall|x: int| rook_attacked(sq, block, x) == rook_attacked(sq, block & mask, x) by {
        lemma_ray_relevant(sq, 1, 0, block, mask, x);
        lemma_ray_relevant(sq, -1, 0, block, mask, x);
        lemma_ray_relevant(sq, 0, 1, block, mask, x);
        lemma_ray_relevant(sq, 0, -1, block, mask, x);
    }
}

/// A bishop's attacks depend only on the occupancy of its relevance mask.
pub proof fn lemma_bishop_relevant(sq: int, block: u64, mask: u64)
    requires
        0 <= sq < 64,
        forall|x: int| 0 <= x < 64 ==> (has_bit(mask, x) <==> bishop_masked(sq, x)),
    ensures
        forall|x: int| bishop_attacked(sq, block, x) == bishop_attacked(sq, block & mask, x),
{
    assert forall|x: int| bishop_attacked(sq, block, x) == bishop_attacked(sq, block & mask, x) by {
        lemma_ray_relevant(sq, 1, 1, block, mask, x);
        lemma_ray_relevant(sq, -1, 1, block, mask, x);
        lemma_ray_relevant(sq, -1, -1, block, mask, x);
        lemma_ray_relevant(sq, 1, -1, block, mask, x);
    }
}

/// The bitboard of the squares below `n` where `p` holds.
pub open spec fn bits_where(p: spec_fn(int) -> bool, n: int) -> u64
    decreases n,
{
    if n <= 0 {
        0
    } else if p(n - 1) {
        bits_where(p, n - 1) | sq_bit(n - 1)
    } else {
        bits_where(p, n - 1)
    }
}

proof fn lemma_bits_where(p: spec_fn(int) -> bool, n: int)
    requires
        0 <= n <= 64,
    ensures
        forall|x: int| 0 <= x < 64 ==> (#[trigger] has_bit(bits_where(p, n), x) <==> (x < n && p(x))),
    decreases n,
{
    if n > 0 {
        lemma_bits_where(p, n - 1);
        assert forall|x: int| 0 <= x < 64 implies (#[trigger] has_bit(bits_where(p, n), x) <==> (x < n && p(x))) by {
            lemma_bit_ops(bits_where(p, n - 1), (n - 1) as u64, (n - 1) as u64, x as u64);
            assert(has_bit(bits_where(p, n - 1), x) <==> (x < n - 1 && p(x)));
        }
    } else {
        assert forall|x: int| 0 <= x < 64 implies !#[trigger] has_bit(bits_where(p, n), x) by {
            lemma_bit_ops(0, 0, 0, x as u64);
        }
    }
}

/// The squares a rook on `sq` attacks with `occ` occupied, as a bitboard.
pub open spec fn rook_rays(sq: int, occ: u64) -> u64 {
    bits_where(|x: int| rook_attacked(sq, occ, x), 64)
}

/// The squares a bishop on `sq` attacks with `occ` occupied, as a bitboard.
pub open spec fn bishop_rays(sq: int, occ: u64) -> u64 {
    bits_where(|x: int| bishop_attacked(sq, occ, x), 64)
}

/// These bitboards hold exactly the attacked squares.
pub proof fn lemma_rays(sq: int, occ: u64)
    ensures
        forall|x: int| 0 <= x < 64 ==> (#[trigger] has_bit(rook_rays(sq, occ), x) <==> rook_attacked(sq, occ, x)),
        forall|x: int| 0 <= x < 64 ==> (#[trigger] has_bit(bishop_rays(sq, occ), x) <==> bishop_attacked(sq, occ, x)),
{
    lemma_bits_where(|x: int| rook_attacked(sq, occ, x), 64);
    lemma_bits_where(|x: int| bishop_attacked(sq, occ, x), 64);
}

/// The attacks along one ray, up to and including the first blocker.
fn ray_attacks(square: usize, dr: i32, df: i32, block: u64) -> (r: u64)
    requires
        square < 64,
        valid_dir(dr as int, df as int),
    ensures
        forall|x: int| 0 <= x < 64 ==> (has_bit(r, x) <==> ray_attacked(square as int, dr as int, df as int, block, x)),
{
    let rank = (square / 8) as i32;
    let file = (square % 8) as i32;
    let mut attacks: u64 = 0;
    let mut r: i32 = rank + dr;
    let mut f: i32 = file + df;
    let ghost sqi = square as int;
    let ghost mut k: int = 1;
    proof {
        assert forall|x: int| 0 <= x < 64 implies !has_bit(attacks, x) by {
            lemma_bit_ops(0, 0, 0, x as u64);
        }
    }
    let ghost mut blocked_at: bool = false;
    while 0 <= r && r <= 7 && 0 <= f && f <= 7
        invariant_except_break
            1 <= k <= 8,
            r == rank + step(dr as int, k),
            f == file + step(df as int, k),
            forall|j: int| 1 <= j < k ==> ray_on_board(sqi, dr as int, df as int, j),
            forall|j: int| 1 <= j < k ==> !has_bit(block, #[trigger] ray_sq(sqi, dr as int, df as int, j)),
            forall|x: int|
                0 <= x < 64 ==> (has_bit(attacks, x) <==> exists|j: int|
                    1 <= j < k && x == #[trigger] ray_sq(sqi, dr as int, df as int, j)),
        invariant
            square < 64,
            sqi == square as int,
            valid_dir(dr as int, df as int),
            rank == sqi / 8,
            file == sqi % 8,
        ensures
            1 <= k,
            forall|j: int| 1 <= j < k ==> ray_on_board(sqi, dr as int, df as int, j),
            forall|j: int| 1 <= j < k ==> !has_bit(block, #[trigger] ray_sq(sqi, dr as int, df as int, j)),
            (!ray_on_board(sqi, dr as int, df as int, k) && forall|x: int|
                0 <= x < 64 ==> (has_bit(attacks, x) <==> exists|j: int|
                    1 <= j < k && x == #[trigger] ray_sq(sqi, dr as int, df as int, j))) || (ray_on_board(
                sqi,
                dr as int,
                df as int,
                k,
            ) && has_bit(block, ray_sq(sqi, dr as int, df as int, k)) && (forall|x: int|
                0 <= x < 64 ==> (has_bit(attacks, x) <==> exists|j: int|
                    1 <= j <= k && x == #[trigger] ray_sq(sqi, dr as int, df as int, j)))),
        decreases 8 - k,
    {
        assert(0 <= rank <= 7 && 0 <= file <= 7);
        assert(k <= 7);
        let sq = (r * 8 + f) as u64;
        let ghost old_attacks = attacks;
        attacks = attacks | (1u64 << sq);
        proof {
            assert(sq as int == ray_sq(sqi, dr as int, df as int, k));
            assert forall|x: int| 0 <= x < 64 implies (has_bit(attacks, x) <==> exists|j: int|
                1 <= j < k + 1 && x == #[trigger] ray_sq(sqi, dr as int, df as int, j)) by {
                lemma_bit_ops(old_attacks, sq, sq, x as u64);
                assert(has_bit(attacks, x) <==> (has_bit(old_attacks, x) || x == sq as int));
                if has_bit(attacks, x) {
                    if has_bit(old_attacks, x) {
                        let j = choose|j: int| 1 <= j < k && x == #[trigger] ray_sq(sqi, dr as int, df as int, j);
                        assert(1 <= j < k + 1 && x == ray_sq(sqi, dr as int, df as int, j));
                    } else {
                        assert(1 <= k < k + 1 && x == ray_sq(sqi, dr as int, df as int, k));
                    }
                }
                if exists|j: int| 1 <= j < k + 1 && x == #[trigger] ray_sq(sqi, dr as int, df as int, j) {
                    let j = choose|j: int| 1 <= j < k + 1 && x == #[trigger] ray_sq(sqi, dr as int, df as int, j);
                    if j < k {
                        assert(exists|i: int| 1 <= i < k && x == #[trigger] ray_sq(sqi, dr as int, df as int, i));
                        assert(has_bit(old_attacks, x));
                    } else {
                        assert(x == sq as int);
                    }
                }
            }
            lemma_bit_test(block, sq);
        }
        if (block & (1u64 << sq)) != 0 {
            break;
        }
        r = r + dr;
        f = f + df;
        proof {
            k = k + 1;
        }
    }
    proof {
        assert forall|x: int| 0 <= x < 64 implies (has_bit(attacks, x) <==> ray_attacked(sqi, dr as int, df as int, block, x)) by {
            let on = ray_on_board(sqi, dr as int, df as int, k);
            if has_bit(attacks, x) {
                let j = choose|j: int| 1 <= j <= k && x == #[trigger] ray_sq(sqi, dr as int, df as int, j) && (on || j < k);
                assert(ray_on_board(sqi, dr as int, df as int, j));
                assert(forall|i: int| 1 <= i < j ==> !has_bit(block, #[trigger] ray_sq(sqi, dr as int, df as int, i)));
            }
            if ray_attacked(sqi, dr as int, df as int, block, x) {
                let j = choose|j: int|
                    1 <= j && ray_on_board(sqi, dr as int, df as int, j) && x == #[trigger] ray_sq(sqi, dr as int, df as int, j) && (forall|i: int|
                        1 <= i < j ==> !has_bit(block, #[trigger] ray_sq(sqi, dr as int, df as int, i)));
                if !on {
                    if j >= k {
                        lemma_ray_off(sqi, dr as int, df as int, k, j);
                    }
                    assert(exists|i: int| 1 <= i < k && x == #[trigger] ray_sq(sqi, dr as int, df as int, i));
                } else {
                    if j > k {
                        assert(!has_bit(block, ray_sq(sqi, dr as int, df as int, k)));
                    }
                    assert(exists|i: int| 1 <= i <= k && x == #[trigger] ray_sq(sqi, dr as int, df as int, i));
                }
            }
        }
    }
    attacks
}

/// Steps available from coordinate `c` in direction `d` before leaving the board.
pub open spec fn avail(c: int, d: int) -> int {
    if d > 0 {
        7 - c
    } else if d < 0 {
        c
    } else {
        8
    }
}

/// Number of masked squares on the ray from `sq` along (`dr`, `df`).
pub open spec fn mask_len(sq: int, dr: int, df: int) -> int {
    let a = if avail(sq / 8, dr) < avail(sq % 8, df) {
        avail(sq / 8, dr)
    } else {
        avail(sq % 8, df)
    };
    if a >= 1 {
        a - 1
    } else {
        0
    }
}

proof fn lemma_on_board_avail(sq: int, dr: int, df: int, j: int)
    requires
        0 <= sq < 64,
        valid_dir(dr, df),
        0 <= j,
    ensures
        ray_on_board(sq, dr, df, j) <==> (j <= avail(sq / 8, dr) && j <= avail(sq % 8, df)),
{
}

/// Add the masked squares of one ray to `bitboard`.
fn add_mask_ray(bitboard: u64, square: usize, dr: i32, df: i32) -> (r: u64)
    requires
        square < 64,
        valid_dir(dr as int, df as int),
        forall|x: int| 0 <= x < 64 && ray_masked(square as int, dr as int, df as int, x) ==> !has_bit(bitboard, x),
    ensures
        forall|x: int|
            0 <= x < 64 ==> (has_bit(r, x) <==> (has_bit(bitboard, x) || ray_masked(square as int, dr as int, df as int, x))),
        popcount(r) == popcount(bitboard) + mask_len(square as int, dr as int, df as int),
{
    let rank = (square / 8) as i32;
    let file = (square % 8) as i32;
    let mut b: u64 = bitboard;
    let mut r: i32 = rank + dr;
    let mut f: i32 = file + df;
    let ghost sqi = square as int;
    let ghost mut k: int = 1;
    while 0 <= r + dr && r + dr <= 7 && 0 <= f + df && f + df <= 7
        invariant
            square < 64,
            sqi == square as int,
            valid_dir(dr as int, df as int),
            rank == sqi / 8,
            file == sqi % 8,
            1 <= k <= 8,
            r == rank + step(dr as int, k),
            f == file + step(df as int, k),
            forall|j: int| 2 <= j <= k ==> #[trigger] ray_on_board(sqi, dr as int, df as int, j),
            forall|x: int|
                0 <= x < 64 && ray_masked(sqi, dr as int, df as int, x) ==> !has_bit(bitboard, x),
            forall|x: int|
                0 <= x < 64 ==> (has_bit(b, x) <==> (has_bit(bitboard, x) || exists|j: int|
                    1 <= j < k && x == #[trigger] ray_sq(sqi, dr as int, df as int, j))),
            popcount(b) == popcount(bitboard) + (k - 1),
        decreases 8 - k,
    {
        assert(0 <= rank <= 7 && 0 <= file <= 7);
        assert(k <= 6);
        let sq = (r * 8 + f) as u64;
        proof {
            assert(sq as int == ray_sq(sqi, dr as int, df as int, k));
            assert(ray_masked(sqi, dr as int, df as int, sq as int));
            assert(!has_bit(bitboard, sq as int));
            assert(!has_bit(b, sq as int)) by {
                if has_bit(b, sq as int) {
                    let j = choose|j: int| 1 <= j < k && sq as int == #[trigger] ray_sq(sqi, dr as int, df as int, j);
                    assert(false);
                }
            }
            lemma_popcount_set(b, sq as int);
        }
        let ghost old_b = b;
        b = b | (1u64 << sq);
        proof {
            assert forall|x: int| 0 <= x < 64 implies (has_bit(b, x) <==> (has_bit(bitboard, x) || exists|j: int|
                1 <= j < k + 1 && x == #[trigger] ray_sq(sqi, dr as int, df as int, j))) by {
                lemma_bit_ops(old_b, sq, sq, x as u64);
                if exists|j: int| 1 <= j < k + 1 && x == #[trigger] ray_sq(sqi, dr as int, df as int, j) {
                    let j = choose|j: int| 1 <= j < k + 1 && x == #[trigger] ray_sq(sqi, dr as int, df as int, j);
                    if j < k {
                        assert(exists|i: int| 1 <= i < k && x == #[trigger] ray_sq(sqi, dr as int, df as int, i));
                    }
                }
                if has_bit(old_b, x) && !has_bit(bitboard, x) {
                    let j = choose|j: int| 1 <= j < k && x == #[trigger] ray_sq(sqi, dr as int, df as int, j);
                    assert(1 <= j < k + 1);
                }
                if x == sq as int {
                    assert(x == ray_sq(sqi, dr as int, df as int, k));
                }
            }
        }
        r = r + dr;
        f = f + df;
        proof {
            k = k + 1;
        }
    }
    proof {
        lemma_on_board_avail(sqi, dr as int, df as int, k);
        lemma_on_board_avail(sqi, dr as int, df as int, k + 1);
        assert(mask_len(sqi, dr as int, df as int) == k - 1);
        assert forall|x: int|
            0 <= x < 64 implies (has_bit(b, x) <==> (has_bit(bitboard, x) || ray_masked(sqi, dr as int, df as int, x))) by {
            if ray_masked(sqi, dr as int, df as int, x) {
                let j = choose|j: int| 1 <= j && ray_on_board(sqi, dr as int, df as int, j + 1) && x == #[trigger] ray_sq(sqi, dr as int, df as int, j);
                if j >= k {
                    lemma_ray_off(sqi, dr as int, df as int, k + 1, j + 1);
                }
                assert(exists|i: int| 1 <= i < k && x == #[trigger] ray_sq(sqi, dr as int, df as int, i));
            }
            if has_bit(b, x) && !has_bit(bitboard, x) {
                let j = choose|j: int| 1 <= j < k && x == #[trigger] ray_sq(sqi, dr as int, df as int, j);
                assert(ray_on_board(sqi, dr as int, df as int, j + 1));
            }
        }
    }
    b
}

/// Number of relevant-occupancy squares of a rook on `sq`.
pub open spec fn rook_bits(sq: int) -> int {
    mask_len(sq, 1, 0) + mask_len(sq, -1, 0) + mask_len(sq, 0, 1) + mask_len(sq, 0, -1)
}

/// Number of relevant-occupancy squares of a bishop on `sq`.
pub open spec fn bishop_bits(sq: int) -> int {
    mask_len(sq, 1, 1) + mask_len(sq, -1, 1) + mask_len(sq, -1, -1) + mask_len(sq, 1, -1)
}

/// 2 to the power `n`, for the exponents that occur here.
pub open spec fn two_pow(n: int) -> int
    decreases n,
{
    if n <= 0 {
        1
    } else {
        2 * two_pow(n - 1)
    }
}

/// Where the attack table of square `sq` starts: the table sizes of the squares before it.
pub open spec fn rook_offset(sq: int) -> int
    decreases sq,
{
    if sq <= 0 {
        0
    } else {
        rook_offset(sq - 1) + two_pow(rook_bits(sq - 1))
    }
}

pub open spec fn bishop_offset(sq: int) -> int
    decreases sq,
{
    if sq <= 0 {
        0
    } else {
        bishop_offset(sq - 1) + two_pow(bishop_bits(sq - 1))
    }
}

/// The rook mask: the rook's rays without their edge squares.
pub fn calculate_rook_mask(square: usize) -> (r: u64)
    requires
        square < 64,
    ensures
        forall|x: int| 0 <= x < 64 ==> (has_bit(r, x) <==> rook_masked(square as int, x)),
        popcount(r) == rook_bits(square as int),
        r == rook_rays(square as int, 0) & !rook_edges(square as int),
{
    let mut bitboard = 0u64;
    proof {
        assert forall|x: int| 0 <= x < 64 implies !has_bit(bitboard, x) by {
            lemma_bit_ops(0, 0, 0, x as u64);
        }
    }
    // North (Rank increases, stops at Rank 6)
    bitboard = add_mask_ray(bitboard, square, 1, 0);
    bitboard = add_mask_ray(bitboard, square, -1, 0);
    bitboard = add_mask_ray(bitboard, square, 0, 1);
    bitboard = add_mask_ray(bitboard, square, 0, -1);
    proof {
        lemma_bits_where(|x: int| rook_masked(square as int, x), 64);
        lemma_bits_ext(bitboard, bits_where(|x: int| rook_masked(square as int, x), 64));
        lemma_mask_formulas(square as int);
    }
    bitboard
}

/// The bishop mask: the bishop's rays without the edge squares.
pub fn calculate_bishop_mask(square: usize) -> (r: u64)
    requires
        square < 64,
    ensures
        forall|x: int| 0 <= x < 64 ==> (has_bit(r, x) <==> bishop_masked(square as int, x)),
        popcount(r) == bishop_bits(square as int),
        r == bishop_rays(square as int, 0) & inner_squares(),
{
    let mut bitboard = 0u64;
    proof {
        assert forall|x: int| 0 <= x < 64 implies !has_bit(bitboard, x) by {
            lemma_bit_ops(0, 0, 0, x as u64);
        }
    }
    bitboard = add_mask_ray(bitboard, square, 1, 1);
    bitboard = add_mask_ray(bitboard, square, -1, 1);
    bitboard = add_mask_ray(bitboard, square, -1, -1);
    bitboard = add_mask_ray(bitboard, square, 1, -1);
    proof {
        lemma_bits_where(|x: int| bishop_masked(square as int, x), 64);
        lemma_bits_ext(bitboard, bits_where(|x: int| bishop_masked(square as int, x), 64));
        lemma_mask_formulas(square as int);
    }
    bitboard
}

/// The squares a rook on `square` attacks, each ray stopping at the first blocker.
pub fn calculate_rook_attacks_raycaster(square: usize, block: u64) -> (r: u64)
    requires
        square < 64,
    ensures
        forall|x: int| 0 <= x < 64 ==> (has_bit(r, x) <==> rook_attacked(square as int, block, x)),
        r == rook_rays(square as int, block),
{
    let north = ray_attacks(square, 1, 0, block);
    let south = ray_attacks(square, -1, 0, block);
    let east = ray_attacks(square, 0, 1, block);
    let west = ray_attacks(square, 0, -1, block);
    let attacks = north | south | east | west;
    proof {
        assert forall|x: int| 0 <= x < 64 implies (has_bit(attacks, x) <==> rook_attacked(square as int, block, x)) by {
            assert(has_bit(north, x) == ray_attacked(square as int, 1, 0, block, x));
            assert(has_bit(south, x) == ray_attacked(square as int, -1, 0, block, x));
            assert(has_bit(east, x) == ray_attacked(square as int, 0, 1, block, x));
            assert(has_bit(west, x) == ray_attacked(square as int, 0, -1, block, x));
            lemma_bit_logic(north, south, x as u64);
            lemma_bit_logic(north | south, east, x as u64);
            lemma_bit_logic(north | south | east, west, x as u64);
        }
    }
    proof {
        lemma_rays(square as int, block);
        lemma_bits_ext(attacks, rook_rays(square as int, block));
    }
    attacks
}

/// The squares a bishop on `square` attacks, each ray stopping at the first blocker.
pub fn calculate_bishop_attacks_raycaster(square: usize, block: u64) -> (r: u64)
    requires
        square < 64,
    ensures
        forall|x: int| 0 <= x < 64 ==> (has_bit(r, x) <==> bishop_attacked(square as int, block, x)),
        r == bishop_rays(square as int, block),
{
    let north_east = ray_attacks(square, 1, 1, block);
    let south_east = ray_attacks(square, -1, 1, block);
    let south_west = ray_attacks(square, -1, -1, block);
    let north_west = ray_attacks(square, 1, -1, block);
    let attacks = north_east | south_east | south_west | north_west;
    proof {
        assert forall|x: int| 0 <= x < 64 implies (has_bit(attacks, x) <==> bishop_attacked(square as int, block, x)) by {
            assert(has_bit(north_east, x) == ray_attacked(square as int, 1, 1, block, x));
            assert(has_bit(south_east, x) == ray_attacked(square as int, -1, 1, block, x));
            assert(has_bit(south_west, x) == ray_attacked(square as int, -1, -1, block, x));
            assert(has_bit(north_west, x) == ray_attacked(square as int, 1, -1, block, x));
            lemma_bit_logic(north_east, south_east, x as u64);
            lemma_bit_logic(north_east | south_east, south_west, x as u64);
            lemma_bit_logic(north_east | south_east | south_west, north_west, x as u64);
        }
    }
    proof {
        lemma_rays(square as int, block);
        lemma_bits_ext(attacks, bishop_rays(square as int, block));
    }
    attacks
}

/// The attack tables have room for every square: 102400 rook entries and 5248 bishop entries.
#[verifier::spinoff_prover]
#[verifier::rlimit(60)]
pub proof fn lemma_table_sizes()
    ensures
        rook_offset(64) == 102400,
        bishop_offset(64) == 5248,
{
    reveal_with_fuel(rook_offset, 65);
    reveal_with_fuel(bishop_offset, 65);
    reveal_with_fuel(two_pow, 13);
}

/// The occupancy that index `i` selects from the squares `idx`: square `idx[j]` is occupied
/// when bit `j` of `i` is set (only the first `n` squares are looked at).
pub open spec fn occupancy_for_index(idx: Seq<u32>, i: u64, n: int) -> u64
    decreases n,
{
    if n <= 0 {
        0
    } else {
        let o = occupancy_for_index(idx, i, n - 1);
        if has_bit(i, n - 1) {
            o | sq_bit(idx[n - 1] as int)
        } else {
            o
        }
    }
}

/// The number of squares of a bitboard is the number of its set bits.
pub proof fn lemma_squares_len(mask: u64)
    ensures
        squares_of(mask).len() == popcount(mask),
    decreases mask,
{
    if mask != 0 {
        lemma_lowest(mask);
        crate::bits::lemma_clear_lowest_smaller(mask);
        let y = clear_lowest(mask);
        let t = u64_trailing_zeros(mask) as int;
        lemma_squares_len(y);
        assert forall|i: int| 0 <= i < 64 implies has_bit(y | sq_bit(t), i) == has_bit(mask, i) by {
            lemma_bit_ops(y, t as u64, t as u64, i as u64);
        }
        lemma_bits_ext(y | sq_bit(t), mask);
        lemma_popcount_set(y, t);
    }
}

/// Every selected occupancy uses only squares from `idx`.
pub proof fn lemma_occupancy_squares(idx: Seq<u32>, i: u64, n: int, x: int)
    requires
        0 <= n <= idx.len(),
        forall|j: int| 0 <= j < n ==> idx[j] < 64,
        0 <= x < 64,
        has_bit(occupancy_for_index(idx, i, n), x),
    ensures
        exists|j: int| 0 <= j < n && idx[j] == x,
    decreases n,
{
    if n <= 0 {
        lemma_bit_ops(0, 0, 0, x as u64);
    } else {
        let o = occupancy_for_index(idx, i, n - 1);
        if has_bit(i, n - 1) {
            lemma_bit_ops(o, idx[n - 1] as u64, idx[n - 1] as u64, x as u64);
        }
        if has_bit(o, x) {
            lemma_occupancy_squares(idx, i, n - 1, x);
            let j = choose|j: int| 0 <= j < n - 1 && idx[j] == x;
            assert(0 <= j < n && idx[j] == x);
        } else {
            assert(idx[n - 1] == x);
        }
    }
}

/// The index whose bits select, from the squares `idx`, exactly the squares of `o` among the
/// first `n`.
pub open spec fn index_for_occupancy(idx: Seq<u32>, o: u64, n: int) -> int
    decreases n,
{
    if n <= 0 {
        0
    } else {
        index_for_occupancy(idx, o, n - 1) + if has_bit(o, idx[n - 1] as int) {
            two_pow(n - 1)
        } else {
            0
        }
    }
}

proof fn lemma_add_top_bit(y: u64, k: u64, j: u64)
    by (bit_vector)
    requires
        k < 63,
        j < 64,
        y < (1u64 << k),
    ensures
        ((y + (1u64 << k)) as u64 >> j) & 1u64 == 1u64 <==> ((y >> j) & 1u64 == 1u64 || j == k),
        (y >> j) & 1u64 == 1u64 ==> j < k,
        y + (1u64 << k) < (1u64 << (k + 1) as u64),
        y < (1u64 << (k + 1) as u64),
{
}

/// The bits of that index are the selected positions.
proof fn lemma_index_for_occupancy(idx: Seq<u32>, o: u64, n: int)
    requires
        0 <= n <= 62,
    ensures
        0 <= index_for_occupancy(idx, o, n) < two_pow(n),
        forall|j: int|
            0 <= j < 64 ==> #[trigger] has_bit(index_for_occupancy(idx, o, n) as u64, j) == (j < n && has_bit(o, idx[j] as int)),
    decreases n,
{
    lemma_two_pow_shift(n as u64);
    if n == 0 {
        assert(index_for_occupancy(idx, o, n) as u64 == 0u64);
        assert forall|j: int| 0 <= j < 64 implies !#[trigger] has_bit(index_for_occupancy(idx, o, n) as u64, j) by {
            lemma_bit_ops(0, 0, 0, j as u64);
        }
    } else {
        lemma_index_for_occupancy(idx, o, n - 1);
        lemma_two_pow_shift((n - 1) as u64);
        let y = index_for_occupancy(idx, o, n - 1) as u64;
        let k = (n - 1) as u64;
        lemma_add_top_bit(y, k, 0);
        if has_bit(o, idx[n - 1] as int) {
            assert(index_for_occupancy(idx, o, n) == y + (1u64 << k));
            assert(index_for_occupancy(idx, o, n) as u64 == (y + (1u64 << k)) as u64);
        } else {
            assert(index_for_occupancy(idx, o, n) as u64 == y);
        }
        assert forall|j: int| 0 <= j < 64 implies #[trigger] has_bit(index_for_occupancy(idx, o, n) as u64, j) == (j < n
            && has_bit(o, idx[j] as int)) by {
            lemma_add_top_bit(y, k, j as u64);
            assert(has_bit(y, j) == (j < n - 1 && has_bit(o, idx[j] as int)));
        }
    }
}

/// A square is in a selected occupancy exactly when one of the selected positions holds it.
proof fn lemma_occupancy_bits(idx: Seq<u32>, i: u64, n: int, x: int)
    requires
        0 <= n <= idx.len(),
        forall|j: int| 0 <= j < n ==> idx[j] < 64,
        0 <= x < 64,
    ensures
        has_bit(occupancy_for_index(idx, i, n), x) <==> exists|j: int| 0 <= j < n && idx[j] == x && has_bit(i, j),
    decreases n,
{
    if n <= 0 {
        lemma_bit_ops(0, 0, 0, x as u64);
    } else {
        lemma_occupancy_bits(idx, i, n - 1, x);
        let o = occupancy_for_index(idx, i, n - 1);
        lemma_bit_ops(o, idx[n - 1] as u64, idx[n - 1] as u64, x as u64);
        if exists|j: int| 0 <= j < n - 1 && idx[j] == x && has_bit(i, j) {
            let j = choose|j: int| 0 <= j < n - 1 && idx[j] == x && has_bit(i, j);
            assert(0 <= j < n && idx[j] == x && has_bit(i, j));
        }
        if has_bit(i, n - 1) && idx[n - 1] == x {
            assert(0 <= n - 1 < n && idx[n - 1] == x && has_bit(i, n - 1));
        }
    }
}

/// Every subset of `mask` is one of the occupancies `generate_permutations` lists.
pub proof fn lemma_every_subset_listed(mask: u64, o: u64)
    requires
        popcount(mask) <= 30,
        forall|x: int| 0 <= x < 64 && has_bit(o, x) ==> has_bit(mask, x),
    ensures
        ({
            let i = index_for_occupancy(squares_of(mask), o, popcount(mask) as int);
            &&& 0 <= i < two_pow(popcount(mask) as int)
            &&& occupancy_for_index(squares_of(mask), i as u64, popcount(mask) as int) == o
        }),
{
    let idx = squares_of(mask);
    let n = popcount(mask) as int;
    lemma_squares_len(mask);
    lemma_squares_of(mask);
    lemma_index_for_occupancy(idx, o, n);
    let i = index_for_occupancy(idx, o, n) as u64;
    assert forall|x: int| 0 <= x < 64 implies has_bit(occupancy_for_index(idx, i, n), x) == has_bit(o, x) by {
        lemma_occupancy_bits(idx, i, n, x);
        if has_bit(o, x) {
            assert(idx.contains(x as u32));
            let j = choose|j: int| 0 <= j < idx.len() && idx[j] == x as u32;
            assert(has_bit(i, j));
        }
        if exists|j: int| 0 <= j < n && idx[j] == x && has_bit(i, j) {
            let j = choose|j: int| 0 <= j < n && idx[j] == x && has_bit(i, j);
            assert(has_bit(o, idx[j] as int));
        }
    }
    lemma_bits_ext(occupancy_for_index(idx, i, n), o);
}

/// Every subset of `mask`, the `i`-th one selecting the set squares of `mask` (lowest first)
/// by the bits of `i`.
pub fn generate_permutations(mask: u64) -> (r: Vec<u64>)
    requires
        popcount(mask) <= 30,
    ensures
        r@.len() == two_pow(popcount(mask) as int),
        forall|i: int|
            0 <= i < r@.len() ==> #[trigger] r@[i] == occupancy_for_index(squares_of(mask), i as u64, popcount(mask) as int),
        forall|i: int, x: int| 0 <= i < r@.len() && 0 <= x < 64 && #[trigger] has_bit(r@[i], x) ==> has_bit(mask, x),
{
    let ghost mask0 = mask;
    let mut mask = mask;
    let mut permutations: Vec<u64> = Vec::new();
    let mut square_indices: Vec<u32> = Vec::new();
    proof {
        lemma_squares_len(mask0);
    }

    while mask != 0
        invariant
            square_indices@ + squares_of(mask) == squares_of(mask0),
        decreases mask,
    {
        let square = mask.trailing_zeros();
        proof {
            crate::bits::lemma_clear_lowest_smaller(mask);
            assert(squares_of(mask) == seq![square] + squares_of(clear_lowest(mask)));
            assert(square_indices@.push(square) + squares_of(clear_lowest(mask)) =~= square_indices@ + squares_of(mask));
        }
        square_indices.push(square);
        mask = mask & (mask - 1);
    }
    assert(square_indices@ =~= squares_of(mask0));
    proof {
        lemma_squares_of(mask0);
    }

    let bit_count = square_indices.len();
    let total_permutations: u64 = 1u64 << (bit_count as u64);
    proof {
        lemma_two_pow_shift(bit_count as u64);
    }

    let mut i: u64 = 0;
    while i < total_permutations
        invariant
            square_indices@ == squares_of(mask0),
            bit_count == square_indices@.len(),
            bit_count <= 30,
            total_permutations == two_pow(bit_count as int),
            i <= total_permutations,
            permutations@.len() == i,
            forall|k: int| 0 <= k < square_indices@.len() ==> square_indices@[k] < 64,
            forall|k: int|
                0 <= k < i ==> #[trigger] permutations@[k] == occupancy_for_index(square_indices@, k as u64, bit_count as int),
        decreases total_permutations - i,
    {
        let mut occupancy = 0u64;
        let mut j: usize = 0;
        while j < bit_count
            invariant
                square_indices@ == squares_of(mask0),
                bit_count == square_indices@.len(),
                bit_count <= 30,
                j <= bit_count,
                forall|k: int| 0 <= k < square_indices@.len() ==> square_indices@[k] < 64,
                occupancy == occupancy_for_index(square_indices@, i, j as int),
            decreases bit_count - j,
        {
            proof {
                lemma_bit_test(i, j as u64);
            }
            if (i & (1u64 << (j as u64))) != 0 {
                occupancy = occupancy | (1u64 << (square_indices[j] as u64));
            }
            j += 1;
        }
        permutations.push(occupancy);
        i += 1;
    }
    proof {
        assert forall|k: int, x: int| 0 <= k < permutations@.len() && 0 <= x < 64 && #[trigger] has_bit(permutations@[k], x) implies has_bit(mask0, x) by {
            lemma_occupancy_squares(square_indices@, k as u64, bit_count as int, x);
            let j = choose|j: int| 0 <= j < bit_count && square_indices@[j] == x;
            assert(has_bit(mask0, squares_of(mask0)[j] as int));
        }
    }
    permutations
}

/// A left shift of one by `n` is `2^n`.
pub proof fn lemma_two_pow_shift(n: u64)
    requires
        n < 64,
    ensures
        (1u64 << n) as int == two_pow(n as int),
    decreases n,
{
    if n == 0 {
        assert(1u64 << 0u64 == 1u64) by (bit_vector);
    } else {
        lemma_two_pow_shift((n - 1) as u64);
        assert((1u64 << n) == 2 * (1u64 << ((n - 1) as u64))) by (bit_vector)
            requires
                1 <= n < 64,
        ;
    }
}

/// The magic hash of the relevant occupancy `occ` of square `sq` with `n` relevant squares.
pub open spec fn magic_hash(occ: u64, magic: u64, n: int) -> u64 {
    vstd::wrapping::u64_specs::wrapping_mul(occ, magic) >> ((64 - n) as u64)
}

proof fn lemma_magic_index_bound(y: u64, n: u64)
    by (bit_vector)
    requires
        1 <= n <= 63,
    ensures
        y >> ((64 - n) as u64) < (1u64 << n),
{
}

/// Table entry `e` of square `sq` is the attack set of some relevant occupancy that hashes to
/// index `j`, or still zero.
pub open spec fn rook_entry_ok(sq: int, j: int, e: u64) -> bool {
    rook_entry_from(sq, j, e, 0)
}

/// Entry `e` is still `base`, or the attack set of some relevant occupancy of `sq` that
/// hashes to index `j`.
pub open spec fn rook_entry_from(sq: int, j: int, e: u64, base: u64) -> bool {
    e == base || exists|occ: u64|
        (forall|x: int| 0 <= x < 64 && #[trigger] has_bit(occ, x) ==> rook_masked(sq, x))
            && magic_hash(occ, ROOK_MAGICS[sq], rook_bits(sq)) == j && (forall|x: int|
            0 <= x < 64 ==> (#[trigger] has_bit(e, x) <==> rook_attacked(sq, occ, x)))
}

pub open spec fn bishop_entry_ok(sq: int, j: int, e: u64) -> bool {
    bishop_entry_from(sq, j, e, 0)
}

pub open spec fn bishop_entry_from(sq: int, j: int, e: u64, base: u64) -> bool {
    e == base || exists|occ: u64|
        (forall|x: int| 0 <= x < 64 && #[trigger] has_bit(occ, x) ==> bishop_masked(sq, x))
            && magic_hash(occ, BISHOP_MAGICS[sq], bishop_bits(sq)) == j && (forall|x: int|
            0 <= x < 64 ==> (#[trigger] has_bit(e, x) <==> bishop_attacked(sq, occ, x)))
}

/// A rook has 10 to 12 relevant squares.
pub proof fn lemma_rook_bits_range(sq: int)
    requires
        0 <= sq < 64,
    ensures
        10 <= rook_bits(sq) <= 12,
{
}

/// A bishop has 5 to 9 relevant squares.
pub proof fn lemma_bishop_bits_range(sq: int)
    requires
        0 <= sq < 64,
    ensures
        5 <= bishop_bits(sq) <= 9,
{
}

/// Each square's part of a table ends within the table.
pub proof fn lemma_offsets_fit(sq: int)
    requires
        0 <= sq < 64,
    ensures
        0 <= rook_offset(sq),
        rook_offset(sq) + two_pow(rook_bits(sq)) <= 102400,
        0 <= bishop_offset(sq),
        bishop_offset(sq) + two_pow(bishop_bits(sq)) <= 5248,
{
    lemma_table_sizes();
    lemma_offsets_mono(sq + 1, 64);
    lemma_offsets_mono(0, sq);
}

proof fn lemma_offsets_mono(a: int, b: int)
    requires
        0 <= a <= b <= 64,
    ensures
        rook_offset(a) <= rook_offset(b),
        bishop_offset(a) <= bishop_offset(b),
    decreases b - a,
{
    if a < b {
        lemma_offsets_mono(a, b - 1);
        lemma_two_pow_pos(rook_bits(b - 1));
        lemma_two_pow_pos(bishop_bits(b - 1));
    }
}

proof fn lemma_two_pow_pos(n: int)
    ensures
        two_pow(n) >= 1,
    decreases n,
{
    if n > 0 {
        lemma_two_pow_pos(n - 1);
    }
}

pub struct MagicBitBoards {
    rook_attacks: Vec<u64>,
    bishop_attacks: Vec<u64>,
    rook_offsets: [usize; 64],
    bishop_offsets: [usize; 64],
    rook_masks: [u64; 64],
    bishop_masks: [u64; 64],
    tables_checked: bool,
}

/// Every square of `o` is a square of `mask`.
pub open spec fn within(o: u64, mask: u64) -> bool {
    forall|x: int| 0 <= x < 64 && #[trigger] has_bit(o, x) ==> has_bit(mask, x)
}

impl MagicBitBoards {
    /// The relevant-occupancy mask of a rook on `sq`.
    pub closed spec fn rook_mask(self, sq: int) -> u64 {
        self.rook_masks[sq]
    }

    pub closed spec fn bishop_mask(self, sq: int) -> u64 {
        self.bishop_masks[sq]
    }

    /// The rook attack table.
    pub closed spec fn rook_table(self) -> Seq<u64> {
        self.rook_attacks@
    }

    pub closed spec fn bishop_table(self) -> Seq<u64> {
        self.bishop_attacks@
    }

    /// Entry `i` of the rook attack table.
    pub closed spec fn rook_entry(self, i: int) -> u64 {
        self.rook_attacks@[i]
    }

    pub closed spec fn bishop_entry(self, i: int) -> u64 {
        self.bishop_attacks@[i]
    }

    /// Whether the tables were found to agree with ray casting for every relevant occupancy.
    pub closed spec fn checked(self) -> bool {
        self.tables_checked
    }

    /// The rook attack set looked up for a rook on `sq` with `occ` occupied: the table entry
    /// once the tables are checked, the ray-cast attacks otherwise.
    pub open spec fn rook_lookup(self, sq: int, occ: u64) -> u64 {
        if self.checked() {
            self.rook_entry(
                rook_offset(sq) + magic_hash(occ & self.rook_mask(sq), ROOK_MAGICS[sq], rook_bits(sq)) as int,
            )
        } else {
            rook_rays(sq, occ)
        }
    }

    /// The bishop attack set looked up for a bishop on `sq` with `occ` occupied.
    pub open spec fn bishop_lookup(self, sq: int, occ: u64) -> u64 {
        if self.checked() {
            self.bishop_entry(
                bishop_offset(sq) + magic_hash(occ & self.bishop_mask(sq), BISHOP_MAGICS[sq], bishop_bits(sq)) as int,
            )
        } else {
            bishop_rays(sq, occ)
        }
    }

    /// The rook entry the relevant occupancy `o` of `sq` hashes to holds its attacks.
    pub closed spec fn rook_entry_exact(self, sq: int, o: u64) -> bool {
        forall|x: int|
            0 <= x < 64 ==> (#[trigger] has_bit(
                self.rook_attacks@[rook_offset(sq) + magic_hash(o, ROOK_MAGICS[sq], rook_bits(sq)) as int],
                x,
            ) <==> rook_attacked(sq, o, x))
    }

    pub closed spec fn bishop_entry_exact(self, sq: int, o: u64) -> bool {
        forall|x: int|
            0 <= x < 64 ==> (#[trigger] has_bit(
                self.bishop_attacks@[bishop_offset(sq) + magic_hash(o, BISHOP_MAGICS[sq], bishop_bits(sq)) as int],
                x,
            ) <==> bishop_attacked(sq, o, x))
    }

    /// Every relevant occupancy of `sq` finds its rook attacks in the table.
    pub closed spec fn rook_exact(self, sq: int) -> bool {
        forall|o: u64| within(o, self.rook_masks[sq]) ==> #[trigger] self.rook_entry_exact(sq, o)
    }

    pub closed spec fn bishop_exact(self, sq: int) -> bool {
        forall|o: u64| within(o, self.bishop_masks[sq]) ==> #[trigger] self.bishop_entry_exact(sq, o)
    }

    /// The tables are laid out square after square, each square's part holding the attack sets
    /// of the occupancies that hash there.
    pub closed spec fn wf(self) -> bool {
        &&& self.rook_attacks@.len() == 102400
        &&& self.bishop_attacks@.len() == 5248
        &&& forall|sq: int| 0 <= sq < 64 ==> #[trigger] self.square_wf(sq)
        &&& self.tables_checked ==> forall|sq: int| 0 <= sq < 64 ==> #[trigger] self.rook_exact(sq)
        &&& self.tables_checked ==> forall|sq: int| 0 <= sq < 64 ==> #[trigger] self.bishop_exact(sq)
    }

    /// Lookups give exactly the squares a rook or bishop attacks, for every occupancy.
    pub proof fn lemma_lookups(self, sq: int, occ: u64)
        requires
            self.wf(),
            0 <= sq < 64,
        ensures
            forall|x: int| 0 <= x < 64 ==> (#[trigger] has_bit(self.rook_lookup(sq, occ), x) <==> rook_attacked(sq, occ, x)),
            forall|x: int| 0 <= x < 64 ==> (#[trigger] has_bit(self.bishop_lookup(sq, occ), x) <==> bishop_attacked(sq, occ, x)),
    {
        lemma_rays(sq, occ);
        if self.tables_checked {
            assert(self.square_wf(sq));
            assert(self.rook_exact(sq));
            assert(self.bishop_exact(sq));
            let ro = occ & self.rook_masks[sq];
            let bo = occ & self.bishop_masks[sq];
            assert(within(ro, self.rook_masks[sq])) by {
                assert forall|x: int| 0 <= x < 64 && #[trigger] has_bit(ro, x) implies has_bit(self.rook_masks[sq], x) by {
                    lemma_bit_logic(occ, self.rook_masks[sq], x as u64);
                }
            }
            assert(within(bo, self.bishop_masks[sq])) by {
                assert forall|x: int| 0 <= x < 64 && #[trigger] has_bit(bo, x) implies has_bit(self.bishop_masks[sq], x) by {
                    lemma_bit_logic(occ, self.bishop_masks[sq], x as u64);
                }
            }
            assert(self.rook_entry_exact(sq, ro));
            assert(self.bishop_entry_exact(sq, bo));
            lemma_rook_relevant(sq, occ, self.rook_masks[sq]);
            lemma_bishop_relevant(sq, occ, self.bishop_masks[sq]);
        }
    }

    pub closed spec fn square_wf(self, sq: int) -> bool {
        self.square_wf_from(sq, Seq::new(102400, |i: int| 0u64), Seq::new(5248, |i: int| 0u64))
    }

    /// Square `sq`'s masks and offsets are in place, and its table entries are either the
    /// given base entries or attack sets of relevant occupancies hashing there.
    pub closed spec fn square_wf_from(self, sq: int, rook_base: Seq<u64>, bishop_base: Seq<u64>) -> bool {
        &&& forall|x: int| 0 <= x < 64 ==> (has_bit(self.rook_masks[sq], x) <==> rook_masked(sq, x))
        &&& forall|x: int| 0 <= x < 64 ==> (has_bit(self.bishop_masks[sq], x) <==> bishop_masked(sq, x))
        &&& popcount(self.rook_masks[sq]) == rook_bits(sq)
        &&& popcount(self.bishop_masks[sq]) == bishop_bits(sq)
        &&& self.rook_offsets[sq] == rook_offset(sq)
        &&& self.bishop_offsets[sq] == bishop_offset(sq)
        &&& forall|j: int|
            0 <= j < two_pow(rook_bits(sq)) ==> rook_entry_from(
                sq,
                j,
                #[trigger] self.rook_attacks@[rook_offset(sq) + j],
                rook_base[rook_offset(sq) + j],
            )
        &&& forall|j: int|
            0 <= j < two_pow(bishop_bits(sq)) ==> bishop_entry_from(
                sq,
                j,
                #[trigger] self.bishop_attacks@[bishop_offset(sq) + j],
                bishop_base[bishop_offset(sq) + j],
            )
    }

    /// The relevant-occupancy masks are the rook and bishop masks.
    pub proof fn lemma_masks(self, sq: int)
        requires
            self.wf(),
            0 <= sq < 64,
        ensures
            forall|x: int| 0 <= x < 64 ==> (has_bit(self.rook_mask(sq), x) <==> rook_masked(sq, x)),
            forall|x: int| 0 <= x < 64 ==> (has_bit(self.bishop_mask(sq), x) <==> bishop_masked(sq, x)),
    {
        assert(self.square_wf(sq));
    }

    pub fn new() -> (mb: Self)
        ensures
            mb.wf(),
    {
        let mut mb = MagicBitBoards {
            rook_attacks: vec![0; 102400],
            bishop_attacks: vec![0; 5248],
            rook_offsets: [0; 64],
            bishop_offsets: [0; 64],
            rook_masks: [0; 64],
            bishop_masks: [0; 64],
            tables_checked: false,
        };
        proof {
            assert(mb.rook_attacks@ =~= Seq::new(102400, |i: int| 0u64));
            assert(mb.bishop_attacks@ =~= Seq::new(5248, |i: int| 0u64));
        }
        mb.init();
        mb
    }

    /// Fill masks, offsets and attack tables for every square.
    #[verifier::rlimit(30)]
    pub fn init(&mut self)
        requires
            old(self).rook_table().len() == 102400,
            old(self).bishop_table().len() == 5248,
        ensures
            final(self).rook_table().len() == 102400,
            final(self).bishop_table().len() == 5248,
            forall|sq: int|
                0 <= sq < 64 ==> #[trigger] final(self).square_wf_from(sq, old(self).rook_table(), old(self).bishop_table()),
            final(self).checked() ==> forall|sq: int| 0 <= sq < 64 ==> #[trigger] final(self).rook_exact(sq),
            final(self).checked() ==> forall|sq: int| 0 <= sq < 64 ==> #[trigger] final(self).bishop_exact(sq),
            old(self).rook_table() == Seq::new(102400, |i: int| 0u64) && old(self).bishop_table() == Seq::new(
                5248,
                |i: int| 0u64,
            ) ==> final(self).wf(),
    {
        let ghost old_r = self.rook_attacks@;
        let ghost old_b = self.bishop_attacks@;
        let mut current_rook_offset: usize = 0;
        let mut current_bishop_offset: usize = 0;
        let mut square: usize = 0;
        while square < 64
            invariant
                square <= 64,
                old_r == old(self).rook_attacks@,
                old_b == old(self).bishop_attacks@,
                self.rook_attacks@.len() == 102400,
                self.bishop_attacks@.len() == 5248,
                current_rook_offset == rook_offset(square as int),
                current_bishop_offset == bishop_offset(square as int),
                forall|i: int| rook_offset(square as int) <= i < 102400 ==> #[trigger] self.rook_attacks@[i] == old_r[i],
                forall|i: int| bishop_offset(square as int) <= i < 5248 ==> #[trigger] self.bishop_attacks@[i] == old_b[i],
                forall|sq: int| 0 <= sq < square ==> #[trigger] self.square_wf_from(sq, old_r, old_b),
            decreases 64 - square,
        {
            proof {
                lemma_offsets_fit(square as int);
                lemma_rook_bits_range(square as int);
                lemma_bishop_bits_range(square as int);
                lemma_two_pow_shift(rook_bits(square as int) as u64);
                lemma_two_pow_shift(bishop_bits(square as int) as u64);
            }
            let ghost before = *self;
            // Rook Init
            self.rook_offsets[square] = current_rook_offset;
            let rook_mask = calculate_rook_mask(square);
            self.rook_masks[square] = rook_mask;
            let rook_bit_count = count_ones(rook_mask);
            let ghost mid0 = *self;
            self.fill_rook_square(square, current_rook_offset, rook_mask);
            current_rook_offset = current_rook_offset + ((1u64 << (rook_bit_count as u64)) as usize);

            // Bishop Init
            self.bishop_offsets[square] = current_bishop_offset;
            let bishop_mask = calculate_bishop_mask(square);
            self.bishop_masks[square] = bishop_mask;
            let bishop_bit_count = count_ones(bishop_mask);
            let ghost mid1 = *self;
            self.fill_bishop_square(square, current_bishop_offset, bishop_mask);
            current_bishop_offset = current_bishop_offset + ((1u64 << (bishop_bit_count as u64)) as usize);
            proof {
                assert(current_rook_offset == rook_offset(square + 1));
                assert(current_bishop_offset == bishop_offset(square + 1));
                assert forall|sq: int| 0 <= sq < square + 1 implies #[trigger] self.square_wf_from(sq, old_r, old_b) by {
                    if sq < square {
                        assert(before.square_wf_from(sq, old_r, old_b));
                        lemma_offsets_mono(sq + 1, square as int);
                        assert forall|j: int| 0 <= j < two_pow(rook_bits(sq)) implies #[trigger] self.rook_attacks@[rook_offset(sq) + j]
                            == before.rook_attacks@[rook_offset(sq) + j] by {}
                        assert forall|j: int| 0 <= j < two_pow(bishop_bits(sq)) implies #[trigger] self.bishop_attacks@[bishop_offset(sq) + j]
                            == before.bishop_attacks@[bishop_offset(sq) + j] by {}
                    } else {
                        assert forall|j: int| 0 <= j < two_pow(rook_bits(sq)) implies #[trigger] mid0.rook_attacks@[rook_offset(sq) + j]
                            == old_r[rook_offset(sq) + j] by {}
                        assert forall|j: int| 0 <= j < two_pow(bishop_bits(sq)) implies #[trigger] mid1.bishop_attacks@[bishop_offset(sq) + j]
                            == old_b[bishop_offset(sq) + j] by {}
                    }
                }
            }
            square += 1;
        }
        // Check that no two relevant occupancies with different attacks share an entry.
        let mut agree = true;
        let mut sq: usize = 0;
        while sq < 64
            invariant
                sq <= 64,
                self.rook_attacks@.len() == 102400,
                self.bishop_attacks@.len() == 5248,
                forall|s: int| 0 <= s < 64 ==> #[trigger] self.square_wf_from(s, old_r, old_b),
                agree ==> forall|s: int| 0 <= s < sq ==> #[trigger] self.rook_exact(s),
                agree ==> forall|s: int| 0 <= s < sq ==> #[trigger] self.bishop_exact(s),
            decreases 64 - sq,
        {
            assert(self.square_wf_from(sq as int, old_r, old_b));
            if !self.rook_square_agrees(sq) || !self.bishop_square_agrees(sq) {
                agree = false;
            }
            sq += 1;
        }
        let ghost checked_tables = *self;
        self.tables_checked = agree;
        proof {
            assert forall|s: int| 0 <= s < 64 implies #[trigger] self.square_wf_from(s, old_r, old_b) by {
                assert(checked_tables.square_wf_from(s, old_r, old_b));
            }
            if agree {
                assert forall|s: int| 0 <= s < 64 implies #[trigger] self.rook_exact(s) by {
                    assert(checked_tables.rook_exact(s));
                    assert forall|o: u64| within(o, self.rook_masks[s]) implies #[trigger] self.rook_entry_exact(s, o) by {
                        assert(checked_tables.rook_entry_exact(s, o));
                    }
                }
                assert forall|s: int| 0 <= s < 64 implies #[trigger] self.bishop_exact(s) by {
                    assert(checked_tables.bishop_exact(s));
                    assert forall|o: u64| within(o, self.bishop_masks[s]) implies #[trigger] self.bishop_entry_exact(s, o) by {
                        assert(checked_tables.bishop_entry_exact(s, o));
                    }
                }
            }
        }
        proof {
            if old_r == Seq::new(102400, |i: int| 0u64) && old_b == Seq::new(5248, |i: int| 0u64) {
                assert forall|sq: int| 0 <= sq < 64 implies #[trigger] self.square_wf(sq) by {
                    assert(self.square_wf_from(sq, old_r, old_b));
                }
            }
        }
    }

    /// Whether lookups read the magic tables (they do once every entry was checked against
    /// ray casting when the tables were built).
    pub fn uses_tables(&self) -> (r: bool)
        ensures
            r == self.checked(),
    {
        self.tables_checked
    }

    /// The squares a rook on `square` attacks with `occupancy` occupied: the magic table
    /// entry of its relevant occupancy (ray casting until the tables are checked).
    pub fn get_rook_attacks(&self, square: usize, occupancy: u64) -> (r: u64)
        requires
            self.wf(),
            square < 64,
        ensures
            r == self.rook_lookup(square as int, occupancy),
            forall|x: int| 0 <= x < 64 ==> (has_bit(r, x) <==> rook_attacked(square as int, occupancy, x)),
    {
        proof {
            self.lemma_lookups(square as int, occupancy);
        }
        if !self.tables_checked {
            let r = calculate_rook_attacks_raycaster(square, occupancy);
            proof {
                lemma_rays(square as int, occupancy);
                lemma_bits_ext(r, rook_rays(square as int, occupancy));
            }
            return r;
        }
        assert(self.square_wf(square as int));
        proof {
            lemma_offsets_fit(square as int);
            lemma_rook_bits_range(square as int);
            lemma_two_pow_shift(rook_bits(square as int) as u64);
        }
        let mask = self.rook_masks[square];
        let blocked_occupancy = occupancy & mask;

        // Hash Formula
        let magic_index = (blocked_occupancy.wrapping_mul(ROOK_MAGICS[square])) >> (64 - count_ones(mask) as u64);
        proof {
            lemma_magic_index_bound(vstd::wrapping::u64_specs::wrapping_mul(blocked_occupancy, ROOK_MAGICS[square as int]), rook_bits(square as int) as u64);
        }

        // Offset Lookup
        let offset = self.rook_offsets[square];
        self.rook_attacks[offset + (magic_index as usize)]
    }

    /// Whether every relevant occupancy of `square` finds its rook attacks in the table.
    fn rook_square_agrees(&self, square: usize) -> (ok: bool)
        requires
            square < 64,
            self.rook_attacks@.len() == 102400,
            forall|x: int| 0 <= x < 64 ==> (has_bit(self.rook_masks[square as int], x) <==> rook_masked(square as int, x)),
            popcount(self.rook_masks[square as int]) == rook_bits(square as int),
            self.rook_offsets[square as int] == rook_offset(square as int),
        ensures
            ok ==> self.rook_exact(square as int),
    {
        proof {
            lemma_rook_bits_range(square as int);
            lemma_offsets_fit(square as int);
        }
        let mask = self.rook_masks[square];
        let bit_count = count_ones(mask);
        let permutations = generate_permutations(mask);
        let offset = self.rook_offsets[square];
        let n = permutations.len();
        let mut i: usize = 0;
        while i < n
            invariant
                square < 64,
                mask == self.rook_masks[square as int],
                offset == rook_offset(square as int),
                offset + two_pow(rook_bits(square as int)) <= 102400,
                self.rook_attacks@.len() == 102400,
                10 <= rook_bits(square as int) <= 12,
                bit_count == rook_bits(square as int),
                popcount(mask) == rook_bits(square as int),
                n == permutations@.len(),
                n == two_pow(popcount(mask) as int),
                forall|k: int|
                    0 <= k < n ==> #[trigger] permutations@[k] == occupancy_for_index(
                        squares_of(mask),
                        k as u64,
                        popcount(mask) as int,
                    ),
                i <= n,
                forall|k: int| 0 <= k < i ==> self.rook_entry_exact(square as int, #[trigger] permutations@[k]),
            decreases n - i,
        {
            let occupancy = permutations[i];
            let magic_index = (occupancy.wrapping_mul(ROOK_MAGICS[square])) >> (64 - bit_count as u64);
            proof {
                lemma_magic_index_bound(vstd::wrapping::u64_specs::wrapping_mul(occupancy, ROOK_MAGICS[square as int]), bit_count as u64);
                lemma_two_pow_shift(bit_count as u64);
            }
            let attacks = calculate_rook_attacks_raycaster(square, occupancy);
            if self.rook_attacks[offset + (magic_index as usize)] != attacks {
                return false;
            }
            assert(self.rook_entry_exact(square as int, occupancy));
            i += 1;
        }
        proof {
            assert forall|o: u64| within(o, mask) implies #[trigger] self.rook_entry_exact(square as int, o) by {
                lemma_every_subset_listed(mask, o);
                let k = index_for_occupancy(squares_of(mask), o, popcount(mask) as int);
                assert(permutations@[k] == o);
            }
        }
        true
    }

    /// The squares a bishop on `square` attacks with `occupancy` occupied: the magic table
    /// entry of its relevant occupancy (ray casting until the tables are checked).
    pub fn get_bishop_attacks(&self, square: usize, occupancy: u64) -> (r: u64)
        requires
            self.wf(),
            square < 64,
        ensures
            r == self.bishop_lookup(square as int, occupancy),
            forall|x: int| 0 <= x < 64 ==> (has_bit(r, x) <==> bishop_attacked(square as int, occupancy, x)),
    {
        proof {
            self.lemma_lookups(square as int, occupancy);
        }
        if !self.tables_checked {
            let r = calculate_bishop_attacks_raycaster(square, occupancy);
            proof {
                lemma_rays(square as int, occupancy);
                lemma_bits_ext(r, bishop_rays(square as int, occupancy));
            }
            return r;
        }
        assert(self.square_wf(square as int));
        proof {
            lemma_offsets_fit(square as int);
            lemma_bishop_bits_range(square as int);
            lemma_two_pow_shift(bishop_bits(square as int) as u64);
        }
        let mask = self.bishop_masks[square];
        let blocked_occupancy = occupancy & mask;

        // Hash Formula
        let magic_index = (blocked_occupancy.wrapping_mul(BISHOP_MAGICS[square])) >> (64 - count_ones(mask) as u64);
        proof {
            lemma_magic_index_bound(vstd::wrapping::u64_specs::wrapping_mul(blocked_occupancy, BISHOP_MAGICS[square as int]), bishop_bits(square as int) as u64);
        }

        // Offset Lookup
        let offset = self.bishop_offsets[square];
        self.bishop_attacks[offset + (magic_index as usize)]
    }

    /// Whether every relevant occupancy of `square` finds its bishop attacks in the table.
    fn bishop_square_agrees(&self, square: usize) -> (ok: bool)
        requires
            square < 64,
            self.bishop_attacks@.len() == 5248,
            forall|x: int| 0 <= x < 64 ==> (has_bit(self.bishop_masks[square as int], x) <==> bishop_masked(square as int, x)),
            popcount(self.bishop_masks[square as int]) == bishop_bits(square as int),
            self.bishop_offsets[square as int] == bishop_offset(square as int),
        ensures
            ok ==> self.bishop_exact(square as int),
    {
        proof {
            lemma_bishop_bits_range(square as int);
            lemma_offsets_fit(square as int);
        }
        let mask = self.bishop_masks[square];
        let bit_count = count_ones(mask);
        let permutations = generate_permutations(mask);
        let offset = self.bishop_offsets[square];
        let n = permutations.len();
        let mut i: usize = 0;
        while i < n
            invariant
                square < 64,
                mask == self.bishop_masks[square as int],
                offset == bishop_offset(square as int),
                offset + two_pow(bishop_bits(square as int)) <= 5248,
                self.bishop_attacks@.len() == 5248,
                5 <= bishop_bits(square as int) <= 9,
                bit_count == bishop_bits(square as int),
                popcount(mask) == bishop_bits(square as int),
                n == permutations@.len(),
                n == two_pow(popcount(mask) as int),
                forall|k: int|
                    0 <= k < n ==> #[trigger] permutations@[k] == occupancy_for_index(
                        squares_of(mask),
                        k as u64,
                        popcount(mask) as int,
                    ),
                i <= n,
                forall|k: int| 0 <= k < i ==> self.bishop_entry_exact(square as int, #[trigger] permutations@[k]),
            decreases n - i,
        {
            let occupancy = permutations[i];
            let magic_index = (occupancy.wrapping_mul(BISHOP_MAGICS[square])) >> (64 - bit_count as u64);
            proof {
                lemma_magic_index_bound(vstd::wrapping::u64_specs::wrapping_mul(occupancy, BISHOP_MAGICS[square as int]), bit_count as u64);
                lemma_two_pow_shift(bit_count as u64);
            }
            let attacks = calculate_bishop_attacks_raycaster(square, occupancy);
            if self.bishop_attacks[offset + (magic_index as usize)] != attacks {
                return false;
            }
            assert(self.bishop_entry_exact(square as int, occupancy));
            i += 1;
        }
        proof {
            assert forall|o: u64| within(o, mask) implies #[trigger] self.bishop_entry_exact(square as int, o) by {
                lemma_every_subset_listed(mask, o);
                let k = index_for_occupancy(squares_of(mask), o, popcount(mask) as int);
                assert(permutations@[k] == o);
            }
        }
        true
    }

    fn fill_rook_square(&mut self, square: usize, offset: usize, mask: u64)
        requires
            square < 64,
            offset == rook_offset(square as int),
            old(self).rook_attacks@.len() == 102400,
            forall|x: int| 0 <= x < 64 ==> (has_bit(mask, x) <==> rook_masked(square as int, x)),
            popcount(mask) == rook_bits(square as int),
        ensures
            final(self).rook_attacks@.len() == 102400,
            final(self).bishop_attacks == old(self).bishop_attacks,
            final(self).rook_offsets == old(self).rook_offsets,
            final(self).bishop_offsets == old(self).bishop_offsets,
            final(self).rook_masks == old(self).rook_masks,
            final(self).bishop_masks == old(self).bishop_masks,
            forall|i: int|
                0 <= i < 102400 && !(offset <= i < offset + two_pow(rook_bits(square as int)))
                    ==> #[trigger] final(self).rook_attacks@[i] == old(self).rook_attacks@[i],
            forall|j: int|
                0 <= j < two_pow(rook_bits(square as int)) ==> rook_entry_from(
                    square as int,
                    j,
                    #[trigger] final(self).rook_attacks@[offset + j],
                    old(self).rook_attacks@[offset + j],
                ),
    {
        proof {
            lemma_rook_bits_range(square as int);
            lemma_offsets_fit(square as int);
        }
        let rook_bit_count = count_ones(mask);
        let rook_permutations = generate_permutations(mask);
        let ghost old_table = self.rook_attacks@;
        let n = rook_permutations.len();
        let mut i: usize = 0;
        while i < n
            invariant
                square < 64,
                offset == rook_offset(square as int),
                offset + two_pow(rook_bits(square as int)) <= 102400,
                10 <= rook_bits(square as int) <= 12,
                rook_bit_count == rook_bits(square as int),
                n == rook_permutations@.len(),
                i <= n,
                self.rook_attacks@.len() == 102400,
                old_table.len() == 102400,
                self.bishop_attacks == old(self).bishop_attacks,
                self.rook_offsets == old(self).rook_offsets,
                self.bishop_offsets == old(self).bishop_offsets,
                self.rook_masks == old(self).rook_masks,
                self.bishop_masks == old(self).bishop_masks,
                old_table == old(self).rook_attacks@,
                forall|k: int, x: int|
                    0 <= k < n && 0 <= x < 64 && #[trigger] has_bit(rook_permutations@[k], x) ==> has_bit(mask, x),
                forall|x: int| 0 <= x < 64 ==> (has_bit(mask, x) <==> rook_masked(square as int, x)),
                forall|k: int|
                    0 <= k < 102400 && !(offset <= k < offset + two_pow(rook_bits(square as int)))
                        ==> #[trigger] self.rook_attacks@[k] == old_table[k],
                forall|j: int|
                    0 <= j < two_pow(rook_bits(square as int)) ==> rook_entry_from(
                        square as int,
                        j,
                        #[trigger] self.rook_attacks@[offset + j],
                        old_table[offset + j],
                    ),
            decreases n - i,
        {
            let occupancy = rook_permutations[i];
            let magic_index = (occupancy.wrapping_mul(ROOK_MAGICS[square])) >> (64 - rook_bit_count as u64);
            proof {
                lemma_magic_index_bound(vstd::wrapping::u64_specs::wrapping_mul(occupancy, ROOK_MAGICS[square as int]), rook_bit_count as u64);
                lemma_two_pow_shift(rook_bit_count as u64);
            }
            let attack_board = calculate_rook_attacks_raycaster(square, occupancy);
            let ghost before = self.rook_attacks@;
            self.rook_attacks[offset + (magic_index as usize)] = attack_board;
            proof {
                let mi = magic_index as int;
                assert forall|j: int| 0 <= j < two_pow(rook_bits(square as int)) implies rook_entry_from(
                    square as int,
                    j,
                    #[trigger] self.rook_attacks@[offset + j],
                    old_table[offset + j],
                ) by {
                    if j == mi {
                        assert(forall|x: int| 0 <= x < 64 && #[trigger] has_bit(occupancy, x) ==> rook_masked(square as int, x));
                        assert(magic_hash(occupancy, ROOK_MAGICS[square as int], rook_bits(square as int)) == j);
                    } else {
                        assert(self.rook_attacks@[offset + j] == before[offset + j]);
                    }
                }
            }
            i += 1;
        }
    }

    fn fill_bishop_square(&mut self, square: usize, offset: usize, mask: u64)
        requires
            square < 64,
            offset == bishop_offset(square as int),
            old(self).bishop_attacks@.len() == 5248,
            forall|x: int| 0 <= x < 64 ==> (has_bit(mask, x) <==> bishop_masked(square as int, x)),
            popcount(mask) == bishop_bits(square as int),
        ensures
            final(self).bishop_attacks@.len() == 5248,
            final(self).rook_attacks == old(self).rook_attacks,
            final(self).rook_offsets == old(self).rook_offsets,
            final(self).bishop_offsets == old(self).bishop_offsets,
            final(self).rook_masks == old(self).rook_masks,
            final(self).bishop_masks == old(self).bishop_masks,
            forall|i: int|
                0 <= i < 5248 && !(offset <= i < offset + two_pow(bishop_bits(square as int)))
                    ==> #[trigger] final(self).bishop_attacks@[i] == old(self).bishop_attacks@[i],
            forall|j: int|
                0 <= j < two_pow(bishop_bits(square as int)) ==> bishop_entry_from(
                    square as int,
                    j,
                    #[trigger] final(self).bishop_attacks@[offset + j],
                    old(self).bishop_attacks@[offset + j],
                ),
    {
        proof {
            lemma_bishop_bits_range(square as int);
            lemma_offsets_fit(square as int);
        }
        let bishop_bit_count = count_ones(mask);
        let bishop_permutations = generate_permutations(mask);
        let ghost old_table = self.bishop_attacks@;
        let n = bishop_permutations.len();
        let mut i: usize = 0;
        while i < n
            invariant
                square < 64,
                offset == bishop_offset(square as int),
                offset + two_pow(bishop_bits(square as int)) <= 5248,
                5 <= bishop_bits(square as int) <= 9,
                bishop_bit_count == bishop_bits(square as int),
                n == bishop_permutations@.len(),
                i <= n,
                self.bishop_attacks@.len() == 5248,
                old_table.len() == 5248,
                self.rook_attacks == old(self).rook_attacks,
                self.rook_offsets == old(self).rook_offsets,
                self.bishop_offsets == old(self).bishop_offsets,
                self.rook_masks == old(self).rook_masks,
                self.bishop_masks == old(self).bishop_masks,
                old_table == old(self).bishop_attacks@,
                forall|k: int, x: int|
                    0 <= k < n && 0 <= x < 64 && #[trigger] has_bit(bishop_permutations@[k], x) ==> has_bit(mask, x),
                forall|x: int| 0 <= x < 64 ==> (has_bit(mask, x) <==> bishop_masked(square as int, x)),
                forall|k: int|
                    0 <= k < 5248 && !(offset <= k < offset + two_pow(bishop_bits(square as int)))
                        ==> #[trigger] self.bishop_attacks@[k] == old_table[k],
                forall|j: int|
                    0 <= j < two_pow(bishop_bits(square as int)) ==> bishop_entry_from(
                        square as int,
                        j,
                        #[trigger] self.bishop_attacks@[offset + j],
                        old_table[offset + j],
                    ),
            decreases n - i,
        {
            let occupancy = bishop_permutations[i];
            let magic_index = (occupancy.wrapping_mul(BISHOP_MAGICS[square])) >> (64 - bishop_bit_count as u64);
            proof {
                lemma_magic_index_bound(vstd::wrapping::u64_specs::wrapping_mul(occupancy, BISHOP_MAGICS[square as int]), bishop_bit_count as u64);
                lemma_two_pow_shift(bishop_bit_count as u64);
            }
            let attack_board = calculate_bishop_attacks_raycaster(square, occupancy);
            let ghost before = self.bishop_attacks@;
            self.bishop_attacks[offset + (magic_index as usize)] = attack_board;
            proof {
                let mi = magic_index as int;
                assert forall|j: int| 0 <= j < two_pow(bishop_bits(square as int)) implies bishop_entry_from(
                    square as int,
                    j,
                    #[trigger] self.bishop_attacks@[offset + j],
                    old_table[offset + j],
                ) by {
                    if j == mi {
                        assert(forall|x: int| 0 <= x < 64 && #[trigger] has_bit(occupancy, x) ==> bishop_masked(square as int, x));
                        assert(magic_hash(occupancy, BISHOP_MAGICS[square as int], bishop_bits(square as int)) == j);
                    } else {
                        assert(self.bishop_attacks@[offset + j] == before[offset + j]);
                    }
                }
            }
            i += 1;
        }
    }

}

} // verus!
