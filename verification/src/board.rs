//Modules
use vstd::prelude::*;
use vstd::std_specs::bits::u64_trailing_zeros;
use crate::bits::{has_bit, sq_bit, lemma_bit_ops, lemma_bits_ext, lemma_bit_test};
use crate::constants::{
    PAWN_VALUE, KNIGHT_VALUE, BISHOP_VALUE, ROOK_VALUE, QUEEN_VALUE, PAWN_PST, KNIGHT_PST,
    BISHOP_PST, ROOK_PST, QUEEN_PST, CASTLING_RIGHTS_UPDATE_TABLE, lemma_pst_bounds,
};
use crate::movedata::Move;
use crate::zobrist::Zobrist;

verus! {

// Array Index for respective BitBoard
pub const PAWNS: usize = 0;
pub const KNIGHTS: usize = 1;
pub const BISHOPS: usize = 2;
pub const ROOKS: usize = 3;
pub const QUEENS: usize = 4;
pub const KINGS: usize = 5;
pub const WHITE_PIECES: usize = 6;
pub const BLACK_PIECES: usize = 7;
pub const EMPTY_SQUARE: u8 = 8;

pub const FLAG_NONE: u32 = 0;
pub const FLAG_DOUBLE_PUSH: u32 = 1;
pub const FLAG_KING_CASTLE: u32 = 2;
pub const FLAG_QUEEN_CASTLE: u32 = 3;
pub const FLAG_EN_PASSANT: u32 = 4;
pub const FLAG_PROMOTE_QUEEN: u32 = 5;
pub const FLAG_PROMOTE_ROOK: u32 = 6;
pub const FLAG_PROMOTE_BISHOP: u32 = 7;
pub const FLAG_PROMOTE_KNIGHT: u32 = 8;

/// The irreversible part of a position, saved before each move so that it can be undone.
#[derive(Clone, Copy)]
pub struct GameState {
    pub castling_rights: u8,
    pub en_passant_target: u64,
    pub zobrist_key: u64,
    pub incremental_eval: i32,
    pub phase_weight: i32,
    pub halfmove_clock: u32,
}

//Chess Board represented as a Struct of Bitboards
pub struct Board {
    bitboards_of_pieces: [u64; 8],
    array_of_pieces: [u8; 64],
    white_to_move: bool,
    castling_rights: u8,  // A 4-bit flag to track who can castle
    en_passant_target: u64,  // The square a pawn just skipped over
    history: Vec<GameState>,
    pub zobrist_key: u64,
    pub incremental_eval: i32,
    pub phase_weight: i32,
    pub halfmove_clock: u32,  // plies since last capture or pawn move
}

/// The mathematical content of a board.
pub struct BoardView {
    /// pieces by kind (0..6), then all white pieces (6), then all black pieces (7)
    pub bitboards: Seq<u64>,
    /// piece kind on each square, or `EMPTY_SQUARE`
    pub pieces: Seq<u8>,
    pub white_to_move: bool,
    pub castling_rights: u8,
    pub en_passant_target: u64,
    pub history: Seq<GameState>,
    pub zobrist_key: u64,
    pub incremental_eval: i32,
    pub phase_weight: i32,
    pub halfmove_clock: u32,
}

impl View for Board {
    type V = BoardView;

    closed spec fn view(&self) -> BoardView {
        BoardView {
            bitboards: self.bitboards_of_pieces@,
            pieces: self.array_of_pieces@,
            white_to_move: self.white_to_move,
            castling_rights: self.castling_rights,
            en_passant_target: self.en_passant_target,
            history: self.history@,
            zobrist_key: self.zobrist_key,
            incremental_eval: self.incremental_eval,
            phase_weight: self.phase_weight,
            halfmove_clock: self.halfmove_clock,
        }
    }
}

// ---------------------------------------------------------------------------------------------
// Bitboard updates
// ---------------------------------------------------------------------------------------------
/// Clear square `a` in bitboard `i`.
pub open spec fn bb_clear(b: Seq<u64>, i: int, a: int) -> Seq<u64> {
    b.update(i, b[i] & !sq_bit(a))
}

/// Set square `a` in bitboard `i`.
pub open spec fn bb_set(b: Seq<u64>, i: int, a: int) -> Seq<u64> {
    b.update(i, b[i] | sq_bit(a))
}

/// Flip squares `a` and `c` in bitboard `i`.
pub open spec fn bb_toggle2(b: Seq<u64>, i: int, a: int, c: int) -> Seq<u64> {
    b.update(i, b[i] ^ (sq_bit(a) | sq_bit(c)))
}

/// Which of the eight bitboards hold square `sq`.
pub open spec fn bit_row(b: Seq<u64>, sq: int) -> Seq<bool> {
    Seq::new(8, |i: int| has_bit(b[i], sq))
}

pub proof fn lemma_row_ops(b: Seq<u64>, i: int, a: int, c: int, sq: int)
    requires
        b.len() == 8,
        0 <= i < 8,
        0 <= a < 64,
        0 <= c < 64,
        0 <= sq < 64,
    ensures
        bit_row(bb_clear(b, i, a), sq) == bit_row(b, sq).update(i, has_bit(b[i], sq) && sq != a),
        bit_row(bb_set(b, i, a), sq) == bit_row(b, sq).update(i, has_bit(b[i], sq) || sq == a),
        bit_row(bb_toggle2(b, i, a, c), sq) == bit_row(b, sq).update(
            i,
            has_bit(b[i], sq) != (sq == a || sq == c),
        ),
{
    lemma_bit_ops(b[i], a as u64, c as u64, sq as u64);
    assert(bit_row(bb_clear(b, i, a), sq) =~= bit_row(b, sq).update(i, has_bit(b[i], sq) && sq != a));
    assert(bit_row(bb_set(b, i, a), sq) =~= bit_row(b, sq).update(i, has_bit(b[i], sq) || sq == a));
    assert(bit_row(bb_toggle2(b, i, a, c), sq) =~= bit_row(b, sq).update(
        i,
        has_bit(b[i], sq) != (sq == a || sq == c),
    ));
}

/// Eight bitboards that agree on every square are the same bitboards.
pub proof fn lemma_rows_ext(b1: Seq<u64>, b2: Seq<u64>)
    requires
        b1.len() == 8,
        b2.len() == 8,
        forall|sq: int| 0 <= sq < 64 ==> #[trigger] bit_row(b1, sq) == bit_row(b2, sq),
    ensures
        b1 == b2,
{
    assert forall|i: int| 0 <= i < 8 implies b1[i] == b2[i] by {
        assert forall|sq: int| 0 <= sq < 64 implies has_bit(b1[i], sq) == has_bit(b2[i], sq) by {
            assert(bit_row(b1, sq)[i] == bit_row(b2, sq)[i]);
        }
        lemma_bits_ext(b1[i], b2[i]);
    }
    assert(b1 =~= b2);
}

/// Masking castling rights keeps them among the 16 combinations, and a right survives the
/// mask only when both masks keep it.
pub proof fn lemma_rights_mask(cr: u8, a: u8, b: u8)
    by (bit_vector)
    requires
        cr < 16,
    ensures
        cr & a & b < 16,
        (cr & a & b) & 1u8 != 0 ==> cr & 1u8 != 0 && a & 1u8 != 0 && b & 1u8 != 0,
        (cr & a & b) & 2u8 != 0 ==> cr & 2u8 != 0 && a & 2u8 != 0 && b & 2u8 != 0,
        (cr & a & b) & 4u8 != 0 ==> cr & 4u8 != 0 && a & 4u8 != 0 && b & 4u8 != 0,
        (cr & a & b) & 8u8 != 0 ==> cr & 8u8 != 0 && a & 8u8 != 0 && b & 8u8 != 0,
{
}


/// Evaluation totals and piece hashes depend only on the pieces and their colours.
pub proof fn lemma_position_frame(v1: BoardView, v2: BoardView, z: Zobrist, n: int)
    requires
        v1.pieces == v2.pieces,
        v1.bitboards == v2.bitboards,
    ensures
        v1.eval_total() == v2.eval_total(),
        v1.phase_total() == v2.phase_total(),
        v1.pieces_hash(z, n) == v2.pieces_hash(z, n),
    decreases n,
{
    lemma_sum_same(v1.value_fn(), v2.value_fn(), 64);
    lemma_sum_same(v1.phase_fn(), v2.phase_fn(), 64);
    if n > 0 {
        lemma_position_frame(v1, v2, z, n - 1);
    }
}

/// The piece on each square in the starting position.
pub open spec fn start_piece(sq: int) -> u8 {
    if sq == 0 || sq == 7 || sq == 56 || sq == 63 {
        ROOKS as u8
    } else if sq == 1 || sq == 6 || sq == 57 || sq == 62 {
        KNIGHTS as u8
    } else if sq == 2 || sq == 5 || sq == 58 || sq == 61 {
        BISHOPS as u8
    } else if sq == 3 || sq == 59 {
        QUEENS as u8
    } else if sq == 4 || sq == 60 {
        KINGS as u8
    } else if (8 <= sq < 16) || (48 <= sq < 56) {
        PAWNS as u8
    } else {
        EMPTY_SQUARE
    }
}

/// The bitboards of the starting position.
pub open spec fn start_bitboards() -> Seq<u64> {
    seq![
        0x00FF00000000FF00u64,
        0x4200000000000042u64,
        0x2400000000000024u64,
        0x8100000000000081u64,
        0x0800000000000008u64,
        0x1000000000000010u64,
        0x000000000000FFFFu64,
        0xFFFF000000000000u64,
    ]
}

proof fn lemma_start_bits(sq: u64)
    by (bit_vector)
    requires
        sq < 64,
    ensures
        ((0x00FF00000000FF00u64 >> sq) & 1u64 == 1u64) <==> ((8 <= sq && sq < 16) || (48 <= sq && sq < 56)),
        ((0x4200000000000042u64 >> sq) & 1u64 == 1u64) <==> (sq == 1 || sq == 6 || sq == 57 || sq == 62),
        ((0x2400000000000024u64 >> sq) & 1u64 == 1u64) <==> (sq == 2 || sq == 5 || sq == 58 || sq == 61),
        ((0x8100000000000081u64 >> sq) & 1u64 == 1u64) <==> (sq == 0 || sq == 7 || sq == 56 || sq == 63),
        ((0x0800000000000008u64 >> sq) & 1u64 == 1u64) <==> (sq == 3 || sq == 59),
        ((0x1000000000000010u64 >> sq) & 1u64 == 1u64) <==> (sq == 4 || sq == 60),
        ((0x000000000000FFFFu64 >> sq) & 1u64 == 1u64) <==> sq < 16,
        ((0xFFFF000000000000u64 >> sq) & 1u64 == 1u64) <==> sq >= 48,
{
}

// ---------------------------------------------------------------------------------------------
// Evaluation terms
// ---------------------------------------------------------------------------------------------
/// Material plus piece-square value of `piece` on `sq`, positive for White and negative for
/// Black (Black reads the tables mirrored). Kings and empty squares count zero.
pub open spec fn pst_value(piece: usize, sq: usize, is_white: bool) -> int {
    let sq_idx: int = if is_white { sq as int } else { (sq ^ 56usize) as int };
    let val: int = if piece == PAWNS {
        PAWN_VALUE + PAWN_PST[sq_idx]
    } else if piece == KNIGHTS {
        KNIGHT_VALUE + KNIGHT_PST[sq_idx]
    } else if piece == BISHOPS {
        BISHOP_VALUE + BISHOP_PST[sq_idx]
    } else if piece == ROOKS {
        ROOK_VALUE + ROOK_PST[sq_idx]
    } else if piece == QUEENS {
        QUEEN_VALUE + QUEEN_PST[sq_idx]
    } else {
        0
    };
    if is_white {
        val
    } else {
        -val
    }
}

/// Contribution of a piece kind to the game phase (24 = all minor and major pieces on board).
pub open spec fn piece_phase(piece: int) -> int {
    if piece == KNIGHTS || piece == BISHOPS {
        1
    } else if piece == ROOKS {
        2
    } else if piece == QUEENS {
        4
    } else {
        0
    }
}

pub proof fn lemma_flip_square(sq: usize)
    by (bit_vector)
    requires
        sq < 64,
    ensures
        sq ^ 56usize < 64,
{
}

pub proof fn lemma_pst_value_bound(piece: usize, sq: usize, is_white: bool)
    requires
        sq < 64,
    ensures
        -950 <= pst_value(piece, sq, is_white) <= 950,
{
    lemma_flip_square(sq);
    let sq_idx: int = if is_white { sq as int } else { (sq ^ 56usize) as int };
    lemma_pst_bounds(sq_idx);
}

/// Sum of `f(0) + .. + f(n - 1)`.
pub open spec fn sum_squares(f: spec_fn(int) -> int, n: int) -> int
    decreases n,
{
    if n <= 0 {
        0
    } else {
        sum_squares(f, n - 1) + f(n - 1)
    }
}

/// Changing one term changes the sum by the difference.
pub proof fn lemma_sum_update(f: spec_fn(int) -> int, g: spec_fn(int) -> int, n: int, k: int)
    requires
        0 <= k < n,
        forall|i: int| 0 <= i < n && i != k ==> #[trigger] f(i) == g(i),
    ensures
        sum_squares(g, n) == sum_squares(f, n) - f(k) + g(k),
    decreases n,
{
    if n - 1 != k {
        lemma_sum_update(f, g, n - 1, k);
    } else {
        lemma_sum_same(f, g, n - 1);
    }
}

pub proof fn lemma_sum_same(f: spec_fn(int) -> int, g: spec_fn(int) -> int, n: int)
    requires
        forall|i: int| 0 <= i < n ==> #[trigger] f(i) == g(i),
    ensures
        sum_squares(g, n) == sum_squares(f, n),
    decreases n,
{
    if n > 0 {
        lemma_sum_same(f, g, n - 1);
    }
}

pub proof fn lemma_sum_bound(f: spec_fn(int) -> int, n: int, c: int)
    requires
        0 <= n,
        0 <= c,
        forall|i: int| 0 <= i < n ==> -c <= #[trigger] f(i) <= c,
    ensures
        -c * n <= sum_squares(f, n) <= c * n,
    decreases n,
{
    if n > 0 {
        lemma_sum_bound(f, n - 1, c);
        assert(c * n == c * (n - 1) + c && -c * n == -c * (n - 1) - c) by (nonlinear_arith);
    } else {
        assert(c * n == 0 && -c * n == 0) by (nonlinear_arith)
            requires
                n == 0,
        ;
    }
}

// ---------------------------------------------------------------------------------------------
// Board model
// ---------------------------------------------------------------------------------------------
/// Key of the en-passant file of target square set `ep`.
pub open spec fn ep_file_key(z: Zobrist, ep: u64) -> u64 {
    z.en_passant_keys[(u64_trailing_zeros(ep) as int) % 8]
}

pub open spec fn is_promotion_flag(f: u32) -> bool {
    FLAG_PROMOTE_QUEEN <= f <= FLAG_PROMOTE_KNIGHT
}

/// The piece a promotion flag promotes to.
pub open spec fn promoted_piece(f: u32) -> int {
    if f == FLAG_PROMOTE_QUEEN {
        QUEENS as int
    } else if f == FLAG_PROMOTE_ROOK {
        ROOKS as int
    } else if f == FLAG_PROMOTE_BISHOP {
        BISHOPS as int
    } else {
        KNIGHTS as int
    }
}

/// Where the rook starts and lands when the king castles onto `t`.
pub open spec fn castle_rook_start(f: u32, t: int) -> int {
    if f == FLAG_KING_CASTLE {
        t + 1
    } else {
        t - 2
    }
}

pub open spec fn castle_rook_target(f: u32, t: int) -> int {
    if f == FLAG_KING_CASTLE {
        t - 1
    } else {
        t + 1
    }
}

pub open spec fn is_castle_flag(f: u32) -> bool {
    f == FLAG_KING_CASTLE || f == FLAG_QUEEN_CASTLE
}

impl BoardView {
    pub open spec fn is_white_at(self, sq: int) -> bool {
        has_bit(self.bitboards[WHITE_PIECES as int], sq)
    }

    pub open spec fn is_black_at(self, sq: int) -> bool {
        has_bit(self.bitboards[BLACK_PIECES as int], sq)
    }

    /// Square `sq` holds a piece of the side to move.
    pub open spec fn own_at(self, sq: int) -> bool {
        if self.white_to_move {
            self.is_white_at(sq)
        } else {
            self.is_black_at(sq)
        }
    }

    /// Square `sq` holds a piece of the side not to move.
    pub open spec fn enemy_at(self, sq: int) -> bool {
        if self.white_to_move {
            self.is_black_at(sq)
        } else {
            self.is_white_at(sq)
        }
    }

    pub open spec fn own_color(self) -> int {
        if self.white_to_move {
            WHITE_PIECES as int
        } else {
            BLACK_PIECES as int
        }
    }

    pub open spec fn enemy_color(self) -> int {
        if self.white_to_move {
            BLACK_PIECES as int
        } else {
            WHITE_PIECES as int
        }
    }

    /// The shapes every board has, whatever was done to it.
    pub open spec fn basic(self) -> bool {
        &&& self.bitboards.len() == 8
        &&& self.pieces.len() == 64
        &&& forall|sq: int| 0 <= sq < 64 ==> (#[trigger] self.pieces[sq] < 6 || self.pieces[sq] == EMPTY_SQUARE)
        &&& self.castling_rights < 16
    }

    /// Bitboards and mailbox describe the same position on square `sq`.
    pub open spec fn square_ok(self, sq: int) -> bool {
        let r = bit_row(self.bitboards, sq);
        let c = self.pieces[sq];
        &&& forall|p: int| 0 <= p < 6 ==> (#[trigger] r[p] <==> c == p)
        &&& ((r[6] || r[7]) <==> c != EMPTY_SQUARE)
        &&& !(r[6] && r[7])
    }

    pub open spec fn mailbox_ok(self) -> bool {
        &&& self.basic()
        &&& forall|sq: int| 0 <= sq < 64 ==> #[trigger] self.square_ok(sq)
    }

    /// A castling right is held only while king and rook stand on their home squares.
    pub open spec fn castling_ok(self) -> bool {
        let cr = self.castling_rights;
        &&& (cr & 1u8 != 0 ==> self.pieces[4] == KINGS && self.is_white_at(4) && self.pieces[7]
            == ROOKS && self.is_white_at(7))
        &&& (cr & 2u8 != 0 ==> self.pieces[4] == KINGS && self.is_white_at(4) && self.pieces[0]
            == ROOKS && self.is_white_at(0))
        &&& (cr & 4u8 != 0 ==> self.pieces[60] == KINGS && self.is_black_at(60)
            && self.pieces[63] == ROOKS && self.is_black_at(63))
        &&& (cr & 8u8 != 0 ==> self.pieces[60] == KINGS && self.is_black_at(60)
            && self.pieces[56] == ROOKS && self.is_black_at(56))
    }

    /// The en-passant square, when there is one.
    pub open spec fn ep_square(self) -> int {
        u64_trailing_zeros(self.en_passant_target) as int
    }

    /// An en-passant target is the empty square just behind an enemy pawn that has just
    /// made a double step.
    pub open spec fn ep_ok(self) -> bool {
        let e = self.ep_square();
        self.en_passant_target == 0 || {
            &&& self.en_passant_target == sq_bit(e)
            &&& self.pieces[e] == EMPTY_SQUARE
            &&& if self.white_to_move {
                40 <= e < 48 && self.pieces[e - 8] == PAWNS && self.is_black_at(e - 8)
            } else {
                16 <= e < 24 && self.pieces[e + 8] == PAWNS && self.is_white_at(e + 8)
            }
        }
    }

    pub open spec fn square_value(self, sq: int) -> int {
        let c = self.pieces[sq];
        if c == EMPTY_SQUARE || c == KINGS {
            0
        } else {
            pst_value(c as usize, sq as usize, self.is_white_at(sq))
        }
    }

    pub open spec fn square_phase(self, sq: int) -> int {
        let c = self.pieces[sq];
        if c == EMPTY_SQUARE || c == KINGS {
            0
        } else {
            piece_phase(c as int)
        }
    }

    pub open spec fn value_fn(self) -> spec_fn(int) -> int {
        |sq: int| self.square_value(sq)
    }

    pub open spec fn phase_fn(self) -> spec_fn(int) -> int {
        |sq: int| self.square_phase(sq)
    }

    /// Material and piece-square total, recomputed from scratch.
    pub open spec fn eval_total(self) -> int {
        sum_squares(self.value_fn(), 64)
    }

    /// Game phase, recomputed from scratch.
    pub open spec fn phase_total(self) -> int {
        sum_squares(self.phase_fn(), 64)
    }

    /// The side to move's key contribution of the pieces on squares below `n`.
    pub open spec fn pieces_hash(self, z: Zobrist, n: int) -> u64
        decreases n,
    {
        if n <= 0 {
            0
        } else {
            let k = self.pieces_hash(z, n - 1);
            let c = self.pieces[n - 1];
            if c != EMPTY_SQUARE {
                k ^ z.piece_keys[c + (if self.is_white_at(n - 1) {
                    0int
                } else {
                    6int
                })][n - 1]
            } else {
                k
            }
        }
    }

    /// The hash key of the position, computed from scratch.
    pub open spec fn zobrist_hash(self, z: Zobrist) -> u64 {
        let k1 = self.pieces_hash(z, 64) ^ z.castling_keys[self.castling_rights as int];
        let k2 = if self.en_passant_target != 0 {
            k1 ^ ep_file_key(z, self.en_passant_target)
        } else {
            k1
        };
        if !self.white_to_move {
            k2 ^ z.side_to_move
        } else {
            k2
        }
    }

    /// The position's key occurred before, since the last capture or pawn move.
    pub open spec fn repeated(self) -> bool {
        let limit = self.halfmove_clock as int;
        let len = self.history.len() as int;
        let start = if len > limit {
            len - limit
        } else {
            0
        };
        &&& limit != 0
        &&& len != 0
        &&& exists|i: int| start <= i < len && #[trigger] self.history[i].zobrist_key == self.zobrist_key
    }

    /// A consistent position.
    pub open spec fn wf(self) -> bool {
        &&& self.mailbox_ok()
        &&& self.castling_ok()
        &&& self.ep_ok()
        &&& self.halfmove_clock <= self.history.len()
        &&& self.incremental_eval == self.eval_total()
        &&& self.phase_weight == self.phase_total()
    }

    /// Preconditions under which `make_move` runs without overflow or out-of-range access.
    pub open spec fn can_make(self, m: Move) -> bool {
        let t = m.target() as int;
        &&& self.basic()
        &&& m.piece() < 6
        &&& (m.flags() == FLAG_EN_PASSANT ==> if self.white_to_move {
            t >= 8
        } else {
            t + 8 < 64
        })
        &&& (m.flags() == FLAG_KING_CASTLE ==> 1 <= t && t + 1 < 64)
        &&& (m.flags() == FLAG_QUEEN_CASTLE ==> 2 <= t && t + 1 < 64)
        &&& self.halfmove_clock < u32::MAX
        &&& -0x7fff_ffff + 6000 <= self.incremental_eval <= 0x7fff_ffff - 6000
        &&& -0x7fff_ffff + 8 <= self.phase_weight <= 0x7fff_ffff - 8
    }

    /// A move that the side to move can make on this board according to its flags: the
    /// moving piece stands on the start square, the captured piece on the target square (or
    /// behind it, en passant), a double step passes an empty square, and castling king and
    /// rook stand on their home squares with the rook's landing square free.
    pub open spec fn move_ok(self, m: Move) -> bool {
        let s = m.start() as int;
        let t = m.target() as int;
        let p = m.piece() as int;
        let f = m.flags();
        let c = m.captured() as int;
        let w = self.white_to_move;
        &&& s != t
        &&& p < 6
        &&& self.pieces[s] == p
        &&& self.own_at(s)
        &&& f <= 8
        &&& if f == FLAG_EN_PASSANT {
            &&& p == PAWNS
            &&& c == PAWNS
            &&& self.pieces[t] == EMPTY_SQUARE
            &&& (w ==> 40 <= t < 48 && self.pieces[t - 8] == PAWNS && self.is_black_at(t - 8))
            &&& (!w ==> 16 <= t < 24 && self.pieces[t + 8] == PAWNS && self.is_white_at(t + 8))
        } else {
            &&& self.pieces[t] == c
            &&& (c != EMPTY_SQUARE ==> self.enemy_at(t))
        }
        &&& (f == FLAG_DOUBLE_PUSH ==> {
            &&& p == PAWNS
            &&& c == EMPTY_SQUARE
            &&& (w ==> 8 <= s < 16 && t == s + 16 && self.pieces[s + 8] == EMPTY_SQUARE)
            &&& (!w ==> 48 <= s < 56 && t == s - 16 && self.pieces[s - 8] == EMPTY_SQUARE)
        })
        &&& (is_promotion_flag(f) ==> p == PAWNS)
        &&& (f == FLAG_KING_CASTLE ==> {
            &&& p == KINGS
            &&& c == EMPTY_SQUARE
            &&& (w ==> s == 4 && t == 6 && self.pieces[7] == ROOKS && self.is_white_at(7)
                && self.pieces[5] == EMPTY_SQUARE)
            &&& (!w ==> s == 60 && t == 62 && self.pieces[63] == ROOKS && self.is_black_at(63)
                && self.pieces[61] == EMPTY_SQUARE)
        })
        &&& (f == FLAG_QUEEN_CASTLE ==> {
            &&& p == KINGS
            &&& c == EMPTY_SQUARE
            &&& (w ==> s == 4 && t == 2 && self.pieces[0] == ROOKS && self.is_white_at(0)
                && self.pieces[3] == EMPTY_SQUARE)
            &&& (!w ==> s == 60 && t == 58 && self.pieces[56] == ROOKS && self.is_black_at(56)
                && self.pieces[59] == EMPTY_SQUARE)
        })
    }

    /// The irreversible state that `make_move` saves.
    pub open spec fn saved_state(self) -> GameState {
        GameState {
            castling_rights: self.castling_rights,
            en_passant_target: self.en_passant_target,
            zobrist_key: self.zobrist_key,
            incremental_eval: self.incremental_eval,
            phase_weight: self.phase_weight,
            halfmove_clock: self.halfmove_clock,
        }
    }

    /// Restore the irreversible state from the last saved entry, when there is one.
    pub open spec fn restored(self) -> BoardView {
        if self.history.len() > 0 {
            let g = self.history.last();
            BoardView {
                castling_rights: g.castling_rights,
                en_passant_target: g.en_passant_target,
                zobrist_key: g.zobrist_key,
                incremental_eval: g.incremental_eval,
                phase_weight: g.phase_weight,
                halfmove_clock: g.halfmove_clock,
                history: self.history.drop_last(),
                ..self
            }
        } else {
            self
        }
    }
}

/// The hash key that `make_move` leaves: every changed feature is hashed out and in.
pub open spec fn make_move_key(v: BoardView, m: Move, z: Zobrist) -> u64 {
    let s = m.start() as int;
    let t = m.target() as int;
    let p = m.piece() as int;
    let f = m.flags();
    let w = v.white_to_move;
    let my_off: int = if w { 0 } else { 6 };
    let en_off: int = if w { 6 } else { 0 };
    let ep2 = make_move_ep(m);
    let cr2 = make_move_castling(v, m);
    let c = v.pieces[t] as int;
    let cs: int = if w { t - 8 } else { t + 8 };
    let rs = castle_rook_start(f, t);
    let rt = castle_rook_target(f, t);
    let k1 = v.zobrist_key ^ z.castling_keys[v.castling_rights as int];
    let k2 = if v.en_passant_target != 0 {
        k1 ^ ep_file_key(z, v.en_passant_target)
    } else {
        k1
    };
    let k3 = k2 ^ z.castling_keys[cr2 as int];
    let k4 = if ep2 != 0 {
        k3 ^ ep_file_key(z, ep2)
    } else {
        k3
    };
    let k5 = if v.pieces[t] != EMPTY_SQUARE {
        k4 ^ z.piece_keys[c + en_off][t]
    } else {
        k4
    };
    let k6 = k5 ^ z.piece_keys[p + my_off][s] ^ z.piece_keys[p + my_off][t];
    let k7 = if is_promotion_flag(f) {
        k6 ^ z.piece_keys[PAWNS + my_off][t] ^ z.piece_keys[promoted_piece(f) + my_off][t]
    } else {
        k6
    };
    let k8 = if f == FLAG_EN_PASSANT {
        k7 ^ z.piece_keys[PAWNS + en_off][cs]
    } else {
        k7
    };
    let k9 = if is_castle_flag(f) {
        k8 ^ z.piece_keys[ROOKS + my_off][rs] ^ z.piece_keys[ROOKS + my_off][rt]
    } else {
        k8
    };
    k9 ^ z.side_to_move
}

/// En-passant target after a move: the skipped square of a double step, otherwise none.
pub open spec fn make_move_ep(m: Move) -> u64 {
    if m.flags() == FLAG_DOUBLE_PUSH {
        sq_bit((m.start() + m.target()) / 2)
    } else {
        0
    }
}

/// Castling rights after a move: a right is lost once its king or rook square is touched.
pub open spec fn make_move_castling(v: BoardView, m: Move) -> u8 {
    v.castling_rights & CASTLING_RIGHTS_UPDATE_TABLE[m.start() as int]
        & CASTLING_RIGHTS_UPDATE_TABLE[m.target() as int]
}

/// The bitboards after `make_move`.
pub open spec fn make_move_bitboards(v: BoardView, m: Move) -> Seq<u64> {
    let s = m.start() as int;
    let t = m.target() as int;
    let p = m.piece() as int;
    let f = m.flags();
    let w = v.white_to_move;
    let me = v.own_color();
    let en = v.enemy_color();
    let c = v.pieces[t] as int;
    let cs: int = if w { t - 8 } else { t + 8 };
    let rs = castle_rook_start(f, t);
    let rt = castle_rook_target(f, t);
    let b0 = v.bitboards;
    let b1 = if v.pieces[t] != EMPTY_SQUARE {
        bb_clear(bb_clear(b0, c, t), en, t)
    } else {
        b0
    };
    let b2 = bb_toggle2(bb_toggle2(b1, p, s, t), me, s, t);
    let b3 = if is_promotion_flag(f) {
        bb_set(bb_clear(b2, PAWNS as int, t), promoted_piece(f), t)
    } else {
        b2
    };
    let b4 = if f == FLAG_EN_PASSANT {
        bb_clear(bb_clear(b3, PAWNS as int, cs), en, cs)
    } else {
        b3
    };
    if is_castle_flag(f) {
        bb_toggle2(bb_toggle2(b4, ROOKS as int, rs, rt), me, rs, rt)
    } else {
        b4
    }
}

/// The mailbox after `make_move`.
pub open spec fn make_move_pieces(v: BoardView, m: Move) -> Seq<u8> {
    let s = m.start() as int;
    let t = m.target() as int;
    let f = m.flags();
    let cs: int = if v.white_to_move { t - 8 } else { t + 8 };
    let rs = castle_rook_start(f, t);
    let rt = castle_rook_target(f, t);
    let q1 = v.pieces.update(s, EMPTY_SQUARE).update(t, m.piece() as u8);
    let q2 = if is_promotion_flag(f) {
        q1.update(t, promoted_piece(f) as u8)
    } else {
        q1
    };
    let q3 = if f == FLAG_EN_PASSANT {
        q2.update(cs, EMPTY_SQUARE)
    } else {
        q2
    };
    if is_castle_flag(f) {
        q3.update(rs, EMPTY_SQUARE).update(rt, ROOKS as u8)
    } else {
        q3
    }
}

/// The incremental evaluation after `make_move`.
pub open spec fn make_move_eval(v: BoardView, m: Move) -> int {
    let s = m.start() as usize;
    let t = m.target() as usize;
    let p = m.piece() as usize;
    let f = m.flags();
    let w = v.white_to_move;
    let c = v.pieces[t as int] as usize;
    let cs: usize = if w { (t - 8) as usize } else { (t + 8) as usize };
    let rs = castle_rook_start(f, t as int) as usize;
    let rt = castle_rook_target(f, t as int) as usize;
    let e0 = v.incremental_eval as int;
    let e1 = if v.pieces[t as int] != EMPTY_SQUARE {
        e0 - pst_value(c, t, !w)
    } else {
        e0
    };
    let e2 = if p != KINGS {
        e1 - pst_value(p, s, w) + pst_value(p, t, w)
    } else {
        e1
    };
    let e3 = if is_promotion_flag(f) {
        e2 - pst_value(PAWNS, t, w) + pst_value(promoted_piece(f) as usize, t, w)
    } else {
        e2
    };
    let e4 = if f == FLAG_EN_PASSANT {
        e3 - pst_value(PAWNS, cs, !w)
    } else {
        e3
    };
    if is_castle_flag(f) {
        e4 - pst_value(ROOKS, rs, w) + pst_value(ROOKS, rt, w)
    } else {
        e4
    }
}

/// The phase weight after `make_move`.
pub open spec fn make_move_phase(v: BoardView, m: Move) -> int {
    let t = m.target() as int;
    let ph1 = if v.pieces[t] != EMPTY_SQUARE {
        v.phase_weight - piece_phase(v.pieces[t] as int)
    } else {
        v.phase_weight as int
    };
    if is_promotion_flag(m.flags()) {
        ph1 + piece_phase(promoted_piece(m.flags()))
    } else {
        ph1
    }
}

/// The board after `make_move(m)`, field by field.
pub open spec fn make_move_fields(v: BoardView, m: Move, z: Zobrist) -> BoardView {
    let t = m.target() as int;
    BoardView {
        bitboards: make_move_bitboards(v, m),
        pieces: make_move_pieces(v, m),
        white_to_move: !v.white_to_move,
        castling_rights: make_move_castling(v, m),
        en_passant_target: make_move_ep(m),
        history: v.history.push(v.saved_state()),
        zobrist_key: make_move_key(v, m, z),
        incremental_eval: make_move_eval(v, m) as i32,
        phase_weight: make_move_phase(v, m) as i32,
        halfmove_clock: if v.pieces[t] != EMPTY_SQUARE || m.piece() == PAWNS {
            0
        } else {
            (v.halfmove_clock + 1) as u32
        },
    }
}


// The steps of `make_move`, in order.
/// Save the irreversible state and rehash castling rights and en-passant file.
#[verifier::opaque]
pub open spec fn mm_meta(v: BoardView, m: Move, z: Zobrist) -> BoardView {
    let ep2 = make_move_ep(m);
    let cr2 = make_move_castling(v, m);
    let k1 = v.zobrist_key ^ z.castling_keys[v.castling_rights as int];
    let k2 = if v.en_passant_target != 0 {
        k1 ^ ep_file_key(z, v.en_passant_target)
    } else {
        k1
    };
    let k3 = k2 ^ z.castling_keys[cr2 as int];
    let k4 = if ep2 != 0 {
        k3 ^ ep_file_key(z, ep2)
    } else {
        k3
    };
    BoardView {
        history: v.history.push(v.saved_state()),
        castling_rights: cr2,
        en_passant_target: ep2,
        zobrist_key: k4,
        ..v
    }
}

/// Remove a piece standing on the target square.
#[verifier::opaque]
pub open spec fn mm_capture(v: BoardView, m: Move, z: Zobrist) -> BoardView {
    let t = m.target() as int;
    let w = v.white_to_move;
    let en_off: int = if w { 6 } else { 0 };
    let c = v.pieces[t] as int;
    if v.pieces[t] != EMPTY_SQUARE {
        BoardView {
            zobrist_key: v.zobrist_key ^ z.piece_keys[c + en_off][t],
            bitboards: bb_clear(bb_clear(v.bitboards, c, t), v.enemy_color(), t),
            incremental_eval: (v.incremental_eval - pst_value(c as usize, t as usize, !w)) as i32,
            phase_weight: (v.phase_weight - piece_phase(c)) as i32,
            ..v
        }
    } else {
        v
    }
}

/// Move the piece from start to target.
#[verifier::opaque]
pub open spec fn mm_move(v: BoardView, m: Move, z: Zobrist) -> BoardView {
    let s = m.start() as int;
    let t = m.target() as int;
    let p = m.piece() as int;
    let w = v.white_to_move;
    let my_off: int = if w { 0 } else { 6 };
    BoardView {
        zobrist_key: v.zobrist_key ^ z.piece_keys[p + my_off][s] ^ z.piece_keys[p + my_off][t],
        bitboards: bb_toggle2(bb_toggle2(v.bitboards, p, s, t), v.own_color(), s, t),
        pieces: v.pieces.update(s, EMPTY_SQUARE).update(t, p as u8),
        incremental_eval: if p != KINGS {
            (v.incremental_eval - pst_value(p as usize, s as usize, w) + pst_value(
                p as usize,
                t as usize,
                w,
            )) as i32
        } else {
            v.incremental_eval
        },
        ..v
    }
}

/// Replace a pawn on the target square by the promoted piece.
#[verifier::opaque]
pub open spec fn mm_promote(v: BoardView, m: Move, z: Zobrist) -> BoardView {
    let t = m.target() as int;
    let f = m.flags();
    let w = v.white_to_move;
    let my_off: int = if w { 0 } else { 6 };
    let pp = promoted_piece(f);
    if is_promotion_flag(f) {
        BoardView {
            zobrist_key: v.zobrist_key ^ z.piece_keys[PAWNS + my_off][t] ^ z.piece_keys[pp + my_off][t],
            bitboards: bb_set(bb_clear(v.bitboards, PAWNS as int, t), pp, t),
            pieces: v.pieces.update(t, pp as u8),
            incremental_eval: (v.incremental_eval - pst_value(PAWNS, t as usize, w) + pst_value(
                pp as usize,
                t as usize,
                w,
            )) as i32,
            phase_weight: (v.phase_weight + piece_phase(pp)) as i32,
            ..v
        }
    } else {
        v
    }
}

/// Remove the pawn captured en passant.
#[verifier::opaque]
pub open spec fn mm_en_passant(v: BoardView, m: Move, z: Zobrist) -> BoardView {
    let t = m.target() as int;
    let w = v.white_to_move;
    let en_off: int = if w { 6 } else { 0 };
    let cs: int = if w { t - 8 } else { t + 8 };
    if m.flags() == FLAG_EN_PASSANT {
        BoardView {
            zobrist_key: v.zobrist_key ^ z.piece_keys[PAWNS + en_off][cs],
            bitboards: bb_clear(bb_clear(v.bitboards, PAWNS as int, cs), v.enemy_color(), cs),
            pieces: v.pieces.update(cs, EMPTY_SQUARE),
            incremental_eval: (v.incremental_eval - pst_value(PAWNS, cs as usize, !w)) as i32,
            ..v
        }
    } else {
        v
    }
}

/// Move the castling rook.
#[verifier::opaque]
pub open spec fn mm_castle(v: BoardView, m: Move, z: Zobrist) -> BoardView {
    let t = m.target() as int;
    let f = m.flags();
    let w = v.white_to_move;
    let my_off: int = if w { 0 } else { 6 };
    let rs = castle_rook_start(f, t);
    let rt = castle_rook_target(f, t);
    if is_castle_flag(f) {
        BoardView {
            zobrist_key: v.zobrist_key ^ z.piece_keys[ROOKS + my_off][rs] ^ z.piece_keys[ROOKS + my_off][rt],
            bitboards: bb_toggle2(bb_toggle2(v.bitboards, ROOKS as int, rs, rt), v.own_color(), rs, rt),
            pieces: v.pieces.update(rs, EMPTY_SQUARE).update(rt, ROOKS as u8),
            incremental_eval: (v.incremental_eval - pst_value(ROOKS, rs as usize, w) + pst_value(
                ROOKS,
                rt as usize,
                w,
            )) as i32,
            ..v
        }
    } else {
        v
    }
}

/// Update the halfmove clock and pass the turn.
#[verifier::opaque]
pub open spec fn mm_finish(v: BoardView, m: Move, z: Zobrist, was_capture: bool) -> BoardView {
    BoardView {
        halfmove_clock: if was_capture || m.piece() == PAWNS {
            0
        } else {
            (v.halfmove_clock + 1) as u32
        },
        white_to_move: !v.white_to_move,
        zobrist_key: v.zobrist_key ^ z.side_to_move,
        ..v
    }
}

/// The board after `make_move(m)`.
pub open spec fn make_move_spec(v: BoardView, m: Move, z: Zobrist) -> BoardView {
    let v1 = mm_meta(v, m, z);
    let v2 = mm_capture(v1, m, z);
    let v3 = mm_move(v2, m, z);
    let v4 = mm_promote(v3, m, z);
    let v5 = mm_en_passant(v4, m, z);
    let v6 = mm_castle(v5, m, z);
    mm_finish(v6, m, z, v.pieces[m.target() as int] != EMPTY_SQUARE)
}

/// Move the piece back (a promoted piece turns back into a pawn); `v` has the mover to move.
#[verifier::opaque]
pub open spec fn um_main(v: BoardView, m: Move) -> BoardView {
    let s = m.start() as int;
    let t = m.target() as int;
    let p = m.piece() as int;
    let f = m.flags();
    let b1 = bb_toggle2(v.bitboards, v.own_color(), t, s);
    BoardView {
        bitboards: if is_promotion_flag(f) {
            bb_set(bb_clear(b1, promoted_piece(f), t), PAWNS as int, s)
        } else {
            bb_toggle2(b1, p, t, s)
        },
        pieces: v.pieces.update(s, m.piece() as u8).update(t, EMPTY_SQUARE),
        ..v
    }
}

/// Move the castling rook back.
#[verifier::opaque]
pub open spec fn um_castle(v: BoardView, m: Move) -> BoardView {
    let t = m.target() as int;
    let f = m.flags();
    let rs = castle_rook_start(f, t);
    let rt = castle_rook_target(f, t);
    if is_castle_flag(f) {
        BoardView {
            bitboards: bb_toggle2(bb_toggle2(v.bitboards, ROOKS as int, rs, rt), v.own_color(), rs, rt),
            pieces: v.pieces.update(rt, EMPTY_SQUARE).update(rs, ROOKS as u8),
            ..v
        }
    } else {
        v
    }
}

/// Put back the piece that the move records as captured.
#[verifier::opaque]
pub open spec fn um_capture(v: BoardView, m: Move) -> BoardView {
    let t = m.target() as int;
    let c = m.captured() as int;
    let cs: int = if v.white_to_move { t - 8 } else { t + 8 };
    if m.flags() == FLAG_EN_PASSANT {
        BoardView {
            bitboards: bb_set(bb_set(v.bitboards, PAWNS as int, cs), v.enemy_color(), cs),
            pieces: v.pieces.update(cs, PAWNS as u8),
            ..v
        }
    } else if c != EMPTY_SQUARE {
        BoardView {
            bitboards: bb_set(bb_set(v.bitboards, c, t), v.enemy_color(), t),
            pieces: v.pieces.update(t, c as u8),
            ..v
        }
    } else {
        v
    }
}

/// The board after `unmake_move(m)`: the turn passes back, the saved state is restored, and
/// the pieces are moved back, with the captured piece recorded in the move put back.
pub open spec fn unmake_move_spec(v: BoardView, m: Move) -> BoardView {
    let v1 = BoardView { white_to_move: !v.white_to_move, ..v }.restored();
    um_capture(um_castle(um_main(v1, m), m), m)
}

/// Preconditions under which `unmake_move` stays in range.
pub open spec fn can_unmake(v: BoardView, m: Move) -> bool {
    let t = m.target() as int;
    let f = m.flags();
    let c = m.captured() as int;
    &&& v.bitboards.len() == 8
    &&& v.pieces.len() == 64
    &&& (!is_promotion_flag(f) ==> m.piece() < 8)
    &&& (f != FLAG_EN_PASSANT && c != EMPTY_SQUARE ==> c < 8)
    &&& (f == FLAG_EN_PASSANT ==> if !v.white_to_move {
        t >= 8
    } else {
        t + 8 < 64
    })
    &&& (f == FLAG_KING_CASTLE ==> 1 <= t && t + 1 < 64)
    &&& (f == FLAG_QUEEN_CASTLE ==> 2 <= t && t + 1 < 64)
}

/// The board after `make_null_move`: the turn passes without a move.
pub open spec fn make_null_move_spec(v: BoardView, z: Zobrist) -> BoardView {
    let k1 = if v.en_passant_target != 0 {
        v.zobrist_key ^ ep_file_key(z, v.en_passant_target)
    } else {
        v.zobrist_key
    };
    BoardView {
        history: v.history.push(v.saved_state()),
        en_passant_target: 0,
        white_to_move: !v.white_to_move,
        zobrist_key: k1 ^ z.side_to_move,
        ..v
    }
}

/// The board after `unmake_null_move`.
pub open spec fn unmake_null_move_spec(v: BoardView) -> BoardView {
    BoardView { white_to_move: !v.white_to_move, ..v.restored() }
}

impl Board {
    // ------------------------------------------------------------------ small updates
    fn clear_bit(&mut self, i: usize, a: usize)
        requires
            i < 8,
            a < 64,
        ensures
            final(self)@ == (BoardView { bitboards: bb_clear(old(self)@.bitboards, i as int, a as int), ..old(self)@ }),
    {
        self.bitboards_of_pieces[i] = self.bitboards_of_pieces[i] & !(1u64 << (a as u64));
        assert(self@.bitboards =~= bb_clear(old(self)@.bitboards, i as int, a as int));
    }

    fn set_bit(&mut self, i: usize, a: usize)
        requires
            i < 8,
            a < 64,
        ensures
            final(self)@ == (BoardView { bitboards: bb_set(old(self)@.bitboards, i as int, a as int), ..old(self)@ }),
    {
        self.bitboards_of_pieces[i] = self.bitboards_of_pieces[i] | (1u64 << (a as u64));
        assert(self@.bitboards =~= bb_set(old(self)@.bitboards, i as int, a as int));
    }

    fn toggle2(&mut self, i: usize, a: usize, c: usize)
        requires
            i < 8,
            a < 64,
            c < 64,
        ensures
            final(self)@ == (BoardView {
                bitboards: bb_toggle2(old(self)@.bitboards, i as int, a as int, c as int),
                ..old(self)@
            }),
    {
        self.bitboards_of_pieces[i] = self.bitboards_of_pieces[i] ^ ((1u64 << (a as u64)) | (1u64 << (c as u64)));
        assert(self@.bitboards =~= bb_toggle2(old(self)@.bitboards, i as int, a as int, c as int));
    }

    fn put(&mut self, sq: usize, x: u8)
        requires
            sq < 64,
        ensures
            final(self)@ == (BoardView { pieces: old(self)@.pieces.update(sq as int, x), ..old(self)@ }),
    {
        self.array_of_pieces[sq] = x;
        assert(self@.pieces =~= old(self)@.pieces.update(sq as int, x));
    }

    /// The view has the array lengths.
    pub proof fn lemma_shape(&self)
        ensures
            self@.bitboards.len() == 8,
            self@.pieces.len() == 64,
    {
    }

    pub fn get_zobrist_key(&self) -> (r: u64)
        ensures
            r == self@.zobrist_key,
    {
        self.zobrist_key
    }

    pub fn get_incremental_eval(&self) -> (r: i32)
        ensures
            r == self@.incremental_eval,
    {
        self.incremental_eval
    }

    pub fn get_phase_weight(&self) -> (r: i32)
        ensures
            r == self@.phase_weight,
    {
        self.phase_weight
    }

    pub fn is_white_turn(&self) -> (r: bool)
        ensures
            r == self@.white_to_move,
    {
        self.white_to_move
    }

    pub fn turn_end(&mut self)
        ensures
            final(self)@ == (BoardView { white_to_move: !old(self)@.white_to_move, ..old(self)@ }),
    {
        self.white_to_move = !self.white_to_move;
    }

    pub fn get_bitboard(&self, bitboard: usize) -> (r: u64)
        requires
            bitboard < 8,
        ensures
            r == self@.bitboards[bitboard as int],
    {
        self.bitboards_of_pieces[bitboard]
    }

    pub fn get_piece_from_array(&self, target_square: u32) -> (r: u32)
        requires
            target_square < 64,
        ensures
            r == self@.pieces[target_square as int] as u32,
    {
        self.array_of_pieces[target_square as usize] as u32
    }

    pub fn get_en_passant_target(&self) -> (r: u64)
        ensures
            r == self@.en_passant_target,
    {
        self.en_passant_target
    }

    pub fn get_castling_rights(&self) -> (r: u8)
        ensures
            r == self@.castling_rights,
    {
        self.castling_rights
    }

    pub fn is_fifty_move_draw(&self) -> (r: bool)
        ensures
            r == (self@.halfmove_clock >= 100),
    {
        self.halfmove_clock >= 100
    }

    pub fn get_piece_value_pst(piece: usize, sq: usize, is_white: bool) -> (r: i32)
        requires
            sq < 64,
        ensures
            r as int == pst_value(piece, sq, is_white),
            -950 <= r <= 950,
    {
        proof {
            lemma_pst_value_bound(piece, sq, is_white);
            lemma_flip_square(sq);
        }
        let sq_idx = if is_white { sq } else { sq ^ 56 };
        let val = if piece == PAWNS {
            PAWN_VALUE + PAWN_PST[sq_idx]
        } else if piece == KNIGHTS {
            KNIGHT_VALUE + KNIGHT_PST[sq_idx]
        } else if piece == BISHOPS {
            BISHOP_VALUE + BISHOP_PST[sq_idx]
        } else if piece == ROOKS {
            ROOK_VALUE + ROOK_PST[sq_idx]
        } else if piece == QUEENS {
            QUEEN_VALUE + QUEEN_PST[sq_idx]
        } else {
            0
        };
        if is_white {
            val
        } else {
            -val
        }
    }

    pub fn get_piece_phase(piece: usize) -> (r: i32)
        ensures
            r as int == piece_phase(piece as int),
            0 <= r <= 4,
    {
        if piece == KNIGHTS || piece == BISHOPS {
            1
        } else if piece == ROOKS {
            2
        } else if piece == QUEENS {
            4
        } else {
            0
        }
    }

    fn update_en_passant_target(&mut self, move_data: &Move)
        ensures
            final(self)@ == (BoardView { en_passant_target: make_move_ep(*move_data), ..old(self)@ }),
    {
        if move_data.get_flags() == FLAG_DOUBLE_PUSH {
            let skipped_square = (move_data.get_start() + move_data.get_target()) / 2;
            self.en_passant_target = 1u64 << (skipped_square as u64);
        } else {
            self.en_passant_target = 0;
        }
    }

    fn update_castling_rights(&mut self, move_data: &Move)
        ensures
            final(self)@ == (BoardView {
                castling_rights: old(self)@.castling_rights & CASTLING_RIGHTS_UPDATE_TABLE[move_data.start() as int]
                    & CASTLING_RIGHTS_UPDATE_TABLE[move_data.target() as int],
                ..old(self)@
            }),
    {
        self.castling_rights = self.castling_rights & CASTLING_RIGHTS_UPDATE_TABLE[move_data.get_start() as usize];
        self.castling_rights = self.castling_rights & CASTLING_RIGHTS_UPDATE_TABLE[move_data.get_target() as usize];
    }

    fn save_state(&mut self)
        ensures
            final(self)@ == (BoardView { history: old(self)@.history.push(old(self)@.saved_state()), ..old(self)@ }),
    {
        self.history.push(
            GameState {
                castling_rights: self.castling_rights,
                en_passant_target: self.en_passant_target,
                zobrist_key: self.zobrist_key,
                incremental_eval: self.incremental_eval,
                phase_weight: self.phase_weight,
                halfmove_clock: self.halfmove_clock,
            },
        );
    }

    fn restore_state(&mut self)
        ensures
            final(self)@ == old(self)@.restored(),
    {
        if let Some(previous_state) = self.history.pop() {
            self.castling_rights = previous_state.castling_rights;
            self.en_passant_target = previous_state.en_passant_target;
            self.zobrist_key = previous_state.zobrist_key;
            self.incremental_eval = previous_state.incremental_eval;
            self.phase_weight = previous_state.phase_weight;
            self.halfmove_clock = previous_state.halfmove_clock;
        }
    }

    fn ep_file(ep: u64) -> (r: usize)
        ensures
            r as int == (u64_trailing_zeros(ep) as int) % 8,
            r < 8,
    {
        (ep.trailing_zeros() as usize) % 8
    }

    fn make_meta(&mut self, move_data: &Move, zobrist: &Zobrist)
        requires
            old(self)@.castling_rights < 16,
        ensures
            final(self)@.bitboards.len() == 8,
            final(self)@.pieces.len() == 64,
            final(self)@.white_to_move == old(self)@.white_to_move,
            final(self)@.incremental_eval == old(self)@.incremental_eval,
            final(self)@.phase_weight == old(self)@.phase_weight,
            final(self)@.halfmove_clock == old(self)@.halfmove_clock,
            final(self)@.pieces == old(self)@.pieces,
            final(self)@ == mm_meta(old(self)@, *move_data, *zobrist),
            final(self)@.castling_rights < 16,
    {
        reveal(mm_meta);
        let ghost v = self@;
        self.save_state();

        // Hash OUT the old Castling Rights and En Passant file
        self.zobrist_key = self.zobrist_key ^ zobrist.castling_keys[self.castling_rights as usize];
        if self.en_passant_target != 0 {
            let file = Self::ep_file(self.en_passant_target);
            self.zobrist_key = self.zobrist_key ^ zobrist.en_passant_keys[file];
        }

        self.update_en_passant_target(move_data);
        self.update_castling_rights(move_data);
        proof {
            lemma_rights_mask(v.castling_rights, CASTLING_RIGHTS_UPDATE_TABLE[move_data.start() as int],
                CASTLING_RIGHTS_UPDATE_TABLE[move_data.target() as int]);
        }
        self.zobrist_key = self.zobrist_key ^ zobrist.castling_keys[self.castling_rights as usize];
        if self.en_passant_target != 0 {
            let file = Self::ep_file(self.en_passant_target);
            self.zobrist_key = self.zobrist_key ^ zobrist.en_passant_keys[file];
        }
    }

    fn make_capture(&mut self, move_data: &Move, zobrist: &Zobrist)
        requires
            old(self)@.basic(),
            -0x7fff_ffff + 1000 <= old(self)@.incremental_eval <= 0x7fff_ffff - 1000,
            -0x7fff_ffff + 8 <= old(self)@.phase_weight <= 0x7fff_ffff - 8,
        ensures
            final(self)@.bitboards.len() == 8,
            final(self)@.pieces.len() == 64,
            final(self)@.white_to_move == old(self)@.white_to_move,
            old(self)@.incremental_eval - 950 <= final(self)@.incremental_eval <= old(self)@.incremental_eval + 950,
            old(self)@.phase_weight - 4 <= final(self)@.phase_weight <= old(self)@.phase_weight,
            final(self)@.halfmove_clock == old(self)@.halfmove_clock,
            final(self)@ == mm_capture(old(self)@, *move_data, *zobrist),
    {
        reveal(mm_capture);
        let target_square = move_data.get_target() as usize;
        let is_white = self.white_to_move;
        let enemy_offset: usize = if is_white { 6 } else { 0 };
        let enemy_index = if is_white { BLACK_PIECES } else { WHITE_PIECES };
        if self.array_of_pieces[target_square] != EMPTY_SQUARE {
            let captured_piece = self.array_of_pieces[target_square] as usize;
            self.zobrist_key = self.zobrist_key ^ zobrist.piece_keys[captured_piece + enemy_offset][target_square];
            self.clear_bit(captured_piece, target_square);
            self.clear_bit(enemy_index, target_square);
            self.incremental_eval = self.incremental_eval - Self::get_piece_value_pst(captured_piece, target_square, !is_white);
            self.phase_weight = self.phase_weight - Self::get_piece_phase(captured_piece);
        }
    }

    fn make_piece_move(&mut self, move_data: &Move, zobrist: &Zobrist)
        requires
            old(self)@.bitboards.len() == 8,
            old(self)@.pieces.len() == 64,
            move_data.piece() < 6,
            -0x7fff_ffff + 2000 <= old(self)@.incremental_eval <= 0x7fff_ffff - 2000,
        ensures
            final(self)@.bitboards.len() == 8,
            final(self)@.pieces.len() == 64,
            final(self)@.white_to_move == old(self)@.white_to_move,
            old(self)@.incremental_eval - 1900 <= final(self)@.incremental_eval <= old(self)@.incremental_eval + 1900,
            final(self)@.phase_weight == old(self)@.phase_weight,
            final(self)@.halfmove_clock == old(self)@.halfmove_clock,
            final(self)@ == mm_move(old(self)@, *move_data, *zobrist),
    {
        reveal(mm_move);
        let is_white = self.white_to_move;
        let my_offset: usize = if is_white { 0 } else { 6 };
        let target_square = move_data.get_target() as usize;
        let start_square = move_data.get_start() as usize;
        let piece = move_data.get_piece();
        let color_index = if is_white { WHITE_PIECES } else { BLACK_PIECES };
        self.zobrist_key = self.zobrist_key ^ zobrist.piece_keys[piece + my_offset][start_square];
        self.zobrist_key = self.zobrist_key ^ zobrist.piece_keys[piece + my_offset][target_square];

        self.toggle2(piece, start_square, target_square);
        self.toggle2(color_index, start_square, target_square);
        self.put(start_square, EMPTY_SQUARE);
        self.put(target_square, piece as u8);

        if piece != KINGS {
            self.incremental_eval = self.incremental_eval - Self::get_piece_value_pst(piece, start_square, is_white);
            self.incremental_eval = self.incremental_eval + Self::get_piece_value_pst(piece, target_square, is_white);
        }
    }

    fn make_promotion(&mut self, move_data: &Move, zobrist: &Zobrist)
        requires
            old(self)@.bitboards.len() == 8,
            old(self)@.pieces.len() == 64,
            -0x7fff_ffff + 2000 <= old(self)@.incremental_eval <= 0x7fff_ffff - 2000,
            -0x7fff_ffff <= old(self)@.phase_weight <= 0x7fff_ffff - 4,
        ensures
            final(self)@.bitboards.len() == 8,
            final(self)@.pieces.len() == 64,
            final(self)@.white_to_move == old(self)@.white_to_move,
            is_promotion_flag(move_data.flags()) ==> old(self)@.incremental_eval - 1900 <= final(self)@.incremental_eval <= old(self)@.incremental_eval + 1900,
            !is_promotion_flag(move_data.flags()) ==> final(self)@.incremental_eval == old(self)@.incremental_eval,
            old(self)@.phase_weight <= final(self)@.phase_weight <= old(self)@.phase_weight + 4,
            final(self)@.halfmove_clock == old(self)@.halfmove_clock,
            final(self)@ == mm_promote(old(self)@, *move_data, *zobrist),
    {
        reveal(mm_promote);
        let is_white = self.white_to_move;
        let my_offset: usize = if is_white { 0 } else { 6 };
        let target_square = move_data.get_target() as usize;
        let flag = move_data.get_flags();
        if flag >= FLAG_PROMOTE_QUEEN && flag <= FLAG_PROMOTE_KNIGHT {
            self.clear_bit(PAWNS, target_square);
            let promoted_piece = if flag == FLAG_PROMOTE_QUEEN {
                QUEENS
            } else if flag == FLAG_PROMOTE_ROOK {
                ROOKS
            } else if flag == FLAG_PROMOTE_BISHOP {
                BISHOPS
            } else {
                KNIGHTS
            };

            self.zobrist_key = self.zobrist_key ^ zobrist.piece_keys[PAWNS + my_offset][target_square];
            self.zobrist_key = self.zobrist_key ^ zobrist.piece_keys[promoted_piece + my_offset][target_square];

            self.set_bit(promoted_piece, target_square);
            self.put(target_square, promoted_piece as u8);
            self.incremental_eval = self.incremental_eval - Self::get_piece_value_pst(PAWNS, target_square, is_white);
            self.incremental_eval = self.incremental_eval + Self::get_piece_value_pst(promoted_piece, target_square, is_white);
            self.phase_weight = self.phase_weight + Self::get_piece_phase(promoted_piece);
        }
    }

    fn make_en_passant(&mut self, move_data: &Move, zobrist: &Zobrist)
        requires
            old(self)@.bitboards.len() == 8,
            old(self)@.pieces.len() == 64,
            move_data.flags() == FLAG_EN_PASSANT ==> if old(self)@.white_to_move {
                move_data.target() >= 8
            } else {
                move_data.target() + 8 < 64
            },
            -0x7fff_ffff + 1000 <= old(self)@.incremental_eval <= 0x7fff_ffff - 1000,
        ensures
            final(self)@.bitboards.len() == 8,
            final(self)@.pieces.len() == 64,
            final(self)@.white_to_move == old(self)@.white_to_move,
            move_data.flags() == FLAG_EN_PASSANT ==> old(self)@.incremental_eval - 950 <= final(self)@.incremental_eval <= old(self)@.incremental_eval + 950,
            move_data.flags() != FLAG_EN_PASSANT ==> final(self)@.incremental_eval == old(self)@.incremental_eval,
            final(self)@.halfmove_clock == old(self)@.halfmove_clock,
            final(self)@ == mm_en_passant(old(self)@, *move_data, *zobrist),
    {
        reveal(mm_en_passant);
        let is_white = self.white_to_move;
        let enemy_offset: usize = if is_white { 6 } else { 0 };
        let enemy_index = if is_white { BLACK_PIECES } else { WHITE_PIECES };
        let target_square = move_data.get_target() as usize;
        if move_data.get_flags() == FLAG_EN_PASSANT {
            let captured_square = if is_white { target_square - 8 } else { target_square + 8 };
            self.clear_bit(PAWNS, captured_square);
            self.zobrist_key = self.zobrist_key ^ zobrist.piece_keys[PAWNS + enemy_offset][captured_square];
            self.clear_bit(enemy_index, captured_square);
            self.put(captured_square, EMPTY_SQUARE);
            self.incremental_eval = self.incremental_eval - Self::get_piece_value_pst(PAWNS, captured_square, !is_white);
        }
    }

    fn make_castle(&mut self, move_data: &Move, zobrist: &Zobrist)
        requires
            old(self)@.bitboards.len() == 8,
            old(self)@.pieces.len() == 64,
            move_data.flags() == FLAG_KING_CASTLE ==> 1 <= move_data.target() && move_data.target() + 1 < 64,
            move_data.flags() == FLAG_QUEEN_CASTLE ==> 2 <= move_data.target() && move_data.target() + 1 < 64,
            is_castle_flag(move_data.flags()) ==> -0x7fff_ffff + 2000 <= old(self)@.incremental_eval <= 0x7fff_ffff - 2000,
        ensures
            final(self)@.bitboards.len() == 8,
            final(self)@.pieces.len() == 64,
            final(self)@.white_to_move == old(self)@.white_to_move,
            final(self)@.halfmove_clock == old(self)@.halfmove_clock,
            final(self)@ == mm_castle(old(self)@, *move_data, *zobrist),
    {
        reveal(mm_castle);
        let is_white = self.white_to_move;
        let my_offset: usize = if is_white { 0 } else { 6 };
        let color_index = if is_white { WHITE_PIECES } else { BLACK_PIECES };
        let target_square = move_data.get_target() as usize;
        let flag = move_data.get_flags();
        if flag == FLAG_KING_CASTLE || flag == FLAG_QUEEN_CASTLE {
            let rook_start = if flag == FLAG_KING_CASTLE { target_square + 1 } else { target_square - 2 };
            let rook_target = if flag == FLAG_KING_CASTLE { target_square - 1 } else { target_square + 1 };

            self.zobrist_key = self.zobrist_key ^ zobrist.piece_keys[ROOKS + my_offset][rook_start];
            self.zobrist_key = self.zobrist_key ^ zobrist.piece_keys[ROOKS + my_offset][rook_target];

            self.toggle2(ROOKS, rook_start, rook_target);
            self.toggle2(color_index, rook_start, rook_target);
            self.put(rook_start, EMPTY_SQUARE);
            self.put(rook_target, ROOKS as u8);
            self.incremental_eval = self.incremental_eval - Self::get_piece_value_pst(ROOKS, rook_start, is_white);
            self.incremental_eval = self.incremental_eval + Self::get_piece_value_pst(ROOKS, rook_target, is_white);
        }
    }

    fn make_finish(&mut self, move_data: &Move, zobrist: &Zobrist, is_capture: bool)
        requires
            old(self)@.halfmove_clock < u32::MAX,
        ensures
            final(self)@ == mm_finish(old(self)@, *move_data, *zobrist, is_capture),
    {
        reveal(mm_finish);
        // Fifty-move / repetition clock: resets on any capture or pawn move (irreversible)
        if is_capture || move_data.get_piece() == PAWNS {
            self.halfmove_clock = 0;
        } else {
            self.halfmove_clock = self.halfmove_clock + 1;
        }
        self.turn_end();
        self.zobrist_key = self.zobrist_key ^ zobrist.side_to_move;
    }

    pub fn make_move(&mut self, move_data: &Move, zobrist: &Zobrist)
        requires
            old(self)@.can_make(*move_data),
        ensures
            final(self)@ == make_move_spec(old(self)@, *move_data, *zobrist),
            old(self)@.wf() && old(self)@.move_ok(*move_data) ==> final(self)@.wf(),
            old(self)@.wf() && old(self)@.move_ok(*move_data) && old(self)@.zobrist_key == old(self)@.zobrist_hash(*zobrist)
                ==> final(self)@.zobrist_key == final(self)@.zobrist_hash(*zobrist),
    {
        proof {
            if old(self)@.wf() && old(self)@.move_ok(*move_data) {
                crate::board_laws::lemma_make_move_wf(old(self)@, *move_data, *zobrist);
                if old(self)@.zobrist_key == old(self)@.zobrist_hash(*zobrist) {
                    crate::board_laws::lemma_make_move_key(old(self)@, *move_data, *zobrist);
                }
            }
        }
        let ghost v = self@;
        proof {
            move_data.lemma_fields_bounded();
        }
        let is_capture = self.array_of_pieces[move_data.get_target() as usize] != EMPTY_SQUARE;
        self.make_meta(move_data, zobrist);
        self.make_capture(move_data, zobrist);
        proof {
            lemma_pst_value_bound(v.pieces[move_data.target() as int] as usize, move_data.target() as usize, !v.white_to_move);
        }
        self.make_piece_move(move_data, zobrist);
        proof {
            lemma_pst_value_bound(move_data.piece() as usize, move_data.start() as usize, v.white_to_move);
            lemma_pst_value_bound(move_data.piece() as usize, move_data.target() as usize, v.white_to_move);
        }
        self.make_promotion(move_data, zobrist);
        proof {
            lemma_pst_value_bound(PAWNS, move_data.target() as usize, v.white_to_move);
            lemma_pst_value_bound(promoted_piece(move_data.flags()) as usize, move_data.target() as usize, v.white_to_move);
        }
        self.make_en_passant(move_data, zobrist);
        self.make_castle(move_data, zobrist);
        self.make_finish(move_data, zobrist, is_capture);
    }

    fn unmake_main(&mut self, move_data: &Move)
        requires
            old(self)@.bitboards.len() == 8,
            old(self)@.pieces.len() == 64,
            !is_promotion_flag(move_data.flags()) ==> move_data.piece() < 8,
        ensures
            final(self)@ == um_main(old(self)@, *move_data),
            final(self)@.bitboards.len() == 8,
            final(self)@.pieces.len() == 64,
            final(self)@.white_to_move == old(self)@.white_to_move,
    {
        reveal(um_main);
        let flag = move_data.get_flags();
        let start_square = move_data.get_start() as usize;
        let target_square = move_data.get_target() as usize;
        let color_index = if self.white_to_move { WHITE_PIECES } else { BLACK_PIECES };
        self.toggle2(color_index, target_square, start_square);

        if flag >= FLAG_PROMOTE_QUEEN && flag <= FLAG_PROMOTE_KNIGHT {
            let promoted_piece = if flag == FLAG_PROMOTE_QUEEN {
                QUEENS
            } else if flag == FLAG_PROMOTE_ROOK {
                ROOKS
            } else if flag == FLAG_PROMOTE_BISHOP {
                BISHOPS
            } else {
                KNIGHTS
            };
            self.clear_bit(promoted_piece, target_square);
            self.set_bit(PAWNS, start_square);
        } else {
            self.toggle2(move_data.get_piece(), target_square, start_square);
        }

        self.put(start_square, move_data.get_piece() as u8);
        self.put(target_square, EMPTY_SQUARE);
    }

    fn unmake_castle(&mut self, move_data: &Move)
        requires
            old(self)@.bitboards.len() == 8,
            old(self)@.pieces.len() == 64,
            move_data.flags() == FLAG_KING_CASTLE ==> 1 <= move_data.target() && move_data.target() + 1 < 64,
            move_data.flags() == FLAG_QUEEN_CASTLE ==> 2 <= move_data.target() && move_data.target() + 1 < 64,
        ensures
            final(self)@ == um_castle(old(self)@, *move_data),
            final(self)@.bitboards.len() == 8,
            final(self)@.pieces.len() == 64,
            final(self)@.white_to_move == old(self)@.white_to_move,
    {
        reveal(um_castle);
        let flag = move_data.get_flags();
        let target_square = move_data.get_target() as usize;
        let color_index = if self.white_to_move { WHITE_PIECES } else { BLACK_PIECES };
        if flag == FLAG_KING_CASTLE || flag == FLAG_QUEEN_CASTLE {
            let rook_start = if flag == FLAG_KING_CASTLE { target_square + 1 } else { target_square - 2 };
            let rook_target = if flag == FLAG_KING_CASTLE { target_square - 1 } else { target_square + 1 };
            self.toggle2(ROOKS, rook_start, rook_target);
            self.toggle2(color_index, rook_start, rook_target);
            self.put(rook_target, EMPTY_SQUARE);
            self.put(rook_start, ROOKS as u8);
        }
    }

    fn unmake_capture(&mut self, move_data: &Move)
        requires
            old(self)@.bitboards.len() == 8,
            old(self)@.pieces.len() == 64,
            move_data.flags() != FLAG_EN_PASSANT && move_data.captured() != EMPTY_SQUARE ==> move_data.captured() < 8,
            move_data.flags() == FLAG_EN_PASSANT ==> if old(self)@.white_to_move {
                move_data.target() >= 8
            } else {
                move_data.target() + 8 < 64
            },
        ensures
            final(self)@ == um_capture(old(self)@, *move_data),
    {
        reveal(um_capture);
        let target_square = move_data.get_target() as usize;
        let enemy_color = if self.white_to_move { BLACK_PIECES } else { WHITE_PIECES };
        if move_data.get_flags() == FLAG_EN_PASSANT {
            let captured_square = if self.white_to_move { target_square - 8 } else { target_square + 8 };
            self.set_bit(PAWNS, captured_square);
            self.set_bit(enemy_color, captured_square);
            self.put(captured_square, PAWNS as u8);
        } else if move_data.get_captured_piece() as u8 != EMPTY_SQUARE {
            self.set_bit(move_data.get_captured_piece(), target_square);
            self.set_bit(enemy_color, target_square);
            self.put(target_square, move_data.get_captured_piece() as u8);
        }
    }

    pub fn unmake_move(&mut self, move_data: &Move)
        requires
            can_unmake(old(self)@, *move_data),
        ensures
            final(self)@ == unmake_move_spec(old(self)@, *move_data),
    {
        proof {
            move_data.lemma_fields_bounded();
        }
        self.turn_end();
        self.restore_state();
        self.unmake_main(move_data);
        self.unmake_castle(move_data);
        self.unmake_capture(move_data);
    }

    pub fn make_null_move(&mut self, zobrist: &Zobrist)
        ensures
            final(self)@ == make_null_move_spec(old(self)@, *zobrist),
            old(self)@.wf() ==> final(self)@.wf(),
            old(self)@.zobrist_key == old(self)@.zobrist_hash(*zobrist)
                ==> final(self)@.zobrist_key == final(self)@.zobrist_hash(*zobrist),
    {
        proof {
            if old(self)@.wf() {
                crate::board_laws::lemma_null_move(old(self)@, *zobrist);
            }
            if old(self)@.zobrist_key == old(self)@.zobrist_hash(*zobrist) {
                crate::board_laws::lemma_null_move_key(old(self)@, *zobrist);
            }
        }
        self.save_state();
        if self.en_passant_target != 0 {
            let file = Self::ep_file(self.en_passant_target);
            self.zobrist_key = self.zobrist_key ^ zobrist.en_passant_keys[file];
            self.en_passant_target = 0;
        }
        self.turn_end();
        self.zobrist_key = self.zobrist_key ^ zobrist.side_to_move;
    }

    pub fn unmake_null_move(&mut self)
        ensures
            final(self)@ == unmake_null_move_spec(old(self)@),
    {
        self.turn_end();
        // Restores Everything
        self.restore_state();
    }


    pub fn new(zobrist: &Zobrist) -> (b: Self)
        ensures
            b@.wf(),
            b@.pieces == Seq::new(64, |sq: int| start_piece(sq)),
            b@.bitboards == start_bitboards(),
            b@.white_to_move,
            b@.castling_rights == 15,
            b@.en_passant_target == 0,
            b@.history.len() == 0,
            b@.halfmove_clock == 0,
            b@.zobrist_key == b@.zobrist_hash(*zobrist),
    {
        let mut starting_array: [u8; 64] = [EMPTY_SQUARE; 64];

        // Starting Position
        // White Pieces
        starting_array[0] = ROOKS as u8;  // A1
        starting_array[1] = KNIGHTS as u8;  // B1
        starting_array[2] = BISHOPS as u8;  // C1
        starting_array[3] = QUEENS as u8;  // D1
        starting_array[4] = KINGS as u8;  // E1
        starting_array[5] = BISHOPS as u8;  // F1
        starting_array[6] = KNIGHTS as u8;  // G1
        starting_array[7] = ROOKS as u8;  // H1

        let mut i: usize = 8;
        while i < 16
            invariant
                8 <= i <= 16,
                forall|sq: int| 0 <= sq < i ==> starting_array[sq] == start_piece(sq),
                forall|sq: int| 16 <= sq < 64 ==> starting_array[sq] == EMPTY_SQUARE,
            decreases 16 - i,
        {
            starting_array[i] = PAWNS as u8;  // Rank 2
            i += 1;
        }

        // Black Pieces
        starting_array[56] = ROOKS as u8;  // A8
        starting_array[57] = KNIGHTS as u8;  // B8
        starting_array[58] = BISHOPS as u8;  // C8
        starting_array[59] = QUEENS as u8;  // D8
        starting_array[60] = KINGS as u8;  // E8
        starting_array[61] = BISHOPS as u8;  // F8
        starting_array[62] = KNIGHTS as u8;  // G8
        starting_array[63] = ROOKS as u8;  // H8
        let mut i: usize = 48;
        while i < 56
            invariant
                48 <= i <= 56,
                forall|sq: int| 0 <= sq < i ==> starting_array[sq] == start_piece(sq),
                forall|sq: int| 56 <= sq < 64 ==> starting_array[sq] == start_piece(sq),
            decreases 56 - i,
        {
            starting_array[i] = PAWNS as u8;  // Rank 7
            i += 1;
        }
        assert(starting_array@ =~= Seq::new(64, |sq: int| start_piece(sq)));

        let starting_bitboards: [u64; 8] = [
            0x00FF00000000FF00,  // PAWNS: Rank 2 and 7
            0x4200000000000042,  // KNIGHTS: B1, G1, B8, G8
            0x2400000000000024,  // BISHOPS: C1, F1, C8, F8
            0x8100000000000081,  // ROOKS: A1, H1, A8, H8
            0x0800000000000008,  // QUEENS: D1, D8
            0x1000000000000010,  // KINGS: E1, E8
            0x000000000000FFFF,  // WHITE_PIECES: Rank 1 and 2
            0xFFFF000000000000,  // BLACK_PIECES: Rank 7 and 8
        ];
        assert(starting_bitboards@ =~= start_bitboards());

        let mut new_board = Self {
            bitboards_of_pieces: starting_bitboards,
            array_of_pieces: starting_array,
            white_to_move: true,
            castling_rights: 15,
            en_passant_target: 0,
            history: Vec::with_capacity(512),
            zobrist_key: 0,
            incremental_eval: 0,
            phase_weight: 0,
            halfmove_clock: 0,
        };
        proof {
            let v = new_board@;
            assert forall|sq: int| 0 <= sq < 64 implies #[trigger] v.square_ok(sq) by {
                lemma_start_bits(sq as u64);
                let r = bit_row(v.bitboards, sq);
                assert(r[0] == has_bit(0x00FF00000000FF00u64, sq));
            }
            assert((15u8 & 1u8 != 0) && (15u8 & 2u8 != 0) && (15u8 & 4u8 != 0) && (15u8 & 8u8 != 0)) by (bit_vector);
            lemma_start_bits(0);
            lemma_start_bits(4);
            lemma_start_bits(7);
            lemma_start_bits(56);
            lemma_start_bits(60);
            lemma_start_bits(63);
        }

        let ghost v0 = new_board@;
        new_board.init_eval();
        let ghost v1 = new_board@;
        new_board.zobrist_key = new_board.generate_zobrist_key(zobrist);
        proof {
            lemma_position_frame(v0, v1, *zobrist, 64);
            lemma_position_frame(v1, new_board@, *zobrist, 64);
            let v = new_board@;
            assert(v.pieces == v0.pieces && v.bitboards == v0.bitboards);
            assert(v.basic());
            assert forall|sq: int| 0 <= sq < 64 implies #[trigger] v.square_ok(sq) by {
                assert(v0.square_ok(sq));
            }
            assert(v.mailbox_ok());
            assert(v.castling_ok());
            assert(v.ep_ok());
            assert(v.incremental_eval == v.eval_total());
            assert(v.phase_weight == v.phase_total());
        }
        new_board
    }

    pub fn init_eval(&mut self)
        requires
            old(self)@.basic(),
        ensures
            final(self)@ == (BoardView {
                incremental_eval: old(self)@.eval_total() as i32,
                phase_weight: old(self)@.phase_total() as i32,
                ..old(self)@
            }),
            final(self)@.incremental_eval == old(self)@.eval_total(),
            final(self)@.phase_weight == old(self)@.phase_total(),
    {
        let ghost v = self@;
        self.incremental_eval = 0;
        self.phase_weight = 0;
        let mut square: usize = 0;
        while square < 64
            invariant
                square <= 64,
                v.basic(),
                self@ == (BoardView { incremental_eval: self@.incremental_eval, phase_weight: self@.phase_weight, ..v }),
                self@.incremental_eval == sum_squares(v.value_fn(), square as int),
                self@.phase_weight == sum_squares(v.phase_fn(), square as int),
            decreases 64 - square,
        {
            proof {
                assert forall|i: int| 0 <= i < square + 1 implies -950 <= #[trigger] v.value_fn()(i) <= 950 by {
                    lemma_pst_value_bound(v.pieces[i] as usize, i as usize, v.is_white_at(i));
                }
                assert forall|i: int| 0 <= i < square + 1 implies -4 <= #[trigger] v.phase_fn()(i) <= 4 by {}
                lemma_sum_bound(v.value_fn(), square + 1, 950);
                lemma_sum_bound(v.phase_fn(), square + 1, 4);
                assert(950 * (square + 1) <= 950 * 64) by (nonlinear_arith)
                    requires
                        square < 64,
                ;
                assert(4 * (square + 1) <= 4 * 64) by (nonlinear_arith)
                    requires
                        square < 64,
                ;
            }
            let piece = self.array_of_pieces[square] as usize;
            if piece != EMPTY_SQUARE as usize && piece != KINGS {
                let is_white = (self.get_bitboard(WHITE_PIECES) & (1u64 << (square as u64))) != 0;
                proof {
                    lemma_bit_test(v.bitboards[6], square as u64);
                }
                self.incremental_eval = self.incremental_eval + Self::get_piece_value_pst(piece, square, is_white);
                self.phase_weight = self.phase_weight + Self::get_piece_phase(piece);
            }
            square += 1;
        }
    }

    pub fn generate_zobrist_key(&self, zobrist: &Zobrist) -> (r: u64)
        requires
            self@.basic(),
        ensures
            r == self@.zobrist_hash(*zobrist),
    {
        let ghost v = self@;
        let mut final_key: u64 = 0;

        // Hash the pieces
        let mut square: usize = 0;
        while square < 64
            invariant
                square <= 64,
                v == self@,
                v.basic(),
                final_key == v.pieces_hash(*zobrist, square as int),
            decreases 64 - square,
        {
            let piece = self.array_of_pieces[square] as usize;
            if piece != EMPTY_SQUARE as usize {
                proof {
                    lemma_bit_test(v.bitboards[6], square as u64);
                }
                let color_offset: usize = if (self.get_bitboard(WHITE_PIECES) & (1u64 << (square as u64))) != 0 {
                    0
                } else {
                    6
                };
                final_key = final_key ^ zobrist.piece_keys[piece + color_offset][square];
            }
            square += 1;
        }

        // Hash castling rights (0 to 15)
        final_key = final_key ^ zobrist.castling_keys[self.castling_rights as usize];

        // Hash En Passant target (if any)
        if self.en_passant_target != 0 {
            let file = Self::ep_file(self.en_passant_target);
            final_key = final_key ^ zobrist.en_passant_keys[file];
        }

        // Hash Side to Move
        if !self.white_to_move {
            final_key = final_key ^ zobrist.side_to_move;
        }

        final_key
    }

    // Returns true if the current position's zobrist key has occurred earlier
    // within the current run of reversible moves (i.e. since the last capture
    // or pawn move). One repeated occurrence is treated as a draw for search
    // purposes.
    pub fn is_repetition(&self) -> (r: bool)
        ensures
            r == self@.repeated(),
    {
        let limit = self.halfmove_clock as usize;
        let len = self.history.len();
        if limit == 0 || len == 0 {
            return false;
        }

        let start = if len > limit { len - limit } else { 0 };

        let mut i = len;
        while i > start
            invariant
                start <= i <= len,
                len == self@.history.len(),
                limit as int == self@.halfmove_clock as int,
                limit != 0,
                start == (if len > limit { len - limit } else { 0 }),
                forall|j: int| i <= j < len ==> #[trigger] self@.history[j].zobrist_key != self@.zobrist_key,
            decreases i,
        {
            i -= 1;
            if self.history[i].zobrist_key == self.zobrist_key {
                assert(self@.history[i as int].zobrist_key == self@.zobrist_key);
                assert(self@.history.len() == len);
                assert(limit as int == self.halfmove_clock as int);
                assert(self@.repeated());
                return true;
            }
        }
        false
    }

}

} // verus!
