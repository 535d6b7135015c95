use vstd::prelude::*;

verus! {

/// Random keys for incremental position hashing.
pub struct Zobrist {
    /// 12 pieces (6 white, 6 black) x 64 squares
    pub piece_keys: [[u64; 64]; 12],
    /// one key per castling-rights combination (0..15)
    pub castling_keys: [u64; 16],
    /// one key per en-passant file
    pub en_passant_keys: [u64; 8],
    /// flipped in when Black is to move
    pub side_to_move: u64,
}

/// Seed of the key generator.
pub const ZOBRIST_SEED: u64 = 0x98f107;

/// Multiplier applied to each generator state to produce a key.
pub const ZOBRIST_MULTIPLIER: u64 = 0x2545F4914F6CDD1D;

/// One xorshift step.
pub open spec fn xorshift(x: u64) -> u64 {
    let a = x ^ (x >> 12u64);
    let b = a ^ (a << 25u64);
    b ^ (b >> 27u64)
}

/// The generator state after `n` steps from the seed.
pub open spec fn prng_state(n: nat) -> u64
    decreases n,
{
    if n == 0 {
        ZOBRIST_SEED
    } else {
        xorshift(prng_state((n - 1) as nat))
    }
}

/// The `n`-th number drawn (n >= 1).
pub open spec fn prng_output(n: nat) -> u64 {
    vstd::wrapping::u64_specs::wrapping_mul(prng_state(n), ZOBRIST_MULTIPLIER)
}

/// Position of each key in the generator's output stream.
pub open spec fn piece_key_draw(piece: int, square: int) -> nat {
    (2 + piece * 64 + square) as nat
}

pub open spec fn castling_key_draw(i: int) -> nat {
    (2 + 12 * 64 + i) as nat
}

pub open spec fn en_passant_key_draw(i: int) -> nat {
    (2 + 12 * 64 + 16 + i) as nat
}

// Generates 64-bit keys
struct PRNG {
    seed: u64,
}

impl PRNG {
    fn new(seed: u64) -> (r: Self)
        ensures
            r.seed == seed,
    {
        PRNG { seed }
    }

    fn random_u64(&mut self) -> (r: u64)
        ensures
            final(self).seed == xorshift(old(self).seed),
            r == vstd::wrapping::u64_specs::wrapping_mul(xorshift(old(self).seed), ZOBRIST_MULTIPLIER),
    {
        let mut x = self.seed;
        x ^= x >> 12;
        x ^= x << 25;
        x ^= x >> 27;
        self.seed = x;
        x.wrapping_mul(0x2545F4914F6CDD1D)
    }
}

impl Zobrist {
    /// The keys are the generator's outputs in order: side to move first, then the piece keys
    /// piece by piece and square by square, then the castling keys, then the en-passant keys.
    pub fn new() -> (z: Self)
        ensures
            z.side_to_move == prng_output(1),
            forall|p: int, s: int|
                0 <= p < 12 && 0 <= s < 64 ==> #[trigger] z.piece_keys[p][s] == prng_output(
                    piece_key_draw(p, s),
                ),
            forall|i: int| 0 <= i < 16 ==> #[trigger] z.castling_keys[i] == prng_output(castling_key_draw(i)),
            forall|i: int| 0 <= i < 8 ==> #[trigger] z.en_passant_keys[i] == prng_output(en_passant_key_draw(i)),
    {
        let mut prng = PRNG::new(0x98f107);
        let side = prng.random_u64();
        assert(prng.seed == prng_state(1)) by {
            reveal_with_fuel(prng_state, 2);
        }
        let mut z = Zobrist {
            piece_keys: [[0; 64]; 12],
            castling_keys: [0; 16],
            en_passant_keys: [0; 8],
            side_to_move: side,
        };
        let mut piece: usize = 0;
        while piece < 12
            invariant
                piece <= 12,
                prng.seed == prng_state((1 + piece * 64) as nat),
                z.side_to_move == prng_output(1),
                forall|p: int, s: int|
                    0 <= p < piece && 0 <= s < 64 ==> #[trigger] z.piece_keys[p][s] == prng_output(
                        piece_key_draw(p, s),
                    ),
            decreases 12 - piece,
        {
            let mut row: [u64; 64] = [0; 64];
            let mut square: usize = 0;
            while square < 64
                invariant
                    piece < 12,
                    square <= 64,
                    prng.seed == prng_state((1 + piece * 64 + square) as nat),
                    forall|s: int| 0 <= s < square ==> #[trigger] row[s] == prng_output(piece_key_draw(piece as int, s)),
                decreases 64 - square,
            {
                row[square] = prng.random_u64();
                square += 1;
            }
            z.piece_keys[piece] = row;
            piece += 1;
        }
        let mut i: usize = 0;
        while i < 16
            invariant
                i <= 16,
                prng.seed == prng_state((1 + 12 * 64 + i) as nat),
                z.side_to_move == prng_output(1),
                forall|p: int, s: int|
                    0 <= p < 12 && 0 <= s < 64 ==> #[trigger] z.piece_keys[p][s] == prng_output(
                        piece_key_draw(p, s),
                    ),
                forall|j: int| 0 <= j < i ==> #[trigger] z.castling_keys[j] == prng_output(castling_key_draw(j)),
            decreases 16 - i,
        {
            z.castling_keys[i] = prng.random_u64();
            i += 1;
        }
        let mut i: usize = 0;
        while i < 8
            invariant
                i <= 8,
                prng.seed == prng_state((1 + 12 * 64 + 16 + i) as nat),
                z.side_to_move == prng_output(1),
                forall|p: int, s: int|
                    0 <= p < 12 && 0 <= s < 64 ==> #[trigger] z.piece_keys[p][s] == prng_output(
                        piece_key_draw(p, s),
                    ),
                forall|j: int| 0 <= j < 16 ==> #[trigger] z.castling_keys[j] == prng_output(castling_key_draw(j)),
                forall|j: int| 0 <= j < i ==> #[trigger] z.en_passant_keys[j] == prng_output(en_passant_key_draw(j)),
            decreases 8 - i,
        {
            z.en_passant_keys[i] = prng.random_u64();
            i += 1;
        }
        z
    }
}

} // verus!
