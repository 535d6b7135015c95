use vstd::prelude::*;
use vstd::std_specs::bits::{u64_trailing_zeros, axiom_u64_trailing_zeros};
use vstd::arithmetic::power2::{pow2, lemma_pow2_unfold, lemma2_to64_rest};

verus! {

/// Square `sq` (0 = a1 .. 63 = h8) is set in bitboard `bb`.
pub open spec fn has_bit(bb: u64, sq: int) -> bool {
    (bb >> (sq as u64)) & 1u64 == 1u64
}

/// The bitboard holding only square `sq`.
pub open spec fn sq_bit(sq: int) -> u64 {
    1u64 << (sq as u64)
}

/// Number of set bits.
pub open spec fn popcount(x: u64) -> nat
    decreases x,
{
    if x == 0 {
        0
    } else {
        (x % 2) as nat + popcount(x / 2)
    }
}

/// `x` with its lowest set bit cleared.
pub open spec fn clear_lowest(x: u64) -> u64 {
    x & ((x - 1) as u64)
}

/// The set squares of `bb`, lowest first: the order in which the engine walks a bitboard.
pub open spec fn squares_of(bb: u64) -> Seq<u32>
    decreases bb,
{
    if bb == 0 {
        Seq::empty()
    } else {
        proof {
            lemma_clear_lowest_smaller(bb);
        }
        seq![u64_trailing_zeros(bb)] + squares_of(clear_lowest(bb))
    }
}

pub proof fn lemma_clear_lowest_smaller(bb: u64)
    requires
        bb != 0,
    ensures
        clear_lowest(bb) < bb,
{
    assert(bb != 0 ==> bb & ((bb - 1) as u64) < bb) by (bit_vector);
}

/// Setting, clearing and toggling single squares, square by square.
pub proof fn lemma_bit_ops(x: u64, s: u64, t: u64, i: u64)
    by (bit_vector)
    requires
        s < 64,
        t < 64,
        i < 64,
    ensures
        ((x | (1u64 << s)) >> i) & 1u64 == 1u64 <==> (((x >> i) & 1u64 == 1u64) || i == s),
        ((x & !(1u64 << s)) >> i) & 1u64 == 1u64 <==> (((x >> i) & 1u64 == 1u64) && i != s),
        ((x ^ ((1u64 << s) | (1u64 << t))) >> i) & 1u64 == 1u64 <==> (((x >> i) & 1u64 == 1u64)
            != (i == s || i == t)),
        ((1u64 << s) >> i) & 1u64 == 1u64 <==> i == s,
        ((0u64 >> i) & 1u64 == 1u64) == false,
{
}

/// Bitwise and/or/not, square by square.
pub proof fn lemma_bit_logic(x: u64, y: u64, i: u64)
    by (bit_vector)
    requires
        i < 64,
    ensures
        ((x & y) >> i) & 1u64 == 1u64 <==> (((x >> i) & 1u64 == 1u64) && ((y >> i) & 1u64 == 1u64)),
        ((x | y) >> i) & 1u64 == 1u64 <==> (((x >> i) & 1u64 == 1u64) || ((y >> i) & 1u64 == 1u64)),
        ((!x) >> i) & 1u64 == 1u64 <==> !((x >> i) & 1u64 == 1u64),
        ((x ^ y) >> i) & 1u64 == 1u64 <==> (((x >> i) & 1u64 == 1u64) != ((y >> i) & 1u64 == 1u64)),
{
}

/// Clearing the lowest set bit removes exactly that square.
pub proof fn lemma_clear_lowest_bits(bb: u64, t: u64, i: u64)
    by (bit_vector)
    requires
        bb != 0,
        t < 64,
        i < 64,
        (bb >> t) & 1u64 == 1u64,
        bb << ((64 - t) as u64) == 0,
    ensures
        ((bb & ((bb - 1) as u64)) >> i) & 1u64 == 1u64 <==> (((bb >> i) & 1u64 == 1u64) && i != t),
        i < t ==> (bb >> i) & 1u64 == 0u64,
{
}

/// The lowest set square of a non-empty bitboard.
pub proof fn lemma_lowest(bb: u64)
    requires
        bb != 0,
    ensures
        u64_trailing_zeros(bb) < 64,
        has_bit(bb, u64_trailing_zeros(bb) as int),
        forall|i: int| 0 <= i < u64_trailing_zeros(bb) ==> !has_bit(bb, i),
        forall|i: int|
            0 <= i < 64 ==> (has_bit(clear_lowest(bb), i) <==> (has_bit(bb, i) && i != u64_trailing_zeros(bb))),
{
    axiom_u64_trailing_zeros(bb);
    let t = u64_trailing_zeros(bb) as u64;
    assert forall|i: int| 0 <= i < 64 implies (has_bit(clear_lowest(bb), i) <==> (has_bit(bb, i) && i
        != t)) && (i < t ==> !has_bit(bb, i)) by {
        lemma_clear_lowest_bits(bb, t, i as u64);
    }
}

/// A square is walked exactly when it is set.
pub proof fn lemma_squares_of(bb: u64)
    ensures
        forall|k: int|
            0 <= k < squares_of(bb).len() ==> squares_of(bb)[k] < 64 && has_bit(bb, squares_of(bb)[k] as int),
        forall|t: int| 0 <= t < 64 && has_bit(bb, t) ==> squares_of(bb).contains(t as u32),
        squares_of(bb).len() <= 64,
        squares_of(bb).no_duplicates(),
    decreases bb,
{
    if bb == 0 {
        assert forall|t: int| 0 <= t < 64 implies !has_bit(bb, t) by {
            lemma_bit_ops(bb, 0, 0, t as u64);
        }
    } else {
        lemma_lowest(bb);
        lemma_clear_lowest_smaller(bb);
        let r = clear_lowest(bb);
        lemma_squares_of(r);
        let t = u64_trailing_zeros(bb);
        let s = squares_of(bb);
        assert(s == seq![t] + squares_of(r));
        assert forall|t2: int| 0 <= t2 < 64 && has_bit(bb, t2) implies s.contains(t2 as u32) by {
            if t2 == t {
                assert(s[0] == t);
            } else {
                assert(has_bit(r, t2));
                let k = choose|k: int| 0 <= k < squares_of(r).len() && squares_of(r)[k] == t2 as u32;
                assert(s[k + 1] == t2 as u32);
            }
        }
        assert(!has_bit(r, t as int));
        assert(!squares_of(r).contains(t)) by {
            if squares_of(r).contains(t) {
                let k = choose|k: int| 0 <= k < squares_of(r).len() && squares_of(r)[k] == t;
                assert(has_bit(r, squares_of(r)[k] as int));
            }
        }
        assert forall|k: int| 0 <= k < s.len() implies s[k] < 64 && has_bit(bb, s[k] as int) by {
            if k > 0 {
                assert(s[k] == squares_of(r)[k - 1]);
            }
        }
        assert(s.no_duplicates()) by {
            assert forall|a: int, b: int| 0 <= a < s.len() && 0 <= b < s.len() && a != b implies s[a]
                != s[b] by {
                if a == 0 {
                    assert(squares_of(r).contains(s[b]) || b == 0);
                    assert(s[b] == squares_of(r)[b - 1]);
                } else if b == 0 {
                    assert(s[a] == squares_of(r)[a - 1]);
                } else {
                    assert(s[a] == squares_of(r)[a - 1]);
                    assert(s[b] == squares_of(r)[b - 1]);
                }
            }
        }
        lemma_distinct_squares_len(s);
    }
}

/// A duplicate-free sequence of squares below 64 has at most 64 entries.
pub proof fn lemma_distinct_squares_len(s: Seq<u32>)
    requires
        s.no_duplicates(),
        forall|k: int| 0 <= k < s.len() ==> s[k] < 64,
    ensures
        s.len() <= 64,
{
    let st = s.to_set();
    s.unique_seq_to_set();
    let full = Set::new(|x: u32| x < 64);
    assert(st.subset_of(full));
    assert(full =~= vstd::set_lib::set_int_range(0, 64).map(|i: int| i as u32)) by {
        assert forall|x: u32| full.contains(x) implies vstd::set_lib::set_int_range(0, 64).map(
            |i: int| i as u32,
        ).contains(x) by {
            assert(vstd::set_lib::set_int_range(0, 64).contains(x as int));
        }
    }
    vstd::set_lib::lemma_int_range(0, 64);
    vstd::set_lib::lemma_map_size_bound(vstd::set_lib::set_int_range(0, 64), full, |i: int| i as u32);
    vstd::set_lib::lemma_len_subset(st, full);
}

/// Testing a square with a one-bit mask.
pub proof fn lemma_bit_test(x: u64, s: u64)
    by (bit_vector)
    requires
        s < 64,
    ensures
        (x & (1u64 << s)) != 0 <==> (x >> s) & 1u64 == 1u64,
{
}

proof fn lemma_bits_ext_bv(x: u64, y: u64)
    by (bit_vector)
    requires
        (x >> 0u64) & 1u64 == (y >> 0u64) & 1u64,
        (x >> 1u64) & 1u64 == (y >> 1u64) & 1u64,
        (x >> 2u64) & 1u64 == (y >> 2u64) & 1u64,
        (x >> 3u64) & 1u64 == (y >> 3u64) & 1u64,
        (x >> 4u64) & 1u64 == (y >> 4u64) & 1u64,
        (x >> 5u64) & 1u64 == (y >> 5u64) & 1u64,
        (x >> 6u64) & 1u64 == (y >> 6u64) & 1u64,
        (x >> 7u64) & 1u64 == (y >> 7u64) & 1u64,
        (x >> 8u64) & 1u64 == (y >> 8u64) & 1u64,
        (x >> 9u64) & 1u64 == (y >> 9u64) & 1u64,
        (x >> 10u64) & 1u64 == (y >> 10u64) & 1u64,
        (x >> 11u64) & 1u64 == (y >> 11u64) & 1u64,
        (x >> 12u64) & 1u64 == (y >> 12u64) & 1u64,
        (x >> 13u64) & 1u64 == (y >> 13u64) & 1u64,
        (x >> 14u64) & 1u64 == (y >> 14u64) & 1u64,
        (x >> 15u64) & 1u64 == (y >> 15u64) & 1u64,
        (x >> 16u64) & 1u64 == (y >> 16u64) & 1u64,
        (x >> 17u64) & 1u64 == (y >> 17u64) & 1u64,
        (x >> 18u64) & 1u64 == (y >> 18u64) & 1u64,
        (x >> 19u64) & 1u64 == (y >> 19u64) & 1u64,
        (x >> 20u64) & 1u64 == (y >> 20u64) & 1u64,
        (x >> 21u64) & 1u64 == (y >> 21u64) & 1u64,
        (x >> 22u64) & 1u64 == (y >> 22u64) & 1u64,
        (x >> 23u64) & 1u64 == (y >> 23u64) & 1u64,
        (x >> 24u64) & 1u64 == (y >> 24u64) & 1u64,
        (x >> 25u64) & 1u64 == (y >> 25u64) & 1u64,
        (x >> 26u64) & 1u64 == (y >> 26u64) & 1u64,
        (x >> 27u64) & 1u64 == (y >> 27u64) & 1u64,
        (x >> 28u64) & 1u64 == (y >> 28u64) & 1u64,
        (x >> 29u64) & 1u64 == (y >> 29u64) & 1u64,
        (x >> 30u64) & 1u64 == (y >> 30u64) & 1u64,
        (x >> 31u64) & 1u64 == (y >> 31u64) & 1u64,
        (x >> 32u64) & 1u64 == (y >> 32u64) & 1u64,
        (x >> 33u64) & 1u64 == (y >> 33u64) & 1u64,
        (x >> 34u64) & 1u64 == (y >> 34u64) & 1u64,
        (x >> 35u64) & 1u64 == (y >> 35u64) & 1u64,
        (x >> 36u64) & 1u64 == (y >> 36u64) & 1u64,
        (x >> 37u64) & 1u64 == (y >> 37u64) & 1u64,
        (x >> 38u64) & 1u64 == (y >> 38u64) & 1u64,
        (x >> 39u64) & 1u64 == (y >> 39u64) & 1u64,
        (x >> 40u64) & 1u64 == (y >> 40u64) & 1u64,
        (x >> 41u64) & 1u64 == (y >> 41u64) & 1u64,
        (x >> 42u64) & 1u64 == (y >> 42u64) & 1u64,
        (x >> 43u64) & 1u64 == (y >> 43u64) & 1u64,
        (x >> 44u64) & 1u64 == (y >> 44u64) & 1u64,
        (x >> 45u64) & 1u64 == (y >> 45u64) & 1u64,
        (x >> 46u64) & 1u64 == (y >> 46u64) & 1u64,
        (x >> 47u64) & 1u64 == (y >> 47u64) & 1u64,
        (x >> 48u64) & 1u64 == (y >> 48u64) & 1u64,
        (x >> 49u64) & 1u64 == (y >> 49u64) & 1u64,
        (x >> 50u64) & 1u64 == (y >> 50u64) & 1u64,
        (x >> 51u64) & 1u64 == (y >> 51u64) & 1u64,
        (x >> 52u64) & 1u64 == (y >> 52u64) & 1u64,
        (x >> 53u64) & 1u64 == (y >> 53u64) & 1u64,
        (x >> 54u64) & 1u64 == (y >> 54u64) & 1u64,
        (x >> 55u64) & 1u64 == (y >> 55u64) & 1u64,
        (x >> 56u64) & 1u64 == (y >> 56u64) & 1u64,
        (x >> 57u64) & 1u64 == (y >> 57u64) & 1u64,
        (x >> 58u64) & 1u64 == (y >> 58u64) & 1u64,
        (x >> 59u64) & 1u64 == (y >> 59u64) & 1u64,
        (x >> 60u64) & 1u64 == (y >> 60u64) & 1u64,
        (x >> 61u64) & 1u64 == (y >> 61u64) & 1u64,
        (x >> 62u64) & 1u64 == (y >> 62u64) & 1u64,
        (x >> 63u64) & 1u64 == (y >> 63u64) & 1u64,
    ensures
        x == y,
{
}

/// Two bitboards that agree on every square are equal.
pub proof fn lemma_bits_ext(x: u64, y: u64)
    requires
        forall|i: int| 0 <= i < 64 ==> has_bit(x, i) == has_bit(y, i),
    ensures
        x == y,
{
    assert forall|i: u64| i < 64 implies (x >> i) & 1u64 == (y >> i) & 1u64 by {
        assert(has_bit(x, i as int) == has_bit(y, i as int));
        assert(((x >> i) & 1u64 == 1u64 || (x >> i) & 1u64 == 0u64)
            && ((y >> i) & 1u64 == 1u64 || (y >> i) & 1u64 == 0u64)) by (bit_vector);
    }
    assert((x >> 0u64) & 1u64 == (y >> 0u64) & 1u64);assert((x >> 1u64) & 1u64 == (y >> 1u64) & 1u64);assert((x >> 2u64) & 1u64 == (y >> 2u64) & 1u64);assert((x >> 3u64) & 1u64 == (y >> 3u64) & 1u64);assert((x >> 4u64) & 1u64 == (y >> 4u64) & 1u64);assert((x >> 5u64) & 1u64 == (y >> 5u64) & 1u64);assert((x >> 6u64) & 1u64 == (y >> 6u64) & 1u64);assert((x >> 7u64) & 1u64 == (y >> 7u64) & 1u64);assert((x >> 8u64) & 1u64 == (y >> 8u64) & 1u64);assert((x >> 9u64) & 1u64 == (y >> 9u64) & 1u64);assert((x >> 10u64) & 1u64 == (y >> 10u64) & 1u64);assert((x >> 11u64) & 1u64 == (y >> 11u64) & 1u64);assert((x >> 12u64) & 1u64 == (y >> 12u64) & 1u64);assert((x >> 13u64) & 1u64 == (y >> 13u64) & 1u64);assert((x >> 14u64) & 1u64 == (y >> 14u64) & 1u64);assert((x >> 15u64) & 1u64 == (y >> 15u64) & 1u64);assert((x >> 16u64) & 1u64 == (y >> 16u64) & 1u64);assert((x >> 17u64) & 1u64 == (y >> 17u64) & 1u64);assert((x >> 18u64) & 1u64 == (y >> 18u64) & 1u64);assert((x >> 19u64) & 1u64 == (y >> 19u64) & 1u64);assert((x >> 20u64) & 1u64 == (y >> 20u64) & 1u64);assert((x >> 21u64) & 1u64 == (y >> 21u64) & 1u64);assert((x >> 22u64) & 1u64 == (y >> 22u64) & 1u64);assert((x >> 23u64) & 1u64 == (y >> 23u64) & 1u64);assert((x >> 24u64) & 1u64 == (y >> 24u64) & 1u64);assert((x >> 25u64) & 1u64 == (y >> 25u64) & 1u64);assert((x >> 26u64) & 1u64 == (y >> 26u64) & 1u64);assert((x >> 27u64) & 1u64 == (y >> 27u64) & 1u64);assert((x >> 28u64) & 1u64 == (y >> 28u64) & 1u64);assert((x >> 29u64) & 1u64 == (y >> 29u64) & 1u64);assert((x >> 30u64) & 1u64 == (y >> 30u64) & 1u64);assert((x >> 31u64) & 1u64 == (y >> 31u64) & 1u64);assert((x >> 32u64) & 1u64 == (y >> 32u64) & 1u64);assert((x >> 33u64) & 1u64 == (y >> 33u64) & 1u64);assert((x >> 34u64) & 1u64 == (y >> 34u64) & 1u64);assert((x >> 35u64) & 1u64 == (y >> 35u64) & 1u64);assert((x >> 36u64) & 1u64 == (y >> 36u64) & 1u64);assert((x >> 37u64) & 1u64 == (y >> 37u64) & 1u64);assert((x >> 38u64) & 1u64 == (y >> 38u64) & 1u64);assert((x >> 39u64) & 1u64 == (y >> 39u64) & 1u64);assert((x >> 40u64) & 1u64 == (y >> 40u64) & 1u64);assert((x >> 41u64) & 1u64 == (y >> 41u64) & 1u64);assert((x >> 42u64) & 1u64 == (y >> 42u64) & 1u64);assert((x >> 43u64) & 1u64 == (y >> 43u64) & 1u64);assert((x >> 44u64) & 1u64 == (y >> 44u64) & 1u64);assert((x >> 45u64) & 1u64 == (y >> 45u64) & 1u64);assert((x >> 46u64) & 1u64 == (y >> 46u64) & 1u64);assert((x >> 47u64) & 1u64 == (y >> 47u64) & 1u64);assert((x >> 48u64) & 1u64 == (y >> 48u64) & 1u64);assert((x >> 49u64) & 1u64 == (y >> 49u64) & 1u64);assert((x >> 50u64) & 1u64 == (y >> 50u64) & 1u64);assert((x >> 51u64) & 1u64 == (y >> 51u64) & 1u64);assert((x >> 52u64) & 1u64 == (y >> 52u64) & 1u64);assert((x >> 53u64) & 1u64 == (y >> 53u64) & 1u64);assert((x >> 54u64) & 1u64 == (y >> 54u64) & 1u64);assert((x >> 55u64) & 1u64 == (y >> 55u64) & 1u64);assert((x >> 56u64) & 1u64 == (y >> 56u64) & 1u64);assert((x >> 57u64) & 1u64 == (y >> 57u64) & 1u64);assert((x >> 58u64) & 1u64 == (y >> 58u64) & 1u64);assert((x >> 59u64) & 1u64 == (y >> 59u64) & 1u64);assert((x >> 60u64) & 1u64 == (y >> 60u64) & 1u64);assert((x >> 61u64) & 1u64 == (y >> 61u64) & 1u64);assert((x >> 62u64) & 1u64 == (y >> 62u64) & 1u64);assert((x >> 63u64) & 1u64 == (y >> 63u64) & 1u64);
    lemma_bits_ext_bv(x, y);
}

proof fn lemma_popcount_step(x: u64, k: u64)
    by (bit_vector)
    requires
        k < 64,
    ensures
        1 <= k ==> (x | (1u64 << k)) % 2 == x % 2,
        1 <= k ==> (x | (1u64 << k)) / 2 == (x / 2) | (1u64 << ((k - 1) as u64)),
        1 <= k ==> ((x / 2) >> ((k - 1) as u64)) & 1u64 == (x >> k) & 1u64,
        (x | 1u64) % 2 == 1,
        x % 2 == 0 ==> (x | 1u64) / 2 == x / 2,
        (x >> 0u64) & 1u64 == x % 2,
{
}

/// Setting a square that was clear adds one to the number of set squares.
pub proof fn lemma_popcount_set(x: u64, k: int)
    requires
        0 <= k < 64,
        !has_bit(x, k),
    ensures
        popcount(x | sq_bit(k)) == popcount(x) + 1,
    decreases k,
{
    lemma_popcount_step(x, k as u64);
    if k == 0 {
        assert(sq_bit(0) == 1u64) by (bit_vector);
        assert(x % 2 == 0);
        assert((x | 1u64) != 0);
        assert(popcount(x | 1u64) == 1 + popcount((x | 1u64) / 2));
        if x != 0 {
            assert(popcount(x) == popcount(x / 2));
        }
    } else {
        lemma_popcount_set(x / 2, k - 1);
        assert((x | sq_bit(k)) != 0) by {
            lemma_bit_ops(x, k as u64, k as u64, k as u64);
            lemma_bit_ops(0, k as u64, k as u64, k as u64);
        }
        if x == 0 {
            assert(x / 2 == 0);
        }
    }
}

/// What walking `bb` lowest square first produces, `f` giving the items for each square.
pub open spec fn walk<A>(bb: u64, f: spec_fn(u32) -> Seq<A>) -> Seq<A>
    decreases bb,
{
    if bb == 0 {
        Seq::empty()
    } else {
        proof {
            lemma_clear_lowest_smaller(bb);
        }
        f(u64_trailing_zeros(bb)) + walk(clear_lowest(bb), f)
    }
}

/// One step of a walk: the lowest square's items, then the rest.
pub proof fn lemma_walk_step<A>(bb: u64, f: spec_fn(u32) -> Seq<A>)
    requires
        bb != 0,
    ensures
        walk(bb, f) == f(u64_trailing_zeros(bb)) + walk(clear_lowest(bb), f),
{
    lemma_clear_lowest_smaller(bb);
}

/// Every item produced for a set square is among the items of the walk.
pub proof fn lemma_walk_contains<A>(bb: u64, f: spec_fn(u32) -> Seq<A>, t: u32, k: int)
    requires
        t < 64,
        has_bit(bb, t as int),
        0 <= k < f(t).len(),
    ensures
        walk(bb, f).contains(f(t)[k]),
    decreases bb,
{
    lemma_bit_ops(0, 0, 0, t as u64);
    lemma_lowest(bb);
    lemma_clear_lowest_smaller(bb);
    let t0 = u64_trailing_zeros(bb);
    let rest = clear_lowest(bb);
    let w = walk(bb, f);
    assert(w == f(t0) + walk(rest, f));
    if t == t0 {
        assert(w[k] == f(t)[k]);
    } else {
        lemma_walk_contains(rest, f, t, k);
        let j = choose|j: int| 0 <= j < walk(rest, f).len() && walk(rest, f)[j] == f(t)[k];
        assert(w[f(t0).len() + j] == f(t)[k]);
    }
}

/// A property of every item produced for every set square holds of every item of the walk.
pub proof fn lemma_walk_all<A>(bb: u64, f: spec_fn(u32) -> Seq<A>, p: spec_fn(A) -> bool)
    requires
        forall|t: u32, k: int|
            t < 64 && has_bit(bb, t as int) && 0 <= k < f(t).len() ==> p(#[trigger] f(t)[k]),
    ensures
        forall|k: int| 0 <= k < walk(bb, f).len() ==> p(#[trigger] walk(bb, f)[k]),
    decreases bb,
{
    if bb != 0 {
        lemma_lowest(bb);
        lemma_clear_lowest_smaller(bb);
        let t0 = u64_trailing_zeros(bb);
        let rest = clear_lowest(bb);
        lemma_walk_all(rest, f, p);
        let w = walk(bb, f);
        assert(w == f(t0) + walk(rest, f));
        assert forall|k: int| 0 <= k < w.len() implies p(#[trigger] w[k]) by {
            if k < f(t0).len() {
                assert(w[k] == f(t0)[k]);
            } else {
                assert(w[k] == walk(rest, f)[k - f(t0).len()]);
            }
        }
    }
}

/// Shifting a bitboard moves every square by `k`; squares pushed off the board are lost.
pub proof fn lemma_shift_bits(x: u64, k: u64, t: u64)
    by (bit_vector)
    requires
        k < 64,
        t < 64,
    ensures
        ((x << k) >> t) & 1u64 == 1u64 <==> (t >= k && ((x >> ((t - k) as u64)) & 1u64 == 1u64)),
        ((x >> k) >> t) & 1u64 == 1u64 <==> (t + k < 64 && ((x >> ((t + k) as u64)) & 1u64 == 1u64)),
{
}

/// The sum of `f` over the set squares of `bb`.
pub open spec fn sum_bits(bb: u64, f: spec_fn(u32) -> int) -> int
    decreases bb,
{
    if bb == 0 {
        0
    } else {
        proof {
            lemma_clear_lowest_smaller(bb);
        }
        f(u64_trailing_zeros(bb)) + sum_bits(clear_lowest(bb), f)
    }
}

/// A number below `2^n` has at most `n` set bits.
proof fn lemma_popcount_le(x: u64, n: nat)
    requires
        x < pow2(n),
    ensures
        popcount(x) <= n,
    decreases n,
{
    if x != 0 {
        if n == 0 {
            assert(pow2(0) == 1) by {
                vstd::arithmetic::power2::lemma2_to64();
            }
        } else {
            lemma_pow2_unfold(n);
            lemma_popcount_le(x / 2, (n - 1) as nat);
        }
    }
}

/// A bitboard has at most 64 set squares.
pub proof fn lemma_popcount_bound(x: u64)
    ensures
        popcount(x) <= 64,
{
    lemma2_to64_rest();
    lemma_popcount_le(x, 64);
}

/// The a-file shifted to file `f` holds exactly the squares of file `f`.
pub proof fn lemma_file_mask(f: u64, x: u64)
    by (bit_vector)
    requires
        f < 8,
        x < 64,
    ensures
        ((0x0101_0101_0101_0101u64 << f) >> x) & 1u64 == 1u64 <==> x % 8 == f,
{
}

/// The first rank shifted up by `s` squares (a whole number of ranks) holds exactly the
/// squares of that rank.
pub proof fn lemma_rank_mask(s: u64, x: u64)
    by (bit_vector)
    requires
        s < 64,
        s % 8 == 0,
        x < 64,
    ensures
        ((0xFFu64 << s) >> x) & 1u64 == 1u64 <==> x / 8 == s / 8,
{
}

/// Two bitboards share no square exactly when their intersection is empty.
pub proof fn lemma_and_zero(a: u64, b: u64)
    ensures
        a & b == 0 ==> forall|x: int| 0 <= x < 64 && #[trigger] has_bit(a, x) ==> !has_bit(b, x),
        a & b != 0 ==> exists|x: int| 0 <= x < 64 && #[trigger] has_bit(a, x) && has_bit(b, x),
{
    assert forall|x: int| 0 <= x < 64 implies (has_bit(a & b, x) <==> (has_bit(a, x) && has_bit(b, x)))
        && !has_bit(0u64, x) by {
        lemma_bit_logic(a, b, x as u64);
        lemma_bit_ops(0, 0, 0, x as u64);
    }
    if forall|x: int| 0 <= x < 64 && #[trigger] has_bit(a, x) ==> !has_bit(b, x) {
        assert forall|x: int| 0 <= x < 64 implies has_bit(a & b, x) == has_bit(0u64, x) by {}
        lemma_bits_ext(a & b, 0);
    }
}

/// Clearing the lowest set square of a non-empty bitboard takes one square off the count.
pub proof fn lemma_popcount_clear_lowest(bb: u64)
    requires
        bb != 0,
    ensures
        popcount(bb) == popcount(clear_lowest(bb)) + 1,
{
    lemma_lowest(bb);
    let t = u64_trailing_zeros(bb) as int;
    let rest = clear_lowest(bb);
    assert forall|i: int| 0 <= i < 64 implies has_bit(rest | sq_bit(t), i) == has_bit(bb, i) by {
        lemma_bit_ops(rest, t as u64, t as u64, i as u64);
    }
    lemma_bits_ext(rest | sq_bit(t), bb);
    assert(!has_bit(rest, t));
    lemma_popcount_set(rest, t);
}

/// The number of set bits of `x`, one set bit cleared at a time.
pub(crate) fn count_ones(x: u64) -> (r: u32)
    ensures
        r as nat == popcount(x),
{
    let mut rest = x;
    let mut n: u32 = 0;
    proof {
        lemma_popcount_bound(x);
    }
    while rest != 0
        invariant
            n + popcount(rest) == popcount(x),
            popcount(x) <= 64,
        decreases rest,
    {
        proof {
            lemma_popcount_clear_lowest(rest);
            lemma_clear_lowest_smaller(rest);
        }
        rest = rest & (rest - 1);
        n = n + 1;
    }
    n
}

} // verus!
