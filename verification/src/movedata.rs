use vstd::prelude::*;

verus! {

/// A chess move packed into 32 bits: start square (bits 0..6), target square (bits 6..12),
/// flags (bits 12..16), moving piece (bits 16..20) and captured piece (bits 20..24).
#[derive(Clone, Copy, PartialEq, Eq, Structural, Debug)]
pub struct Move {
    data: u32,
}

/// The packed word that `Move::new` builds from its five fields.
pub open spec fn pack_spec(start: u32, target: u32, flags: u32, piece: u32, captured_piece: u32) -> u32 {
    start | (target << 6u32) | (flags << 12u32) | (piece << 16u32) | (captured_piece << 20u32)
}

/// Unpacking what was packed gives the fields back, when each fits its slot.
pub proof fn lemma_pack_unpack(start: u32, target: u32, flags: u32, piece: u32, captured_piece: u32)
    by (bit_vector)
    requires
        start < 64,
        target < 64,
        flags < 16,
        piece < 16,
        captured_piece < 16,
    ensures
        pack_spec(start, target, flags, piece, captured_piece) & 0x3Fu32 == start,
        (pack_spec(start, target, flags, piece, captured_piece) >> 6u32) & 0x3Fu32 == target,
        (pack_spec(start, target, flags, piece, captured_piece) >> 12u32) & 0xFu32 == flags,
        (pack_spec(start, target, flags, piece, captured_piece) >> 16u32) & 0xFu32 == piece,
        (pack_spec(start, target, flags, piece, captured_piece) >> 20u32) & 0xFu32 == captured_piece,
{
}

/// Fields of a packed word always fit their slots.
pub proof fn lemma_unpack_bounds(data: u32)
    by (bit_vector)
    ensures
        data & 0x3Fu32 < 64,
        (data >> 6u32) & 0x3Fu32 < 64,
        (data >> 12u32) & 0xFu32 < 16,
        (data >> 16u32) & 0xFu32 < 16,
        (data >> 20u32) & 0xFu32 < 16,
{
}

impl Move {
    /// The packed word.
    pub closed spec fn packed(self) -> u32 {
        self.data
    }

    /// The move `Move::new` builds from these fields.
    pub closed spec fn spec_new(start: u32, target: u32, flags: u32, piece: u32, captured_piece: u32) -> Move {
        Move { data: pack_spec(start, target, flags, piece, captured_piece) }
    }

    pub proof fn lemma_spec_new(start: u32, target: u32, flags: u32, piece: u32, captured_piece: u32)
        ensures
            Move::spec_new(start, target, flags, piece, captured_piece).packed() == pack_spec(
                start,
                target,
                flags,
                piece,
                captured_piece,
            ),
            start < 64 && target < 64 && flags < 16 && piece < 16 && captured_piece < 16 ==> {
                let m = Move::spec_new(start, target, flags, piece, captured_piece);
                &&& m.start() == start
                &&& m.target() == target
                &&& m.flags() == flags
                &&& m.piece() == piece
                &&& m.captured() == captured_piece
            },
    {
        if start < 64 && target < 64 && flags < 16 && piece < 16 && captured_piece < 16 {
            lemma_pack_unpack(start, target, flags, piece, captured_piece);
        }
    }

    pub open spec fn start(self) -> u32 {
        self.packed() & 0x3Fu32
    }

    pub open spec fn target(self) -> u32 {
        (self.packed() >> 6u32) & 0x3Fu32
    }

    pub open spec fn flags(self) -> u32 {
        (self.packed() >> 12u32) & 0xFu32
    }

    pub open spec fn piece(self) -> u32 {
        (self.packed() >> 16u32) & 0xFu32
    }

    pub open spec fn captured(self) -> u32 {
        (self.packed() >> 20u32) & 0xFu32
    }

    /// Two moves are the same move exactly when their packed words agree.
    pub proof fn lemma_packed_eq(m1: Move, m2: Move)
        ensures
            (m1 == m2) <==> (m1.packed() == m2.packed()),
    {
    }

    /// Every packed word field fits its slot.
    pub proof fn lemma_fields_bounded(self)
        ensures
            self.start() < 64,
            self.target() < 64,
            self.flags() < 16,
            self.piece() < 16,
            self.captured() < 16,
    {
        lemma_unpack_bounds(self.data);
    }

    pub fn new(start: u32, target: u32, flags: u32, piece: u32, captured_piece: u32) -> (m: Self)
        ensures
            m == Move::spec_new(start, target, flags, piece, captured_piece),
            m.packed() == pack_spec(start, target, flags, piece, captured_piece),
            start < 64 && target < 64 && flags < 16 && piece < 16 && captured_piece < 16 ==> {
                &&& m.start() == start
                &&& m.target() == target
                &&& m.flags() == flags
                &&& m.piece() == piece
                &&& m.captured() == captured_piece
            },
    {
        let m = Move {
            data: start | (target << 6) | (flags << 12) | (piece << 16) | (captured_piece << 20),
        };
        proof {
            if start < 64 && target < 64 && flags < 16 && piece < 16 && captured_piece < 16 {
                lemma_pack_unpack(start, target, flags, piece, captured_piece);
            }
        }
        m
    }

    pub fn get_start(&self) -> (r: u32)
        ensures
            r == self.start(),
            r < 64,
    {
        proof {
            lemma_unpack_bounds(self.data);
        }
        self.data & 0x3F
    }

    pub fn get_target(&self) -> (r: u32)
        ensures
            r == self.target(),
            r < 64,
    {
        proof {
            lemma_unpack_bounds(self.data);
        }
        (self.data >> 6) & 0x3F
    }

    pub fn get_flags(&self) -> (r: u32)
        ensures
            r == self.flags(),
            r < 16,
    {
        proof {
            lemma_unpack_bounds(self.data);
        }
        (self.data >> 12) & 0xF
    }

    pub fn get_piece(&self) -> (r: usize)
        ensures
            r == self.piece(),
            r < 16,
    {
        proof {
            lemma_unpack_bounds(self.data);
        }
        ((self.data >> 16) & 0xF) as usize
    }

    pub fn get_captured_piece(&self) -> (r: usize)
        ensures
            r == self.captured(),
            r < 16,
    {
        proof {
            lemma_unpack_bounds(self.data);
        }
        ((self.data >> 20) & 0xF) as usize
    }
}

} // verus!
