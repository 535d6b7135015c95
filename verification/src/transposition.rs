use vstd::prelude::*;
use crate::movedata::Move;

verus! {

// The Node Flags
#[derive(Copy, Clone, PartialEq, Eq, Structural, Debug)]
pub enum NodeType {
    Exact,
    Alpha,
    Beta,
}

// The Memory Slot
#[derive(Copy, Clone, PartialEq, Eq, Structural, Debug)]
pub struct TTEntry {
    pub zobrist_key: u64,
    pub depth: u8,
    pub score: i32,
    pub node_type: NodeType,
    pub best_move: Move,
}

/// The slot a key hashes to: its low bits.
pub open spec fn slot_of(key: u64, size_mask: usize) -> int {
    ((key as usize) & size_mask) as int
}

/// The entry a store writes.
pub open spec fn new_entry(key: u64, depth: u8, score: i32, node_type: NodeType, best_move: Move) -> TTEntry {
    TTEntry { zobrist_key: key, depth, score, node_type, best_move }
}

/// A store replaces the slot's entry when it belongs to another position or was searched no
/// deeper.
pub open spec fn replaces(current: TTEntry, key: u64, depth: u8) -> bool {
    current.zobrist_key != key || depth >= current.depth
}

// The Table
pub struct TranspositionTable {
    table: Vec<TTEntry>,
    size_mask: usize,
}

impl View for TranspositionTable {
    type V = Seq<TTEntry>;

    closed spec fn view(&self) -> Seq<TTEntry> {
        self.table@
    }
}

proof fn lemma_mask_below(x: usize, m: usize)
    by (bit_vector)
    ensures
        x & m <= m,
{
}

impl TranspositionTable {
    /// The mask that picks a key's slot.
    pub closed spec fn mask(&self) -> usize {
        self.size_mask
    }

    /// The table has `mask + 1` slots.
    pub open spec fn wf(&self) -> bool {
        self@.len() == self.mask() + 1
    }

    /// The entry in the slot of `key`.
    pub open spec fn slot_entry(&self, key: u64) -> TTEntry {
        self@[slot_of(key, self.mask())]
    }

    pub fn new(num_entries: usize) -> (r: Self)
        requires
            num_entries > 0,
        ensures
            r.wf(),
            r@.len() == num_entries,
            r.mask() == num_entries - 1,
            forall|i: int|
                0 <= i < num_entries ==> #[trigger] r@[i] == new_entry(
                    0,
                    0,
                    0,
                    NodeType::Exact,
                    Move::spec_new(0, 0, 0, 0, 0),
                ),
    {
        let empty = TTEntry {
            zobrist_key: 0,
            depth: 0,
            score: 0,
            node_type: NodeType::Exact,
            best_move: Move::new(0, 0, 0, 0, 0),
        };
        let mut table: Vec<TTEntry> = Vec::new();
        let mut i: usize = 0;
        while i < num_entries
            invariant
                i <= num_entries,
                table@.len() == i,
                forall|k: int| 0 <= k < i ==> #[trigger] table@[k] == empty,
            decreases num_entries - i,
        {
            table.push(empty);
            i += 1;
        }
        TranspositionTable { table, size_mask: num_entries - 1 }
    }

    pub fn store(&mut self, key: u64, depth: u8, score: i32, node_type: NodeType, best_move: Move)
        requires
            old(self).wf(),
        ensures
            final(self).wf(),
            final(self).mask() == old(self).mask(),
            final(self)@ == if replaces(old(self).slot_entry(key), key, depth) {
                old(self)@.update(slot_of(key, old(self).mask()), new_entry(key, depth, score, node_type, best_move))
            } else {
                old(self)@
            },
    {
        let index = (key as usize) & self.size_mask;
        proof {
            lemma_mask_below(key as usize, self.size_mask);
        }
        let current_entry = self.table[index];
        if current_entry.zobrist_key != key || depth >= current_entry.depth {
            self.table.set(index, TTEntry { zobrist_key: key, depth, score, node_type, best_move });
        }
    }

    pub fn probe(&self, key: u64) -> (r: Option<TTEntry>)
        requires
            self.wf(),
        ensures
            r == if self.slot_entry(key).zobrist_key == key {
                Some(self.slot_entry(key))
            } else {
                None::<TTEntry>
            },
    {
        let index = (key as usize) & self.size_mask;
        proof {
            lemma_mask_below(key as usize, self.size_mask);
        }
        let entry = self.table[index];
        if entry.zobrist_key == key {
            Some(entry)
        } else {
            None
        }
    }
}

/// A probe right after a store of the same key finds an entry for that key: the stored one
/// when the store replaced the slot, otherwise the deeper entry already there.
pub proof fn lemma_probe_after_store(
    before: TranspositionTable,
    after: TranspositionTable,
    key: u64,
    depth: u8,
    score: i32,
    node_type: NodeType,
    best_move: Move,
)
    requires
        before.wf(),
        after.mask() == before.mask(),
        after@ == if replaces(before.slot_entry(key), key, depth) {
            before@.update(slot_of(key, before.mask()), new_entry(key, depth, score, node_type, best_move))
        } else {
            before@
        },
    ensures
        after.wf(),
        after.slot_entry(key).zobrist_key == key,
        replaces(before.slot_entry(key), key, depth) ==> after.slot_entry(key) == new_entry(
            key,
            depth,
            score,
            node_type,
            best_move,
        ),
        !replaces(before.slot_entry(key), key, depth) ==> after.slot_entry(key) == before.slot_entry(key)
            && after.slot_entry(key).depth > depth,
{
    lemma_mask_below(key as usize, before.mask());
}

/// A store touches only the slot of its key: the entry of any key hashing elsewhere is
/// unchanged.
pub proof fn lemma_store_frame(
    before: TranspositionTable,
    after: TranspositionTable,
    key: u64,
    other: u64,
    depth: u8,
    score: i32,
    node_type: NodeType,
    best_move: Move,
)
    requires
        before.wf(),
        after.mask() == before.mask(),
        after@ == if replaces(before.slot_entry(key), key, depth) {
            before@.update(slot_of(key, before.mask()), new_entry(key, depth, score, node_type, best_move))
        } else {
            before@
        },
        slot_of(other, before.mask()) != slot_of(key, before.mask()),
    ensures
        after.slot_entry(other) == before.slot_entry(other),
{
    lemma_mask_below(other as usize, before.mask());
    lemma_mask_below(key as usize, before.mask());
}

} // verus!
