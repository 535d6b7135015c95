# chess_engine

A bitboard chess engine whose logic is verified with Verus: board representation with
incremental Zobrist keys and evaluation, magic-bitboard slider attacks, pseudo-legal and
tactical move generation, static exchange evaluation, a transposition table, an
alpha-beta search with quiescence, perft, and the reading of UCI commands.

## Layout

- `src/` — the verified library.
  - `bits.rs` — bit-level helpers and lemmas (set bits, walks over a bitboard).
  - `movedata.rs` — the packed `Move`.
  - `constants.rs` — masks, piece values, piece-square tables, knight and king attacks.
  - `zobrist.rs` — the hashing keys.
  - `board.rs` — `Board` and its view; making and unmaking moves and null moves.
  - `board_laws.rs` — what making and unmaking keep: consistency, the incremental key and
    evaluation, and that unmaking restores the board.
  - `magics.rs` — relevant-occupancy masks, ray-cast attacks and the magic tables.
  - `movegenerator.rs` — move lists and their ordering, move generation, attacks, legality,
    static exchange evaluation.
  - `movegen_laws.rs` — soundness and completeness of the generators.
  - `evaluation.rs` — the static evaluation and its colour symmetry.
  - `transposition.rs` — the transposition table.
  - `search.rs` — iterative deepening, the root search, alpha-beta and the quiescence search.
  - `search_value.rs` — what the searches compute when the clock does not stop them: the
    score and the tables (transposition entries, killers, history) each node leaves.
  - `perft.rs` — move notation, perft and perft divide.
  - `uci.rs` — reading command words and move names, and playing named moves.
- `tests/` — tests of the library on concrete positions and commands.
- `app/` — the program around it: the UCI loop on standard input and output, the
  WebAssembly bridge, clock management and perft reporting.
