use vstd::prelude::*;
use vstd::array::spec_array_update;
use crate::board::{
    BoardView, make_move_spec, make_null_move_spec, KNIGHTS, BISHOPS, ROOKS, QUEENS, EMPTY_SQUARE,
    FLAG_PROMOTE_QUEEN, FLAG_PROMOTE_KNIGHT,
};
use crate::magics::MagicBitBoards;
use crate::movedata::Move;
use crate::movegenerator::{pseudo_legal_moves, move_score};
use crate::perft::is_legal;
use crate::search::{in_check_spec, quiescence_value, quiescence_nodes, score_order, MIN_SCORE, MAX_SCORE};
use crate::transposition::{TTEntry, NodeType, slot_of, replaces, new_entry};
use crate::zobrist::Zobrist;

verus! {

// ---------------------------------------------------------------------------------------------
// The tables a search carries from node to node
// ---------------------------------------------------------------------------------------------
/// The transposition table's entries, the killer moves, the history scores and the number
/// of nodes visited.
pub type SearchTables = (Seq<TTEntry>, [[Move; 100]; 2], [[i32; 64]; 12], int);

/// The table entry for `key`, when its slot holds it.
pub open spec fn tt_lookup(t: Seq<TTEntry>, key: u64) -> Option<TTEntry> {
    let e = t[slot_of(key, (t.len() - 1) as usize)];
    if e.zobrist_key == key {
        Some(e)
    } else {
        None
    }
}

/// The table after storing an entry for `key`: the slot is overwritten unless it holds a
/// deeper result for the same key.
pub open spec fn tt_insert(t: Seq<TTEntry>, key: u64, depth: u8, score: i32, node_type: NodeType, m: Move) -> Seq<TTEntry> {
    let slot = slot_of(key, (t.len() - 1) as usize);
    if replaces(t[slot], key, depth) {
        t.update(slot, new_entry(key, depth, score, node_type, m))
    } else {
        t
    }
}

/// A mate score read from the table, made relative to the root again at `ply`.
pub open spec fn tt_score_at(score: i32, ply: int) -> i32 {
    let s = if score > 40000 {
        score.wrapping_sub(ply as i32)
    } else {
        score
    };
    if s < -40000 {
        s.wrapping_add(ply as i32)
    } else {
        s
    }
}

/// A mate score stored in the table, made relative to the node at `ply`.
pub open spec fn tt_score_from(score: i32, ply: int) -> i32 {
    let s = if score > 40000 {
        score.wrapping_add(ply as i32)
    } else {
        score
    };
    if s < -40000 {
        s.wrapping_sub(ply as i32)
    } else {
        s
    }
}

/// The score an entry settles the node with: an exact score, an upper bound at or below
/// alpha, or a lower bound at or above beta, from a search at least as deep.
pub open spec fn tt_cutoff(e: TTEntry, depth: u8, alpha: i32, beta: i32, ply: int) -> Option<i32> {
    let s = tt_score_at(e.score, ply);
    if e.depth < depth {
        None
    } else {
        match e.node_type {
            NodeType::Exact => Some(s),
            NodeType::Alpha => if s <= alpha {
                Some(s)
            } else {
                None
            },
            NodeType::Beta => if s >= beta {
                Some(s)
            } else {
                None
            },
        }
    }
}

/// The move an entry suggests, when it names one.
pub open spec fn suggested_move(e: Option<TTEntry>) -> Option<Move> {
    match e {
        Some(entry) => if entry.best_move.start() != 0 || entry.best_move.target() != 0 {
            Some(entry.best_move)
        } else {
            None
        },
        None => None,
    }
}

/// A killer slot as an option: empty when it holds the all-zero move.
pub open spec fn killer_slot(k: Move) -> Option<Move> {
    if k.start() != 0 || k.target() != 0 {
        Some(k)
    } else {
        None
    }
}

/// The tables after a quiet move `m` caused a cutoff at `depth`: it becomes the first
/// killer (the old first moving to second) and its history score grows by `depth` squared.
#[verifier::opaque]
pub open spec fn record_cutoff(st: SearchTables, depth: int, m: Move, white_to_move: bool) -> SearchTables {
    let k = st.1;
    let killers = spec_array_update(
        spec_array_update(k, 1, spec_array_update(k[1], depth, k[0][depth])),
        0,
        spec_array_update(k[0], depth, m),
    );
    let piece = ((m.piece() as int + if white_to_move {
        0int
    } else {
        6int
    }) % 12) as int;
    let target = m.target() as int;
    let h = st.2;
    let history = spec_array_update(
        h,
        piece,
        spec_array_update(h[piece], target, h[piece][target].wrapping_add((depth * depth) as i32)),
    );
    (st.0, killers, history, st.3)
}

/// The side to move has a knight, bishop, rook or queen.
pub open spec fn has_piece_material(v: BoardView) -> bool {
    (v.bitboards[ROOKS as int] | v.bitboards[KNIGHTS as int] | v.bitboards[BISHOPS as int] | v.bitboards[QUEENS as int])
        & v.bitboards[v.own_color()] != 0
}

/// A move that neither captures nor promotes.
pub open spec fn is_quiet_move(m: Move) -> bool {
    m.captured() == EMPTY_SQUARE && !(FLAG_PROMOTE_QUEEN <= m.flags() && m.flags() <= FLAG_PROMOTE_KNIGHT)
}

/// The move leaves the opponent in check.
#[verifier::opaque]
pub open spec fn move_gives_check(v: BoardView, mb: MagicBitBoards, z: Zobrist, m: Move) -> bool {
    in_check_spec(make_move_spec(v, m, z), mb)
}

/// The depth of the reply search: one ply less, one more for a checking move near the root.
pub open spec fn reply_depth(depth: u8, gives_check: bool, ply: int) -> u8 {
    (depth - 1 + if gives_check && ply < 20 {
        1int
    } else {
        0int
    }) as u8
}

/// A quiet move, made out of check, not checking and not a killer, may be searched a ply
/// shallower when it comes late.
pub open spec fn late_move_ok(m: Move, in_check: bool, gives_check: bool, k1: Move, k2: Move) -> bool {
    is_quiet_move(m) && !in_check && !gives_check && !(m == k1 || m == k2)
}

/// What the tables become after a move's reply searches raised alpha to beta: a quiet move
/// that is not already the first killer is recorded.
#[verifier::opaque]
pub open spec fn after_cutoff(st: SearchTables, depth: u8, m: Move, white_to_move: bool) -> SearchTables {
    if is_quiet_move(m) && m != st.1[0][depth as int] {
        record_cutoff(st, depth as int, m, white_to_move)
    } else {
        st
    }
}

// ---------------------------------------------------------------------------------------------
// The alpha-beta search's value
// ---------------------------------------------------------------------------------------------
/// The score and tables the alpha-beta search leaves at `ply` (this node counted), `depth` plies deep in the
/// window (`alpha`, `beta`), when the clock does not stop it: the quiescence value at depth
/// 0; a draw for a repetition or the fifty-move rule below the root; a table cutoff; then a
/// null-move search that can cut off at beta; then the moves.
#[verifier::opaque]
pub open spec fn minimax_value(
    v: BoardView,
    mb: MagicBitBoards,
    z: Zobrist,
    st: SearchTables,
    depth: u8,
    alpha: i32,
    beta: i32,
    allow_null: bool,
    ply: int,
) -> (i32, SearchTables)
    decreases 255 - ply, 3int, 0int,
{
    let st = (st.0, st.1, st.2, st.3 + 1);
    if depth == 0 {
        (quiescence_value(v, mb, z, st.2, alpha, beta, ply), (st.0, st.1, st.2, st.3 + quiescence_nodes(v, mb, z, st.2, alpha, beta, ply)))
    } else if ply > 0 && (v.repeated() || v.halfmove_clock >= 100) {
        (0, st)
    } else {
        let entry = tt_lookup(st.0, v.zobrist_key);
        let cut = match entry {
            Some(e) => tt_cutoff(e, depth, alpha, beta, ply),
            None => None,
        };
        if cut is Some {
            (cut->0, st)
        } else {
            let tt_move = suggested_move(entry);
            let in_check = in_check_spec(v, mb);
            if allow_null && depth >= 3 && has_piece_material(v) && !in_check && ply < 255 {
                let reply = minimax_value(
                    make_null_move_spec(v, z),
                    mb,
                    z,
                    st,
                    (depth - 3) as u8,
                    0i32.wrapping_sub(beta),
                    0i32.wrapping_sub(beta).wrapping_add(1),
                    false,
                    ply + 1,
                );
                if 0i32.wrapping_sub(reply.0) >= beta {
                    (beta, reply.1)
                } else {
                    minimax_moves(v, mb, z, reply.1, depth, alpha, beta, ply, tt_move, in_check)
                }
            } else {
                minimax_moves(v, mb, z, st, depth, alpha, beta, ply, tt_move, in_check)
            }
        }
    }
}

/// The ordering scores of the moves at a node.
pub open spec fn node_scores(v: BoardView, moves: Seq<Move>, tt_move: Option<Move>, k1: Move, k2: Move, h: [[i32; 64]; 12]) -> Seq<i32> {
    Seq::new(
        moves.len(),
        |k: int| move_score(v.white_to_move, moves[k], tt_move, killer_slot(k1), killer_slot(k2), h) as i32,
    )
}

/// The move loop of a node, the moves taken in score order.
#[verifier::opaque]
pub open spec fn minimax_moves(
    v: BoardView,
    mb: MagicBitBoards,
    z: Zobrist,
    st: SearchTables,
    depth: u8,
    alpha: i32,
    beta: i32,
    ply: int,
    tt_move: Option<Move>,
    in_check: bool,
) -> (i32, SearchTables)
    decreases 255 - ply, 2int, 0int,
{
    let k1 = st.1[0][depth as int];
    let k2 = st.1[1][depth as int];
    let moves = pseudo_legal_moves(v, mb);
    let order = score_order(node_scores(v, moves, tt_move, k1, k2, st.2));
    minimax_loop(v, mb, z, depth, alpha, beta, ply, in_check, k1, k2, moves, order, 0, alpha, MIN_SCORE, Move::spec_new(0, 0, 0, 0, 0), 0, st)
}

/// The node's result once its moves are done: mate or stalemate without a legal move, else
/// the best score, stored in the table as exact, an upper bound or a lower bound.
#[verifier::opaque]
pub open spec fn minimax_finish(
    v: BoardView,
    depth: u8,
    original_alpha: i32,
    beta: i32,
    ply: int,
    in_check: bool,
    best_score: i32,
    best_move: Move,
    legal: int,
    st: SearchTables,
) -> (i32, SearchTables) {
    if legal == 0 {
        (if in_check {
            (-49000 + ply) as i32
        } else {
            0i32
        }, st)
    } else {
        let node_type = if best_score <= original_alpha {
            NodeType::Alpha
        } else if best_score >= beta {
            NodeType::Beta
        } else {
            NodeType::Exact
        };
        (best_score, (tt_insert(st.0, v.zobrist_key, depth, tt_score_from(best_score, ply), node_type, best_move), st.1, st.2, st.3))
    }
}

/// The node's move loop from the `i`-th move in `order` on.
#[verifier::opaque]
pub open spec fn minimax_loop(
    v: BoardView,
    mb: MagicBitBoards,
    z: Zobrist,
    depth: u8,
    original_alpha: i32,
    beta: i32,
    ply: int,
    in_check: bool,
    k1: Move,
    k2: Move,
    moves: Seq<Move>,
    order: Seq<usize>,
    i: int,
    alpha: i32,
    best_score: i32,
    best_move: Move,
    legal: int,
    st: SearchTables,
) -> (i32, SearchTables)
    decreases 255 - ply, 1int, moves.len() - i,
{
    if i < 0 || i >= moves.len() || ply >= 255 {
        minimax_finish(v, depth, original_alpha, beta, ply, in_check, best_score, best_move, legal, st)
    } else {
        let s = minimax_step(v, mb, z, depth, beta, ply, in_check, k1, k2, moves[order[i] as int], alpha, best_score, best_move, legal, st);
        if s.0 {
            minimax_finish(v, depth, original_alpha, beta, ply, in_check, s.2, s.3, s.4, s.5)
        } else {
            minimax_loop(v, mb, z, depth, original_alpha, beta, ply, in_check, k1, k2, moves, order, i + 1, s.1, s.2, s.3, s.4, s.5)
        }
    }
}

/// One move of a node's loop: a move that leaves the mover's king attacked changes nothing;
/// a legal one is searched, its score raises the best score and alpha, and reaching beta
/// ends the loop. The result says whether the loop ends, then gives alpha, the best score
/// and move, the number of legal moves searched and the tables.
#[verifier::opaque]
pub open spec fn minimax_step(
    v: BoardView,
    mb: MagicBitBoards,
    z: Zobrist,
    depth: u8,
    beta: i32,
    ply: int,
    in_check: bool,
    k1: Move,
    k2: Move,
    m: Move,
    alpha: i32,
    best_score: i32,
    best_move: Move,
    legal: int,
    st: SearchTables,
) -> (bool, i32, i32, Move, int, SearchTables)
    decreases 255 - ply - 1, 5int, 0int,
{
    if ply >= 255 || ply < 0 {
        (true, alpha, best_score, best_move, legal, st)
    } else if !is_legal(v, mb, z, m) {
        (false, alpha, best_score, best_move, legal, st)
    } else {
        let gives_check = move_gives_check(v, mb, z, m);
        let child = minimax_child(
            make_move_spec(v, m, z),
            mb,
            z,
            st,
            reply_depth(depth, gives_check, ply),
            alpha,
            beta,
            ply,
            legal + 1,
            late_move_ok(m, in_check, gives_check, k1, k2),
        );
        let score = child.0;
        let best_score1 = if score > best_score {
            score
        } else {
            best_score
        };
        let best_move1 = if score > best_score {
            m
        } else {
            best_move
        };
        let alpha1 = if score > alpha {
            score
        } else {
            alpha
        };
        if alpha1 >= beta {
            (true, alpha1, best_score1, best_move1, legal + 1, after_cutoff(child.1, depth, m, v.white_to_move))
        } else {
            (false, alpha1, best_score1, best_move1, legal + 1, child.1)
        }
    }
}

/// The score of the `n`-th legal move of a node at `ply`, reaching position `c`: the first
/// gets a full window; the others a null window, first one ply shallower when a late quiet
/// move allows it, with a full-window search again when the null window fails high inside
/// (alpha, beta).
#[verifier::opaque]
pub open spec fn minimax_child(
    c: BoardView,
    mb: MagicBitBoards,
    z: Zobrist,
    st: SearchTables,
    new_depth: u8,
    alpha: i32,
    beta: i32,
    ply: int,
    n: int,
    lmr_ok: bool,
) -> (i32, SearchTables)
    decreases 255 - ply - 1, 4int, 0int,
{
    if ply >= 255 || ply < 0 {
        (0, st)
    } else if n == 1 {
        let r = minimax_value(c, mb, z, st, new_depth, 0i32.wrapping_sub(beta), 0i32.wrapping_sub(alpha), true, ply + 1);
        (0i32.wrapping_sub(r.0), r.1)
    } else {
        let reduce = new_depth >= 3 && n >= 4 && lmr_ok;
        let reduced = if reduce {
            let r = minimax_value(
                c,
                mb,
                z,
                st,
                (new_depth - 1) as u8,
                0i32.wrapping_sub(alpha).wrapping_sub(1),
                0i32.wrapping_sub(alpha),
                true,
                ply + 1,
            );
            (0i32.wrapping_sub(r.0), r.1)
        } else {
            (0i32, st)
        };
        if reduce && reduced.0 <= alpha {
            reduced
        } else {
            let r = minimax_value(
                c,
                mb,
                z,
                reduced.1,
                new_depth,
                0i32.wrapping_sub(alpha).wrapping_sub(1),
                0i32.wrapping_sub(alpha),
                true,
                ply + 1,
            );
            let s = 0i32.wrapping_sub(r.0);
            if s > alpha && s < beta {
                let r2 = minimax_value(c, mb, z, r.1, new_depth, 0i32.wrapping_sub(beta), 0i32.wrapping_sub(alpha), true, ply + 1);
                (0i32.wrapping_sub(r2.0), r2.1)
            } else {
                (s, r.1)
            }
        }
    }
}

// ---------------------------------------------------------------------------------------------
// The root search's result
// ---------------------------------------------------------------------------------------------
/// The score of the `n`-th legal root move, reaching position `c`: the first with the full
/// window, the others with a null window, searched again with the full window when they
/// beat alpha.
pub open spec fn root_child(c: BoardView, mb: MagicBitBoards, z: Zobrist, st: SearchTables, depth: u8, alpha: i32, n: int) -> (i32, SearchTables) {
    if n == 1 {
        let r = minimax_value(c, mb, z, st, (depth - 1) as u8, 0i32.wrapping_sub(MAX_SCORE), 0i32.wrapping_sub(alpha), true, 1);
        (0i32.wrapping_sub(r.0), r.1)
    } else {
        let r = minimax_value(
            c,
            mb,
            z,
            st,
            (depth - 1) as u8,
            0i32.wrapping_sub(alpha).wrapping_sub(1),
            0i32.wrapping_sub(alpha),
            true,
            1,
        );
        let s = 0i32.wrapping_sub(r.0);
        if s > alpha {
            let r2 = minimax_value(c, mb, z, r.1, (depth - 1) as u8, 0i32.wrapping_sub(MAX_SCORE), 0i32.wrapping_sub(alpha), true, 1);
            (0i32.wrapping_sub(r2.0), r2.1)
        } else {
            (s, r.1)
        }
    }
}

/// One root move: a move that leaves the mover's king attacked changes nothing; the first
/// legal move becomes the best move; a legal move whose score beats the best score takes
/// its place, and alpha rises with the scores. The result gives alpha, the best score and
/// move, the number of legal moves and the tables.
#[verifier::opaque]
pub open spec fn root_step(
    v: BoardView,
    mb: MagicBitBoards,
    z: Zobrist,
    depth: u8,
    m: Move,
    alpha: i32,
    best_score: i32,
    best_move: Move,
    legal: int,
    st: SearchTables,
) -> (i32, i32, Move, int, SearchTables) {
    if !is_legal(v, mb, z, m) {
        (alpha, best_score, best_move, legal, st)
    } else {
        let first = legal == 0;
        let best_score0 = if first {
            MIN_SCORE
        } else {
            best_score
        };
        let best_move0 = if first {
            m
        } else {
            best_move
        };
        let child = root_child(make_move_spec(v, m, z), mb, z, st, depth, alpha, legal + 1);
        let score = child.0;
        (if score > alpha {
            score
        } else {
            alpha
        }, if score > best_score0 {
            score
        } else {
            best_score0
        }, if score > best_score0 {
            m
        } else {
            best_move0
        }, legal + 1, child.1)
    }
}

/// The root move loop from the `i`-th move in `order` on; it ends with the best move.
#[verifier::opaque]
pub open spec fn root_loop(
    v: BoardView,
    mb: MagicBitBoards,
    z: Zobrist,
    depth: u8,
    moves: Seq<Move>,
    order: Seq<usize>,
    i: int,
    alpha: i32,
    best_score: i32,
    best_move: Move,
    legal: int,
    st: SearchTables,
) -> (Move, SearchTables)
    decreases moves.len() - i,
{
    if i < 0 || i >= moves.len() {
        (best_move, st)
    } else {
        let s = root_step(v, mb, z, depth, moves[order[i] as int], alpha, best_score, best_move, legal, st);
        root_loop(v, mb, z, depth, moves, order, i + 1, s.0, s.1, s.2, s.3, s.4)
    }
}

/// The move the root search picks at `depth`, and the tables it leaves, when the clock does
/// not stop it: the moves in score order (the table's move first, then captures, killers
/// and history), each searched with principal-variation windows.
#[verifier::opaque]
pub open spec fn root_value(v: BoardView, mb: MagicBitBoards, z: Zobrist, st: SearchTables, depth: u8) -> (Move, SearchTables) {
    let tt_move = suggested_move(tt_lookup(st.0, v.zobrist_key));
    let k1 = st.1[0][depth as int];
    let k2 = st.1[1][depth as int];
    let moves = pseudo_legal_moves(v, mb);
    let order = score_order(node_scores(v, moves, tt_move, k1, k2, st.2));
    root_loop(v, mb, z, depth, moves, order, 0, MIN_SCORE, MIN_SCORE, Move::spec_new(0, 0, 0, 0, 0), 0, st)
}

/// One step of the root loop, and its end.
pub proof fn lemma_root_loop(
    v: BoardView,
    mb: MagicBitBoards,
    z: Zobrist,
    depth: u8,
    moves: Seq<Move>,
    order: Seq<usize>,
    i: int,
    alpha: i32,
    best_score: i32,
    best_move: Move,
    legal: int,
    st: SearchTables,
)
    requires
        0 <= i,
    ensures
        i >= moves.len() ==> root_loop(v, mb, z, depth, moves, order, i, alpha, best_score, best_move, legal, st) == (best_move, st),
        i < moves.len() ==> ({
            let s = root_step(v, mb, z, depth, moves[order[i] as int], alpha, best_score, best_move, legal, st);
            root_loop(v, mb, z, depth, moves, order, i, alpha, best_score, best_move, legal, st) == root_loop(
                v,
                mb,
                z,
                depth,
                moves,
                order,
                i + 1,
                s.0,
                s.1,
                s.2,
                s.3,
                s.4,
            )
        }),
{
    reveal(root_loop);
}

/// What one root move does, for a move that leaves the mover's king attacked and for a
/// legal one.
pub proof fn lemma_root_step(
    v: BoardView,
    mb: MagicBitBoards,
    z: Zobrist,
    depth: u8,
    m: Move,
    alpha: i32,
    best_score: i32,
    best_move: Move,
    legal: int,
    st: SearchTables,
)
    ensures
        !is_legal(v, mb, z, m) ==> root_step(v, mb, z, depth, m, alpha, best_score, best_move, legal, st) == (
            alpha,
            best_score,
            best_move,
            legal,
            st,
        ),
        is_legal(v, mb, z, m) ==> ({
            let first = legal == 0;
            let best_score0 = if first {
                MIN_SCORE
            } else {
                best_score
            };
            let best_move0 = if first {
                m
            } else {
                best_move
            };
            let child = root_child(make_move_spec(v, m, z), mb, z, st, depth, alpha, legal + 1);
            let score = child.0;
            root_step(v, mb, z, depth, m, alpha, best_score, best_move, legal, st) == (if score > alpha {
                score
            } else {
                alpha
            }, if score > best_score0 {
                score
            } else {
                best_score0
            }, if score > best_score0 {
                m
            } else {
                best_move0
            }, legal + 1, child.1)
        }),
{
    reveal(root_step);
}

// ---------------------------------------------------------------------------------------------
// Iterative deepening
// ---------------------------------------------------------------------------------------------
/// No killer move recorded yet: every slot holds the all-zero move.
pub open spec fn no_killers(k: [[Move; 100]; 2]) -> bool {
    forall|i: int, d: int| 0 <= i < 2 && 0 <= d < 100 ==> #[trigger] k[i][d] == Move::spec_new(0, 0, 0, 0, 0)
}

/// No history score recorded yet.
pub open spec fn no_history(h: [[i32; 64]; 12]) -> bool {
    forall|p: int, sq: int| 0 <= p < 12 && 0 <= sq < 64 ==> #[trigger] h[p][sq] == 0
}

/// The tables a new search starts with over the table entries `t`.
pub open spec fn fresh_tables(st: SearchTables, t: Seq<TTEntry>) -> bool {
    st.0 == t && no_killers(st.1) && no_history(st.2) && st.3 == 0
}

/// The move and tables after searching the root at depths 1 to `k` in turn, each depth
/// starting from the tables the one before left; no move before any depth.
#[verifier::opaque]
pub open spec fn deepening(v: BoardView, mb: MagicBitBoards, z: Zobrist, st: SearchTables, k: nat) -> (Move, SearchTables)
    decreases k,
{
    if k == 0 {
        (Move::spec_new(0, 0, 0, 0, 0), st)
    } else {
        let before = deepening(v, mb, z, st, (k - 1) as nat);
        root_value(v, mb, z, before.1, k as u8)
    }
}

/// One more depth of iterative deepening.
pub proof fn lemma_deepening(v: BoardView, mb: MagicBitBoards, z: Zobrist, st: SearchTables, k: nat)
    ensures
        deepening(v, mb, z, st, 0) == (Move::spec_new(0, 0, 0, 0, 0), st),
        deepening(v, mb, z, st, k + 1) == root_value(v, mb, z, deepening(v, mb, z, st, k).1, (k + 1) as u8),
{
    reveal(deepening);
}

/// The tables of a new search are determined by its table entries.
pub proof fn lemma_fresh_tables_unique(a: SearchTables, b: SearchTables, t: Seq<TTEntry>)
    requires
        fresh_tables(a, t),
        fresh_tables(b, t),
    ensures
        a == b,
{
    assert forall|i: int| 0 <= i < 2 implies a.1[i] == b.1[i] by {
        assert forall|d: int| 0 <= d < 100 implies a.1[i][d] == b.1[i][d] by {
            assert(a.1[i][d] == Move::spec_new(0, 0, 0, 0, 0));
            assert(b.1[i][d] == Move::spec_new(0, 0, 0, 0, 0));
        }
        assert(a.1[i] =~= b.1[i]);
    }
    assert(a.1 =~= b.1);
    assert forall|p: int| 0 <= p < 12 implies a.2[p] == b.2[p] by {
        assert forall|sq: int| 0 <= sq < 64 implies a.2[p][sq] == b.2[p][sq] by {
            assert(a.2[p][sq] == 0);
            assert(b.2[p][sq] == 0);
        }
        assert(a.2[p] =~= b.2[p]);
    }
    assert(a.2 =~= b.2);
    assert(a.3 == b.3);
}

/// One unfolding of `minimax_value`.
pub proof fn lemma_minimax_value_unfold(
    v: BoardView,
    mb: MagicBitBoards,
    z: Zobrist,
    st: SearchTables,
    depth: u8,
    alpha: i32,
    beta: i32,
    allow_null: bool,
    ply: int,
)
    ensures
        minimax_value(v, mb, z, st, depth, alpha, beta, allow_null, ply) == ({
            let st = (st.0, st.1, st.2, st.3 + 1);
            if depth == 0 {
                (quiescence_value(v, mb, z, st.2, alpha, beta, ply), (st.0, st.1, st.2, st.3 + quiescence_nodes(v, mb, z, st.2, alpha, beta, ply)))
            } else if ply > 0 && (v.repeated() || v.halfmove_clock >= 100) {
                (0, st)
            } else {
                let entry = tt_lookup(st.0, v.zobrist_key);
                let cut = match entry {
                    Some(e) => tt_cutoff(e, depth, alpha, beta, ply),
                    None => None,
                };
                if cut is Some {
                    (cut->0, st)
                } else {
                    let tt_move = suggested_move(entry);
                    let in_check = in_check_spec(v, mb);
                    if allow_null && depth >= 3 && has_piece_material(v) && !in_check && ply < 255 {
                        let reply = minimax_value(
                            make_null_move_spec(v, z),
                            mb,
                            z,
                            st,
                            (depth - 3) as u8,
                            0i32.wrapping_sub(beta),
                            0i32.wrapping_sub(beta).wrapping_add(1),
                            false,
                            ply + 1,
                        );
                        if 0i32.wrapping_sub(reply.0) >= beta {
                            (beta, reply.1)
                        } else {
                            minimax_moves(v, mb, z, reply.1, depth, alpha, beta, ply, tt_move, in_check)
                        }
                    } else {
                        minimax_moves(v, mb, z, st, depth, alpha, beta, ply, tt_move, in_check)
                    }
                }
            }
        }),
{
    reveal(minimax_value);
    reveal(minimax_moves);
    reveal(minimax_loop);
    reveal(minimax_child);
    reveal(minimax_step);
}


/// One unfolding of `minimax_moves`.
pub proof fn lemma_minimax_moves_unfold(
    v: BoardView,
    mb: MagicBitBoards,
    z: Zobrist,
    st: SearchTables,
    depth: u8,
    alpha: i32,
    beta: i32,
    ply: int,
    tt_move: Option<Move>,
    in_check: bool,
)
    ensures
        minimax_moves(v, mb, z, st, depth, alpha, beta, ply, tt_move, in_check) == ({
            let k1 = st.1[0][depth as int];
            let k2 = st.1[1][depth as int];
            let moves = pseudo_legal_moves(v, mb);
            let order = score_order(node_scores(v, moves, tt_move, k1, k2, st.2));
            minimax_loop(v, mb, z, depth, alpha, beta, ply, in_check, k1, k2, moves, order, 0, alpha, MIN_SCORE, Move::spec_new(0, 0, 0, 0, 0), 0, st)
        }),
{
    reveal(minimax_value);
    reveal(minimax_moves);
    reveal(minimax_loop);
    reveal(minimax_child);
    reveal(minimax_step);
}


/// The move loop past its last move, or with no ply left.
pub proof fn lemma_minimax_loop_end(
    v: BoardView,
    mb: MagicBitBoards,
    z: Zobrist,
    depth: u8,
    original_alpha: i32,
    beta: i32,
    ply: int,
    in_check: bool,
    k1: Move,
    k2: Move,
    moves: Seq<Move>,
    order: Seq<usize>,
    i: int,
    alpha: i32,
    best_score: i32,
    best_move: Move,
    legal: int,
    st: SearchTables,
)
    requires
        0 <= i,
        i >= moves.len() || ply >= 255,
    ensures
        minimax_loop(v, mb, z, depth, original_alpha, beta, ply, in_check, k1, k2, moves, order, i, alpha, best_score, best_move, legal, st)
            == minimax_finish(v, depth, original_alpha, beta, ply, in_check, best_score, best_move, legal, st),
{
    reveal(minimax_value);
    reveal(minimax_moves);
    reveal(minimax_loop);
    reveal(minimax_child);
    reveal(minimax_step);
}

/// One step of the move loop.
pub proof fn lemma_minimax_loop_step(
    v: BoardView,
    mb: MagicBitBoards,
    z: Zobrist,
    depth: u8,
    original_alpha: i32,
    beta: i32,
    ply: int,
    in_check: bool,
    k1: Move,
    k2: Move,
    moves: Seq<Move>,
    order: Seq<usize>,
    i: int,
    alpha: i32,
    best_score: i32,
    best_move: Move,
    legal: int,
    st: SearchTables,
)
    requires
        0 <= i < moves.len(),
        ply < 255,
    ensures
        ({
            let s = minimax_step(v, mb, z, depth, beta, ply, in_check, k1, k2, moves[order[i] as int], alpha, best_score, best_move, legal, st);
            minimax_loop(v, mb, z, depth, original_alpha, beta, ply, in_check, k1, k2, moves, order, i, alpha, best_score, best_move, legal, st)
                == if s.0 {
                minimax_finish(v, depth, original_alpha, beta, ply, in_check, s.2, s.3, s.4, s.5)
            } else {
                minimax_loop(v, mb, z, depth, original_alpha, beta, ply, in_check, k1, k2, moves, order, i + 1, s.1, s.2, s.3, s.4, s.5)
            }
        }),
{
    reveal(minimax_value);
    reveal(minimax_moves);
    reveal(minimax_loop);
    reveal(minimax_child);
    reveal(minimax_step);
}

/// What one move of the loop does, for a move that leaves the mover's king attacked and
/// for a legal one.
pub proof fn lemma_minimax_step_unfold(
    v: BoardView,
    mb: MagicBitBoards,
    z: Zobrist,
    depth: u8,
    beta: i32,
    ply: int,
    in_check: bool,
    k1: Move,
    k2: Move,
    m: Move,
    alpha: i32,
    best_score: i32,
    best_move: Move,
    legal: int,
    st: SearchTables,
)
    requires
        0 <= ply < 255,
    ensures
        !is_legal(v, mb, z, m) ==> minimax_step(v, mb, z, depth, beta, ply, in_check, k1, k2, m, alpha, best_score, best_move, legal, st)
            == (false, alpha, best_score, best_move, legal, st),
        is_legal(v, mb, z, m) ==> ({
            let gives_check = move_gives_check(v, mb, z, m);
            let child = minimax_child(
                make_move_spec(v, m, z),
                mb,
                z,
                st,
                reply_depth(depth, gives_check, ply),
                alpha,
                beta,
                ply,
                legal + 1,
                late_move_ok(m, in_check, gives_check, k1, k2),
            );
            let score = child.0;
            let best_score1 = if score > best_score {
                score
            } else {
                best_score
            };
            let best_move1 = if score > best_score {
                m
            } else {
                best_move
            };
            let alpha1 = if score > alpha {
                score
            } else {
                alpha
            };
            minimax_step(v, mb, z, depth, beta, ply, in_check, k1, k2, m, alpha, best_score, best_move, legal, st) == if alpha1
                >= beta {
                (true, alpha1, best_score1, best_move1, legal + 1, after_cutoff(child.1, depth, m, v.white_to_move))
            } else {
                (false, alpha1, best_score1, best_move1, legal + 1, child.1)
            }
        }),
{
    reveal(minimax_value);
    reveal(minimax_moves);
    reveal(minimax_loop);
    reveal(minimax_child);
    reveal(minimax_step);
}

/// One unfolding of `minimax_child`.
pub proof fn lemma_minimax_child_unfold(
    c: BoardView,
    mb: MagicBitBoards,
    z: Zobrist,
    st: SearchTables,
    new_depth: u8,
    alpha: i32,
    beta: i32,
    ply: int,
    n: int,
    lmr_ok: bool,
)
    ensures
        minimax_child(c, mb, z, st, new_depth, alpha, beta, ply, n, lmr_ok) == ({
            if ply >= 255 || ply < 0 {
                (0, st)
            } else if n == 1 {
                let r = minimax_value(c, mb, z, st, new_depth, 0i32.wrapping_sub(beta), 0i32.wrapping_sub(alpha), true, ply + 1);
                (0i32.wrapping_sub(r.0), r.1)
            } else {
                let reduce = new_depth >= 3 && n >= 4 && lmr_ok;
                let reduced = if reduce {
                    let r = minimax_value(
                        c,
                        mb,
                        z,
                        st,
                        (new_depth - 1) as u8,
                        0i32.wrapping_sub(alpha).wrapping_sub(1),
                        0i32.wrapping_sub(alpha),
                        true,
                        ply + 1,
                    );
                    (0i32.wrapping_sub(r.0), r.1)
                } else {
                    (0i32, st)
                };
                if reduce && reduced.0 <= alpha {
                    reduced
                } else {
                    let r = minimax_value(
                        c,
                        mb,
                        z,
                        reduced.1,
                        new_depth,
                        0i32.wrapping_sub(alpha).wrapping_sub(1),
                        0i32.wrapping_sub(alpha),
                        true,
                        ply + 1,
                    );
                    let s = 0i32.wrapping_sub(r.0);
                    if s > alpha && s < beta {
                        let r2 = minimax_value(c, mb, z, r.1, new_depth, 0i32.wrapping_sub(beta), 0i32.wrapping_sub(alpha), true, ply + 1);
                        (0i32.wrapping_sub(r2.0), r2.1)
                    } else {
                        (s, r.1)
                    }
                }
            }
        }),
{
    reveal(minimax_value);
    reveal(minimax_moves);
    reveal(minimax_loop);
    reveal(minimax_child);
    reveal(minimax_step);
}

} // verus!
