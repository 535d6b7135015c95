pub mod bits;
pub mod movedata;
pub mod constants;
pub mod zobrist;
pub mod board;
pub mod board_laws;
pub mod magics;
pub mod movegenerator;
pub mod movegen_laws;
pub mod piece_count;
pub mod attack_laws;
pub mod eval_laws;
pub mod evaluation;
pub mod transposition;
pub mod search;
pub mod clock;
pub mod search_value;
pub mod perft;
pub mod uci;
