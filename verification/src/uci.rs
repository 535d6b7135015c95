use vstd::prelude::*;
use crate::board::{Board, BoardView, make_move_spec, FLAG_PROMOTE_QUEEN, FLAG_PROMOTE_KNIGHT};
use crate::board_laws::{lemma_make_unmake, lemma_make_move_wf, lemma_make_move_fields};
use crate::magics::MagicBitBoards;
use crate::movedata::Move;
use crate::movegen_laws::{lemma_pseudo_legal_moves_ok, lemma_move_ok_makeable, move_shape_ok};
use crate::movegenerator::{MoveList, generate_psuedo_legal_moves, is_move_legal, pseudo_legal_moves};
use crate::perft::{algebraic, get_algebraic_move, is_legal};
use crate::zobrist::Zobrist;

verus! {

/// The first move of `moves` that is legal and written `name` in coordinate notation.
pub open spec fn find_uci_move(v: BoardView, mb: MagicBitBoards, z: Zobrist, moves: Seq<Move>, name: Seq<char>) -> Option<Move>
    decreases moves.len(),
{
    if moves.len() == 0 {
        None
    } else if is_legal(v, mb, z, moves[0]) && algebraic(moves[0]) == name {
        Some(moves[0])
    } else {
        find_uci_move(v, mb, z, moves.drop_first(), name)
    }
}

/// The legal move of the position written `move_str` in coordinate notation (`e2e4`,
/// `e7e8q`), if there is one; the first in generation order.
#[verifier::rlimit(40)]
pub fn parse_uci_move(move_str: &str, board: &mut Board, magic_bitboards: &MagicBitBoards, zobrist: &Zobrist) -> (r: Option<Move>)
    requires
        old(board)@.wf(),
        old(board)@.halfmove_clock < u32::MAX,
        magic_bitboards.wf(),
    ensures
        final(board)@ == old(board)@,
        r == find_uci_move(
            old(board)@,
            *magic_bitboards,
            *zobrist,
            pseudo_legal_moves(old(board)@, *magic_bitboards),
            move_str@,
        ),
{
    let ghost v = board@;
    let ghost mb = *magic_bitboards;
    let ghost z = *zobrist;
    let name: String = move_str.to_owned();
    let mut move_list = MoveList::new();
    generate_psuedo_legal_moves(board, &mut move_list, magic_bitboards);
    let ghost moves = move_list@;
    proof {
        assert(moves =~= pseudo_legal_moves(v, mb));
        lemma_pseudo_legal_moves_ok(v, mb);
        assert(moves.subrange(0, moves.len() as int) =~= moves);
    }
    let count = move_list.get_count();
    let mut i: usize = 0;
    let mut found: Option<Move> = None;
    while i < count && found.is_none()
        invariant
            board@ == v,
            v.wf(),
            v.halfmove_clock < u32::MAX,
            magic_bitboards.wf(),
            mb == *magic_bitboards,
            z == *zobrist,
            name@ == move_str@,
            move_list@ == moves,
            count == moves.len(),
            i <= count,
            forall|k: int| 0 <= k < count ==> v.move_ok(#[trigger] moves[k]),
            find_uci_move(v, mb, z, moves, move_str@) == match found {
                Some(m) => Some(m),
                None => find_uci_move(v, mb, z, moves.subrange(i as int, count as int), move_str@),
            },
        decreases count - i,
    {
        let the_move = move_list.get_move(i);
        proof {
            let rest = moves.subrange(i as int, count as int);
            assert(rest[0] == the_move);
            assert(rest.drop_first() =~= moves.subrange(i + 1, count as int));
        }
        if is_named_legal_move(&the_move, &name, board, magic_bitboards, zobrist) {
            found = Some(the_move);
        }
        i += 1;
    }
    proof {
        if found.is_none() {
            assert(moves.subrange(count as int, count as int) =~= Seq::<Move>::empty());
        }
    }
    found
}

/// Whether the move is legal and written `name`. The board is handed back as it came.
fn is_named_legal_move(the_move: &Move, name: &String, board: &mut Board, magic_bitboards: &MagicBitBoards, zobrist: &Zobrist) -> (r: bool)
    requires
        old(board)@.wf(),
        old(board)@.halfmove_clock < u32::MAX,
        old(board)@.move_ok(*the_move),
        magic_bitboards.wf(),
    ensures
        final(board)@ == old(board)@,
        r == (is_legal(old(board)@, *magic_bitboards, *zobrist, *the_move) && algebraic(*the_move) == name@),
{
    let ghost v = board@;
    proof {
        lemma_move_ok_makeable(v, *the_move);
        lemma_make_move_wf(v, *the_move, *zobrist);
        lemma_make_unmake(v, *the_move, *zobrist);
    }
    board.make_move(the_move, zobrist);
    let legal = is_move_legal(board, magic_bitboards);
    proof {
        assert(legal == is_legal(v, *magic_bitboards, *zobrist, *the_move)) by {
            reveal(is_legal);
        }
    }
    board.unmake_move(the_move);
    if legal {
        let algebraic_str = get_algebraic_move(the_move);
        algebraic_str == *name
    } else {
        false
    }
}

/// Plays the move written `move_str` when the position has it as a legal move; reports
/// whether it did.
pub fn play_uci_move(move_str: &str, board: &mut Board, magic_bitboards: &MagicBitBoards, zobrist: &Zobrist) -> (r: bool)
    requires
        old(board)@.wf(),
        old(board)@.halfmove_clock < u32::MAX,
        magic_bitboards.wf(),
    ensures
        final(board)@.wf(),
        final(board)@.halfmove_clock <= old(board)@.halfmove_clock + 1,
        match find_uci_move(
            old(board)@,
            *magic_bitboards,
            *zobrist,
            pseudo_legal_moves(old(board)@, *magic_bitboards),
            move_str@,
        ) {
            Some(m) => r && final(board)@ == make_move_spec(old(board)@, m, *zobrist),
            None => !r && final(board)@ == old(board)@,
        },
{
    let ghost v = board@;
    match parse_uci_move(move_str, board, magic_bitboards, zobrist) {
        Some(the_move) => {
            proof {
                lemma_find_is_generated(v, *magic_bitboards, *zobrist, pseudo_legal_moves(v, *magic_bitboards), move_str@);
                lemma_pseudo_legal_moves_ok(v, *magic_bitboards);
                lemma_move_ok_makeable(v, the_move);
                lemma_make_move_fields(v, the_move, *zobrist);
            }
            board.make_move(&the_move, zobrist);
            true
        },
        None => false,
    }
}

/// A move the parser finds is one of the moves searched, and it is legal.
pub proof fn lemma_find_is_generated(v: BoardView, mb: MagicBitBoards, z: Zobrist, moves: Seq<Move>, name: Seq<char>)
    ensures
        find_uci_move(v, mb, z, moves, name) matches Some(m) ==> moves.contains(m) && is_legal(v, mb, z, m) && algebraic(m)
            == name,
    decreases moves.len(),
{
    if moves.len() > 0 {
        lemma_find_is_generated(v, mb, z, moves.drop_first(), name);
        if let Some(m) = find_uci_move(v, mb, z, moves.drop_first(), name) {
            let k = choose|k: int| 0 <= k < moves.drop_first().len() && moves.drop_first()[k] == m;
            assert(moves[k + 1] == m);
        }
        assert(moves[0] == moves[0]);
    }
}

/// Every legal move of the list can be named: looking up its coordinate notation finds a
/// legal move with the same notation.
pub proof fn lemma_find_named_move(v: BoardView, mb: MagicBitBoards, z: Zobrist, moves: Seq<Move>, k: int)
    requires
        0 <= k < moves.len(),
        is_legal(v, mb, z, moves[k]),
    ensures
        find_uci_move(v, mb, z, moves, algebraic(moves[k])) matches Some(m) && is_legal(v, mb, z, m) && algebraic(m)
            == algebraic(moves[k]),
    decreases moves.len(),
{
    let name = algebraic(moves[k]);
    if !(is_legal(v, mb, z, moves[0]) && algebraic(moves[0]) == name) {
        assert(k > 0);
        assert(moves.drop_first()[k - 1] == moves[k]);
        lemma_find_named_move(v, mb, z, moves.drop_first(), k - 1);
    }
}

/// Two moves that can be made on a board, whose flags follow from where they go, and that are
/// written alike in coordinate notation, are the same move.
pub proof fn lemma_names_unique(v: BoardView, m1: Move, m2: Move)
    requires
        v.move_ok(m1),
        v.move_ok(m2),
        move_shape_ok(v, m1),
        move_shape_ok(v, m2),
        algebraic(m1) == algebraic(m2),
    ensures
        m1 == m2,
{
    m1.lemma_fields_bounded();
    m2.lemma_fields_bounded();
    let a1 = algebraic(m1);
    let a2 = algebraic(m2);
    assert(a1[0] == a2[0] && a1[1] == a2[1] && a1[2] == a2[2] && a1[3] == a2[3]);
    let s1 = m1.start() as int;
    let s2 = m2.start() as int;
    let t1 = m1.target() as int;
    let t2 = m2.target() as int;
    assert(s1 % 8 == s2 % 8 && s1 / 8 == s2 / 8 && t1 % 8 == t2 % 8 && t1 / 8 == t2 / 8);
    assert(s1 == s2 && t1 == t2);
    let promo1 = FLAG_PROMOTE_QUEEN <= m1.flags() <= FLAG_PROMOTE_KNIGHT;
    let promo2 = FLAG_PROMOTE_QUEEN <= m2.flags() <= FLAG_PROMOTE_KNIGHT;
    assert(promo1 == promo2) by {
        assert(a1.len() == a2.len());
    }
    if promo1 {
        assert(a1[4] == a2[4]);
        assert(m1.flags() == m2.flags());
    } else {
        assert(m1.flags() <= 4 && m2.flags() <= 4);
        assert(m1.piece() == m2.piece());
        assert(m1.flags() == m2.flags());
    }
    assert(m1.captured() == m2.captured());
}

/// Looking up the coordinate notation of a legal move the generator produces finds that
/// very move.
pub proof fn lemma_find_names_the_move(v: BoardView, mb: MagicBitBoards, z: Zobrist, k: int)
    requires
        v.wf(),
        0 <= k < pseudo_legal_moves(v, mb).len(),
        is_legal(v, mb, z, pseudo_legal_moves(v, mb)[k]),
    ensures
        find_uci_move(v, mb, z, pseudo_legal_moves(v, mb), algebraic(pseudo_legal_moves(v, mb)[k]))
            == Some(pseudo_legal_moves(v, mb)[k]),
{
    let moves = pseudo_legal_moves(v, mb);
    let name = algebraic(moves[k]);
    lemma_find_named_move(v, mb, z, moves, k);
    lemma_find_is_generated(v, mb, z, moves, name);
    lemma_pseudo_legal_moves_ok(v, mb);
    let m = find_uci_move(v, mb, z, moves, name)->0;
    let j = choose|j: int| 0 <= j < moves.len() && moves[j] == m;
    assert(v.move_ok(moves[j]) && move_shape_ok(v, moves[j]));
    assert(v.move_ok(moves[k]) && move_shape_ok(v, moves[k]));
    lemma_names_unique(v, m, moves[k]);
}

// ---------------------------------------------------------------------------------------------
// Reading the words of a command
// ---------------------------------------------------------------------------------------------
/// A decimal digit.
pub open spec fn is_digit(c: char) -> bool {
    '0' <= c && c <= '9'
}

/// Every character is a decimal digit.
pub open spec fn all_digits(s: Seq<char>) -> bool {
    forall|i: int| 0 <= i < s.len() ==> is_digit(#[trigger] s[i])
}

/// The number written by a string of decimal digits.
pub open spec fn digits_value(s: Seq<char>) -> int
    decreases s.len(),
{
    if s.len() == 0 {
        0
    } else {
        digits_value(s.drop_last()) * 10 + (s.last() as int - '0' as int)
    }
}

/// What `u64::from_str` makes of a word: an optional `+` followed by one or more decimal
/// digits whose value fits in a `u64`; anything else is refused.
pub open spec fn decimal_u64(s: Seq<char>) -> Option<u64> {
    let d = if s.len() > 0 && s[0] == '+' {
        s.drop_first()
    } else {
        s
    };
    if d.len() > 0 && all_digits(d) && digits_value(d) <= u64::MAX {
        Some(digits_value(d) as u64)
    } else {
        None
    }
}

/// A prefix of a digit string never writes a larger number than the whole.
proof fn lemma_digits_prefix(s: Seq<char>, k: int)
    requires
        all_digits(s),
        0 <= k <= s.len(),
    ensures
        0 <= digits_value(s.subrange(0, k)) <= digits_value(s),
    decreases s.len(),
{
    if s.len() > 0 {
        let t = s.drop_last();
        assert(all_digits(t)) by {
            assert forall|i: int| 0 <= i < t.len() implies is_digit(#[trigger] t[i]) by {
                assert(t[i] == s[i]);
            }
        }
        assert(is_digit(s[s.len() - 1]));
        if k == s.len() {
            assert(s.subrange(0, k) =~= s);
            lemma_digits_prefix(t, t.len() as int);
            assert(t.subrange(0, t.len() as int) =~= t);
        } else {
            lemma_digits_prefix(t, k);
            assert(t.subrange(0, k) =~= s.subrange(0, k));
            lemma_digits_prefix(t, t.len() as int);
            assert(t.subrange(0, t.len() as int) =~= t);
        }
    }
}

/// Reads a number as `u64::from_str` does.
pub fn parse_decimal(word: &String) -> (r: Option<u64>)
    ensures
        r == decimal_u64(word@),
{
    let s = word.as_str();
    let n = s.unicode_len();
    let mut start: usize = 0;
    if n > 0 && s.get_char(0) == '+' {
        start = 1;
    }
    let ghost d = s@.subrange(start as int, n as int);
    proof {
        if n > 0 && s@[0] == '+' {
            assert(d =~= s@.drop_first());
        } else {
            assert(d =~= s@);
        }
    }
    if start == n {
        return None;
    }
    let mut value: u64 = 0;
    let mut i: usize = start;
    while i < n
        invariant
            s@ == word@,
            n == s@.len(),
            start < n,
            start <= i <= n,
            d == s@.subrange(start as int, n as int),
            d.len() > 0,
            decimal_u64(word@) == (if all_digits(d) && digits_value(d) <= u64::MAX {
                Some(digits_value(d) as u64)
            } else {
                None
            }),
            all_digits(d.subrange(0, i - start)),
            value == digits_value(d.subrange(0, i - start)),
        decreases n - i,
    {
        let c = s.get_char(i);
        let ghost k: int = i - start;
        assert(d[k] == c);
        if !('0' <= c && c <= '9') {
            return None;
        }
        let digit: u64 = (c as u32 - 48) as u64;
        let ghost prefix = d.subrange(0, k + 1);
        assert(prefix.drop_last() =~= d.subrange(0, k));
        assert(all_digits(prefix)) by {
            assert forall|j: int| 0 <= j < prefix.len() implies is_digit(#[trigger] prefix[j]) by {
                if j < k {
                    assert(prefix[j] == d.subrange(0, k)[j]);
                }
            }
        }
        assert(digits_value(prefix) == value * 10 + digit);
        match value.checked_mul(10) {
            None => {
                proof {
                    if all_digits(d) {
                        lemma_digits_prefix(d, k + 1);
                    }
                }
                return None;
            },
            Some(tens) => {
                match tens.checked_add(digit) {
                    None => {
                        proof {
                            if all_digits(d) {
                                lemma_digits_prefix(d, k + 1);
                            }
                        }
                        return None;
                    },
                    Some(next) => {
                        value = next;
                    },
                }
            },
        }
        i += 1;
    }
    proof {
        assert(d.subrange(0, n - start) =~= d);
    }
    Some(value)
}

/// Whether `word` is exactly `text`.
pub fn is_word(word: &String, text: &str) -> (r: bool)
    ensures
        r == (word@ == text@),
{
    let s = word.as_str();
    let n = s.unicode_len();
    if n != text.unicode_len() {
        return false;
    }
    let mut i: usize = 0;
    while i < n
        invariant
            s@ == word@,
            n == s@.len(),
            n == text@.len(),
            i <= n,
            forall|k: int| 0 <= k < i ==> s@[k] == text@[k],
        decreases n - i,
    {
        if s.get_char(i) != text.get_char(i) {
            return false;
        }
        i += 1;
    }
    proof {
        assert(s@ =~= text@);
    }
    true
}

// ---------------------------------------------------------------------------------------------
// Commands
// ---------------------------------------------------------------------------------------------
/// Milliseconds to think when the clock says nothing.
pub const TIME_LIMIT: u64 = 1200;

/// Where commands come from: the console loop reads the whole protocol; the web page sends
/// only `isready`, `ucinewgame`, `position startpos ...` and `go` with clock times.
#[derive(Clone, Copy, PartialEq, Eq, Debug)]
pub enum Front {
    Console,
    Web,
}

/// The clock settings of a `go` command, in milliseconds.
#[derive(Clone, Copy, PartialEq, Eq, Debug)]
pub struct GoParams {
    /// Time to use when no time left is given (`movetime`, or the default).
    pub time_limit: u64,
    /// Time left on the side to move's clock.
    pub time_left: Option<u64>,
    /// The side to move's increment.
    pub increment: u64,
    /// Moves expected before the next time control.
    pub moves_to_go: u64,
}

/// What a command asks of the engine.
#[derive(Clone, Copy, PartialEq, Eq, Debug)]
pub enum UciCommand {
    /// `uci`: name the engine.
    Identify,
    /// `isready`.
    IsReady,
    /// `ucinewgame`: a fresh board and table.
    NewGame,
    /// `position`: start again from the initial position when `reset`, then play the words
    /// from `first_move` on that name legal moves.
    Position { reset: bool, first_move: usize },
    /// `go`: search with these clock settings.
    Go(GoParams),
    /// `quit`.
    Quit,
    /// Anything else, and an empty line.
    Ignored,
}

/// The words of a command, as character sequences.
pub open spec fn words(tokens: Seq<String>) -> Seq<Seq<char>> {
    tokens.map_values(|t: String| t@)
}

/// The number in the word after position `i`, or `default` when there is no such word.
pub open spec fn number_after(ws: Seq<Seq<char>>, i: int, default: u64) -> Option<u64> {
    if i + 1 < ws.len() {
        decimal_u64(ws[i + 1])
    } else {
        Some(default)
    }
}

/// `o`'s value, or `d`.
pub open spec fn or_default(o: Option<u64>, d: u64) -> u64 {
    match o {
        Some(x) => x,
        None => d,
    }
}

/// The settings before any word is read.
pub open spec fn go_start() -> GoParams {
    GoParams { time_limit: TIME_LIMIT, time_left: None, increment: 0, moves_to_go: 30 }
}

/// The settings after reading the word at position `i`: the side to move's time and
/// increment, `movestogo`, and (from the console) `movetime`, which drops the time left.
pub open spec fn go_step(p: GoParams, ws: Seq<Seq<char>>, i: int, white: bool, movetime: bool) -> GoParams {
    let w = ws[i];
    let time_word = if white {
        "wtime"@
    } else {
        "btime"@
    };
    let inc_word = if white {
        "winc"@
    } else {
        "binc"@
    };
    let p1 = if w == time_word {
        GoParams { time_left: number_after(ws, i, 0), ..p }
    } else {
        p
    };
    let p2 = if w == inc_word {
        GoParams { increment: or_default(number_after(ws, i, 0), 0), ..p1 }
    } else {
        p1
    };
    let p3 = if w == "movestogo"@ {
        GoParams { moves_to_go: or_default(number_after(ws, i, 30), 30), ..p2 }
    } else {
        p2
    };
    if movetime && w == "movetime"@ {
        GoParams { time_limit: or_default(number_after(ws, i, TIME_LIMIT), TIME_LIMIT), time_left: None, ..p3 }
    } else {
        p3
    }
}

/// The settings after reading the words at positions 1 to `n - 1`.
pub open spec fn go_params(ws: Seq<Seq<char>>, n: int, white: bool, movetime: bool) -> GoParams
    decreases n,
{
    if n <= 1 {
        go_start()
    } else {
        go_step(go_params(ws, n - 1, white, movetime), ws, n - 1, white, movetime)
    }
}

/// The number in the word after position `i`, or `default`.
fn read_number_after(tokens: &Vec<String>, i: usize, default: u64) -> (r: Option<u64>)
    requires
        i < tokens.len(),
    ensures
        r == number_after(words(tokens@), i as int, default),
{
    if i + 1 < tokens.len() {
        parse_decimal(&tokens[i + 1])
    } else {
        Some(default)
    }
}

/// Reads the clock settings of a `go` command; `movetime` is read only when asked.
pub fn read_go(tokens: &Vec<String>, white_to_move: bool, movetime: bool) -> (r: GoParams)
    ensures
        r == go_params(words(tokens@), tokens.len() as int, white_to_move, movetime),
{
    let ghost ws = words(tokens@);
    let mut p = GoParams { time_limit: TIME_LIMIT, time_left: None, increment: 0, moves_to_go: 30 };
    let mut i: usize = 1;
    while i < tokens.len()
        invariant
            ws == words(tokens@),
            1 <= i,
            i <= tokens.len() || i == 1,
            p == go_params(ws, i as int, white_to_move, movetime),
        decreases tokens.len() - i,
    {
        let w = &tokens[i];
        assert(ws[i as int] == w@);
        let time_word = if white_to_move { "wtime" } else { "btime" };
        let inc_word = if white_to_move { "winc" } else { "binc" };
        if is_word(w, time_word) {
            p = GoParams { time_left: read_number_after(tokens, i, 0), ..p };
        }
        if is_word(w, inc_word) {
            let v = read_number_after(tokens, i, 0);
            p = GoParams { increment: match v { Some(x) => x, None => 0 }, ..p };
        }
        if is_word(w, "movestogo") {
            let v = read_number_after(tokens, i, 30);
            p = GoParams { moves_to_go: match v { Some(x) => x, None => 30 }, ..p };
        }
        if movetime && is_word(w, "movetime") {
            let v = read_number_after(tokens, i, TIME_LIMIT);
            p = GoParams { time_limit: match v { Some(x) => x, None => TIME_LIMIT }, time_left: None, ..p };
        }
        i += 1;
    }
    proof {
        if tokens.len() == 0 {
            assert(go_params(ws, 0, white_to_move, movetime) == go_params(ws, 1, white_to_move, movetime));
        } else {
            assert(i == tokens.len());
        }
    }
    p
}

/// Milliseconds that a move gets at least when the clock is running.
pub const MIN_MOVE_TIME: u64 = 50;

/// The moves the time left is shared over: `movestogo`, and at least one.
pub open spec fn moves_share(go: GoParams) -> int {
    if go.moves_to_go >= 1 {
        go.moves_to_go as int
    } else {
        1
    }
}

/// The time a move gets. Without a clock, the `go` command's time limit. With `t` left: the
/// time left shared over the moves to go, plus `increment_share` (three quarters of the
/// increment), at least `MIN_MOVE_TIME`; and where that is more than `t`, `ceiling` (four
/// fifths of `t`).
pub open spec fn move_time_spec(go: GoParams, increment_share: u64, ceiling: u64) -> int {
    match go.time_left {
        None => go.time_limit as int,
        Some(t) => {
            let planned = (t as int) / moves_share(go) + increment_share;
            let floored = if planned >= MIN_MOVE_TIME { planned } else { MIN_MOVE_TIME as int };
            if floored > t {
                ceiling as int
            } else {
                floored
            }
        },
    }
}

/// The milliseconds to search for a `go` command; the two shares of the increment and of the
/// time left that are taken in floating point come in as `increment_share` and `ceiling`.
pub fn move_time(go: &GoParams, increment_share: u64, ceiling: u64) -> (r: u64)
    requires
        go.time_left is Some ==> (go.time_left->0 as int) / moves_share(*go) + increment_share <= u64::MAX,
    ensures
        r == move_time_spec(*go, increment_share, ceiling),
{
    match go.time_left {
        None => go.time_limit,
        Some(t) => {
            let share: u64 = if go.moves_to_go >= 1 { go.moves_to_go } else { 1 };
            let planned: u64 = t / share + increment_share;
            let floored: u64 = if planned >= MIN_MOVE_TIME { planned } else { MIN_MOVE_TIME };
            if floored > t {
                ceiling
            } else {
                floored
            }
        },
    }
}

/// The first position at or after `k` that holds `word`.
pub open spec fn index_of_from(ws: Seq<Seq<char>>, word: Seq<char>, k: int) -> Option<int>
    decreases ws.len() - k,
{
    if k < 0 || k >= ws.len() {
        None
    } else if ws[k] == word {
        Some(k)
    } else {
        index_of_from(ws, word, k + 1)
    }
}

/// What a `position` command asks: whether to start again from the initial position, and
/// where the moves begin. `startpos` resets and the moves follow `moves`; a FEN (read only
/// from the console) resets too, its moves following the first `moves`, since the FEN
/// itself is not read; otherwise the words from the second on are tried as moves.
pub open spec fn position_plan(ws: Seq<Seq<char>>, read_fen: bool) -> (bool, int) {
    if ws.len() > 1 && ws[1] == "startpos"@ {
        (true, if ws.len() > 2 && ws[2] == "moves"@ {
            3
        } else {
            1
        })
    } else if read_fen && ws.len() > 1 && ws[1] == "fen"@ {
        (true, match index_of_from(ws, "moves"@, 0) {
            Some(k) => k + 1,
            None => ws.len() as int,
        })
    } else {
        (false, 1)
    }
}

/// The command a line's words make.
pub open spec fn command_of(ws: Seq<Seq<char>>, white_to_move: bool, front: Front) -> UciCommand {
    let console = front == Front::Console;
    if ws.len() == 0 {
        UciCommand::Ignored
    } else if console && ws[0] == "uci"@ {
        UciCommand::Identify
    } else if ws[0] == "isready"@ {
        UciCommand::IsReady
    } else if ws[0] == "ucinewgame"@ {
        UciCommand::NewGame
    } else if ws[0] == "position"@ {
        let plan = position_plan(ws, console);
        UciCommand::Position { reset: plan.0, first_move: plan.1 as usize }
    } else if ws[0] == "go"@ {
        UciCommand::Go(go_params(ws, ws.len() as int, white_to_move, console))
    } else if console && ws[0] == "quit"@ {
        UciCommand::Quit
    } else {
        UciCommand::Ignored
    }
}

/// Where the moves of a `position` command begin, and whether it resets the board.
fn read_position(tokens: &Vec<String>, read_fen: bool) -> (r: (bool, usize))
    ensures
        r.0 == position_plan(words(tokens@), read_fen).0,
        r.1 as int == position_plan(words(tokens@), read_fen).1,
{
    let ghost ws = words(tokens@);
    let n = tokens.len();
    if n > 1 && is_word(&tokens[1], "startpos") {
        assert(ws[1] == tokens@[1]@);
        if n > 2 && is_word(&tokens[2], "moves") {
            assert(ws[2] == tokens@[2]@);
            (true, 3)
        } else {
            proof {
                if n > 2 {
                    assert(ws[2] == tokens@[2]@);
                }
            }
            (true, 1)
        }
    } else if read_fen && n > 1 && is_word(&tokens[1], "fen") {
        proof {
            assert(ws[1] == tokens@[1]@);
        }
        let mut k: usize = 0;
        while k < n
            invariant
                ws == words(tokens@),
                n == tokens.len(),
                k <= n,
                position_plan(ws, read_fen).0,
                position_plan(ws, read_fen).1 == match index_of_from(ws, "moves"@, 0) {
                    Some(j) => j + 1,
                    None => n as int,
                },
                index_of_from(ws, "moves"@, 0) == index_of_from(ws, "moves"@, k as int),
            decreases n - k,
        {
            assert(ws[k as int] == tokens@[k as int]@);
            if is_word(&tokens[k], "moves") {
                return (true, k + 1);
            }
            k += 1;
        }
        (true, n)
    } else {
        proof {
            if n > 1 {
                assert(ws[1] == tokens@[1]@);
            }
        }
        (false, 1)
    }
}

/// Reads a line's words as a command; `white_to_move` says whose clock a `go` reads.
pub fn read_command(tokens: &Vec<String>, white_to_move: bool, front: Front) -> (r: UciCommand)
    ensures
        r == command_of(words(tokens@), white_to_move, front),
{
    let ghost ws = words(tokens@);
    let console = match front {
        Front::Console => true,
        Front::Web => false,
    };
    if tokens.len() == 0 {
        return UciCommand::Ignored;
    }
    let w = &tokens[0];
    assert(ws[0] == w@);
    if console && is_word(w, "uci") {
        UciCommand::Identify
    } else if is_word(w, "isready") {
        UciCommand::IsReady
    } else if is_word(w, "ucinewgame") {
        UciCommand::NewGame
    } else if is_word(w, "position") {
        let (reset, first_move) = read_position(tokens, console);
        UciCommand::Position { reset, first_move }
    } else if is_word(w, "go") {
        UciCommand::Go(read_go(tokens, white_to_move, console))
    } else if console && is_word(w, "quit") {
        UciCommand::Quit
    } else {
        UciCommand::Ignored
    }
}

/// The board after playing the move named `name`, when it names a legal move.
pub open spec fn after_uci_move(v: BoardView, mb: MagicBitBoards, z: Zobrist, name: Seq<char>) -> BoardView {
    match find_uci_move(v, mb, z, pseudo_legal_moves(v, mb), name) {
        Some(m) => make_move_spec(v, m, z),
        None => v,
    }
}

/// The board after playing the named moves in turn, each one that names a legal move.
pub open spec fn after_uci_moves(v: BoardView, mb: MagicBitBoards, z: Zobrist, names: Seq<Seq<char>>) -> BoardView
    decreases names.len(),
{
    if names.len() == 0 {
        v
    } else {
        after_uci_move(after_uci_moves(v, mb, z, names.drop_last()), mb, z, names.last())
    }
}

/// Plays the words of a `position` command from `first_move` on, each that names a legal
/// move of the position reached.
pub fn play_uci_moves(
    tokens: &Vec<String>,
    first_move: usize,
    board: &mut Board,
    magic_bitboards: &MagicBitBoards,
    zobrist: &Zobrist,
)
    requires
        old(board)@.wf(),
        magic_bitboards.wf(),
        first_move >= tokens.len() || old(board)@.halfmove_clock + (tokens.len() - first_move) < u32::MAX,
    ensures
        final(board)@.wf(),
        final(board)@ == if first_move < tokens.len() {
            after_uci_moves(
                old(board)@,
                *magic_bitboards,
                *zobrist,
                words(tokens@).subrange(first_move as int, tokens.len() as int),
            )
        } else {
            old(board)@
        },
{
    let ghost v = board@;
    let ghost ws = words(tokens@);
    let n = tokens.len();
    if first_move >= n {
        return;
    }
    let mut i: usize = first_move;
    proof {
        assert(ws.subrange(first_move as int, first_move as int) =~= Seq::<Seq<char>>::empty());
    }
    while i < n
        invariant
            ws == words(tokens@),
            n == tokens.len(),
            first_move <= i <= n,
            v.halfmove_clock + (n - first_move) < u32::MAX,
            board@.wf(),
            magic_bitboards.wf(),
            board@.halfmove_clock <= v.halfmove_clock + (i - first_move),
            board@ == after_uci_moves(v, *magic_bitboards, *zobrist, ws.subrange(first_move as int, i as int)),
        decreases n - i,
    {
        proof {
            let done = ws.subrange(first_move as int, i + 1);
            assert(done.drop_last() =~= ws.subrange(first_move as int, i as int));
            assert(done.last() == tokens@[i as int]@);
        }
        play_uci_move(tokens[i].as_str(), board, magic_bitboards, zobrist);
        i += 1;
    }
}

} // verus!
