//! The engine's command language: UCI `go` and `position` commands, and the web front end's
//! JSON answers.

use vstd::prelude::*;
use crate::board::WHITE;
use crate::book::replay;
use crate::fen::{fen_error, fen_spec, from_fen, START_FEN};
use crate::movegen::lemma_pseudo_move_ok;
use crate::notation::{parse_uci_move};
use crate::position::{Position, PositionModel};
use crate::search::GoLimits;
use crate::text::{
    chars_of, parse_unsigned, parse_unsigned_spec, split_whitespace, split_ws, string_of,
};

verus! {

/// Whether a word is exactly the given text.
pub fn word_is(w: &Vec<char>, lit: &str) -> (r: bool)
    ensures
        r == (w@ == lit@),
{
    let l = chars_of(lit);
    if w.len() != l.len() {
        return false;
    }
    let n = w.len();
    for i in 0..n
        invariant
            n == w@.len(),
            n == l@.len(),
            l@ == lit@,
            forall|j: int| 0 <= j < i ==> w@[j] == l@[j],
    {
        if w[i] != l[i] {
            return false;
        }
    }
    assert(w@ =~= l@);
    true
}

/// What a `go` command sets, word by word.
#[derive(Clone, Copy, Debug, PartialEq, Eq)]
pub struct GoScan {
    pub depth: i32,
    pub movetime: Option<u64>,
    pub wtime: Option<u64>,
    pub btime: Option<u64>,
    pub winc: u64,
    pub binc: u64,
    pub moves_to_go: u64,
    pub nodes: Option<u64>,
}

/// The number after word `i`, if there is one and it reads as a `u64`.
pub open spec fn word_value(words: Seq<Seq<char>>, i: int) -> Option<u64> {
    if 0 <= i + 1 < words.len() {
        match parse_unsigned_spec(words[i + 1], u64::MAX as int) {
            Some(v) => Some(v as u64),
            None => None,
        }
    } else {
        None
    }
}

pub open spec fn or_zero(v: Option<u64>) -> u64 {
    match v {
        Some(x) => x,
        None => 0,
    }
}

/// The settings after reading the words from `i` on: a known keyword takes the next word as
/// its value (a missing or unreadable value leaves the depth unchanged and counts as none, or
/// 0 for increments and moves to go); other words are skipped.
pub open spec fn go_scan(words: Seq<Seq<char>>, i: int, st: GoScan) -> GoScan
    decreases words.len() + 2 - i,
{
    if i < 0 || i >= words.len() {
        st
    } else {
        let w = words[i];
        let v = word_value(words, i);
        if w == "depth"@ {
            go_scan(
                words,
                i + 2,
                match v {
                    Some(x) => GoScan {
                        depth: (if x < 64 {
                            x as int
                        } else {
                            64
                        }) as i32,
                        ..st
                    },
                    None => st,
                },
            )
        } else if w == "movetime"@ {
            go_scan(words, i + 2, GoScan { movetime: v, ..st })
        } else if w == "wtime"@ {
            go_scan(words, i + 2, GoScan { wtime: v, ..st })
        } else if w == "btime"@ {
            go_scan(words, i + 2, GoScan { btime: v, ..st })
        } else if w == "winc"@ {
            go_scan(words, i + 2, GoScan { winc: or_zero(v), ..st })
        } else if w == "binc"@ {
            go_scan(words, i + 2, GoScan { binc: or_zero(v), ..st })
        } else if w == "movestogo"@ {
            go_scan(words, i + 2, GoScan { moves_to_go: or_zero(v), ..st })
        } else if w == "nodes"@ {
            go_scan(words, i + 2, GoScan { nodes: v, ..st })
        } else {
            go_scan(words, i + 1, st)
        }
    }
}

/// The settings of a `go` command whose first word is `go`.
pub open spec fn go_settings(words: Seq<Seq<char>>) -> GoScan {
    go_scan(
        words,
        1,
        GoScan {
            depth: 64,
            movetime: None,
            wtime: None,
            btime: None,
            winc: 0,
            binc: 0,
            moves_to_go: 0,
            nodes: None,
        },
    )
}

pub open spec fn max_int(a: int, b: int) -> int {
    if a >= b {
        a
    } else {
        b
    }
}

pub open spec fn min_of(a: int, b: int) -> int {
    if a <= b {
        a
    } else {
        b
    }
}

/// The time budget for `side`: a fixed move time keeps 3 ms in hand and aims at nine
/// tenths of the rest; a clock keeps up to 8 ms in hand and aims at a share of the time left
/// (a fortieth at most, a twenty-fifth without a move count) plus three quarters of the
/// increment, allowing up to three times that.
pub open spec fn go_limits(st: GoScan, side: int) -> GoLimits {
    match st.movetime {
        Some(ms) => {
            let hard = max_int(ms - 3, 1);
            GoLimits {
                depth: st.depth,
                soft: Some(max_int(hard * 9 / 10, 1) as u64),
                hard: Some(hard as u64),
                nodes: st.nodes,
            }
        },
        None => {
            let remain = if side == 1 {
                st.wtime
            } else {
                st.btime
            };
            let inc = if side == 1 {
                st.winc
            } else {
                st.binc
            };
            match remain {
                Some(ms) => {
                    let overhead = min_of(8, ms as int / 5);
                    let usable = max_int(ms - overhead, 1);
                    let divisor = if st.moves_to_go > 0 {
                        min_of(st.moves_to_go as int, 40)
                    } else {
                        25
                    };
                    let target = min_of(usable / divisor + inc as int * 3 / 4, usable);
                    let hard = max_int(min_of(target * 3, usable), 1);
                    GoLimits {
                        depth: st.depth,
                        soft: Some(max_int(target, 1) as u64),
                        hard: Some(hard as u64),
                        nodes: st.nodes,
                    }
                },
                None => GoLimits { depth: st.depth, soft: None, hard: None, nodes: st.nodes },
            }
        },
    }
}

/// A longer `movetime` never shortens the soft or the hard time limit.
pub proof fn lemma_movetime_budget_monotone(sa: GoScan, sb: GoScan, side: int)
    requires
        sa.movetime is Some,
        sb.movetime is Some,
        sa.movetime->0 <= sb.movetime->0,
    ensures
        go_limits(sa, side).soft->0 <= go_limits(sb, side).soft->0,
        go_limits(sa, side).hard->0 <= go_limits(sb, side).hard->0,
{
}

/// More time left on the clock of the side to move, with the same increments and moves to
/// go, never shortens the soft or the hard time limit.
pub proof fn lemma_clock_budget_monotone(sa: GoScan, sb: GoScan, side: int)
    requires
        sa.movetime is None,
        sb.movetime is None,
        sa.winc == sb.winc,
        sa.binc == sb.binc,
        sa.moves_to_go == sb.moves_to_go,
        (if side == 1 { sa.wtime } else { sa.btime }) is Some,
        (if side == 1 { sb.wtime } else { sb.btime }) is Some,
        (if side == 1 { sa.wtime } else { sa.btime })->0 <= (if side == 1 {
            sb.wtime
        } else {
            sb.btime
        })->0,
    ensures
        go_limits(sa, side).soft->0 <= go_limits(sb, side).soft->0,
        go_limits(sa, side).hard->0 <= go_limits(sb, side).hard->0,
{
    let x = (if side == 1 { sa.wtime } else { sa.btime })->0 as int;
    let y = (if side == 1 { sb.wtime } else { sb.btime })->0 as int;
    let ux = max_int(x - min_of(8, x / 5), 1);
    let uy = max_int(y - min_of(8, y / 5), 1);
    assert(ux <= uy);
    let d = if sa.moves_to_go > 0 {
        min_of(sa.moves_to_go as int, 40)
    } else {
        25
    };
    assert(ux / d <= uy / d) by (nonlinear_arith)
        requires
            1 <= ux <= uy,
            1 <= d,
    ;
}

fn value_after(words: &Vec<Vec<char>>, i: usize) -> (v: Option<u64>)
    ensures
        v == word_value(words@.map_values(|w: Vec<char>| w@), i as int),
{
    let ghost ws = words@.map_values(|w: Vec<char>| w@);
    if i < words.len() && words.len() - i >= 2 {
        let r = parse_unsigned(&words[i + 1], u64::MAX);
        assert(ws[i + 1] == words@[i + 1]@);
        r
    } else {
        None
    }
}

/// Reads the limits of a UCI `go` command for the side to move.
pub fn parse_go(command: &str, side: i8) -> (limits: GoLimits)
    ensures
        limits == go_limits(go_settings(split_ws(command@)), side as int),
{
    let words = split_whitespace(&chars_of(command));
    let ghost ws = split_ws(command@);
    let ghost vs = words@.map_values(|w: Vec<char>| w@);
    assert(vs =~= ws);
    let mut st = GoScan {
        depth: 64,
        movetime: None,
        wtime: None,
        btime: None,
        winc: 0,
        binc: 0,
        moves_to_go: 0,
        nodes: None,
    };
    let n = words.len();
    let mut i: usize = 1;
    while i < n
        invariant
            n == words@.len(),
            n == ws.len(),
            vs == ws,
            vs == words@.map_values(|w: Vec<char>| w@),
            1 <= i,
            go_settings(ws) == go_scan(ws, i as int, st),
        decreases n - i,
    {
        let value = value_after(&words, i);
        let w = &words[i];
        assert(ws[i as int] == w@);
        let ghost i0 = i as int;
        let ghost st0 = st;
        let mut skip: usize = 0;
        if word_is(w, "depth") {
            match value {
                Some(v) => {
                    st.depth = if v < 64 {
                        v as i32
                    } else {
                        64
                    };
                },
                None => {},
            }
            skip = 1;
        } else if word_is(w, "movetime") {
            st.movetime = value;
            skip = 1;
        } else if word_is(w, "wtime") {
            st.wtime = value;
            skip = 1;
        } else if word_is(w, "btime") {
            st.btime = value;
            skip = 1;
        } else if word_is(w, "winc") {
            st.winc = match value {
                Some(v) => v,
                None => 0,
            };
            skip = 1;
        } else if word_is(w, "binc") {
            st.binc = match value {
                Some(v) => v,
                None => 0,
            };
            skip = 1;
        } else if word_is(w, "movestogo") {
            st.moves_to_go = match value {
                Some(v) => v,
                None => 0,
            };
            skip = 1;
        } else if word_is(w, "nodes") {
            st.nodes = value;
            skip = 1;
        }
        assert(go_scan(ws, i0, st0) == go_scan(ws, i0 + 1 + skip, st));
        if skip + 1 >= n - i {
            assert(go_scan(ws, i0 + 1 + skip, st) == st);
            assert(go_scan(ws, n as int, st) == st);
            i = n;
        } else {
            i = i + skip + 1;
        }
    }
    limits_of(st, side)
}

/// The limits for `side` from the settings of a `go` command.
pub fn limits_of(st: GoScan, side: i8) -> (limits: GoLimits)
    ensures
        limits == go_limits(st, side as int),
{
    match st.movetime {
        Some(ms) => {
            let rest = if ms >= 3 {
                ms - 3
            } else {
                0
            };
            let hard_ms = if rest > 1 {
                rest
            } else {
                1
            };
            let soft = (hard_ms as u128 * 9 / 10) as u64;
            return GoLimits {
                depth: st.depth,
                soft: Some(
                    if soft > 1 {
                        soft
                    } else {
                        1
                    },
                ),
                hard: Some(hard_ms),
                nodes: st.nodes,
            };
        },
        None => {},
    }
    let remain = if side == WHITE {
        st.wtime
    } else {
        st.btime
    };
    let inc = if side == WHITE {
        st.winc
    } else {
        st.binc
    };
    match remain {
        Some(ms) => {
            let overhead = if 8 < ms / 5 {
                8
            } else {
                ms / 5
            };
            let left = ms - overhead;
            let usable = if left > 1 {
                left
            } else {
                1
            };
            let divisor = if st.moves_to_go > 0 {
                if st.moves_to_go < 40 {
                    st.moves_to_go
                } else {
                    40
                }
            } else {
                25
            };
            let aim: u128 = usable as u128 / divisor as u128 + inc as u128 * 3 / 4;
            let target: u64 = if aim < usable as u128 {
                aim as u64
            } else {
                usable
            };
            let triple: u128 = target as u128 * 3;
            let capped: u64 = if triple < usable as u128 {
                triple as u64
            } else {
                usable
            };
            let hard = if capped > 1 {
                capped
            } else {
                1
            };
            GoLimits {
                depth: st.depth,
                soft: Some(
                    if target > 1 {
                        target
                    } else {
                        1
                    },
                ),
                hard: Some(hard),
                nodes: st.nodes,
            }
        },
        None => GoLimits { depth: st.depth, soft: None, hard: None, nodes: st.nodes },
    }
}


// ----- the position command -----

/// The index of the first word `moves` from `i` on, or the number of words.
pub open spec fn moves_index(words: Seq<Seq<char>>, i: int) -> int
    decreases words.len() - i,
{
    if i < 0 || i >= words.len() {
        words.len() as int
    } else if words[i] == "moves"@ {
        i
    } else {
        moves_index(words, i + 1)
    }
}

/// Words joined by single spaces.
pub open spec fn join_words(ws: Seq<Seq<char>>) -> Seq<char>
    decreases ws.len(),
{
    if ws.len() == 0 {
        seq![]
    } else if ws.len() == 1 {
        ws[0]
    } else {
        join_words(ws.drop_last()) + seq![' '] + ws.last()
    }
}

/// The hashes of `p` and of the positions after each of the first `n` moves of `words`.
pub open spec fn hashes_along(p: PositionModel, words: Seq<Seq<char>>, n: int) -> Seq<u64>
    decreases n,
{
    if n <= 0 {
        seq![p.hash]
    } else {
        match replay(p, words, n) {
            Some(q) => hashes_along(p, words, n - 1).push(q.hash),
            None => seq![],
        }
    }
}

/// The moves of a position command: the words after `idx`, skipping a leading `moves`.
pub open spec fn move_words(words: Seq<Seq<char>>, idx: int) -> Seq<Seq<char>> {
    let i = if idx < words.len() && words[idx] == "moves"@ {
        idx + 1
    } else {
        idx
    };
    words.subrange(i, words.len() as int)
}

/// The position and hash history after playing the move words from `start`.
pub open spec fn line_from(start: PositionModel, words: Seq<Seq<char>>, idx: int) -> Option<
    (PositionModel, Seq<u64>),
> {
    let ms = move_words(words, idx);
    match replay(start, ms, ms.len() as int) {
        None => None,
        Some(q) => Some((q, hashes_along(start, ms, ms.len() as int))),
    }
}

/// The position a UCI `position` command sets up, with the hashes of the game: `startpos`
/// or `fen` and its six fields, then optionally `moves` and moves in UCI notation.
pub open spec fn position_command(words: Seq<Seq<char>>) -> Option<(PositionModel, Seq<u64>)> {
    if words.len() < 2 {
        None
    } else if words[1] == "startpos"@ {
        match fen_spec(START_FEN@) {
            None => None,
            Some(start) => line_from(start, words, 2),
        }
    } else if words[1] == "fen"@ {
        let m = moves_index(words, 0);
        if m < 6 {
            None
        } else {
            match fen_spec(join_words(words.subrange(2, m))) {
                None => None,
                Some(start) => line_from(start, words, m),
            }
        }
    } else {
        None
    }
}

/// The first of the first `n` move words that does not name a legal move.
pub open spec fn stuck_word(p: PositionModel, ms: Seq<Seq<char>>, n: int) -> Seq<char>
    decreases n,
{
    if n <= 0 {
        seq![]
    } else if replay(p, ms, n - 1) is None {
        stuck_word(p, ms, n - 1)
    } else {
        ms[n - 1]
    }
}

/// The message of a rejected position command: what the command itself gets wrong, the
/// fault of its FEN text, or the first move word that is not a legal move.
pub open spec fn position_error(words: Seq<Seq<char>>) -> Seq<char> {
    if words.len() < 2 {
        "missing position"@
    } else if words[1] == "startpos"@ {
        match fen_spec(START_FEN@) {
            None => fen_error(START_FEN@),
            Some(st) => {
                let ms = move_words(words, 2);
                "illegal move "@ + stuck_word(st, ms, ms.len() as int)
            },
        }
    } else if words[1] == "fen"@ {
        let m = moves_index(words, 0);
        if m < 6 {
            "incomplete FEN"@
        } else {
            let text = join_words(words.subrange(2, m));
            match fen_spec(text) {
                None => fen_error(text),
                Some(st) => {
                    let ms = move_words(words, m);
                    "illegal move "@ + stuck_word(st, ms, ms.len() as int)
                },
            }
        }
    } else {
        "position must use startpos or fen"@
    }
}

/// The first word `moves`, or the number of words.
fn find_moves(words: &Vec<Vec<char>>) -> (m: usize)
    ensures
        m == moves_index(words@.map_values(|w: Vec<char>| w@), 0),
        m <= words@.len(),
{
    let ghost ws = words@.map_values(|w: Vec<char>| w@);
    let n = words.len();
    let mut i: usize = 0;
    while i < n
        invariant
            n == words@.len(),
            ws == words@.map_values(|w: Vec<char>| w@),
            i <= n,
            moves_index(ws, 0) == moves_index(ws, i as int),
        decreases n - i,
    {
        assert(ws[i as int] == words@[i as int]@);
        if word_is(&words[i], "moves") {
            return i;
        }
        i = i + 1;
    }
    n
}

/// Appends the characters of a text.
fn push_text(v: &mut Vec<char>, t: &str)
    ensures
        final(v)@ == old(v)@ + t@,
{
    let mut c = chars_of(t);
    v.append(&mut c);
}

/// The words `from..to` joined by single spaces.
fn join_range(words: &Vec<Vec<char>>, from: usize, to: usize) -> (s: String)
    requires
        from < to <= words@.len(),
    ensures
        s@ == join_words(words@.map_values(|w: Vec<char>| w@).subrange(from as int, to as int)),
{
    let ghost ws = words@.map_values(|w: Vec<char>| w@);
    let mut v: Vec<char> = words[from].clone();
    assert(ws.subrange(from as int, from + 1) =~= seq![ws[from as int]]);
    assert(v@ == words@[from as int]@);
    let mut i = from + 1;
    while i < to
        invariant
            from < i <= to,
            to <= words@.len(),
            ws == words@.map_values(|w: Vec<char>| w@),
            v@ == join_words(ws.subrange(from as int, i as int)),
        decreases to - i,
    {
        v.push(' ');
        let mut w = words[i].clone();
        assert(w@ == ws[i as int]);
        v.append(&mut w);
        assert(ws.subrange(from as int, i + 1).drop_last() =~= ws.subrange(from as int, i as int));
        i = i + 1;
    }
    string_of(&v)
}

/// Sets up the position of a UCI `position` command, with the hashes of the game so far.
/// On error nothing changes.
pub fn set_position(command: &str, pos: &mut Position, history: &mut Vec<u64>) -> (r: Result<
    (),
    String,
>)
    ensures
        match position_command(split_ws(command@)) {
            Some((q, h)) => r is Ok && final(pos)@ == q && final(pos)@.wf() && final(history)@ == h,
            None => r is Err && *final(pos) == *old(pos) && final(history)@ == old(history)@,
        },
        r matches Err(e) ==> e@ == position_error(split_ws(command@)),
{
    let words = split_whitespace(&chars_of(command));
    let ghost ws = split_ws(command@);
    proof {
        assert(words@.map_values(|w: Vec<char>| w@) =~= ws);
    }
    let n = words.len();
    if n < 2 {
        return Err(String::from_str("missing position"));
    }
    assert(ws[1] == words@[1]@);
    let is_start = word_is(&words[1], "startpos");
    let is_fen = word_is(&words[1], "fen");
    let ghost m = moves_index(ws, 0);
    let (next, idx) = if is_start {
        match from_fen(START_FEN) {
            Ok(p) => (p, 2usize),
            Err(e) => {
                return Err(e);
            },
        }
    } else if is_fen {
        let moves_at = find_moves(&words);
        if moves_at < 6 {
            return Err(String::from_str("incomplete FEN"));
        }
        let text = join_range(&words, 2, moves_at);
        match from_fen(text.as_str()) {
            Ok(p) => (p, moves_at),
            Err(e) => {
                return Err(e);
            },
        }
    } else {
        return Err(String::from_str("position must use startpos or fen"));
    };
    let mut next = next;
    let ghost start = next@;
    let mut next_history: Vec<u64> = Vec::new();
    next_history.push(next.hash);
    let mut i = idx;
    if i < n && word_is(&words[i], "moves") {
        assert(ws[i as int] == words@[i as int]@);
        i = i + 1;
    } else if i < n {
        assert(ws[i as int] == words@[i as int]@);
    }
    let ghost ms = move_words(ws, idx as int);
    assert(ms =~= ws.subrange(i as int, n as int));
    match play_move_words(&mut next, &words, i) {
        Ok(h) => {
            *pos = next;
            *history = h;
            Ok(())
        },
        Err(e) => Err(e),
    }
}

/// Plays the move words from `words[first]` on, starting at `pos`: the hashes along the
/// line, or the message naming the first word that is not a legal move.
fn play_move_words(pos: &mut Position, words: &Vec<Vec<char>>, first: usize) -> (r: Result<
    Vec<u64>,
    String,
>)
    requires
        old(pos)@.wf(),
        first <= words@.len(),
    ensures
        ({
            let ms = words@.map_values(|w: Vec<char>| w@).subrange(
                first as int,
                words@.len() as int,
            );
            match replay(old(pos)@, ms, ms.len() as int) {
                Some(q) => r matches Ok(h) && h@ == hashes_along(old(pos)@, ms, ms.len() as int)
                    && final(pos)@ == q && q.wf(),
                None => r matches Err(e) && e@ == "illegal move "@ + stuck_word(
                    old(pos)@,
                    ms,
                    ms.len() as int,
                ),
            }
        }),
{
    let ghost ws = words@.map_values(|w: Vec<char>| w@);
    let ghost ms = ws.subrange(first as int, words@.len() as int);
    let ghost start = pos@;
    let n = words.len();
    let mut hashes: Vec<u64> = Vec::new();
    hashes.push(pos.hash);
    let mut i = first;
    while i < n
        invariant
            n == words@.len(),
            ws == words@.map_values(|w: Vec<char>| w@),
            0 <= first <= i <= n,
            ms == ws.subrange(first as int, n as int),
            start == old(pos)@,
            pos@.wf(),
            replay(start, ms, i - first) == Some(pos@),
            hashes@ == hashes_along(start, ms, i - first),
        decreases n - i,
    {
        assert(ms[i - first] == words@[i as int]@);
        let text = string_of(&words[i]);
        match parse_uci_move(pos, text.as_str()) {
            Some(mv) => {
                proof {
                    lemma_pseudo_move_ok(pos@, mv, false);
                }
                pos.make_move(mv);
                hashes.push(pos.hash);
            },
            None => {
                let mut msg: Vec<char> = Vec::new();
                push_text(&mut msg, "illegal move ");
                let mut w = words[i].clone();
                msg.append(&mut w);
                proof {
                    lemma_stuck(start, ms, i - first, ms.len() as int);
                }
                return Err(string_of(&msg));
            },
        }
        i = i + 1;
    }
    Ok(hashes)
}

proof fn lemma_stuck(p: PositionModel, ms: Seq<Seq<char>>, j: int, n: int)
    requires
        0 <= j < n,
        replay(p, ms, j) is Some,
        replay(p, ms, j + 1) is None,
    ensures
        replay(p, ms, n) is None,
        stuck_word(p, ms, n) == ms[j],
    decreases n - j,
{
    if n > j + 1 {
        lemma_stuck(p, ms, j, n - 1);
    }
}

} // verus!
