//! The web front end's game state: a game replayed from its move list, its status, and the
//! JSON answers sent back.

use vstd::prelude::*;
use std::sync::atomic::AtomicBool;
use std::sync::Arc;
use crate::board::WHITE;
use crate::search::{GoLimits, Searcher};
use crate::text::parse_unsigned;
use crate::fen::{fen_error, fen_spec, fen_text, from_fen, START_FEN};
use crate::material::{insufficient_material, insufficient_spec};
use crate::movegen::{generate_legal, has_legal_move, legal_move, lemma_pseudo_move_ok, MoveList};
use crate::notation::{parse_uci_move, uci_move};
use crate::position::{Position, PositionModel};
use crate::text::{chars_of, string_of, string_of_range, uci_chars, uci_spec};

verus! {

/// How many of the first `n` hashes equal `h`.
pub open spec fn count_hash(s: Seq<u64>, h: u64, n: int) -> int
    decreases n,
{
    if n <= 0 {
        0
    } else {
        count_hash(s, h, n - 1) + if s[n - 1] == h {
            1int
        } else {
            0
        }
    }
}

/// The position has occurred three times in the game.
pub open spec fn threefold(history: Seq<u64>, current: u64) -> bool {
    count_hash(history, current, history.len() as int) >= 3
}

/// Whether the current position occurs at least three times in the history.
pub fn web_threefold(history: &[u64], current: u64) -> (r: bool)
    ensures
        r == threefold(history@, current),
{
    let n = history.len();
    let mut c: usize = 0;
    for i in 0..n
        invariant
            n == history@.len(),
            c == count_hash(history@, current, i as int),
            c <= i,
    {
        if history[i] == current {
            c = c + 1;
        }
    }
    c >= 3
}

/// The game is over: fifty moves without progress, dead material, threefold repetition, or
/// no legal move.
pub open spec fn game_over(p: PositionModel, history: Seq<u64>) -> bool {
    ||| p.halfmove >= 100
    ||| insufficient_spec(p.board)
    ||| threefold(history, p.hash)
    ||| !(exists|m: u32| legal_move(p, m, false))
}

/// Whether the game is over.
pub fn web_game_over(pos: &Position, history: &[u64]) -> (r: bool)
    requires
        pos@.layout_ok(),
    ensures
        r == game_over(pos@, history@),
{
    if pos.halfmove >= 100 || insufficient_material(pos) || web_threefold(history, pos.hash) {
        return true;
    }
    !has_legal_move(pos)
}

// ----- replaying a game -----

/// The pieces of `s` between commas, from the piece starting at `start`, with `i` the next
/// character to look at.
pub open spec fn pieces(s: Seq<char>, start: int, i: int) -> Seq<Seq<char>>
    decreases s.len() - i,
{
    if i >= s.len() || i < 0 || start < 0 || start > i {
        seq![s.subrange(if 0 <= start <= s.len() { start } else { s.len() as int }, s.len() as int)]
    } else if s[i] == ',' {
        seq![s.subrange(start, i)] + pieces(s, i + 1, i + 1)
    } else {
        pieces(s, start, i + 1)
    }
}

/// The pieces of `s` between commas (like `str::split(',')`).
pub open spec fn split_commas(s: Seq<char>) -> Seq<Seq<char>> {
    pieces(s, 0, 0)
}

/// Splits a text at its commas.
fn split_at_commas(s: &Vec<char>) -> (parts: Vec<String>)
    ensures
        parts@.len() == split_commas(s@).len(),
        forall|i: int| 0 <= i < parts@.len() ==> #[trigger] parts@[i]@ == split_commas(s@)[i],
{
    let n = s.len();
    let mut parts: Vec<String> = Vec::new();
    let ghost mut done: Seq<Seq<char>> = seq![];
    let mut start: usize = 0;
    for i in 0..n
        invariant
            n == s@.len(),
            start <= i,
            parts@.len() == done.len(),
            forall|j: int| 0 <= j < parts@.len() ==> #[trigger] parts@[j]@ == done[j],
            done + pieces(s@, start as int, i as int) == split_commas(s@),
    {
        if s[i] == ',' {
            let piece = string_of_range(s, start, i);
            proof {
                assert(done.push(piece@) + pieces(s@, i + 1, i + 1) =~= done + pieces(
                    s@,
                    start as int,
                    i as int,
                ));
                done = done.push(piece@);
            }
            parts.push(piece);
            start = i + 1;
        }
    }
    let last = string_of_range(s, start, n);
    proof {
        assert(done.push(last@) =~= done + pieces(s@, start as int, n as int));
        done = done.push(last@);
    }
    parts.push(last);
    parts
}

/// The state after replaying the first `n` move texts from `p` with history `h`: no move
/// may follow the end of the game, and each must be legal.
pub open spec fn web_line(p: PositionModel, h: Seq<u64>, texts: Seq<Seq<char>>, n: int) -> Result<
    (PositionModel, Seq<u64>),
    Seq<char>,
>
    decreases n,
{
    if n <= 0 {
        Ok((p, h))
    } else {
        match web_line(p, h, texts, n - 1) {
            Err(e) => Err(e),
            Ok((q, hq)) => if game_over(q, hq) {
                Err("move after game over in history: "@ + texts[n - 1])
            } else {
                match uci_move(q, texts[n - 1]) {
                    None => Err("illegal move in history: "@ + texts[n - 1]),
                    Some(mv) => Ok((q.after_make(mv), hq.push(q.after_make(mv).hash))),
                }
            },
        }
    }
}

/// The game a web request describes: the start position, then the comma-separated moves
/// (none for `-` or an empty text).
pub open spec fn web_game(start: PositionModel, s: Seq<char>) -> Result<
    (PositionModel, Seq<u64>),
    Seq<char>,
> {
    if s == "-"@ || s.len() == 0 {
        Ok((start, seq![start.hash]))
    } else {
        web_line(start, seq![start.hash], split_commas(s), split_commas(s).len() as int)
    }
}

fn push_text(v: &mut Vec<char>, t: &str)
    ensures
        final(v)@ == old(v)@ + t@,
{
    let mut c = chars_of(t);
    v.append(&mut c);
}

/// A message followed by a move text.
fn message_with(msg: &str, text: &String) -> (s: String)
    ensures
        s@ == msg@ + text@,
{
    let mut v: Vec<char> = Vec::new();
    push_text(&mut v, msg);
    let mut t = chars_of(text.as_str());
    v.append(&mut t);
    string_of(&v)
}

/// Replays a game sent by the web front end: its moves in UCI notation separated by commas.
#[verifier::spinoff_prover]
#[verifier::rlimit(60)]
pub fn web_position(serialized: &str) -> (r: Result<(Position, Vec<u64>), String>)
    ensures
        fen_spec(START_FEN@) is None ==> (r matches Err(e) && e@ == fen_error(START_FEN@)),
        fen_spec(START_FEN@) matches Some(start) ==> match web_game(start, serialized@) {
            Ok((q, h)) => r matches Ok((p, hv)) && p@ == q && p@.wf() && hv@ == h,
            Err(m) => r matches Err(e) && e@ == m,
        },
{
    let mut pos = match from_fen(START_FEN) {
        Ok(p) => p,
        Err(e) => {
            return Err(e);
        },
    };
    let ghost start = pos@;
    let mut history: Vec<u64> = Vec::new();
    history.push(pos.hash);
    let chars = chars_of(serialized);
    let is_dash = chars.len() == 1 && chars[0] == '-';
    proof {
        reveal_strlit("-");
        if is_dash {
            assert(serialized@ =~= "-"@);
        }
        if serialized@ == "-"@ {
            assert(chars@.len() == 1 && chars@[0] == '-');
        }
    }
    if is_dash || chars.len() == 0 {
        assert(history@ =~= seq![start.hash]);
        return Ok((pos, history));
    }
    let texts = split_at_commas(&chars);
    let ghost ts = split_commas(serialized@);
    let n = texts.len();
    for i in 0..n
        invariant
            n == texts@.len(),
            n == ts.len(),
            ts == split_commas(serialized@),
            forall|j: int| 0 <= j < texts@.len() ==> #[trigger] texts@[j]@ == ts[j],
            pos@.wf(),
            fen_spec(START_FEN@) == Some(start),
            !(serialized@ == "-"@ || serialized@.len() == 0),
            web_line(start, seq![start.hash], ts, i as int) == Ok::<
                (PositionModel, Seq<u64>),
                Seq<char>,
            >((pos@, history@)),
    {
        let text = &texts[i];
        assert(text@ == ts[i as int]);
        if web_game_over(&pos, history.as_slice()) {
            proof {
                lemma_line_error_stays(start, seq![start.hash], ts, i as int + 1, n as int);
            }
            return Err(message_with("move after game over in history: ", text));
        }
        match parse_uci_move(&pos, text.as_str()) {
            Some(mv) => {
                proof {
                    lemma_pseudo_move_ok(pos@, mv, false);
                }
                pos.make_move(mv);
                history.push(pos.hash);
            },
            None => {
                proof {
                    lemma_line_error_stays(start, seq![start.hash], ts, i as int + 1, n as int);
                }
                return Err(message_with("illegal move in history: ", text));
            },
        }
    }
    Ok((pos, history))
}

proof fn lemma_line_error_stays(p: PositionModel, h: Seq<u64>, ts: Seq<Seq<char>>, j: int, n: int)
    requires
        1 <= j <= n,
        web_line(p, h, ts, j) is Err,
    ensures
        web_line(p, h, ts, n) == web_line(p, h, ts, j),
    decreases n - j,
{
    if n > j {
        lemma_line_error_stays(p, h, ts, j, n - 1);
    }
}

// ----- answers -----

/// The status the front end shows.
pub open spec fn status_text(p: PositionModel, history: Seq<u64>) -> Seq<char> {
    if !(exists|m: u32| legal_move(p, m, false)) {
        if p.in_check(p.side) {
            "checkmate"@
        } else {
            "stalemate"@
        }
    } else if p.halfmove >= 100 || insufficient_spec(p.board) || threefold(history, p.hash) {
        "draw"@
    } else if p.in_check(p.side) {
        "check"@
    } else {
        "playing"@
    }
}

/// Whether the game goes on, so that the legal moves are listed.
pub open spec fn still_playing(p: PositionModel, history: Seq<u64>) -> bool {
    (exists|m: u32| legal_move(p, m, false)) && !(p.halfmove >= 100 || insufficient_spec(p.board)
        || threefold(history, p.hash))
}

/// Moves in UCI notation, each in double quotes, separated by commas.
pub open spec fn quoted_moves(ms: Seq<u32>) -> Seq<char>
    decreases ms.len(),
{
    if ms.len() == 0 {
        seq![]
    } else if ms.len() == 1 {
        seq!['"'] + uci_spec(ms[0]) + seq!['"']
    } else {
        quoted_moves(ms.drop_last()) + seq![','] + seq!['"'] + uci_spec(ms.last()) + seq!['"']
    }
}

/// The JSON state of a game: position, side to move, status, check, the legal moves while
/// the game goes on, and the engine's move if it just played one.
pub open spec fn snapshot_text(
    p: PositionModel,
    history: Seq<u64>,
    engine: Option<u32>,
    ms: Seq<u32>,
) -> Seq<char> {
    "{\"ok\":true,\"fen\":\""@ + fen_text(p) + "\",\"side\":\""@ + (if p.side == 1 {
        "w"@
    } else {
        "b"@
    }) + "\",\"status\":\""@ + status_text(p, history) + "\",\"inCheck\":"@ + (if p.in_check(
        p.side,
    ) {
        "true"@
    } else {
        "false"@
    }) + ",\"legal\":["@ + (if still_playing(p, history) {
        quoted_moves(ms)
    } else {
        seq![]
    }) + "],\"engineMove\":"@ + match engine {
        Some(mv) => seq!['"'] + uci_spec(mv) + seq!['"'],
        None => "null"@,
    } + "}"@
}

fn push_quoted_moves(v: &mut Vec<char>, list: &MoveList)
    ensures
        final(v)@ == old(v)@ + quoted_moves(list.moves@),
{
    let n = list.moves.len();
    let ghost v0 = v@;
    for i in 0..n
        invariant
            n == list.moves@.len(),
            v@ == v0 + quoted_moves(list.moves@.subrange(0, i as int)),
    {
        let ghost before = v@;
        if i > 0 {
            v.push(',');
        }
        v.push('"');
        let mut u = uci_chars(list.moves[i]);
        v.append(&mut u);
        v.push('"');
        proof {
            let s = list.moves@.subrange(0, i + 1);
            assert(s.drop_last() =~= list.moves@.subrange(0, i as int));
            assert(s.last() == list.moves@[i as int]);
            if i == 0 {
                assert(quoted_moves(list.moves@.subrange(0, 0)) =~= seq![]);
                assert(v@ =~= v0 + quoted_moves(s));
            } else {
                assert(v@ =~= v0 + quoted_moves(s));
            }
        }
    }
    assert(list.moves@.subrange(0, n as int) =~= list.moves@);
}

/// The JSON state of the game for the front end. The legal moves are listed in the order
/// the generator produces them.
pub fn web_snapshot(pos: &Position, history: &[u64], engine_move: Option<u32>) -> (s: String)
    requires
        pos@.layout_ok(),
    ensures
        shows(s@, pos@, history@, engine_move),
{
    let ghost p = pos@;
    let in_check = pos.in_check(pos.side);
    let mut legal = MoveList::new();
    generate_legal(pos, &mut legal, false);
    let none_legal = legal.moves.len() == 0;
    proof {
        if none_legal {
            assert forall|m: u32| !legal_move(p, m, false) by {
                if legal_move(p, m, false) {
                    assert(legal.moves@.contains(m));
                }
            }
        } else {
            assert(legal.moves@.contains(legal.moves@[0]));
        }
    }
    let drawn = pos.halfmove >= 100 || insufficient_material(pos) || web_threefold(history, pos.hash);
    let status: &str = if none_legal {
        if in_check {
            "checkmate"
        } else {
            "stalemate"
        }
    } else if drawn {
        "draw"
    } else if in_check {
        "check"
    } else {
        "playing"
    };
    assert(status@ == status_text(p, history@));
    let mut v: Vec<char> = Vec::new();
    push_text(&mut v, "{\"ok\":true,\"fen\":\"");
    let mut fen = chars_of(pos.to_fen().as_str());
    v.append(&mut fen);
    push_text(&mut v, "\",\"side\":\"");
    push_text(
        &mut v,
        if pos.side == WHITE {
            "w"
        } else {
            "b"
        },
    );
    push_text(&mut v, "\",\"status\":\"");
    push_text(&mut v, status);
    push_text(&mut v, "\",\"inCheck\":");
    push_text(
        &mut v,
        if in_check {
            "true"
        } else {
            "false"
        },
    );
    push_text(&mut v, ",\"legal\":[");
    let ghost before_moves = v@;
    if !none_legal && !drawn {
        push_quoted_moves(&mut v, &legal);
    }
    push_text(&mut v, "],\"engineMove\":");
    match engine_move {
        Some(mv) => {
            v.push('"');
            let mut u = uci_chars(mv);
            v.append(&mut u);
            v.push('"');
        },
        None => {
            push_text(&mut v, "null");
        },
    }
    push_text(&mut v, "}");
    proof {
        let ms = legal.moves@;
        assert(still_playing(p, history@) == (!none_legal && !drawn));
        assert(v@ =~= snapshot_text(p, history@, engine_move, ms));
        assert(enumerates(p, ms));
    }
    string_of(&v)
}

/// A message with backslashes and double quotes escaped for a JSON string.
pub open spec fn escaped(s: Seq<char>) -> Seq<char>
    decreases s.len(),
{
    if s.len() == 0 {
        seq![]
    } else {
        let c = s.last();
        escaped(s.drop_last()) + if c == '\\' {
            seq!['\\', '\\']
        } else if c == '"' {
            seq!['\\', '"']
        } else {
            seq![c]
        }
    }
}

/// The JSON answer for a failed request.
pub fn web_error(message: &str) -> (s: String)
    ensures
        s@ == "{\"ok\":false,\"error\":\""@ + escaped(message@) + "\"}"@,
{
    let m = chars_of(message);
    let mut v: Vec<char> = Vec::new();
    push_text(&mut v, "{\"ok\":false,\"error\":\"");
    let ghost v0 = v@;
    let n = m.len();
    for i in 0..n
        invariant
            n == m@.len(),
            m@ == message@,
            v@ == v0 + escaped(message@.subrange(0, i as int)),
    {
        let c = m[i];
        if c == '\\' {
            v.push('\\');
            v.push('\\');
        } else if c == '"' {
            v.push('\\');
            v.push('"');
        } else {
            v.push(c);
        }
        proof {
            let s = message@.subrange(0, i + 1);
            assert(s.drop_last() =~= message@.subrange(0, i as int));
            assert(s.last() == c);
            assert(v@ =~= v0 + escaped(s));
        }
    }
    assert(message@.subrange(0, n as int) =~= message@);
    push_text(&mut v, "\"}");
    string_of(&v)
}


/// The JSON answer for a failed request with message `m`.
pub open spec fn error_text(m: Seq<char>) -> Seq<char> {
    "{\"ok\":false,\"error\":\""@ + escaped(m) + "\"}"@
}

/// `ms` lists each legal move of `p` once, and nothing else, in the order of generation
/// (`in_gen_order`).
pub open spec fn enumerates(p: PositionModel, ms: Seq<u32>) -> bool {
    &&& ms.no_duplicates()
    &&& crate::movegen::in_gen_order(ms, p)
    &&& forall|m: u32| #[trigger] ms.contains(m) <==> legal_move(p, m, false)
}

/// The answer is the state of `p` with history `h`, with its legal moves as `enumerates` lists them.
pub open spec fn shows(s: Seq<char>, p: PositionModel, h: Seq<u64>, engine: Option<u32>) -> bool {
    exists|ms: Seq<u32>| #[trigger] enumerates(p, ms) && s == snapshot_text(p, h, engine, ms)
}

/// While the game goes on (a legal move exists and no fifty-move, material or threefold draw
/// applies) the snapshot's legal list names every legal move of the position, each once, in
/// generation order, whether or not the side to move is in check.
pub proof fn law_snapshot_lists_every_legal_move(s: Seq<char>, p: PositionModel, h: Seq<u64>, engine: Option<u32>)
    requires
        shows(s, p, h, engine),
        exists|m: u32| legal_move(p, m, false),
        p.halfmove < 100,
        !insufficient_spec(p.board),
        !threefold(h, p.hash),
    ensures
        exists|pre: Seq<char>, ms: Seq<u32>, post: Seq<char>|
            #![trigger enumerates(p, ms), pre.len(), post.len()]
            enumerates(p, ms) && ms.len() > 0 && s == pre + ",\"legal\":["@ + quoted_moves(ms)
                + "],\"engineMove\":"@ + post,
{
    let ms = choose|ms: Seq<u32>| #[trigger] enumerates(p, ms) && s == snapshot_text(p, h, engine, ms);
    let m = choose|m: u32| legal_move(p, m, false);
    assert(ms.contains(m));
    let pre = "{\"ok\":true,\"fen\":\""@ + fen_text(p) + "\",\"side\":\""@ + (if p.side == 1 {
        "w"@
    } else {
        "b"@
    }) + "\",\"status\":\""@ + status_text(p, h) + "\",\"inCheck\":"@ + (if p.in_check(p.side) {
        "true"@
    } else {
        "false"@
    });
    let post = match engine {
        Some(mv) => seq!['"'] + uci_spec(mv) + seq!['"'],
        None => "null"@,
    } + "}"@;
    assert(s =~= pre + ",\"legal\":["@ + quoted_moves(ms) + "],\"engineMove\":"@ + post);
    assert(enumerates(p, ms) && ms.len() > 0 && s == pre + ",\"legal\":["@ + quoted_moves(ms)
        + "],\"engineMove\":"@ + post && pre.len() == pre.len() && post.len() == post.len());
}

/// What a web request answers, given the game it describes: `state` shows it, `play` plays
/// the player's move, `engine` lets the engine move (any legal move: its choice depends on
/// the clock).
pub open spec fn web_reply(args: Seq<Seq<char>>, q: PositionModel, h: Seq<u64>, s: Seq<char>) -> bool {
    if args[0] == "state"@ {
        shows(s, q, h, None)
    } else if args[0] == "play"@ {
        if game_over(q, h) {
            s == error_text("game is already over"@)
        } else if args.len() < 3 {
            s == error_text("missing player move"@)
        } else {
            match uci_move(q, args[2]) {
                None => s == error_text("illegal player move"@),
                Some(mv) => shows(s, q.after_make(mv), h.push(q.after_make(mv).hash), None),
            }
        }
    } else if args[0] == "engine"@ {
        if game_over(q, h) {
            shows(s, q, h, None)
        } else {
            exists|mv: u32|
                legal_move(q, mv, false) && #[trigger] shows(
                    s,
                    q.after_make(mv),
                    h.push(q.after_make(mv).hash),
                    Some(mv),
                )
        }
    } else {
        s == error_text("unknown web action"@)
    }
}

fn error_answer(msg: &str) -> (s: String)
    ensures
        s@ == error_text(msg@),
{
    web_error(msg)
}

/// The `play` action: the player's move (`args[2]`) in the game `pos`, `history`.
fn answer_play(pos: Position, history: Vec<u64>, args: &Vec<String>) -> (s: String)
    requires
        pos@.wf(),
        args@.len() > 0,
    ensures
        ({
            let q = pos@;
            let h = history@;
            if game_over(q, h) {
                s@ == error_text("game is already over"@)
            } else if args@.len() < 3 {
                s@ == error_text("missing player move"@)
            } else {
                match uci_move(q, args@[2]@) {
                    None => s@ == error_text("illegal player move"@),
                    Some(mv) => shows(s@, q.after_make(mv), h.push(q.after_make(mv).hash), None),
                }
            }
        }),
{
    let mut pos = pos;
    let mut history = history;
    if web_game_over(&pos, history.as_slice()) {
        return error_answer("game is already over");
    }
    if args.len() < 3 {
        return error_answer("missing player move");
    }
    let mv = match parse_uci_move(&pos, args[2].as_str()) {
        Some(m) => m,
        None => {
            return error_answer("illegal player move");
        },
    };
    proof {
        lemma_pseudo_move_ok(pos@, mv, false);
    }
    pos.make_move(mv);
    history.push(pos.hash);
    web_snapshot(&pos, history.as_slice(), None)
}

/// The `engine` action: the engine thinks for `args[2]` milliseconds (650 by default, kept
/// between 25 and 5000) and plays its move.
fn answer_engine(pos: Position, history: Vec<u64>, args: &Vec<String>) -> (s: String)
    requires
        pos@.wf(),
    ensures
        ({
            let q = pos@;
            let h = history@;
            if game_over(q, h) {
                shows(s@, q, h, None)
            } else {
                exists|mv: u32|
                    legal_move(q, mv, false) && #[trigger] shows(
                        s@,
                        q.after_make(mv),
                        h.push(q.after_make(mv).hash),
                        Some(mv),
                    )
            }
        }),
{
    let mut pos = pos;
    let mut history = history;
    let ghost q = pos@;
    let ghost h = history@;
    let mut legal = MoveList::new();
    generate_legal(&pos, &mut legal, false);
    if legal.moves.len() == 0 || web_game_over(&pos, history.as_slice()) {
        proof {
            if legal.moves.len() == 0 {
                assert forall|m: u32| !legal_move(q, m, false) by {
                    if legal_move(q, m, false) {
                        assert(legal.moves@.contains(m));
                    }
                }
            }
        }
        return web_snapshot(&pos, history.as_slice(), None);
    }
    let requested: u64 = if args.len() > 2 {
        match parse_unsigned(&chars_of(args[2].as_str()), u64::MAX) {
            Some(v) => v,
            None => 650,
        }
    } else {
        650
    };
    let think_ms: u64 = if requested < 25 {
        25
    } else if requested > 5000 {
        5000
    } else {
        requested
    };
    let mut searcher = Searcher::new(16, Arc::new(AtomicBool::new(false)));
    searcher.silent = true;
    let hard_ms = if think_ms - 4 > 1 {
        think_ms - 4
    } else {
        1
    };
    let best = searcher.search(
        &mut pos,
        GoLimits { depth: 64, soft: Some(hard_ms * 9 / 10), hard: Some(hard_ms), nodes: None },
        history.as_slice(),
    );
    if best == 0 {
        return error_answer("engine returned an illegal move");
    }
    proof {
        lemma_pseudo_move_ok(pos@, best, false);
    }
    pos.make_move(best);
    history.push(pos.hash);
    let s = web_snapshot(&pos, history.as_slice(), Some(best));
    assert(shows(s@, q.after_make(best), h.push(q.after_make(best).hash), Some(best)));
    s
}

/// Answers a request of the web front end: an action (`state`, `play` or `engine`), the
/// game's moves, and the player's move or the engine's thinking time.
pub fn web_answer(args: &Vec<String>) -> (s: String)
    ensures
        args@.len() == 0 ==> s@ == error_text("missing web action"@),
        args@.len() > 0 && fen_spec(START_FEN@) is None ==> s@ == error_text(fen_error(START_FEN@)),
        args@.len() > 0 ==> (fen_spec(START_FEN@) matches Some(start) ==> match web_game(
            start,
            if args@.len() > 1 {
                args@[1]@
            } else {
                "-"@
            },
        ) {
            Err(m) => s@ == error_text(m),
            Ok((q, h)) => web_reply(args@.map_values(|a: String| a@), q, h, s@),
        }),
{
    if args.len() == 0 {
        return error_answer("missing web action");
    }
    let ghost av = args@.map_values(|a: String| a@);
    let moves: &str = if args.len() > 1 {
        args[1].as_str()
    } else {
        "-"
    };
    let (pos, history) = match web_position(moves) {
        Ok(ph) => ph,
        Err(e) => {
            return web_error(e.as_str());
        },
    };
    let action = chars_of(args[0].as_str());
    assert(av[0] == args@[0]@);
    if crate::protocol::word_is(&action, "state") {
        return web_snapshot(&pos, history.as_slice(), None);
    }
    if crate::protocol::word_is(&action, "play") {
        assert(args@.len() >= 3 ==> av[2] == args@[2]@);
        return answer_play(pos, history, args);
    }
    if crate::protocol::word_is(&action, "engine") {
        return answer_engine(pos, history, args);
    }
    error_answer("unknown web action")
}

} // verus!
