//! A UCI session: the engine's state between commands, and what each command line does.

use vstd::prelude::*;
use std::sync::atomic::AtomicBool;
use std::sync::Arc;
use crate::eval::{evaluate, evaluation};
use crate::fen::{decimal, fen_error, fen_spec, from_fen, push_decimal, START_FEN};
use crate::movegen::legal_move;
use crate::position::Position;
use crate::protocol::{go_limits, go_settings, parse_go, position_command, position_error, set_position};
use crate::search::{SearchReport, Searcher};
use crate::text::{
    chars_of, is_whitespace, is_ws, parse_unsigned, parse_unsigned_spec, split_whitespace,
    split_ws, string_of, uci_chars, uci_spec,
};
use crate::tt::TransTable;

verus! {

/// A line the engine writes: to standard output, or as a diagnostic to standard error.
pub struct UciReply {
    pub diagnostic: bool,
    pub text: String,
}

/// The engine's state between UCI commands.
pub struct UciSession {
    pub pos: Position,
    pub history: Vec<u64>,
    pub hash_mb: usize,
    pub searcher: Searcher,
}

/// Number of leading whitespace characters.
pub open spec fn lead_ws(s: Seq<char>) -> nat
    decreases s.len(),
{
    if s.len() == 0 || !is_ws(s[0]) {
        0
    } else {
        1 + lead_ws(s.drop_first())
    }
}

/// Number of trailing whitespace characters.
pub open spec fn trail_ws(s: Seq<char>) -> nat
    decreases s.len(),
{
    if s.len() == 0 || !is_ws(s.last()) {
        0
    } else {
        1 + trail_ws(s.drop_last())
    }
}

/// The text without leading and trailing whitespace (like `str::trim`).
pub open spec fn trimmed(s: Seq<char>) -> Seq<char> {
    if lead_ws(s) >= s.len() {
        seq![]
    } else {
        s.subrange(lead_ws(s) as int, s.len() - trail_ws(s))
    }
}

pub open spec fn has_prefix(s: Seq<char>, p: Seq<char>) -> bool {
    s.len() >= p.len() && s.subrange(0, p.len() as int) == p
}

pub open spec fn has_suffix(s: Seq<char>, p: Seq<char>) -> bool {
    s.len() >= p.len() && s.subrange(s.len() - p.len(), s.len() as int) == p
}

/// Which command a trimmed line is, trying them in this order: `uci`, `isready`,
/// `ucinewgame`, the Hash option, the OwnBook option, `position`, `go`, `stop`, `quit`, `d`;
/// anything else is ignored.
pub open spec fn command_kind(c: Seq<char>) -> int {
    if c == "uci"@ {
        0
    } else if c == "isready"@ {
        1
    } else if c == "ucinewgame"@ {
        2
    } else if has_prefix(c, "setoption name Hash value "@) {
        3
    } else if has_prefix(c, "setoption name OwnBook value "@) {
        4
    } else if has_prefix(c, "position "@) {
        5
    } else if has_prefix(c, "go"@) {
        6
    } else if c == "stop"@ {
        7
    } else if c == "quit"@ {
        8
    } else if c == "d"@ {
        9
    } else {
        10
    }
}

/// A signed number in decimal.
pub open spec fn signed_decimal(x: int) -> Seq<char> {
    if x < 0 {
        seq!['-'] + decimal((-x) as nat)
    } else {
        decimal(x as nat)
    }
}

pub open spec fn hex_digit(d: int) -> char {
    if d < 10 {
        (48 + d) as char
    } else {
        (87 + d) as char
    }
}

/// The last `k` hexadecimal digits of `n`, zero-padded.
pub open spec fn hex_text(n: nat, k: nat) -> Seq<char>
    decreases k,
{
    if k == 0 {
        seq![]
    } else {
        hex_text(n / 16, (k - 1) as nat).push(hex_digit((n % 16) as int))
    }
}

/// The line reporting a search's progress.
pub open spec fn report_text(r: SearchReport) -> Seq<char> {
    match r {
        SearchReport::Book(mv) => "info string book "@ + uci_spec(mv),
        SearchReport::Iteration(it) => "info depth "@ + signed_decimal(it.depth as int)
            + " seldepth "@ + decimal(it.seldepth as nat) + match it.mate_in {
            Some(k) => " score mate "@ + signed_decimal(k as int),
            None => " score cp "@ + signed_decimal(it.score as int),
        } + " nodes "@ + decimal(it.nodes as nat) + " nps "@ + decimal(it.nps as nat)
            + " time "@ + decimal(it.time_ms as nat) + " pv "@ + uci_spec(it.best),
    }
}

/// The answer to `go`: the move in UCI notation, or `0000` when there is none.
pub open spec fn bestmove_text(mv: u32) -> Seq<char> {
    "bestmove "@ + if mv == 0 {
        "0000"@
    } else {
        uci_spec(mv)
    }
}

/// The value of the Hash option in a `setoption` line: its last word, between 1 and 512.
pub open spec fn hash_option(c: Seq<char>) -> Option<int> {
    let w = split_ws(c);
    if w.len() == 0 {
        None
    } else {
        match parse_unsigned_spec(w.last(), usize::MAX as int) {
            Some(v) => Some(
                if v < 1 {
                    1
                } else if v > 512 {
                    512
                } else {
                    v
                },
            ),
            None => None,
        }
    }
}

/// An empty transposition table sized for `mb` MiB.
pub open spec fn fresh_table(t: TransTable, mb: int) -> bool {
    &&& crate::tt::slot_count_for(mb, t.entries@.len() as int)
    &&& forall|i: int| 0 <= i < t.entries@.len() ==> #[trigger] t.entries@[i] == crate::tt::empty_entry()
    &&& t.age == 0
}

/// The searcher forgets what it learned: an empty table of `mb` mebibytes, no killers,
/// history or counter moves.
pub open spec fn fresh_memory(s: Searcher, mb: int) -> bool {
    &&& fresh_table(s.tt, mb)
    &&& forall|i: int| 0 <= i < s.killers@.len() ==> #[trigger] s.killers@[i] == 0
    &&& forall|i: int| 0 <= i < s.history@.len() ==> #[trigger] s.history@[i] == 0
    &&& forall|i: int| 0 <= i < s.counter@.len() ==> #[trigger] s.counter@[i] == 0
}

fn push_text(v: &mut Vec<char>, t: &str)
    ensures
        final(v)@ == old(v)@ + t@,
{
    let mut c = chars_of(t);
    v.append(&mut c);
}

fn out(text: &str) -> (r: UciReply)
    ensures
        !r.diagnostic,
        r.text@ == text@,
{
    UciReply { diagnostic: false, text: String::from_str(text) }
}

/// Appends a signed number in decimal.
fn push_signed(v: &mut Vec<char>, x: i64)
    ensures
        final(v)@ == old(v)@ + signed_decimal(x as int),
{
    if x < 0 {
        v.push('-');
        let m: u64 = if x == i64::MIN {
            9223372036854775808u64
        } else {
            (-x) as u64
        };
        push_decimal(v, m);
        assert(final(v)@ =~= old(v)@ + signed_decimal(x as int));
    } else {
        push_decimal(v, x as u64);
    }
}

/// Appends the sixteen hexadecimal digits of `n`.
fn push_hex(v: &mut Vec<char>, n: u64)
    ensures
        final(v)@ == old(v)@ + hex_text(n as nat, 16),
{
    let mut digits: Vec<char> = Vec::new();
    let mut m = n;
    let mut k: u64 = 0;
    assert(pow16(0) == 1);
    assert(n as nat / 1 == n as nat);
    while k < 16
        invariant
            k <= 16,
            digits@.len() == k,
            forall|i: int|
                0 <= i < k ==> #[trigger] digits@[i] == hex_digit(((n as nat / pow16(i as nat))
                    % 16) as int),
            m as nat == n as nat / pow16(k as nat),
        decreases 16 - k,
    {
        let d = m % 16;
        let c: char = if d < 10 {
            ((48 + d) as u8) as char
        } else {
            ((87 + d) as u8) as char
        };
        digits.push(c);
        proof {
            lemma_pow16_step(n as nat, k as nat);
        }
        m = m / 16;
        k = k + 1;
    }
    let ghost v0 = v@;
    let mut j: usize = 16;
    while j > 0
        invariant
            j <= 16,
            digits@.len() == 16,
            forall|i: int|
                0 <= i < 16 ==> #[trigger] digits@[i] == hex_digit(((n as nat / pow16(i as nat))
                    % 16) as int),
            v@ == v0 + hex_text(n as nat / pow16(j as nat), (16 - j) as nat),
        decreases j,
    {
        j = j - 1;
        proof {
            lemma_hex_text_step(n as nat, j as nat);
        }
        v.push(digits[j]);
    }
    proof {
        assert(pow16(0) == 1);
    }
}

pub open spec fn pow16(k: nat) -> nat
    decreases k,
{
    if k == 0 {
        1
    } else {
        16 * pow16((k - 1) as nat)
    }
}

proof fn lemma_pow16_step(n: nat, k: nat)
    ensures
        n / pow16(k + 1) == (n / pow16(k)) / 16,
        pow16(k) > 0,
    decreases k,
{
    if k > 0 {
        lemma_pow16_step(n, (k - 1) as nat);
    }
    assert(pow16(k + 1) == 16 * pow16(k));
    vstd::arithmetic::div_mod::lemma_div_denominator(n as int, pow16(k) as int, 16);
    assert(pow16(k) * 16 == 16 * pow16(k)) by (nonlinear_arith);
}

proof fn lemma_hex_text_step(n: nat, j: nat)
    requires
        j < 16,
    ensures
        hex_text(n / pow16(j), (16 - j) as nat) == hex_text(n / pow16(j + 1), (16 - (j + 1)) as nat).push(
            hex_digit(((n / pow16(j)) % 16) as int),
        ),
{
    lemma_pow16_step(n, j);
    lemma_hex_text_shift(n / pow16(j), (15 - j) as nat);
}

proof fn lemma_hex_text_shift(n: nat, k: nat)
    ensures
        hex_text(n, k + 1) == hex_text(n / 16, k).push(hex_digit((n % 16) as int)),
{
}


proof fn lemma_lead_exact(s: Seq<char>, i: int)
    requires
        0 <= i <= s.len(),
        forall|j: int| 0 <= j < i ==> is_ws(#[trigger] s[j]),
        i == s.len() || !is_ws(s[i]),
    ensures
        lead_ws(s) == i,
    decreases i,
{
    if i > 0 {
        let t = s.drop_first();
        assert forall|j: int| 0 <= j < i - 1 implies is_ws(#[trigger] t[j]) by {
            assert(t[j] == s[j + 1]);
        }
        if i < s.len() {
            assert(t[i - 1] == s[i]);
        }
        assert(is_ws(s[0]));
        lemma_lead_exact(t, i - 1);
    }
}

proof fn lemma_trail_exact(s: Seq<char>, k: int)
    requires
        0 <= k <= s.len(),
        forall|j: int| s.len() - k <= j < s.len() ==> is_ws(#[trigger] s[j]),
        k == s.len() || !is_ws(s[s.len() - k - 1]),
    ensures
        trail_ws(s) == k,
    decreases k,
{
    if k > 0 {
        let t = s.drop_last();
        assert forall|j: int| t.len() - (k - 1) <= j < t.len() implies is_ws(#[trigger] t[j]) by {
            assert(t[j] == s[j]);
        }
        if k < s.len() {
            assert(t[t.len() - (k - 1) - 1] == s[s.len() - k - 1]);
        }
        assert(is_ws(s[s.len() - 1]));
        lemma_trail_exact(t, k - 1);
    }
}

/// The characters without leading and trailing whitespace.
fn trim_chars(s: &Vec<char>) -> (t: Vec<char>)
    ensures
        t@ == trimmed(s@),
{
    let n = s.len();
    let mut i: usize = 0;
    while i < n && is_whitespace(s[i])
        invariant
            n == s@.len(),
            i <= n,
            forall|j: int| 0 <= j < i ==> is_ws(#[trigger] s@[j]),
        decreases n - i,
    {
        i = i + 1;
    }
    proof {
        lemma_lead_exact(s@, i as int);
    }
    if i == n {
        return Vec::new();
    }
    let mut end: usize = n;
    while end > i && is_whitespace(s[end - 1])
        invariant
            n == s@.len(),
            i < n,
            !is_ws(s@[i as int]),
            i <= end <= n,
            forall|j: int| end <= j < n ==> is_ws(#[trigger] s@[j]),
        decreases end,
    {
        end = end - 1;
    }
    proof {
        if end == i {
            assert(false);
        }
        lemma_trail_exact(s@, (n - end) as int);
    }
    let mut t: Vec<char> = Vec::new();
    for j in i..end
        invariant
            i <= end <= n,
            n == s@.len(),
            t@ == s@.subrange(i as int, j as int),
    {
        t.push(s[j]);
        assert(t@ =~= s@.subrange(i as int, j + 1));
    }
    t
}

/// Whether the text starts with `lit`.
fn starts_with_text(c: &Vec<char>, lit: &str) -> (r: bool)
    ensures
        r == has_prefix(c@, lit@),
{
    let l = chars_of(lit);
    if c.len() < l.len() {
        return false;
    }
    let n = l.len();
    for i in 0..n
        invariant
            n == l@.len(),
            n <= c@.len(),
            l@ == lit@,
            forall|j: int| 0 <= j < i ==> c@[j] == l@[j],
    {
        if c[i] != l[i] {
            proof {
                assert(c@.subrange(0, n as int)[i as int] != lit@[i as int]);
            }
            return false;
        }
    }
    assert(c@.subrange(0, n as int) =~= lit@);
    true
}

/// Whether the text ends with `lit`.
fn ends_with_text(c: &Vec<char>, lit: &str) -> (r: bool)
    ensures
        r == has_suffix(c@, lit@),
{
    let l = chars_of(lit);
    if c.len() < l.len() {
        return false;
    }
    let n = l.len();
    let off = c.len() - n;
    for i in 0..n
        invariant
            n == l@.len(),
            off + n == c@.len(),
            c@.len() <= usize::MAX,
            l@ == lit@,
            forall|j: int| 0 <= j < i ==> c@[off + j] == l@[j],
    {
        if c[off + i] != l[i] {
            proof {
                assert(c@.subrange(off as int, c@.len() as int)[i as int] != lit@[i as int]);
            }
            return false;
        }
    }
    assert(c@.subrange(off as int, c@.len() as int) =~= lit@);
    true
}

/// The line reporting a search's progress.
pub fn report_line(r: &SearchReport) -> (s: String)
    ensures
        s@ == report_text(*r),
{
    let mut v: Vec<char> = Vec::new();
    match r {
        SearchReport::Book(mv) => {
            push_text(&mut v, "info string book ");
            let mut u = uci_chars(*mv);
            v.append(&mut u);
        },
        SearchReport::Iteration(it) => {
            push_text(&mut v, "info depth ");
            push_signed(&mut v, it.depth as i64);
            push_text(&mut v, " seldepth ");
            push_decimal(&mut v, it.seldepth as u64);
            match it.mate_in {
                Some(k) => {
                    push_text(&mut v, " score mate ");
                    push_signed(&mut v, k as i64);
                },
                None => {
                    push_text(&mut v, " score cp ");
                    push_signed(&mut v, it.score as i64);
                },
            }
            push_text(&mut v, " nodes ");
            push_decimal(&mut v, it.nodes);
            push_text(&mut v, " nps ");
            push_decimal(&mut v, it.nps);
            push_text(&mut v, " time ");
            push_decimal(&mut v, it.time_ms);
            push_text(&mut v, " pv ");
            let mut u = uci_chars(it.best);
            v.append(&mut u);
        },
    }
    assert(v@ =~= report_text(*r));
    string_of(&v)
}

impl Searcher {
    /// Forgets everything learned: a new table of `mb` mebibytes, no killers, history or
    /// counter moves.
    pub fn forget(&mut self, mb: usize)
        requires
            old(self).wf(),
            mb <= 4095,
        ensures
            final(self).wf(),
            fresh_memory(*final(self), mb as int),
            final(self).own_book == old(self).own_book,
            final(self).silent == old(self).silent,
            final(self).stop == old(self).stop,
            final(self).hashes == old(self).hashes,
            final(self).hash_len == old(self).hash_len,
    {
        self.tt = TransTable::new(mb);
        self.killers = zeros_u32(2 * crate::board::MAX_PLY);
        self.history = zeros_i32(768);
        self.counter = zeros_u32(4096);
    }
}

fn zeros_u32(n: usize) -> (v: Vec<u32>)
    ensures
        v@.len() == n,
        forall|i: int| 0 <= i < n ==> #[trigger] v@[i] == 0,
{
    let mut v: Vec<u32> = Vec::new();
    for i in 0..n
        invariant
            v@.len() == i,
            forall|j: int| 0 <= j < i ==> #[trigger] v@[j] == 0,
    {
        v.push(0);
    }
    v
}

fn zeros_i32(n: usize) -> (v: Vec<i32>)
    ensures
        v@.len() == n,
        forall|i: int| 0 <= i < n ==> #[trigger] v@[i] == 0,
{
    let mut v: Vec<i32> = Vec::new();
    for i in 0..n
        invariant
            v@.len() == i,
            forall|j: int| 0 <= j < i ==> #[trigger] v@[j] == 0,
    {
        v.push(0);
    }
    v
}

impl UciSession {
    pub open spec fn wf(&self) -> bool {
        &&& self.pos@.wf()
        &&& self.searcher.wf()
        &&& 1 <= self.hash_mb <= 512
    }

    /// A session at the starting position with a 64 MiB table, stopped through `stop`.
    pub fn new(stop: Arc<AtomicBool>) -> (r: Result<UciSession, String>)
        ensures
            r is Err <==> fen_spec(START_FEN@) is None,
            r matches Err(e) ==> e@ == fen_error(START_FEN@),
            r matches Ok(s) ==> {
                &&& s.wf()
                &&& fen_spec(START_FEN@) == Some(s.pos@)
                &&& s.history@ == seq![s.pos.hash]
                &&& s.hash_mb == 64
                &&& s.searcher.stop == stop
                &&& s.searcher.own_book
            },
    {
        let pos = match from_fen(START_FEN) {
            Ok(p) => p,
            Err(e) => {
                return Err(e);
            },
        };
        let mut history: Vec<u64> = Vec::new();
        history.push(pos.hash);
        let searcher = Searcher::new(64, stop);
        Ok(UciSession { pos, history, hash_mb: 64, searcher })
    }

    /// Carries out one command line; answers the lines to write and whether to quit.
    /// Fails only when the starting position cannot be read.
    #[verifier::spinoff_prover]
    pub fn handle(&mut self, line: &str) -> (r: Result<(Vec<UciReply>, bool), String>)
        requires
            old(self).wf(),
        ensures
            ({
                let c = trimmed(line@);
                let k = command_kind(c);
                &&& (r is Err <==> k == 2 && fen_spec(START_FEN@) is None)
                &&& (r matches Err(e) ==> e@ == fen_error(START_FEN@))
                &&& r matches Ok((replies, quit)) ==> {
                    &&& final(self).wf()
                    &&& quit == (k == 8)
                    &&& (k != 2 && k != 5 && k != 6 ==> final(self).pos == old(self).pos
                        && final(self).history@ == old(self).history@)
                    &&& (k == 0 ==> replies@.len() == 5 && replies@[0].text@ == "id name Warhorse 1.0"@
                        && replies@[1].text@ == "id author OpenCode"@ && replies@[2].text@
                        == "option name Hash type spin default 64 min 1 max 512"@
                        && replies@[3].text@ == "option name OwnBook type check default true"@
                        && replies@[4].text@ == "uciok"@ && forall|i: int|
                        0 <= i < 5 ==> !(#[trigger] replies@[i]).diagnostic)
                    &&& (k == 1 ==> replies@.len() == 1 && replies@[0].text@ == "readyok"@
                        && !replies@[0].diagnostic)
                    &&& (k == 2 ==> replies@.len() == 0 && fen_spec(START_FEN@) == Some(
                        final(self).pos@,
                    ) && final(self).history@ == seq![final(self).pos.hash] && fresh_memory(
                        final(self).searcher,
                        old(self).hash_mb as int,
                    ) && final(self).hash_mb == old(self).hash_mb)
                    &&& (k == 3 ==> replies@.len() == 0 && match hash_option(c) {
                        Some(v) => final(self).hash_mb == v && fresh_table(final(self).searcher.tt, v)
                            && final(self).searcher == (Searcher {
                            tt: final(self).searcher.tt,
                            ..old(self).searcher
                        }),
                        None => final(self).hash_mb == old(self).hash_mb && final(self).searcher
                            == old(self).searcher,
                    })
                    &&& (k == 4 ==> replies@.len() == 0 && final(self).searcher == (Searcher {
                        own_book: has_suffix(c, "true"@),
                        ..old(self).searcher
                    }) && final(self).hash_mb == old(self).hash_mb)
                    &&& (k == 0 || k == 1 || k == 7 || k == 8 || k == 9 || k == 10 ==> *final(self)
                        == *old(self))
                    &&& (k == 5 ==> match position_command(split_ws(c)) {
                        Some((q, h)) => replies@.len() == 0 && final(self).pos@ == q
                            && final(self).history@ == h,
                        None => replies@.len() == 1 && replies@[0].diagnostic && final(self).pos
                            == old(self).pos && final(self).history@ == old(self).history@
                            && replies@[0].text@ == "position error: "@ + position_error(
                            split_ws(c),
                        ),
                    })
                    &&& (k == 6 ==> final(self).pos@ == old(self).pos@ && final(self).history@
                        == old(self).history@ && replies@.len() >= 1 && !replies@.last().diagnostic
                        && exists|best: u32| #[trigger] bestmove_text(best) == replies@.last().text@
                        && (best == 0) == !(exists|m: u32| legal_move(old(self).pos@, m, false))
                        && (best != 0 ==> legal_move(old(self).pos@, best, false)))
                    &&& (k == 6 ==> {
                        let limits = go_limits(go_settings(split_ws(c)), old(self).pos.side as int);
                        &&& replies@.len() == final(self).searcher.reports@.len() + 1
                        &&& forall|i: int|
                            0 <= i < final(self).searcher.reports@.len() ==> !(
                            #[trigger] replies@[i]).diagnostic && replies@[i].text@ == report_text(
                                final(self).searcher.reports@[i],
                            )
                        &&& (final(self).searcher.reports@.len() > 0 ==> (
                        final(self).searcher.reports@.last() matches SearchReport::Iteration(it)
                            ==> replies@.last().text@ == bestmove_text(it.best)))
                        &&& crate::search::iterations_ok(final(self).searcher.reports@, old(self).pos@)
                        &&& final(self).searcher.node_limit == limits.nodes
                        &&& final(self).searcher.soft_limit == limits.soft
                        &&& final(self).searcher.hard_limit == limits.hard
                        &&& final(self).hash_mb == old(self).hash_mb
                        &&& final(self).searcher.own_book == old(self).searcher.own_book
                    })
                    &&& (k == 9 ==> replies@.len() == 1 && replies@[0].diagnostic
                        && replies@[0].text@ == "fen hash "@ + hex_text(old(self).pos.hash as nat, 16)
                        + " eval "@ + signed_decimal(evaluation(old(self).pos@)))
                    &&& (k == 7 || k == 8 || k == 10 ==> replies@.len() == 0)
                }
            }),
    {
        let c = trim_chars(&chars_of(line));
        let ghost cs = trimmed(line@);
        let mut replies: Vec<UciReply> = Vec::new();
        if crate::protocol::word_is(&c, "uci") {
            replies.push(out("id name Warhorse 1.0"));
            replies.push(out("id author OpenCode"));
            replies.push(out("option name Hash type spin default 64 min 1 max 512"));
            replies.push(out("option name OwnBook type check default true"));
            replies.push(out("uciok"));
            return Ok((replies, false));
        }
        if crate::protocol::word_is(&c, "isready") {
            replies.push(out("readyok"));
            return Ok((replies, false));
        }
        if crate::protocol::word_is(&c, "ucinewgame") {
            let start = match from_fen(START_FEN) {
                Ok(p) => p,
                Err(e) => {
                    return Err(e);
                },
            };
            self.pos = start;
            let mut history: Vec<u64> = Vec::new();
            history.push(self.pos.hash);
            self.history = history;
            self.searcher.forget(self.hash_mb);
            return Ok((replies, false));
        }
        if starts_with_text(&c, "setoption name Hash value ") {
            let words = split_whitespace(&c);
            proof {
                assert(words@.len() == split_ws(cs).len());
            }
            if words.len() > 0 {
                let last = &words[words.len() - 1];
                assert(last@ == split_ws(cs).last());
                match parse_unsigned(last, usize::MAX as u64) {
                    Some(v) => {
                        let mb: usize = if v < 1 {
                            1
                        } else if v > 512 {
                            512
                        } else {
                            v as usize
                        };
                        self.hash_mb = mb;
                        self.searcher.tt = TransTable::new(mb);
                    },
                    None => {},
                }
            }
            return Ok((replies, false));
        }
        if starts_with_text(&c, "setoption name OwnBook value ") {
            self.searcher.own_book = ends_with_text(&c, "true");
            return Ok((replies, false));
        }
        let text = string_of(&c);
        if starts_with_text(&c, "position ") {
            match set_position(text.as_str(), &mut self.pos, &mut self.history) {
                Ok(()) => {},
                Err(e) => {
                    let mut v: Vec<char> = Vec::new();
                    push_text(&mut v, "position error: ");
                    let mut ec = chars_of(e.as_str());
                    v.append(&mut ec);
                    replies.push(UciReply { diagnostic: true, text: string_of(&v) });
                },
            }
            return Ok((replies, false));
        }
        if starts_with_text(&c, "go") {
            let limits = parse_go(text.as_str(), self.pos.side);
            let best = self.searcher.search(&mut self.pos, limits, self.history.as_slice());
            let n = self.searcher.reports.len();
            let ghost reports = self.searcher.reports@;
            let mut i: usize = 0;
            while i < n
                invariant
                    reports == self.searcher.reports@,
                    n == reports.len(),
                    i <= n,
                    replies@.len() == i,
                    forall|j: int|
                        0 <= j < i ==> !(#[trigger] replies@[j]).diagnostic && replies@[j].text@
                            == report_text(reports[j]),
                decreases n - i,
            {
                let line = report_line(&self.searcher.reports[i]);
                replies.push(UciReply { diagnostic: false, text: line });
                i = i + 1;
            }
            let mut v: Vec<char> = Vec::new();
            push_text(&mut v, "bestmove ");
            if best == 0 {
                push_text(&mut v, "0000");
            } else {
                let mut u = uci_chars(best);
                v.append(&mut u);
            }
            let bm = string_of(&v);
            assert(bm@ == bestmove_text(best));
            replies.push(UciReply { diagnostic: false, text: bm });
            return Ok((replies, false));
        }
        if crate::protocol::word_is(&c, "stop") {
            crate::clock::clear_stop(&self.searcher.stop);
            return Ok((replies, false));
        }
        if crate::protocol::word_is(&c, "quit") {
            return Ok((replies, true));
        }
        if crate::protocol::word_is(&c, "d") {
            let mut v: Vec<char> = Vec::new();
            push_text(&mut v, "fen hash ");
            push_hex(&mut v, self.pos.hash);
            push_text(&mut v, " eval ");
            let e = evaluate(&self.pos);
            push_signed(&mut v, e as i64);
            replies.push(UciReply { diagnostic: true, text: string_of(&v) });
            return Ok((replies, false));
        }
        Ok((replies, false))
    }
}

} // verus!
