//! Alpha-beta search: iterative deepening over a principal-variation negamax with
//! quiescence, a transposition table and move-ordering heuristics.

use vstd::prelude::*;
use std::sync::atomic::AtomicBool;
use std::sync::Arc;
use std::time::Instant;
use crate::board::{
    abs_of, kind, move_from, move_from_spec, move_promo, move_promo_spec, move_to, move_to_spec,
    piece_index, piece_index_spec, piece_value, piece_value_spec, FLAG_CAPTURE, FLAG_EP,
    FLAG_PROMO, INF, MATE, MAX_PLY, PAWN,
};
use crate::clock::{clock_now, millis_since, stop_requested};
use crate::eval::{evaluate, evaluation};
use crate::material::{
    has_non_pawn_material, insufficient_material, insufficient_spec, lemma_see_bound,
    non_pawn_material_spec, see, see_spec,
};
use crate::movegen::{
    best_upto, generate_legal, has_legal_move, in_gen_order, legal_move, lemma_gen_order_unique,
    lemma_pseudo_move_ok, MoveList,
};
use crate::position::{lemma_unmake_undoes_make, Position, PositionModel};
use crate::tt::{
    clamp, empty_entry, entry_for, replaces, slot_count_for, TTEntry, TransTable, TT_EXACT, TT_LOWER,
    TT_UPPER,
};

verus! {

/// Every score a leaf can produce lies within this bound.
pub const SCORE_BOUND: i32 = 2_000_000;

/// Search windows at the root lie within this bound; each ply may widen them a little.
pub const WINDOW_BOUND: i32 = 2_000_000_000;

/// How many positions of the game the repetition history keeps (the rest of its room is
/// for the plies of the search).
pub const GAME_HISTORY_ROOM: usize = 384;

/// History scores stay within this bound.
pub const HISTORY_LIMIT: i32 = 16384;

/// What one finished iteration of the search found.
#[derive(Clone, Copy, Debug, PartialEq, Eq)]
pub struct IterationReport {
    pub depth: i32,
    pub seldepth: usize,
    pub score: i32,
    /// Moves to mate (negative when being mated), for mate scores.
    pub mate_in: Option<i32>,
    pub nodes: u64,
    pub nps: u64,
    pub time_ms: u64,
    pub best: u32,
}

/// A line of progress a search reports.
#[derive(Clone, Copy, Debug, PartialEq, Eq)]
pub enum SearchReport {
    /// The move was taken from the opening book.
    Book(u32),
    /// An iteration of iterative deepening completed.
    Iteration(IterationReport),
}

/// Limits on one search: depth, soft and hard time in milliseconds, and nodes.
#[derive(Clone, Copy, Debug, PartialEq, Eq)]
pub struct GoLimits {
    pub depth: i32,
    pub soft: Option<u64>,
    pub hard: Option<u64>,
    pub nodes: Option<u64>,
}

pub struct Searcher {
    pub tt: TransTable,
    pub own_book: bool,
    pub silent: bool,
    pub stop: Arc<AtomicBool>,
    pub started: Instant,
    pub soft_limit: Option<u64>,
    pub hard_limit: Option<u64>,
    pub node_limit: Option<u64>,
    pub nodes: u64,
    pub qnodes: u64,
    pub seldepth: usize,
    pub stopped: bool,
    /// Two killer moves per ply.
    pub killers: Vec<u32>,
    /// History scores by piece (12) and destination (64).
    pub history: Vec<i32>,
    /// Counter moves by the previous move's low twelve bits.
    pub counter: Vec<u32>,
    /// Hashes of the game and of the search line, for repetition detection.
    pub hashes: Vec<u64>,
    pub hash_len: usize,
    pub null_depth: u8,
    /// Progress reported by the last search (empty when silent).
    pub reports: Vec<SearchReport>,
}

/// The score a bound on windows allows at `ply`.
pub open spec fn window_at(ply: int) -> int {
    WINDOW_BOUND as int + 4 * ply
}

pub open spec fn min3(a: int, b: int, c: int) -> int {
    if a <= b && a <= c {
        a
    } else if b <= c {
        b
    } else {
        c
    }
}

pub open spec fn max3(a: int, b: int, c: int) -> int {
    if a >= b && a >= c {
        a
    } else if b >= c {
        b
    } else {
        c
    }
}

/// The score a search with window (alpha, beta) may return: leaf scores, or at most one
/// point beyond the window.
pub open spec fn score_in_range(r: int, alpha: int, beta: int) -> bool {
    min3(-SCORE_BOUND as int, alpha, beta) - 1 <= r <= max3(SCORE_BOUND as int, alpha, beta) + 1
}

/// A history score after a cut-off by the move it scores.
pub open spec fn history_reward(h: int, bonus: int) -> int {
    h + (bonus - crate::eval::tdiv(h * bonus, 16384))
}

/// A history score after a cut-off by another move.
pub open spec fn history_penalty(h: int, bonus: int) -> int {
    h + (-bonus - crate::eval::tdiv(h * bonus, 16384))
}

/// Repetition counts read only the hashes below the index they start from.
proof fn lemma_rep_count_prefix(hs1: Seq<u64>, hs2: Seq<u64>, h: u64, i: int, start: int, n: int)
    requires
        i < n,
        n <= hs1.len(),
        n <= hs2.len(),
        hs1.subrange(0, n) == hs2.subrange(0, n),
    ensures
        rep_count(hs1, h, i, start) == rep_count(hs2, h, i, start),
    decreases i + 2,
{
    if i >= start && i >= 0 {
        assert(hs1[i] == hs1.subrange(0, n)[i]);
        assert(hs2[i] == hs2.subrange(0, n)[i]);
        lemma_rep_count_prefix(hs1, hs2, h, i - 2, start, n);
    }
}

impl Searcher {
    /// A searcher that kept what a search must keep settles a node as before.
    proof fn lemma_settled_kept(s0: Searcher, s1: Searcher, p: PositionModel, ply: int)
        requires
            s0.wf(),
            s1.wf(),
            s1.fields_kept(s0),
        ensures
            s1.settled_score(p, ply, false) == s0.settled_score(p, ply, false),
    {
        if s0.hash_len >= 3 {
            let start = if s0.hash_len - 1 >= p.halfmove {
                s0.hash_len - 1 - p.halfmove
            } else {
                0
            };
            lemma_rep_count_prefix(
                s1.hashes@,
                s0.hashes@,
                p.hash,
                s0.hash_len - 3,
                start,
                s0.hash_len as int,
            );
        }
    }
}

/// The history bonus of a cut-off at `depth` plies: sixteen times its square, at most 1200.
pub open spec fn cutoff_bonus(depth: int) -> int {
    if depth * depth * 16 < 1200 {
        depth * depth * 16
    } else {
        1200
    }
}

/// The history entry of `mv` in `p`: the moving piece's index and the destination square.
pub open spec fn history_slot(p: PositionModel, mv: u32) -> int {
    piece_index_spec(p.board[move_from_spec(mv)] as int) * 64 + move_to_spec(mv)
}

/// A move that neither captures nor promotes.
pub open spec fn is_quiet(mv: u32) -> bool {
    mv & FLAG_CAPTURE == 0 && mv & FLAG_PROMO == 0
}

/// The history table after each quiet move among the first `n` of `ms`, in order, lost
/// `bonus` (`history_penalty`).
pub open spec fn history_after_failures(
    h: Seq<i32>,
    p: PositionModel,
    ms: Seq<u32>,
    n: int,
    bonus: int,
) -> Seq<i32>
    decreases n,
{
    if n <= 0 {
        h
    } else {
        let h1 = history_after_failures(h, p, ms, n - 1, bonus);
        let m = ms[n - 1];
        if is_quiet(m) {
            let s = history_slot(p, m);
            h1.update(s, history_penalty(h1[s] as int, bonus) as i32)
        } else {
            h1
        }
    }
}

/// The killer pair of `ply` after `mv` caused a cut-off: `mv` first, the former first
/// second, unless `mv` already was first.
pub open spec fn killers_after(k: Seq<u32>, ply: int, mv: u32) -> Seq<u32> {
    if k[2 * ply] != mv {
        k.update(2 * ply + 1, k[2 * ply]).update(2 * ply, mv)
    } else {
        k
    }
}

proof fn lemma_history_update(h: int, bonus: int)
    requires
        -16384 <= h <= 16384,
        0 <= bonus <= 1200,
    ensures
        -16384 <= history_reward(h, bonus) <= 16384,
        -16384 <= history_penalty(h, bonus) <= 16384,
{
    let x = h * bonus;
    let t = crate::eval::tdiv(x, 16384);
    if h >= 0 {
        assert(0 <= x <= h * 1200) by (nonlinear_arith)
            requires
                x == h * bonus,
                0 <= h,
                0 <= bonus <= 1200,
        ;
        assert(x - 16384 < 16384 * t <= x);
        assert(h + bonus - t <= 16384) by (nonlinear_arith)
            requires
                x == h * bonus,
                0 <= h <= 16384,
                0 <= bonus <= 1200,
                x - 16384 < 16384 * t,
        ;
        assert(h + bonus - t >= -16384) by (nonlinear_arith)
            requires
                x == h * bonus,
                0 <= h <= 16384,
                0 <= bonus <= 1200,
                16384 * t <= x,
        ;
        assert(h - bonus - t >= -16384) by (nonlinear_arith)
            requires
                x == h * bonus,
                0 <= h <= 16384,
                0 <= bonus <= 1200,
                16384 * t <= x,
        ;
        assert(0 <= t);
    } else {
        assert(h * 1200 <= x <= 0) by (nonlinear_arith)
            requires
                x == h * bonus,
                h < 0,
                0 <= bonus <= 1200,
        ;
        assert(x <= 16384 * t < x + 16384);
        assert(h + bonus - t <= 16384) by (nonlinear_arith)
            requires
                x == h * bonus,
                -16384 <= h < 0,
                0 <= bonus <= 1200,
                x <= 16384 * t,
        ;
        assert(h + bonus - t >= -16384);
        assert(h - bonus - t >= -16384) by (nonlinear_arith)
            requires
                x == h * bonus,
                -16384 <= h < 0,
                0 <= bonus <= 1200,
                16384 * t < x + 16384,
        ;
        assert(t <= 0);
    }
}

/// How many of the hashes at `i`, `i - 2`, `i - 4`, ... (not below `start`) equal `h`.
pub open spec fn rep_count(hs: Seq<u64>, h: u64, i: int, start: int) -> int
    decreases i + 2,
{
    if i < start || i < 0 {
        0
    } else {
        rep_count(hs, h, i - 2, start) + if hs[i] == h {
            1int
        } else {
            0
        }
    }
}

/// The moves to mate a reported score announces (negative when being mated), for scores
/// within the mate range.
pub open spec fn mate_in_for(score: int) -> Option<i32> {
    if score > MATE - 128 || score < -(MATE - 128) {
        Some(
            (if score > 0 {
                crate::eval::tdiv(MATE - score + 1, 2)
            } else {
                -crate::eval::tdiv(MATE + score, 2)
            }) as i32,
        )
    } else {
        None
    }
}

/// A reported mate distance counts moves from the side to move's view: positive (at least 1)
/// when it mates, with the mating ply `MATE - score` taking that many moves of its own; zero
/// or negative when it is being mated, with the mating ply `MATE + score` taking `-m` moves of
/// the opponent.
pub proof fn law_mate_distance(score: int)
    requires
        -MATE <= score < MATE,
    ensures
        mate_in_for(score) matches Some(m) ==> {
            &&& (score > 0 ==> m >= 1 && 2 * m - 1 <= MATE - score <= 2 * m)
            &&& (score < 0 ==> m <= 0 && -2 * m <= MATE + score <= -2 * m + 1)
        },
{
    if score > 0 {
        let x = MATE - score + 1;
        assert(2 * (x / 2) <= x <= 2 * (x / 2) + 1) by (nonlinear_arith)
            requires
                x >= 0,
        ;
    } else {
        let y = MATE + score;
        assert(2 * (y / 2) <= y <= 2 * (y / 2) + 1) by (nonlinear_arith)
            requires
                y >= 0,
        ;
    }
}

/// The reports of iterations: the `i`-th was depth `i + 1`, named a legal move of `p` as
/// best, and announces mates by the rule of `mate_in_for`.
pub open spec fn iterations_ok(reports: Seq<SearchReport>, p: PositionModel) -> bool {
    forall|i: int|
        0 <= i < reports.len() ==> (#[trigger] reports[i] matches SearchReport::Iteration(r)
            ==> r.depth == i + 1 && legal_move(p, r.best, false) && r.mate_in == mate_in_for(
            r.score as int,
        ))
}

/// Some node count divisible by 64 lies in `(a, b]`: a search counting its nodes from `a` to
/// `b` consulted the stop flag and the clock on the way.
pub open spec fn polled_between(a: int, b: int) -> bool {
    exists|n: int| a < n <= b && #[trigger] (n % 64) == 0
}

/// A node count after counting one more node (it saturates).
pub open spec fn counted(n: u64) -> u64 {
    if n == u64::MAX {
        n
    } else {
        (n + 1) as u64
    }
}

/// No move is legal for the side to move.
pub open spec fn no_legal_move(p: PositionModel) -> bool {
    !(exists|m: u32| #[trigger] legal_move(p, m, false))
}

/// The score of a position without legal moves: mated at `ply`, or stalemate.
pub open spec fn mate_or_draw(p: PositionModel, ply: int) -> int {
    if p.in_check(p.side) {
        -MATE + ply
    } else {
        0
    }
}

impl Searcher {
    /// The position occurred twice before in the reversible part of the line: every second
    /// entry back, as far as the fifty-move counter reaches, outside any null-move search.
    pub open spec fn repeats(self, p: PositionModel) -> bool {
        &&& self.null_depth == 0
        &&& self.hash_len >= 3
        &&& rep_count(self.hashes@, p.hash, self.hash_len - 3, if self.hash_len - 1 >= p.halfmove {
            self.hash_len - 1 - p.halfmove
        } else {
            0
        }) >= 2
    }

    /// The score a node settles on before it tries any move: the fifty-move rule (a mate
    /// still counts), a repetition in the line (not at the root), insufficient material, or
    /// the evaluation at the last ply; `None` when the node has to search.
    pub open spec fn settled_score(self, p: PositionModel, ply: int, root: bool) -> Option<int> {
        if p.halfmove >= 100 {
            Some(
                if p.in_check(p.side) && no_legal_move(p) {
                    -MATE + ply
                } else {
                    0
                },
            )
        } else if (!root && self.repeats(p)) || insufficient_spec(p.board) {
            Some(0)
        } else if ply >= MAX_PLY - 1 {
            Some(evaluation(p))
        } else {
            None
        }
    }
}

impl Searcher {
    pub open spec fn wf(&self) -> bool {
        &&& self.tt.wf()
        &&& self.killers@.len() == 2 * MAX_PLY
        &&& self.history@.len() == 768
        &&& self.counter@.len() == 4096
        &&& self.hashes@.len() == 512
        &&& self.hash_len <= 512
        &&& forall|i: int|
            0 <= i < 768 ==> -HISTORY_LIMIT <= #[trigger] self.history@[i] <= HISTORY_LIMIT
    }

    /// Whether the node limit has been reached.
    pub open spec fn out_of_nodes(&self) -> bool {
        match self.node_limit {
            Some(l) => self.nodes >= l,
            None => false,
        }
    }

    /// The node budget is kept: a running search stays below a positive limit, a stopped one
    /// at it.
    pub open spec fn within_budget(&self) -> bool {
        match self.node_limit {
            Some(l) => l == 0 || (self.nodes <= l && (!self.stopped ==> self.nodes < l)),
            None => true,
        }
    }

    /// What a search below the root leaves as it found it: the limits and options, the
    /// history of hashes up to its length, and the null-move nesting; nodes only grow.
    pub open spec fn fields_kept(self, old: Searcher) -> bool {
        &&& self.node_limit == old.node_limit
        &&& self.soft_limit == old.soft_limit
        &&& self.hard_limit == old.hard_limit
        &&& self.own_book == old.own_book
        &&& self.silent == old.silent
        &&& self.hash_len == old.hash_len
        &&& self.null_depth == old.null_depth
        &&& self.hashes@.subrange(0, old.hash_len as int) == old.hashes@.subrange(
            0,
            old.hash_len as int,
        )
        &&& self.nodes >= old.nodes
        &&& self.reports == old.reports
    }

    /// A fresh searcher with a transposition table of `hash_mb` mebibytes.
    pub fn new(hash_mb: usize, stop: Arc<AtomicBool>) -> (s: Searcher)
        requires
            hash_mb <= 4095,
        ensures
            s.wf(),
            s.own_book,
            !s.silent,
            s.stop == stop,
            s.soft_limit is None,
            s.hard_limit is None,
            s.node_limit is None,
            s.nodes == 0,
            s.qnodes == 0,
            s.seldepth == 0,
            !s.stopped,
            forall|i: int| 0 <= i < s.killers@.len() ==> #[trigger] s.killers@[i] == 0,
            forall|i: int| 0 <= i < s.history@.len() ==> #[trigger] s.history@[i] == 0,
            forall|i: int| 0 <= i < s.counter@.len() ==> #[trigger] s.counter@[i] == 0,
            forall|i: int| 0 <= i < s.hashes@.len() ==> #[trigger] s.hashes@[i] == 0,
            s.hash_len == 0,
            s.null_depth == 0,
            s.reports@.len() == 0,
            slot_count_for(hash_mb as int, s.tt.entries@.len() as int),
            forall|i: int| 0 <= i < s.tt.entries@.len() ==> #[trigger] s.tt.entries@[i] == empty_entry(),
            s.tt.age == 0,
    {
        let tt = TransTable::new(hash_mb);
        let mut killers: Vec<u32> = Vec::new();
        for i in 0..2 * MAX_PLY
            invariant
                killers@.len() == i,
                forall|j: int| 0 <= j < i ==> #[trigger] killers@[j] == 0,
        {
            killers.push(0);
        }
        let mut history: Vec<i32> = Vec::new();
        for i in 0..768usize
            invariant
                history@.len() == i,
                forall|j: int| 0 <= j < i ==> #[trigger] history@[j] == 0,
        {
            history.push(0);
        }
        let mut counter: Vec<u32> = Vec::new();
        for i in 0..4096usize
            invariant
                counter@.len() == i,
                forall|j: int| 0 <= j < i ==> #[trigger] counter@[j] == 0,
        {
            counter.push(0);
        }
        let mut hashes: Vec<u64> = Vec::new();
        for i in 0..512usize
            invariant
                hashes@.len() == i,
                forall|j: int| 0 <= j < i ==> #[trigger] hashes@[j] == 0,
        {
            hashes.push(0);
        }
        Searcher {
            tt,
            own_book: true,
            silent: false,
            stop,
            started: clock_now(),
            soft_limit: None,
            hard_limit: None,
            node_limit: None,
            nodes: 0,
            qnodes: 0,
            seldepth: 0,
            stopped: false,
            killers,
            history,
            counter,
            hashes,
            hash_len: 0,
            null_depth: 0,
            reports: Vec::new(),
        }
    }

    /// Stops at the node limit; every 64 nodes also consults the stop flag and the clock.
    pub fn time_check(&mut self)
        ensures
            old(self).stopped || old(self).out_of_nodes() ==> final(self).stopped,
            final(self).stopped ==> old(self).stopped || old(self).out_of_nodes() || old(
                self,
            ).nodes % 64 == 0,
            final(self).nodes == old(self).nodes,
            final(self).node_limit == old(self).node_limit,
            final(self).tt == old(self).tt,
            final(self).killers == old(self).killers,
            final(self).history == old(self).history,
            final(self).counter == old(self).counter,
            final(self).hashes == old(self).hashes,
            final(self).hash_len == old(self).hash_len,
            final(self).null_depth == old(self).null_depth,
            final(self).seldepth == old(self).seldepth,
            final(self).qnodes == old(self).qnodes,
            final(self).soft_limit == old(self).soft_limit,
            final(self).hard_limit == old(self).hard_limit,
            final(self).own_book == old(self).own_book,
            final(self).silent == old(self).silent,
            final(self).reports == old(self).reports,
    {
        let out = match self.node_limit {
            Some(limit) => self.nodes >= limit,
            None => false,
        };
        if out {
            self.stopped = true;
            return;
        }
        if self.nodes % 64 == 0 {
            self.poll_limits();
        }
    }

    /// Stops when asked to, at the node limit, or once the hard time limit has passed.
    pub fn poll_limits(&mut self)
        ensures
            old(self).stopped || old(self).out_of_nodes() ==> final(self).stopped,
            final(self).nodes == old(self).nodes,
            final(self).node_limit == old(self).node_limit,
            final(self).tt == old(self).tt,
            final(self).killers == old(self).killers,
            final(self).history == old(self).history,
            final(self).counter == old(self).counter,
            final(self).hashes == old(self).hashes,
            final(self).hash_len == old(self).hash_len,
            final(self).null_depth == old(self).null_depth,
            final(self).seldepth == old(self).seldepth,
            final(self).qnodes == old(self).qnodes,
            final(self).soft_limit == old(self).soft_limit,
            final(self).hard_limit == old(self).hard_limit,
            final(self).own_book == old(self).own_book,
            final(self).silent == old(self).silent,
            final(self).reports == old(self).reports,
    {
        let flagged = stop_requested(&self.stop);
        let out = match self.node_limit {
            Some(limit) => self.nodes >= limit,
            None => false,
        };
        let late = match self.hard_limit {
            Some(limit) => millis_since(&self.started) >= limit,
            None => false,
        };
        if flagged || out || late {
            self.stopped = true;
        }
    }

    /// Whether the position occurred twice before in the reversible part of the line (every
    /// second entry back, as far as the fifty-move counter reaches); never inside a null-move
    /// search.
    pub fn repetition(&self, pos: &Position) -> (r: bool)
        requires
            self.wf(),
        ensures
            r == self.repeats(pos@),
    {
        if self.null_depth > 0 || self.hash_len < 3 {
            return false;
        }
        let start = (self.hash_len - 1).saturating_sub(pos.halfmove as usize);
        let ghost first = (self.hash_len - 3) as int;
        let mut i = self.hash_len - 3;
        let mut matches: u32 = 0;
        let mut done = false;
        while !done && i >= start
            invariant
                self.wf(),
                3 <= self.hash_len <= 512,
                self.null_depth == 0,
                first == self.hash_len - 3,
                start == (if self.hash_len - 1 >= pos.halfmove {
                    self.hash_len - 1 - pos.halfmove
                } else {
                    0
                }),
                i <= first,
                (first - i) % 2 == 0,
                !done ==> matches + rep_count(self.hashes@, pos.hash, i as int, start as int)
                    == rep_count(self.hashes@, pos.hash, first, start as int),
                done ==> matches == rep_count(self.hashes@, pos.hash, first, start as int),
                matches <= 1,
            decreases i + if done {
                0int
            } else {
                1int
            },
        {
            if self.hashes[i] == pos.hash {
                matches = matches + 1;
                if matches >= 2 {
                    proof {
                        lemma_rep_count_nonneg(self.hashes@, pos.hash, i as int - 2, start as int);
                        assert(rep_count(self.hashes@, pos.hash, i as int, start as int)
                            == rep_count(self.hashes@, pos.hash, i as int - 2, start as int) + 1);
                    }
                    return true;
                }
            }
            if i < 2 {
                proof {
                    assert(rep_count(self.hashes@, pos.hash, i - 2, start as int) == 0);
                }
                done = true;
            } else {
                i = i - 2;
            }
        }
        false
    }

    /// Appends a hash to the history.
    pub fn push_hash(&mut self, hash: u64)
        requires
            old(self).wf(),
            old(self).hash_len < 512,
        ensures
            final(self).wf(),
            final(self).hashes@ == old(self).hashes@.update(old(self).hash_len as int, hash),
            final(self).hash_len == old(self).hash_len + 1,
            final(self).tt == old(self).tt,
            final(self).killers == old(self).killers,
            final(self).history == old(self).history,
            final(self).counter == old(self).counter,
            final(self).nodes == old(self).nodes,
            final(self).stopped == old(self).stopped,
            final(self).node_limit == old(self).node_limit,
            final(self).soft_limit == old(self).soft_limit,
            final(self).hard_limit == old(self).hard_limit,
            final(self).own_book == old(self).own_book,
            final(self).silent == old(self).silent,
            final(self).null_depth == old(self).null_depth,
            final(self).reports == old(self).reports,
    {
        self.hashes.set(self.hash_len, hash);
        self.hash_len = self.hash_len + 1;
    }

    /// Drops the last hash of the history, if any.
    pub fn pop_hash(&mut self)
        requires
            old(self).wf(),
        ensures
            final(self).wf(),
            final(self).hashes == old(self).hashes,
            final(self).tt == old(self).tt,
            final(self).killers == old(self).killers,
            final(self).history == old(self).history,
            final(self).counter == old(self).counter,
            final(self).hash_len == if old(self).hash_len > 0 {
                old(self).hash_len - 1
            } else {
                0
            },
            final(self).nodes == old(self).nodes,
            final(self).stopped == old(self).stopped,
            final(self).node_limit == old(self).node_limit,
            final(self).soft_limit == old(self).soft_limit,
            final(self).hard_limit == old(self).hard_limit,
            final(self).own_book == old(self).own_book,
            final(self).silent == old(self).silent,
            final(self).null_depth == old(self).null_depth,
            final(self).reports == old(self).reports,
    {
        if self.hash_len > 0 {
            self.hash_len = self.hash_len - 1;
        }
    }

    /// The ordering score of a move: the table move first, then promotions, captures by
    /// exchange value, killers, the counter move, and quiet moves by history.
    pub open spec fn order_score(
        &self,
        p: PositionModel,
        mv: u32,
        tt_move: u32,
        ply: int,
        prev: u32,
    ) -> int {
        let from = move_from_spec(mv);
        let to = move_to_spec(mv);
        if mv == tt_move {
            2_000_000
        } else if mv & FLAG_PROMO != 0 {
            1_200_000 + piece_value_spec(move_promo_spec(mv))
        } else if mv & FLAG_CAPTURE != 0 {
            let victim = if mv & FLAG_EP != 0 {
                PAWN as int
            } else {
                abs_of(p.board[to] as int)
            };
            let x = see_spec(p, mv);
            (if x >= 0 {
                1_000_000int
            } else {
                820_000int
            }) + x * 32 + piece_value_spec(victim) - piece_value_spec(abs_of(p.board[from] as int))
                / 16
        } else if ply < MAX_PLY && mv == self.killers@[2 * ply] {
            900_000
        } else if ply < MAX_PLY && mv == self.killers@[2 * ply + 1] {
            890_000
        } else if prev != 0 && mv == self.counter@[prev as int % 4096] {
            880_000
        } else {
            self.history@[piece_index_spec(p.board[from] as int) * 64 + to] as int
        }
    }

    /// The exchange value kept beside a capture's ordering score.
    pub open spec fn order_see(&self, p: PositionModel, mv: u32, tt_move: u32) -> int {
        if mv != tt_move && mv & FLAG_PROMO == 0 && mv & FLAG_CAPTURE != 0 {
            clamp(see_spec(p, mv), -32768, 32767)
        } else {
            0
        }
    }

    /// Scores every move of the list for ordering.
    pub fn order_moves(&self, pos: &Position, list: &mut MoveList, tt_move: u32, ply: usize, prev: u32)
        requires
            self.wf(),
            pos@.layout_ok(),
            old(list).wf(),
            forall|i: int|
                0 <= i < old(list).moves@.len() ==> pos@.move_ok(#[trigger] old(list).moves@[i]),
        ensures
            final(list).wf(),
            final(list).moves@ == old(list).moves@,
            forall|i: int|
                0 <= i < final(list).moves@.len() ==> #[trigger] final(list).scores@[i]
                    == self.order_score(pos@, final(list).moves@[i], tt_move, ply as int, prev),
            forall|i: int|
                0 <= i < final(list).moves@.len() ==> #[trigger] final(list).see_scores@[i]
                    == self.order_see(pos@, final(list).moves@[i], tt_move),
    {
        let n = list.moves.len();
        for i in 0..n
            invariant
                self.wf(),
                pos@.layout_ok(),
                list.wf(),
                n == list.moves@.len(),
                list.moves@ == old(list).moves@,
                forall|j: int| 0 <= j < n ==> pos@.move_ok(#[trigger] list.moves@[j]),
                forall|j: int|
                    0 <= j < i ==> #[trigger] list.scores@[j] == self.order_score(
                        pos@,
                        list.moves@[j],
                        tt_move,
                        ply as int,
                        prev,
                    ),
                forall|j: int|
                    0 <= j < i ==> #[trigger] list.see_scores@[j] == self.order_see(
                        pos@,
                        list.moves@[j],
                        tt_move,
                    ),
        {
            let mv = list.moves[i];
            assert(pos@.move_ok(mv));
            let mut exchange_kept: i16 = 0;
            let score: i32 = if mv == tt_move {
                2_000_000
            } else if mv & FLAG_PROMO != 0 {
                1_200_000 + piece_value(move_promo(mv))
            } else if mv & FLAG_CAPTURE != 0 {
                let victim = if mv & FLAG_EP != 0 {
                    PAWN
                } else {
                    kind(pos.board[move_to(mv) as usize])
                };
                let exchange = see(pos, mv);
                proof {
                    lemma_see_bound(pos@, mv);
                }
                exchange_kept = if exchange < -32768 {
                    -32768
                } else if exchange > 32767 {
                    32767
                } else {
                    exchange as i16
                };
                let base: i32 = if exchange >= 0 {
                    1_000_000
                } else {
                    820_000
                };
                base + exchange * 32 + piece_value(victim) - piece_value(
                    kind(pos.board[move_from(mv) as usize]),
                ) / 16
            } else if ply < MAX_PLY && mv == self.killers[2 * ply] {
                900_000
            } else if ply < MAX_PLY && mv == self.killers[2 * ply + 1] {
                890_000
            } else if prev != 0 && mv == self.counter[(prev % 4096) as usize] {
                880_000
            } else {
                let idx = piece_index(pos.board[move_from(mv) as usize]);
                self.history[idx * 64 + move_to(mv) as usize]
            };
            list.scores.set(i, score);
            list.see_scores.set(i, exchange_kept);
        }
    }
}

/// What the quiescence search reads of the searcher: the killer and history tables, the
/// hashes of the line (up to its length) and the null-move nesting.
pub ghost struct QuietContext {
    pub killers: Seq<u32>,
    pub history: Seq<i32>,
    pub hashes: Seq<u64>,
    pub null_depth: int,
}

impl QuietContext {
    /// The context one ply deeper, after the position with hash `h` joined the line.
    pub open spec fn pushed(self, h: u64) -> QuietContext {
        QuietContext { hashes: self.hashes.push(h), ..self }
    }

    pub open spec fn repeats(self, p: PositionModel) -> bool {
        let n = self.hashes.len() as int;
        &&& self.null_depth == 0
        &&& n >= 3
        &&& rep_count(self.hashes, p.hash, n - 3, if n - 1 >= p.halfmove {
            n - 1 - p.halfmove
        } else {
            0
        }) >= 2
    }

    /// `Searcher::settled_score` below the root, over the context.
    pub open spec fn settled(self, p: PositionModel, ply: int) -> Option<int> {
        if p.halfmove >= 100 {
            Some(
                if p.in_check(p.side) && no_legal_move(p) {
                    -MATE + ply
                } else {
                    0
                },
            )
        } else if self.repeats(p) || insufficient_spec(p.board) {
            Some(0)
        } else if ply >= MAX_PLY - 1 {
            Some(evaluation(p))
        } else {
            None
        }
    }

    /// `Searcher::order_score` of a quiescence node (no hash move, no previous move).
    pub open spec fn order_score(self, p: PositionModel, mv: u32, ply: int) -> int {
        let from = move_from_spec(mv);
        let to = move_to_spec(mv);
        if mv == 0 {
            2_000_000
        } else if mv & FLAG_PROMO != 0 {
            1_200_000 + piece_value_spec(move_promo_spec(mv))
        } else if mv & FLAG_CAPTURE != 0 {
            let victim = if mv & FLAG_EP != 0 {
                PAWN as int
            } else {
                abs_of(p.board[to] as int)
            };
            let x = see_spec(p, mv);
            (if x >= 0 {
                1_000_000int
            } else {
                820_000int
            }) + x * 32 + piece_value_spec(victim) - piece_value_spec(abs_of(p.board[from] as int))
                / 16
        } else if ply < MAX_PLY && mv == self.killers[2 * ply] {
            900_000
        } else if ply < MAX_PLY && mv == self.killers[2 * ply + 1] {
            890_000
        } else {
            self.history[piece_index_spec(p.board[from] as int) * 64 + to] as int
        }
    }
}

/// The exchange value a quiescence node keeps beside a capture.
pub open spec fn quiet_see(p: PositionModel, mv: u32) -> int {
    if mv != 0 && mv & FLAG_PROMO == 0 && mv & FLAG_CAPTURE != 0 {
        clamp(see_spec(p, mv), -32768, 32767)
    } else {
        0
    }
}

/// The best-scored position of a non-empty range lies in it.
pub proof fn lemma_best_upto_range(scores: Seq<i32>, from: int, upto: int)
    requires
        from < upto,
    ensures
        from <= best_upto(scores, from, upto) < upto,
    decreases upto - from,
{
    if upto > from + 1 {
        lemma_best_upto_range(scores, from, upto - 1);
    }
}

/// The legal moves (only tactical ones when `t`) in the order of generation.
pub open spec fn legal_list(p: PositionModel, t: bool) -> Seq<u32> {
    choose|l: Seq<u32>|
        l.no_duplicates() && in_gen_order(l, p) && forall|m: u32| #[trigger]
            l.contains(m) <==> legal_move(p, m, t)
}

/// The value of a quiescence node whose moves (with their ordering and exchange scores) stand in
/// `moves`, `scores` and `sees`, the first `i` of them tried and the lower bound at `a`: the next
/// move is the best-scored one left; a capture that cannot reach `a` or loses material is
/// skipped unless it gives check; a reply at or above `beta` ends the node.
pub open spec fn quiet_loop(
    c: QuietContext,
    p: PositionModel,
    beta: int,
    ply: int,
    in_check: bool,
    stand: int,
    moves: Seq<u32>,
    scores: Seq<i32>,
    sees: Seq<i16>,
    i: int,
    a: int,
) -> int
    decreases MAX_PLY - ply, 0int, moves.len() - i,
{
    if i < 0 || i >= moves.len() || ply + 1 >= MAX_PLY || ply < 0 {
        a
    } else {
        let n = moves.len() as int;
        let b = best_upto(scores, i, n);
        proof {
            lemma_best_upto_range(scores, i, n);
        }
        let mv = moves[b];
        let moves2 = moves.update(i, moves[b]).update(b, moves[i]);
        let scores2 = scores.update(i, scores[b]).update(b, scores[i]);
        let sees2 = sees.update(i, sees[b]).update(b, sees[i]);
        let capture = !in_check && mv & FLAG_CAPTURE != 0 && mv & FLAG_PROMO == 0;
        let victim = if mv & FLAG_EP != 0 {
            PAWN as int
        } else {
            abs_of(p.board[move_to_spec(mv)] as int)
        };
        let delta = capture && stand + piece_value_spec(victim) + 180 < a;
        let bad = capture && sees2[i] < -300;
        let child = p.after_make(mv);
        if !in_check && !child.in_check(child.side) && (delta || bad) {
            quiet_loop(c, p, beta, ply, in_check, stand, moves2, scores2, sees2, i + 1, a)
        } else {
            let sc = -quiet_value(c.pushed(child.hash), child, -beta, -a, ply + 1);
            if sc >= beta {
                sc
            } else {
                quiet_loop(
                    c,
                    p,
                    beta,
                    ply,
                    in_check,
                    stand,
                    moves2,
                    scores2,
                    sees2,
                    i + 1,
                    if sc > a {
                        sc
                    } else {
                        a
                    },
                )
            }
        }
    }
}

/// The value the quiescence search gives a position at `ply` with window (`alpha`, `beta`):
/// a settled score, mate or stalemate, the stand-pat cut-off, or the best of the stand-pat
/// score and the replies tried in order.
pub open spec fn quiet_value(c: QuietContext, p: PositionModel, alpha: int, beta: int, ply: int) -> int
    decreases MAX_PLY - ply, 1int, 0int,
{
    if ply < 0 || ply >= MAX_PLY {
        0
    } else {
        match c.settled(p, ply) {
            Some(v) => v,
            None => {
                let in_check = p.in_check(p.side);
                let moves = legal_list(p, !in_check);
                if in_check && moves.len() == 0 {
                    -MATE + ply
                } else if !in_check && moves.len() == 0 && no_legal_move(p) {
                    0
                } else {
                    let stand = if in_check {
                        0
                    } else {
                        evaluation(p)
                    };
                    if !in_check && stand >= beta {
                        stand
                    } else {
                        let a = if !in_check && stand > alpha {
                            stand
                        } else {
                            alpha
                        };
                        let n = moves.len() as int;
                        let scores = Seq::new(n as nat, |k: int| c.order_score(p, moves[k], ply) as i32);
                        let sees = Seq::new(n as nat, |k: int| quiet_see(p, moves[k]) as i16);
                        quiet_loop(c, p, beta, ply, in_check, stand, moves, scores, sees, 0, a)
                    }
                }
            },
        }
    }
}

/// What the search reads and writes of the searcher: the transposition table (entries and
/// age), killers, history, counter moves, the hashes of the line and the null-move nesting.
pub ghost struct SearchContext {
    pub entries: Seq<TTEntry>,
    pub age: u8,
    pub killers: Seq<u32>,
    pub history: Seq<i32>,
    pub counter: Seq<u32>,
    pub hashes: Seq<u64>,
    pub null_depth: int,
}

impl SearchContext {
    pub open spec fn quiet(self) -> QuietContext {
        QuietContext {
            killers: self.killers,
            history: self.history,
            hashes: self.hashes,
            null_depth: self.null_depth,
        }
    }

    /// The context one ply deeper, after the position with hash `h` joined the line.
    pub open spec fn pushed(self, h: u64) -> SearchContext {
        SearchContext { hashes: self.hashes.push(h), ..self }
    }

    pub open spec fn slot(self, key: u64) -> int {
        key as int % self.entries.len() as int
    }

    /// `Searcher::settled_score` over the context.
    pub open spec fn settled(self, p: PositionModel, ply: int, root: bool) -> Option<int> {
        if p.halfmove >= 100 {
            Some(
                if p.in_check(p.side) && no_legal_move(p) {
                    -MATE + ply
                } else {
                    0
                },
            )
        } else if (!root && self.quiet().repeats(p)) || insufficient_spec(p.board) {
            Some(0)
        } else if ply >= MAX_PLY - 1 {
            Some(evaluation(p))
        } else {
            None
        }
    }

    /// `Searcher::tt_cut` over the context.
    pub open spec fn tt_cut(self, p: PositionModel, depth: int, alpha: int, beta: int, ply: int) -> Option<int> {
        let e = self.entries[self.slot(p.hash)];
        let capped = if p.halfmove < 100 {
            p.halfmove
        } else {
            100
        };
        let reach = if p.halfmove + depth <= u16::MAX {
            p.halfmove + depth
        } else {
            u16::MAX as int
        };
        let stored = e.score as int;
        let score = if stored > MATE - 128 {
            stored - ply
        } else if stored < -MATE + 128 {
            stored + ply
        } else {
            stored
        };
        if e.key == p.hash && (reach < 100 || e.rule50 == capped) && e.depth >= depth && (e.flag == TT_EXACT
            || (e.flag == TT_LOWER && score >= beta) || (e.flag == TT_UPPER && score <= alpha)) {
            Some(score)
        } else {
            None
        }
    }

    /// `Searcher::order_score` over the context.
    pub open spec fn order_score(self, p: PositionModel, mv: u32, tt_move: u32, ply: int, prev: u32) -> int {
        let from = move_from_spec(mv);
        let to = move_to_spec(mv);
        if mv == tt_move {
            2_000_000
        } else if mv & FLAG_PROMO != 0 {
            1_200_000 + piece_value_spec(move_promo_spec(mv))
        } else if mv & FLAG_CAPTURE != 0 {
            let victim = if mv & FLAG_EP != 0 {
                PAWN as int
            } else {
                abs_of(p.board[to] as int)
            };
            let x = see_spec(p, mv);
            (if x >= 0 {
                1_000_000int
            } else {
                820_000int
            }) + x * 32 + piece_value_spec(victim) - piece_value_spec(abs_of(p.board[from] as int))
                / 16
        } else if ply < MAX_PLY && mv == self.killers[2 * ply] {
            900_000
        } else if ply < MAX_PLY && mv == self.killers[2 * ply + 1] {
            890_000
        } else if prev != 0 && mv == self.counter[prev as int % 4096] {
            880_000
        } else {
            self.history[piece_index_spec(p.board[from] as int) * 64 + to] as int
        }
    }

    /// The context after storing a search result for `key` in the table.
    pub open spec fn put(self, key: u64, depth: int, score: int, flag: u8, best: u32, ply: int, halfmove: int) -> SearchContext {
        let slot = self.slot(key);
        SearchContext {
            entries: if replaces(self.entries[slot], key, depth, self.age) {
                self.entries.update(slot, entry_for(key, depth, score, flag, best, ply, halfmove, self.age))
            } else {
                self.entries
            },
            ..self
        }
    }

    /// The context after `mv`, the `i`-th move of `ms`, caused a cut-off at `ply`.
    pub open spec fn after_cutoff(self, p: PositionModel, ms: Seq<u32>, i: int, mv: u32, depth: int, ply: int, prev: u32) -> SearchContext {
        let slot = history_slot(p, mv);
        let bonus = cutoff_bonus(depth);
        SearchContext {
            killers: killers_after(self.killers, ply, mv),
            history: history_after_failures(
                self.history.update(slot, history_reward(self.history[slot] as int, bonus) as i32),
                p,
                ms,
                i,
                bonus,
            ),
            counter: if prev != 0 {
                self.counter.update((prev % 4096) as int, mv)
            } else {
                self.counter
            },
            ..self
        }
    }
}

/// The score of the child `q` reached by `mv` and the context it leaves: the first move with
/// the full window, later ones with a null window (reduced by `reduction`), searched again at
/// full depth and then with the full window when they beat `alpha`.
pub open spec fn child_value(
    c: SearchContext,
    q: PositionModel,
    mv: u32,
    depth: int,
    alpha: int,
    beta: int,
    ply: int,
    pv: bool,
    reduction: int,
    first: bool,
) -> (int, SearchContext)
    decreases MAX_PLY - ply, 1int, 0int,
{
    if ply < 0 || ply + 1 >= MAX_PLY {
        (0, c)
    } else if first {
        let (v, c1) = search_value(c, q, depth - 1, -beta, -alpha, ply + 1, pv, true, mv);
        (-v, c1)
    } else {
        let (v1, c1) = search_value(c, q, depth - 1 - reduction, -alpha - 1, -alpha, ply + 1, false, true, mv);
        let (s2, c2) = if -v1 > alpha && reduction > 0 {
            let (v, cc) = search_value(c1, q, depth - 1, -alpha - 1, -alpha, ply + 1, false, true, mv);
            (-v, cc)
        } else {
            (-v1, c1)
        };
        if s2 > alpha && s2 < beta {
            let (v, cc) = search_value(c2, q, depth - 1, -beta, -alpha, ply + 1, true, true, mv);
            (-v, cc)
        } else {
            (s2, c2)
        }
    }
}

/// The moves of a node tried in order of their scores from the `i`-th on, with the best score
/// and move so far, the lower bound `a`, how many moves were searched and whether a cut-off
/// came: futility skips quiet late moves near the leaves, late quiet moves are searched
/// reduced, and a cut-off updates killers, history and counter moves.
pub open spec fn moves_loop(
    c: SearchContext,
    p: PositionModel,
    depth: int,
    beta: int,
    ply: int,
    pv: bool,
    prev: u32,
    in_check: bool,
    static_eval: int,
    moves: Seq<u32>,
    scores: Seq<i32>,
    i: int,
    best: int,
    best_move: u32,
    a: int,
    searched: int,
    cut: bool,
) -> (int, u32, int, SearchContext)
    decreases MAX_PLY - ply, 2int, moves.len() - i,
{
    if cut || i < 0 || i >= moves.len() || ply < 0 || ply + 1 >= MAX_PLY {
        (best, best_move, a, c)
    } else {
        let n = moves.len() as int;
        let b = best_upto(scores, i, n);
        proof {
            lemma_best_upto_range(scores, i, n);
        }
        let mv = moves[b];
        let moves2 = moves.update(i, moves[b]).update(b, moves[i]);
        let scores2 = scores.update(i, scores[b]).update(b, scores[i]);
        let tactical = mv & FLAG_CAPTURE != 0 || mv & FLAG_PROMO != 0;
        let q = p.after_make(mv);
        let gives_check = q.in_check(q.side);
        if !pv && !in_check && depth <= 2 && !tactical && !gives_check && searched > 2 && static_eval
            + 110 * depth <= a {
            moves_loop(c, p, depth, beta, ply, pv, prev, in_check, static_eval, moves2, scores2, i + 1, best, best_move, a, searched, false)
        } else {
            let reduction = if depth >= 3 && searched >= 3 && !in_check && !tactical && !gives_check {
                if !pv {
                    1 + (if searched / 8 < 2 {
                        searched / 8
                    } else {
                        2
                    }) + (if depth / 6 < 1 {
                        depth / 6
                    } else {
                        1
                    })
                } else {
                    1
                }
            } else {
                0
            };
            let (score, cc) = child_value(c.pushed(q.hash), q, mv, depth, a, beta, ply, pv, reduction, searched == 0);
            let c2 = SearchContext { hashes: c.hashes, ..cc };
            let a2 = if score > a {
                score
            } else {
                a
            };
            let cut2 = a2 >= beta;
            let c3 = if cut2 && !tactical && ply < MAX_PLY {
                c2.after_cutoff(p, moves2, i, mv, depth, ply, prev)
            } else {
                c2
            };
            moves_loop(
                c3,
                p,
                depth,
                beta,
                ply,
                pv,
                prev,
                in_check,
                static_eval,
                moves2,
                scores2,
                i + 1,
                if score > best {
                    score
                } else {
                    best
                },
                if score > best {
                    mv
                } else {
                    best_move
                },
                a2,
                searched + 1,
                cut2,
            )
        }
    }
}

/// The value `negamax` gives a position and the context it leaves, when the search does not
/// stop: a settled score, the quiescence value at depth 0 (after the check extension), a
/// table cut-off, a reverse-futility cut-off, a null-move cut-off, mate or stalemate, or the
/// best score of the moves (the final lower bound when none beat `-INF`), stored in the table.
pub open spec fn search_value(
    c: SearchContext,
    p: PositionModel,
    depth: int,
    alpha: int,
    beta: int,
    ply: int,
    pv: bool,
    allow_null: bool,
    prev: u32,
) -> (int, SearchContext)
    decreases MAX_PLY - ply, 3int, 0int,
{
    if ply < 0 || ply >= MAX_PLY {
        (0, c)
    } else {
        match c.settled(p, ply, ply == 0) {
            Some(v) => (v, c),
            None => {
                let in_check = p.in_check(p.side);
                let d = if in_check {
                    depth + 1
                } else {
                    depth
                };
                if d <= 0 {
                    (quiet_value(c.quiet(), p, alpha, beta, ply), c)
                } else {
                    let e = c.entries[c.slot(p.hash)];
                    let tt_move = if e.key == p.hash {
                        e.best
                    } else {
                        0
                    };
                    let cut = if !pv {
                        c.tt_cut(p, d, alpha, beta, ply)
                    } else {
                        None
                    };
                    if cut is Some {
                        (cut->0, c)
                    } else {
                        let static_eval = if !pv && !in_check {
                            evaluation(p)
                        } else {
                            0
                        };
                        if !pv && !in_check && d <= 3 && static_eval - 90 * d >= beta {
                            (static_eval, c)
                        } else {
                            let try_null = allow_null && !pv && !in_check && d >= 3 && static_eval
                                >= beta && p.halfmove < 99 && non_pawn_material_spec(p.board, p.side);
                            let (nv, c1) = if try_null {
                                let (v, cn) = search_value(
                                    SearchContext { null_depth: c.null_depth + 1, ..c },
                                    p.after_null(),
                                    d - 1 - (2 + d / 5),
                                    -beta,
                                    -beta + 1,
                                    ply + 1,
                                    false,
                                    false,
                                    0,
                                );
                                (-v, SearchContext { null_depth: c.null_depth, ..cn })
                            } else {
                                (0, c)
                            };
                            if try_null && nv >= beta {
                                (nv, c1)
                            } else {
                                let moves = legal_list(p, false);
                                if moves.len() == 0 {
                                    (
                                        if in_check {
                                            -MATE + ply
                                        } else {
                                            0
                                        },
                                        c1,
                                    )
                                } else {
                                    let scores = Seq::new(
                                        moves.len(),
                                        |k: int| c1.order_score(p, moves[k], tt_move, ply, prev) as i32,
                                    );
                                    let (best, best_move, a, c2) = moves_loop(
                                        c1,
                                        p,
                                        d,
                                        beta,
                                        ply,
                                        pv,
                                        prev,
                                        in_check,
                                        static_eval,
                                        moves,
                                        scores,
                                        0,
                                        -INF as int,
                                        0,
                                        alpha,
                                        0,
                                        false,
                                    );
                                    let best2 = if best == -INF {
                                        a
                                    } else {
                                        best
                                    };
                                    let flag = if best2 <= alpha {
                                        TT_UPPER
                                    } else if best2 >= beta {
                                        TT_LOWER
                                    } else {
                                        TT_EXACT
                                    };
                                    (best2, c2.put(p.hash, d, best2, flag, best_move, ply, p.halfmove as int))
                                }
                            }
                        }
                    }
                }
            },
        }
    }
}

/// The root moves tried in order of their scores from the `i`-th on: the first with the full
/// window, later ones with a null window and again with the full window when they beat `a`;
/// the best score so far and the first move that reached it, and the lower bound `a`, until a
/// score reaches `beta`.
pub open spec fn root_loop(
    c: SearchContext,
    p: PositionModel,
    depth: int,
    beta: int,
    moves: Seq<u32>,
    scores: Seq<i32>,
    i: int,
    best: int,
    best_move: u32,
    a: int,
    done: bool,
) -> (int, u32, int, SearchContext)
    decreases moves.len() - i,
{
    if done || i < 0 || i >= moves.len() {
        (best, best_move, a, c)
    } else {
        let n = moves.len() as int;
        let b = best_upto(scores, i, n);
        proof {
            lemma_best_upto_range(scores, i, n);
        }
        let mv = moves[b];
        let moves2 = moves.update(i, moves[b]).update(b, moves[i]);
        let scores2 = scores.update(i, scores[b]).update(b, scores[i]);
        let q = p.after_make(mv);
        let cp = c.pushed(q.hash);
        let (score, cc) = if i == 0 {
            let (v, c1) = search_value(cp, q, depth - 1, -beta, -a, 1, true, true, mv);
            (-v, c1)
        } else {
            let (v1, c1) = search_value(cp, q, depth - 1, -a - 1, -a, 1, false, true, mv);
            if -v1 > a {
                let (v2, c2) = search_value(c1, q, depth - 1, -beta, -a, 1, true, true, mv);
                (-v2, c2)
            } else {
                (-v1, c1)
            }
        };
        let a2 = if score > a {
            score
        } else {
            a
        };
        root_loop(
            SearchContext { hashes: c.hashes, ..cc },
            p,
            depth,
            beta,
            moves2,
            scores2,
            i + 1,
            if score > best {
                score
            } else {
                best
            },
            if score > best {
                mv
            } else {
                best_move
            },
            a2,
            a2 >= beta,
        )
    }
}

/// What `root_search` answers when it does not stop, and the context it leaves: the highest
/// score among the root moves as searched in order (`-INF` without legal moves), the first
/// move that reached it (the first ordered move when none beat `-INF`, 0 without legal moves),
/// with the result stored in the table.
pub open spec fn root_value(c: SearchContext, p: PositionModel, depth: int, alpha: int, beta: int) -> (int, u32, SearchContext) {
    let moves = legal_list(p, false);
    let e = c.entries[c.slot(p.hash)];
    let tt_move = if e.key == p.hash {
        e.best
    } else {
        0
    };
    let scores = Seq::new(moves.len(), |k: int| c.order_score(p, moves[k], tt_move, 0, 0) as i32);
    let first = if moves.len() > 0 {
        moves[0]
    } else {
        0
    };
    let (best, best_move, a, c2) = root_loop(c, p, depth, beta, moves, scores, 0, -INF as int, first, alpha, false);
    let flag = if best <= alpha {
        TT_UPPER
    } else if best >= beta {
        TT_LOWER
    } else {
        TT_EXACT
    };
    (best, best_move, c2.put(p.hash, depth, best, flag, best_move, 0, p.halfmove as int))
}

/// One iteration of iterative deepening at `depth` after an iteration that scored `prev`: a
/// root search in a window of 35 either side of `prev` from the fourth iteration on (the full
/// range before), searched again with the full range when the score falls outside it.
pub open spec fn iteration_value(c: SearchContext, p: PositionModel, depth: int, prev: int) -> (int, u32, SearchContext) {
    let window = if depth >= 4 {
        35int
    } else {
        INF as int
    };
    let alpha = if prev - window > -INF {
        prev - window
    } else {
        -INF as int
    };
    let beta = if prev + window < INF {
        prev + window
    } else {
        INF as int
    };
    let first = root_value(c, p, depth, alpha, beta);
    if first.0 <= alpha || first.0 >= beta {
        root_value(first.2, p, depth, -INF as int, INF as int)
    } else {
        first
    }
}

/// The score, move and context after `k` completed iterations of iterative deepening from
/// context `c` (with no iteration: score 0 and the first legal move in generation order).
pub open spec fn deepening(c: SearchContext, p: PositionModel, k: int) -> (int, u32, SearchContext)
    decreases k,
{
    if k <= 0 {
        (0, legal_list(p, false)[0], c)
    } else {
        let before = deepening(c, p, k - 1);
        iteration_value(before.2, p, k, before.0)
    }
}

/// The context a search starts from: the searcher's tables with the table's age advanced, the
/// last (at most `GAME_HISTORY_ROOM`) hashes of the game, and no null move pending.
pub open spec fn start_context(s: Searcher, game: Seq<u64>) -> SearchContext {
    let keep = if game.len() < GAME_HISTORY_ROOM {
        game.len() as int
    } else {
        GAME_HISTORY_ROOM as int
    };
    SearchContext {
        entries: s.tt.entries@,
        age: vstd::wrapping::u8_specs::wrapping_add(s.tt.age, 1),
        killers: s.killers@,
        history: s.history@,
        counter: s.counter@,
        hashes: game.subrange(game.len() - keep, game.len() as int),
        null_depth: 0,
    }
}

/// A score that announces a mate close enough to end iterative deepening.
pub open spec fn decisive(score: int) -> bool {
    score > MATE - 100 || score < -(MATE - 100)
}

/// The deepest iteration a search with these limits may run.
pub open spec fn max_iterations(limits: GoLimits) -> int {
    if limits.depth < 64 {
        limits.depth as int
    } else {
        64
    }
}

impl Searcher {
    /// The score a stored entry for `p` answers at (extended) depth `depth` and ply `ply`, when
    /// it is deep enough, recorded under a compatible fifty-move count (unless the rule cannot
    /// come into play within the search) and its bound settles the window; mate scores are
    /// taken relative to the ply.
    pub open spec fn tt_cut(self, p: PositionModel, depth: int, alpha: int, beta: int, ply: int) -> Option<int> {
        let e = self.tt.entries@[self.tt.slot(p.hash)];
        let capped = if p.halfmove < 100 {
            p.halfmove
        } else {
            100
        };
        let reach = if p.halfmove + depth <= u16::MAX {
            p.halfmove + depth
        } else {
            u16::MAX as int
        };
        let stored = e.score as int;
        let score = if stored > MATE - 128 {
            stored - ply
        } else if stored < -MATE + 128 {
            stored + ply
        } else {
            stored
        };
        if e.key == p.hash && (reach < 100 || e.rule50 == capped) && e.depth >= depth && (e.flag == TT_EXACT
            || (e.flag == TT_LOWER && score >= beta) || (e.flag == TT_UPPER && score <= alpha)) {
            Some(score)
        } else {
            None
        }
    }

    /// What the search reads and writes of the searcher.
    pub open spec fn sctx(self) -> SearchContext {
        SearchContext {
            entries: self.tt.entries@,
            age: self.tt.age,
            killers: self.killers@,
            history: self.history@,
            counter: self.counter@,
            hashes: self.hashes@.subrange(0, self.hash_len as int),
            null_depth: self.null_depth as int,
        }
    }

    /// The search context settles, cuts and orders as the searcher does.
    proof fn lemma_sctx_agrees(self, p: PositionModel, ply: int)
        requires
            self.wf(),
        ensures
            self.sctx().quiet() == self.qctx(),
            forall|root: bool| #[trigger] self.settled_score(p, ply, root) == self.sctx().settled(p, ply, root),
            forall|d: int, alpha: int, beta: int| #[trigger] self.tt_cut(p, d, alpha, beta, ply) == self.sctx().tt_cut(p, d, alpha, beta, ply),
            forall|mv: u32, tt_move: u32, prev: u32| #[trigger] self.order_score(p, mv, tt_move, ply, prev) == self.sctx().order_score(p, mv, tt_move, ply, prev),
    {
        self.lemma_qctx_agrees(p, ply);
        assert(self.sctx().quiet() == self.qctx());
        assert(self.repeats(p) == self.qctx().repeats(p));
    }

    /// What the quiescence search reads of the searcher.
    pub open spec fn qctx(self) -> QuietContext {
        QuietContext {
            killers: self.killers@,
            history: self.history@,
            hashes: self.hashes@.subrange(0, self.hash_len as int),
            null_depth: self.null_depth as int,
        }
    }

    /// The context settles a node as the searcher does, and orders moves as it does.
    proof fn lemma_qctx_agrees(self, p: PositionModel, ply: int)
        requires
            self.wf(),
        ensures
            self.settled_score(p, ply, false) == self.qctx().settled(p, ply),
            self.repeats(p) == self.qctx().repeats(p),
            forall|mv: u32| #[trigger] self.order_score(p, mv, 0, ply, 0) == self.qctx().order_score(p, mv, ply),
            forall|mv: u32| #[trigger] self.order_see(p, mv, 0) == quiet_see(p, mv),
    {
        let c = self.qctx();
        let n = self.hash_len as int;
        if n >= 3 {
            let start = if n - 1 >= p.halfmove {
                n - 1 - p.halfmove
            } else {
                0
            };
            assert(self.hashes@.subrange(0, n) =~= c.hashes.subrange(0, n));
            lemma_rep_count_prefix(self.hashes@, c.hashes, p.hash, n - 3, start, n);
        }
        assert(self.repeats(p) == c.repeats(p));
    }
}

impl Searcher {
    /// What a search below the root requires to do its work: a coherent searcher that has not
    /// stopped and is within its node budget, searching a coherent position at `ply` with room in
    /// the hash history, a window within the bound for the ply, and at most one null move
    /// per ply of the line.
    pub open spec fn can_search(self, p: PositionModel, alpha: int, beta: int, ply: int) -> bool {
        &&& self.wf()
        &&& !self.stopped
        &&& self.within_budget()
        &&& p.wf()
        &&& 0 <= ply < MAX_PLY
        &&& self.hash_len <= GAME_HISTORY_ROOM + ply
        &&& self.null_depth <= 127 + ply
        &&& -window_at(ply) <= alpha <= window_at(ply)
        &&& -window_at(ply) <= beta <= window_at(ply)
    }

    /// A search stopped only where it had to: it was stopped already, it is out of nodes, or
    /// it passed a node count divisible by 64, where the stop flag and the clock are read.
    pub open spec fn stop_explained(self, old: Searcher) -> bool {
        self.stopped ==> old.stopped || self.out_of_nodes() || polled_between(
            old.nodes as int,
            self.nodes as int,
        )
    }

    /// What every search below the root requires: a coherent searcher, which either has
    /// stopped already (and then only counts the node and answers 0) or can search.
    pub open spec fn can_enter(self, p: PositionModel, alpha: int, beta: int, ply: int) -> bool {
        &&& self.wf()
        &&& (self.stopped || self.can_search(p, alpha, beta, ply))
    }

    /// What every search below the root ensures: the searcher stays coherent and, if it was
    /// running, within its budget; it keeps what it must keep, stops only where it had to,
    /// a stopped searcher stays stopped, and a stopped search answers 0.
    pub open spec fn searched(self, old: Searcher, r: int) -> bool {
        &&& self.wf()
        &&& (!old.stopped ==> self.within_budget())
        &&& (old.stopped ==> self.stopped)
        &&& self.fields_kept(old)
        &&& self.stop_explained(old)
        &&& (self.stopped ==> r == 0)
    }

    /// Quiescence search: captures (all moves when in check) until the position is quiet,
    /// with stand-pat, delta pruning and losing-exchange pruning.
    #[verifier::spinoff_prover]
    pub fn quiescence(&mut self, pos: &mut Position, alpha: i32, beta: i32, ply: usize) -> (r: i32)
        requires
            old(self).can_enter(old(pos)@, alpha as int, beta as int, ply as int),
        ensures
            final(pos)@ == old(pos)@,
            final(self).searched(*old(self), r as int),
            score_in_range(r as int, alpha as int, beta as int),
            !final(self).stopped ==> match old(self).settled_score(old(pos)@, ply as int, false) {
                Some(v) => r == v,
                None => {
                    &&& (no_legal_move(old(pos)@) ==> r == mate_or_draw(old(pos)@, ply as int))
                    &&& (!old(pos)@.in_check(old(pos)@.side) && !no_legal_move(old(pos)@) ==> r
                        >= evaluation(old(pos)@) && (evaluation(old(pos)@) >= beta ==> r
                        == evaluation(old(pos)@)))
                },
            },
            !final(self).stopped ==> r == quiet_value(
                old(self).qctx(),
                old(pos)@,
                alpha as int,
                beta as int,
                ply as int,
            ),
            final(self).killers == old(self).killers,
            final(self).history == old(self).history,
            final(self).counter == old(self).counter,
            final(self).tt == old(self).tt,
            !old(self).stopped && (old(self).settled_score(old(pos)@, ply as int, false) is Some
                || no_legal_move(old(pos)@)) ==> final(self).nodes == counted(old(self).nodes),
        decreases MAX_PLY - ply,
    {
        let ghost s0 = *self;
        let ghost p0 = pos@;
        let ghost alpha0 = alpha as int;
        let ghost c0 = s0.qctx();
        proof {
            s0.lemma_qctx_agrees(p0, ply as int);
        }
        self.nodes = self.nodes.saturating_add(1);
        self.qnodes = self.qnodes.saturating_add(1);
        if ply > self.seldepth {
            self.seldepth = ply;
        }
        self.time_check();
        if self.stopped {
            return 0;
        }
        let in_check = pos.in_check(pos.side);
        if pos.halfmove >= 100 {
            if in_check {
                let mut evasions = MoveList::new();
                generate_legal(pos, &mut evasions, false);
                if evasions.moves.len() == 0 {
                    proof {
                        assert forall|m: u32| !legal_move(p0, m, false) by {
                            if legal_move(p0, m, false) {
                                assert(evasions.moves@.contains(m));
                            }
                        }
                    }
                    return -MATE + ply as i32;
                }
                proof {
                    assert(evasions.moves@.contains(evasions.moves@[0]));
                }
            }
            return 0;
        }
        if self.repetition(pos) || insufficient_material(pos) {
            return 0;
        }
        if ply >= MAX_PLY - 1 {
            return evaluate(pos);
        }
        let tactical = !in_check;
        let mut list = MoveList::new();
        generate_legal(pos, &mut list, tactical);
        proof {
            assert(list.moves@.no_duplicates() && in_gen_order(list.moves@, p0) && forall|m: u32|
                #[trigger] list.moves@.contains(m) <==> legal_move(p0, m, tactical));
            let l = legal_list(p0, tactical);
            lemma_gen_order_unique(list.moves@, l, p0);
        }
        if in_check && list.moves.len() == 0 {
            proof {
                assert forall|m: u32| !legal_move(p0, m, false) by {
                    if legal_move(p0, m, false) {
                        assert(list.moves@.contains(m));
                    }
                }
            }
            return -MATE + ply as i32;
        }
        if !in_check && list.moves.len() == 0 {
            if !has_legal_move(pos) {
                return 0;
            }
        }
        proof {
            if list.moves@.len() > 0 {
                assert(list.moves@.contains(list.moves@[0]));
                if tactical {
                    crate::movegen::lemma_tactical_is_move(p0, list.moves@[0]);
                }
            }
            assert(!no_legal_move(p0));
        }
        let stand: i32 = if in_check {
            0
        } else {
            evaluate(pos)
        };
        let mut a = alpha;
        if !in_check {
            if stand >= beta {
                return stand;
            }
            if stand > a {
                a = stand;
            }
        }
        proof {
            assert forall|i: int| 0 <= i < list.moves@.len() implies p0.move_ok(
                #[trigger] list.moves@[i],
            ) by {
                assert(list.moves@.contains(list.moves@[i]));
                lemma_pseudo_move_ok(p0, list.moves@[i], tactical);
            }
        }
        self.order_moves(pos, &mut list, 0, ply, 0);
        let n = list.moves.len();
        proof {
            let ms = list.moves@;
            assert(ms == legal_list(p0, !in_check));
            assert(list.scores@ =~= Seq::new(n as nat, |k: int| c0.order_score(p0, ms[k], ply as int) as i32)) by {
                assert forall|k: int| 0 <= k < n implies list.scores@[k] == c0.order_score(p0, ms[k], ply as int) as i32 by {
                    assert(list.scores@[k] == self.order_score(pos@, ms[k], 0, ply as int, 0));
                    assert(self.order_score(p0, ms[k], 0, ply as int, 0) == s0.order_score(p0, ms[k], 0, ply as int, 0));
                }
            }
            assert(list.see_scores@ =~= Seq::new(n as nat, |k: int| quiet_see(p0, ms[k]) as i16)) by {
                assert forall|k: int| 0 <= k < n implies list.see_scores@[k] == quiet_see(p0, ms[k]) as i16 by {
                    assert(list.see_scores@[k] == self.order_see(pos@, ms[k], 0));
                    assert(s0.order_see(p0, ms[k], 0) == quiet_see(p0, ms[k]));
                }
            }
            assert(quiet_loop(c0, p0, beta as int, ply as int, in_check, stand as int, list.moves@, list.scores@, list.see_scores@, 0, a as int)
                == quiet_value(c0, p0, alpha0, beta as int, ply as int));
        }
        let mut i: usize = 0;
        while i < n
            invariant
                pos@ == p0,
                p0.wf(),
                0 <= ply < MAX_PLY - 1,
                c0 == s0.qctx(),
                self.killers == s0.killers,
                self.tt == s0.tt,
                self.history == s0.history,
                self.counter == s0.counter,
                quiet_loop(c0, p0, beta as int, ply as int, in_check, stand as int, list.moves@, list.scores@, list.see_scores@, i as int, a as int)
                    == quiet_value(c0, p0, alpha0, beta as int, ply as int),
                list.wf(),
                n == list.moves@.len(),
                forall|m: u32| #[trigger] list.moves@.contains(m) ==> legal_move(p0, m, tactical),
                tactical == !in_check,
                self.wf(),
                !self.stopped,
                self.within_budget(),
                self.fields_kept(s0),
                s0.hash_len <= GAME_HISTORY_ROOM + ply,
                s0.null_depth <= 127 + ply,
                s0.wf(),
                !s0.stopped,
                -window_at(ply as int) <= beta <= window_at(ply as int),
                -window_at(ply as int) <= alpha0 <= window_at(ply as int),
                alpha0 == alpha,
                p0 == old(pos)@,
                s0 == *old(self),
                alpha0 <= a <= max3(SCORE_BOUND as int, alpha0, beta as int),
                -SCORE_BOUND <= stand <= SCORE_BOUND,
                !in_check ==> stand == evaluation(p0) && stand < beta && a >= stand,
                in_check == p0.in_check(p0.side),
                !no_legal_move(p0),
                s0.settled_score(p0, ply as int, false) is None,
            decreases n - i,
        {
            let ghost lm = list.moves@;
            let ghost ls = list.scores@;
            let ghost lse = list.see_scores@;
            let ghost a_before = a as int;
            let mv = list.pick(i);
            proof {
                assert(list.moves@.contains(mv));
                lemma_pseudo_move_ok(p0, mv, tactical);
                lemma_unmake_undoes_make(p0, mv);
            }
            let mut delta_prune = false;
            let mut bad_exchange = false;
            if !in_check && mv & FLAG_CAPTURE != 0 && mv & FLAG_PROMO == 0 {
                let victim = if mv & FLAG_EP != 0 {
                    PAWN
                } else {
                    kind(pos.board[move_to(mv) as usize])
                };
                if stand + piece_value(victim) + 180 < a {
                    delta_prune = true;
                }
                bad_exchange = list.see_scores[i] < -300;
            }
            let undo = pos.make_move(mv);
            let gives_check = pos.in_check(pos.side);
            if !in_check && !gives_check && (delta_prune || bad_exchange) {
                pos.unmake_move(mv, undo);
            } else {
                let ghost s1 = *self;
                self.push_hash(pos.hash);
                let ghost s2 = *self;
                proof {
                    assert(s1.qctx() == c0) by {
                        assert(s1.qctx().hashes =~= c0.hashes);
                    }
                    assert(s2.qctx() == c0.pushed(pos@.hash)) by {
                        assert(s2.qctx().hashes =~= c0.hashes.push(pos@.hash));
                    }
                }
                let child = self.quiescence(pos, -beta, -a, ply + 1);
                let score = -child;
                self.pop_hash();
                assert(pos@ == p0.after_make(mv));
                pos.unmake_move(mv, undo);
                assert(pos@ == p0);
                proof {
                    assert(self.hashes@.subrange(0, s0.hash_len as int) =~= s0.hashes@.subrange(
                        0,
                        s0.hash_len as int,
                    )) by {
                        assert(s2.hashes@.subrange(0, s0.hash_len as int) =~= s1.hashes@.subrange(
                            0,
                            s0.hash_len as int,
                        ));
                        assert forall|k: int| 0 <= k < s0.hash_len implies self.hashes@[k]
                            == s2.hashes@[k] by {
                            assert(self.hashes@[k] == self.hashes@.subrange(0, s2.hash_len as int)[k]);
                            assert(s2.hashes@[k] == s2.hashes@.subrange(0, s2.hash_len as int)[k]);
                        }
                        assert forall|k: int| 0 <= k < s0.hash_len implies s1.hashes@[k]
                            == s0.hashes@[k] by {
                            assert(s1.hashes@[k] == s1.hashes@.subrange(0, s0.hash_len as int)[k]);
                            assert(s0.hashes@[k] == s0.hashes@.subrange(0, s0.hash_len as int)[k]);
                        }
                    }
                }
                if self.stopped {
                    return 0;
                }
                if score >= beta {
                    return score;
                }
                if score > a {
                    a = score;
                }
            }
            i = i + 1;
        }
        a
    }
}

impl Searcher {
    /// Updates killers, history and the counter move after `mv`, the `i`-th move tried,
    /// caused a cut-off: the quiet moves tried before it lose history.
    fn record_cutoff(
        &mut self,
        pos: &Position,
        list: &MoveList,
        i: usize,
        mv: u32,
        depth: i32,
        ply: usize,
        prev: u32,
    )
        requires
            old(self).wf(),
            pos@.layout_ok(),
            list.wf(),
            i < list.moves@.len(),
            list.moves@[i as int] == mv,
            forall|j: int| 0 <= j < list.moves@.len() ==> pos@.move_ok(#[trigger] list.moves@[j]),
            1 <= depth <= 11585,
            ply < MAX_PLY,
        ensures
            final(self).wf(),
            final(self).tt == old(self).tt,
            final(self).hashes == old(self).hashes,
            final(self).hash_len == old(self).hash_len,
            final(self).null_depth == old(self).null_depth,
            final(self).nodes == old(self).nodes,
            final(self).stopped == old(self).stopped,
            final(self).node_limit == old(self).node_limit,
            final(self).soft_limit == old(self).soft_limit,
            final(self).hard_limit == old(self).hard_limit,
            final(self).own_book == old(self).own_book,
            final(self).silent == old(self).silent,
            final(self).reports == old(self).reports,
            final(self).killers@ == killers_after(old(self).killers@, ply as int, mv),
            final(self).history@ == history_after_failures(
                old(self).history@.update(
                    history_slot(pos@, mv),
                    history_reward(
                        old(self).history@[history_slot(pos@, mv)] as int,
                        cutoff_bonus(depth as int),
                    ) as i32,
                ),
                pos@,
                list.moves@,
                i as int,
                cutoff_bonus(depth as int),
            ),
            final(self).counter@ == (if prev != 0 {
                old(self).counter@.update((prev % 4096) as int, mv)
            } else {
                old(self).counter@
            }),
    {
        if self.killers[2 * ply] != mv {
            let k0 = self.killers[2 * ply];
            self.killers.set(2 * ply + 1, k0);
            self.killers.set(2 * ply, mv);
        }
        assert(pos@.move_ok(mv));
        let idx = piece_index(pos.board[move_from(mv) as usize]);
        let slot = idx * 64 + move_to(mv) as usize;
        proof {
            assert(1 <= depth * depth <= 134212225) by (nonlinear_arith)
                requires
                    1 <= depth <= 11585,
            ;
        }
        let sq = depth * depth * 16;
        let bonus: i32 = if sq < 1200 {
            sq
        } else {
            1200
        };
        let h = self.history[slot];
        proof {
            lemma_history_update(h as int, bonus as int);
            assert(-16384 * 1200 <= h * bonus <= 16384 * 1200) by (nonlinear_arith)
                requires
                    -16384 <= h <= 16384,
                    0 <= bonus <= 1200,
            ;
        }
        self.history.set(slot, h + (bonus - h * bonus / 16384));
        let ghost h1 = self.history@;
        assert(bonus == cutoff_bonus(depth as int));
        assert(slot == history_slot(pos@, mv));
        assert(self.killers@ == killers_after(old(self).killers@, ply as int, mv));
        for j in 0..i
            invariant
                self.wf(),
                pos@.layout_ok(),
                list.wf(),
                i < list.moves@.len(),
                forall|k: int| 0 <= k < list.moves@.len() ==> pos@.move_ok(#[trigger] list.moves@[k]),
                0 <= bonus <= 1200,
                self.tt == old(self).tt,
                self.hashes == old(self).hashes,
                self.hash_len == old(self).hash_len,
                self.null_depth == old(self).null_depth,
                self.nodes == old(self).nodes,
                self.stopped == old(self).stopped,
                self.node_limit == old(self).node_limit,
                self.soft_limit == old(self).soft_limit,
                self.hard_limit == old(self).hard_limit,
                self.own_book == old(self).own_book,
                self.silent == old(self).silent,
                self.reports == old(self).reports,
                self.killers@ == killers_after(old(self).killers@, ply as int, mv),
                self.counter@ == old(self).counter@,
                self.history@ == history_after_failures(h1, pos@, list.moves@, j as int, bonus as int),
        {
            let failed = list.moves[j];
            if failed & FLAG_CAPTURE == 0 && failed & FLAG_PROMO == 0 {
                assert(pos@.move_ok(failed));
                let fi = piece_index(pos.board[move_from(failed) as usize]);
                let fslot = fi * 64 + move_to(failed) as usize;
                let e = self.history[fslot];
                proof {
                    lemma_history_update(e as int, bonus as int);
                    assert(-16384 * 1200 <= e * bonus <= 16384 * 1200) by (nonlinear_arith)
                        requires
                            -16384 <= e <= 16384,
                            0 <= bonus <= 1200,
                    ;
                }
                self.history.set(fslot, e + (-bonus - e * bonus / 16384));
            }
        }
        if prev != 0 {
            self.counter.set((prev % 4096) as usize, mv);
        }
    }

    /// Searches the position after `mv` (already made and pushed): the first move with the
    /// full window, later ones with a null window (reduced by `reduction`), re-searched when
    /// they beat `alpha`.
    fn child_score(
        &mut self,
        pos: &mut Position,
        mv: u32,
        depth: i32,
        alpha: i32,
        beta: i32,
        ply: usize,
        pv: bool,
        reduction: i32,
        first: bool,
    ) -> (score: i32)
        requires
            ply + 1 < MAX_PLY,
            old(self).can_search(old(pos)@, -beta as int, -alpha as int, ply + 1),
            -window_at(ply as int) <= alpha <= window_at(ply as int),
            -window_at(ply as int) <= beta <= window_at(ply as int),
            !first ==> alpha < beta,
            1 <= depth <= 11585,
            0 <= reduction <= 4,
        ensures
            final(pos)@ == old(pos)@,
            final(self).wf(),
            final(self).within_budget(),
            final(self).fields_kept(*old(self)),
            final(self).stop_explained(*old(self)),
            min3(-SCORE_BOUND as int, alpha as int, beta as int) - 1 <= score <= max3(
                SCORE_BOUND as int,
                alpha as int,
                beta as int,
            ) + 1,
            final(self).stopped ==> score == 0,
            !final(self).stopped ==> (old(self).settled_score(old(pos)@, ply + 1, false) matches Some(
                v,
            ) ==> score == -v),
            first && pv && !final(self).stopped && old(self).settled_score(old(pos)@, ply + 1, false)
                is None && depth - 1 + (if old(pos)@.in_check(old(pos)@.side) {
                1int
            } else {
                0
            }) > 0 && no_legal_move(old(pos)@) ==> score == -mate_or_draw(old(pos)@, ply + 1),
            !final(self).stopped ==> score == child_value(
                old(self).sctx(),
                old(pos)@,
                mv,
                depth as int,
                alpha as int,
                beta as int,
                ply as int,
                pv,
                reduction as int,
                first,
            ).0 && final(self).sctx() == child_value(
                old(self).sctx(),
                old(pos)@,
                mv,
                depth as int,
                alpha as int,
                beta as int,
                ply as int,
                pv,
                reduction as int,
                first,
            ).1,
        decreases MAX_PLY - ply, 0int,
    {
        let ghost s0 = *self;
        if first {
            return -self.negamax(pos, depth - 1, -beta, -alpha, ply + 1, pv, true, mv);
        }
        let mut s = -self.negamax(pos, depth - 1 - reduction, -alpha - 1, -alpha, ply + 1, false, true, mv);
        if !self.stopped && s > alpha && reduction > 0 {
            proof {
                Searcher::lemma_settled_kept(s0, *self, pos@, ply + 1);
            }
            s = -self.negamax(pos, depth - 1, -alpha - 1, -alpha, ply + 1, false, true, mv);
        }
        if !self.stopped && s > alpha && s < beta {
            proof {
                Searcher::lemma_settled_kept(s0, *self, pos@, ply + 1);
            }
            s = -self.negamax(pos, depth - 1, -beta, -alpha, ply + 1, true, true, mv);
        }
        s
    }

    /// Tries the moves of `list` in order of their scores; `None` when the search stopped,
    /// else the best score, its move and the final lower bound.
    #[verifier::spinoff_prover]
    #[verifier::rlimit(100)]
    fn search_moves(
        &mut self,
        pos: &mut Position,
        list: &mut MoveList,
        depth: i32,
        alpha: i32,
        beta: i32,
        ply: usize,
        pv: bool,
        prev: u32,
        in_check: bool,
        static_eval: i32,
    ) -> (res: Option<(i32, u32, i32)>)
        requires
            ply + 1 < MAX_PLY,
            old(self).can_search(old(pos)@, alpha as int, beta as int, ply as int),
            old(list).wf(),
            forall|m: u32| #[trigger] old(list).moves@.contains(m) ==> legal_move(old(pos)@, m, false),
            1 <= depth <= 11585,
            -SCORE_BOUND <= static_eval <= SCORE_BOUND,
        ensures
            final(pos)@ == old(pos)@,
            final(self).wf(),
            final(self).within_budget(),
            final(self).fields_kept(*old(self)),
            final(self).stop_explained(*old(self)),
            final(self).stopped <==> res is None,
            res matches Some((best, best_move, a)) ==> {
                &&& (best == -INF || score_in_range(best as int, alpha as int, beta as int))
                &&& score_in_range(a as int, alpha as int, beta as int)
                &&& alpha <= a
                &&& (best_move == 0 || legal_move(old(pos)@, best_move, false))
            },
            res matches Some((best, best_move, a)) ==> moves_loop(
                old(self).sctx(),
                old(pos)@,
                depth as int,
                beta as int,
                ply as int,
                pv,
                prev,
                in_check,
                static_eval as int,
                old(list).moves@,
                old(list).scores@,
                0,
                -INF as int,
                0,
                alpha as int,
                0,
                false,
            ) == (best as int, best_move, a as int, final(self).sctx()),
        decreases MAX_PLY - ply, 1int,
    {
        let ghost s0 = *self;
        let ghost p0 = pos@;
        let ghost l0 = *list;
        let n = list.moves.len();
        let mut best: i32 = -INF;
        let mut best_move: u32 = 0;
        let mut a = alpha;
        let mut searched: usize = 0;
        let mut cut = false;
        let mut i: usize = 0;
        while i < n && !cut
            invariant
                pos@ == p0,
                p0 == old(pos)@,
                s0 == *old(self),
                p0.wf(),
                ply + 1 < MAX_PLY,
                list.wf(),
                n == list.moves@.len(),
                forall|m: u32| #[trigger] list.moves@.contains(m) ==> legal_move(p0, m, false),
                self.wf(),
                !self.stopped,
                self.within_budget(),
                self.fields_kept(s0),
                s0.wf(),
                s0.hash_len <= GAME_HISTORY_ROOM + ply,
                s0.null_depth <= 127 + ply,
                -window_at(ply as int) <= alpha <= window_at(ply as int),
                -window_at(ply as int) <= beta <= window_at(ply as int),
                alpha <= a <= max3(SCORE_BOUND as int, alpha as int, beta as int) + 1,
                score_in_range(a as int, alpha as int, beta as int),
                !cut ==> a <= max3(SCORE_BOUND as int, alpha as int, beta as int),
                !cut && searched > 0 ==> a < beta,
                best == -INF || score_in_range(best as int, alpha as int, beta as int),
                best_move == 0 || legal_move(p0, best_move, false),
                1 <= depth <= 11585,
                0 <= searched <= i,
                i <= n,
                -SCORE_BOUND <= static_eval <= SCORE_BOUND,
                l0 == *old(list),
                moves_loop(self.sctx(), p0, depth as int, beta as int, ply as int, pv, prev, in_check, static_eval as int, list.moves@, list.scores@, i as int, best as int, best_move, a as int, searched as int, cut)
                    == moves_loop(s0.sctx(), p0, depth as int, beta as int, ply as int, pv, prev, in_check, static_eval as int, l0.moves@, l0.scores@, 0, -INF as int, 0, alpha as int, 0, false),
            decreases n - i,
        {
            let ghost c_i = self.sctx();
            let ghost lm = list.moves@;
            let ghost ls = list.scores@;
            proof {
                assert(c_i.hashes == s0.hashes@.subrange(0, s0.hash_len as int));
            }
            let mv = list.pick(i);
            proof {
                assert(list.moves@.contains(mv));
                lemma_pseudo_move_ok(p0, mv, false);
                lemma_unmake_undoes_make(p0, mv);
            }
            let tactical = mv & FLAG_CAPTURE != 0 || mv & FLAG_PROMO != 0;
            let undo = pos.make_move(mv);
            let ghost s1 = *self;
            self.push_hash(pos.hash);
            let ghost s2 = *self;
            let gives_check = pos.in_check(pos.side);
            if !pv && !in_check && depth <= 2 && !tactical && !gives_check && searched > 2
                && static_eval + 110 * depth <= a {
                self.pop_hash();
                pos.unmake_move(mv, undo);
                proof {
                    assert(self.hashes@.subrange(0, s0.hash_len as int) =~= s0.hashes@.subrange(
                        0,
                        s0.hash_len as int,
                    ));
                    assert(self.sctx() == c_i);
                }
            } else {
                let mut reduction: i32 = 0;
                if depth >= 3 && searched >= 3 && !in_check && !tactical && !gives_check {
                    reduction = 1;
                    if !pv {
                        let by_count: i32 = if searched / 8 < 2 {
                            (searched / 8) as i32
                        } else {
                            2
                        };
                        let by_depth = if depth / 6 < 1 {
                            depth / 6
                        } else {
                            1
                        };
                        reduction = reduction + by_count + by_depth;
                    }
                }
                proof {
                    assert(s1.sctx() == c_i);
                    assert(s2.sctx() == c_i.pushed(pos@.hash)) by {
                        assert(s2.sctx().hashes =~= c_i.hashes.push(pos@.hash));
                    }
                }
                let ghost q = pos@;
                let ghost a_old = a as int;
                let ghost reduction_g = reduction as int;
                let score = self.child_score(pos, mv, depth, a, beta, ply, pv, reduction, searched == 0);
                let ghost s3 = *self;
                self.pop_hash();
                pos.unmake_move(mv, undo);
                proof {
                    assert(self.hashes@.subrange(0, s0.hash_len as int) =~= s0.hashes@.subrange(
                        0,
                        s0.hash_len as int,
                    )) by {
                        assert forall|k: int| 0 <= k < s0.hash_len implies self.hashes@[k]
                            == s0.hashes@[k] by {
                            assert(self.hashes@[k] == self.hashes@.subrange(0, s2.hash_len as int)[k]);
                            assert(s2.hashes@[k] == s2.hashes@.subrange(0, s2.hash_len as int)[k]);
                            assert(s1.hashes@[k] == s1.hashes@.subrange(0, s0.hash_len as int)[k]);
                            assert(s0.hashes@[k] == s0.hashes@.subrange(0, s0.hash_len as int)[k]);
                        }
                    }
                }
                proof {
                    if !self.stopped {
                        let cc = child_value(c_i.pushed(q.hash), q, mv, depth as int, a_old, beta as int, ply as int, pv, reduction_g, searched == 0).1;
                        assert(self.sctx() == SearchContext { hashes: c_i.hashes, ..cc }) by {
                            assert(self.sctx().hashes =~= c_i.hashes);
                        }
                    }
                }
                searched = searched + 1;
                if self.stopped {
                    return None;
                }
                if score > best {
                    best = score;
                    best_move = mv;
                }
                if score > a {
                    a = score;
                }
                if a >= beta {
                    if !tactical && ply < MAX_PLY {
                        proof {
                            assert forall|j: int| 0 <= j < list.moves@.len() implies p0.move_ok(
                                #[trigger] list.moves@[j],
                            ) by {
                                assert(list.moves@.contains(list.moves@[j]));
                                lemma_pseudo_move_ok(p0, list.moves@[j], false);
                            }
                        }
                        self.record_cutoff(pos, list, i, mv, depth, ply, prev);
                    }
                    cut = true;
                }
            }
            i = i + 1;
        }
        Some((best, best_move, a))
    }

    /// Principal-variation negamax with check extension, transposition-table cut-offs,
    /// reverse futility pruning, null-move pruning, futility pruning of quiet moves and late
    /// move reductions; falls into quiescence at depth 0.
    #[verifier::rlimit(100)]
    #[verifier::spinoff_prover]
    pub fn negamax(
        &mut self,
        pos: &mut Position,
        depth: i32,
        alpha: i32,
        beta: i32,
        ply: usize,
        pv: bool,
        allow_null: bool,
        prev: u32,
    ) -> (r: i32)
        requires
            old(self).can_enter(old(pos)@, alpha as int, beta as int, ply as int),
            depth <= 11584,
        ensures
            final(pos)@ == old(pos)@,
            final(self).searched(*old(self), r as int),
            score_in_range(r as int, alpha as int, beta as int),
            !final(self).stopped ==> match old(self).settled_score(old(pos)@, ply as int, ply == 0) {
                Some(v) => r == v,
                None => pv && depth + (if old(pos)@.in_check(old(pos)@.side) {
                    1int
                } else {
                    0
                }) > 0 && no_legal_move(old(pos)@) ==> r == mate_or_draw(old(pos)@, ply as int),
            },
            !final(self).stopped && depth + (if old(pos)@.in_check(old(pos)@.side) {
                1int
            } else {
                0
            }) <= 0 ==> r == quiet_value(old(self).qctx(), old(pos)@, alpha as int, beta as int, ply as int),
            ({
                let d = depth + (if old(pos)@.in_check(old(pos)@.side) {
                    1int
                } else {
                    0
                });
                !final(self).stopped && !pv && d > 0 && old(self).settled_score(old(pos)@, ply as int, ply == 0)
                    is None ==> (old(self).tt_cut(old(pos)@, d, alpha as int, beta as int, ply as int)
                    matches Some(v) ==> r == v)
            }),
            !final(self).stopped ==> r == search_value(
                old(self).sctx(),
                old(pos)@,
                depth as int,
                alpha as int,
                beta as int,
                ply as int,
                pv,
                allow_null,
                prev,
            ).0 && final(self).sctx() == search_value(
                old(self).sctx(),
                old(pos)@,
                depth as int,
                alpha as int,
                beta as int,
                ply as int,
                pv,
                allow_null,
                prev,
            ).1,
            !old(self).stopped && (old(self).settled_score(old(pos)@, ply as int, ply == 0) is Some || (pv
                && depth + (if old(pos)@.in_check(old(pos)@.side) {
                1int
            } else {
                0
            }) > 0 && no_legal_move(old(pos)@))) ==> final(self).nodes == counted(old(self).nodes),
            !final(self).stopped && !pv && !old(pos)@.in_check(old(pos)@.side) && 0 < depth <= 3
                && old(self).settled_score(old(pos)@, ply as int, ply == 0) is None && old(self).tt_cut(
                old(pos)@,
                depth as int,
                alpha as int,
                beta as int,
                ply as int,
            ) is None && evaluation(old(pos)@) - 90 * depth >= beta ==> r == evaluation(old(pos)@),
        decreases MAX_PLY - ply, 2int,
    {
        let ghost s0 = *self;
        let ghost p0 = pos@;
        let ghost c0 = s0.sctx();
        let ghost sv = search_value(c0, p0, depth as int, alpha as int, beta as int, ply as int, pv, allow_null, prev);
        proof {
            if !s0.stopped {
                s0.lemma_qctx_agrees(p0, ply as int);
                s0.lemma_sctx_agrees(p0, ply as int);
            }
        }
        self.nodes = self.nodes.saturating_add(1);
        if ply > self.seldepth {
            self.seldepth = ply;
        }
        self.time_check();
        if self.stopped {
            return 0;
        }
        proof {
            assert(self.sctx() == c0) by {
                assert(self.sctx().hashes =~= c0.hashes);
            }
        }
        let in_check = pos.in_check(pos.side);
        if pos.halfmove >= 100 {
            if in_check {
                let mut evasions = MoveList::new();
                generate_legal(pos, &mut evasions, false);
                if evasions.moves.len() == 0 {
                    proof {
                        assert forall|m: u32| !legal_move(p0, m, false) by {
                            if legal_move(p0, m, false) {
                                assert(evasions.moves@.contains(m));
                            }
                        }
                    }
                    return -MATE + ply as i32;
                }
                proof {
                    assert(evasions.moves@.contains(evasions.moves@[0]));
                }
            }
            return 0;
        }
        if (ply > 0 && self.repetition(pos)) || insufficient_material(pos) {
            return 0;
        }
        if ply >= MAX_PLY - 1 {
            return evaluate(pos);
        }
        let depth = if in_check {
            depth + 1
        } else {
            depth
        };
        if depth <= 0 {
            proof {
                assert(self.qctx() == s0.qctx()) by {
                    assert(self.qctx().hashes =~= s0.qctx().hashes);
                }
            }
            let r = self.quiescence(pos, alpha, beta, ply);
            proof {
                assert(self.sctx() == c0) by {
                    assert(self.sctx().hashes =~= c0.hashes);
                }
            }
            return r;
        }
        let alpha_orig = alpha;
        let ghost mut c1 = c0;
        let entry = self.tt.get(pos.hash);
        let tt_move = if entry.key == pos.hash {
            entry.best
        } else {
            0
        };
        if !pv && entry.key == pos.hash {
            let capped: u16 = if pos.halfmove < 100 {
                pos.halfmove
            } else {
                100
            };
            let clock_ok = pos.halfmove.saturating_add(depth as u16) < 100 || entry.rule50
                == capped as u8;
            if clock_ok && entry.depth as i32 >= depth {
                let mut score = entry.score as i32;
                if score > MATE - 128 {
                    score = score - ply as i32;
                } else if score < -MATE + 128 {
                    score = score + ply as i32;
                }
                if entry.flag == TT_EXACT || (entry.flag == TT_LOWER && score >= beta) || (
                entry.flag == TT_UPPER && score <= alpha) {
                    return score;
                }
            }
        }
        let static_eval: i32 = if !pv && !in_check {
            evaluate(pos)
        } else {
            0
        };
        if !pv && !in_check && depth <= 3 && static_eval - 90 * depth >= beta {
            return static_eval;
        }
        if allow_null && !pv && !in_check && depth >= 3 && static_eval >= beta && pos.halfmove < 99
            && has_non_pawn_material(pos, pos.side) {
            proof {
                crate::position::lemma_unmake_null_undoes_null(p0);
            }
            let undo = pos.make_null();
            let old_hash_len = self.hash_len;
            self.null_depth = self.null_depth + 1;
            let reduction = 2 + depth / 5;
            let ghost cn0 = SearchContext { null_depth: c0.null_depth + 1, ..c0 };
            proof {
                assert(self.sctx() == cn0) by {
                    assert(self.sctx().hashes =~= c0.hashes);
                }
                assert(reduction == 2 + depth as int / 5);
            }
            let score = -self.negamax(pos, depth - 1 - reduction, -beta, -beta + 1, ply + 1, false, false, 0);
            self.hash_len = old_hash_len;
            self.null_depth = self.null_depth - 1;
            pos.unmake_null(undo);
            proof {
                if !self.stopped {
                    let cn = search_value(cn0, p0.after_null(), depth - 1 - reduction, -beta, -beta + 1, ply + 1, false, false, 0).1;
                    assert(self.sctx() == SearchContext { null_depth: c0.null_depth, ..cn }) by {
                        assert(self.sctx().hashes =~= cn.hashes);
                    }
                    c1 = self.sctx();
                }
            }
            if self.stopped {
                return 0;
            }
            if score >= beta {
                return score;
            }
        }
        let mut list = MoveList::new();
        generate_legal(pos, &mut list, false);
        proof {
            assert(self.sctx() == c1);
            assert(list.moves@.no_duplicates() && in_gen_order(list.moves@, p0) && forall|m: u32|
                #[trigger] list.moves@.contains(m) <==> legal_move(p0, m, false));
            let l = legal_list(p0, false);
            lemma_gen_order_unique(list.moves@, l, p0);
        }
        if list.moves.len() == 0 {
            proof {
                assert forall|m: u32| !legal_move(p0, m, false) by {
                    if legal_move(p0, m, false) {
                        assert(list.moves@.contains(m));
                    }
                }
            }
            return if in_check {
                -MATE + ply as i32
            } else {
                0
            };
        }
        proof {
            assert forall|i: int| 0 <= i < list.moves@.len() implies p0.move_ok(
                #[trigger] list.moves@[i],
            ) by {
                assert(list.moves@.contains(list.moves@[i]));
                lemma_pseudo_move_ok(p0, list.moves@[i], false);
            }
            assert(list.moves@.contains(list.moves@[0]));
            assert(!no_legal_move(p0));
        }
        self.order_moves(pos, &mut list, tt_move, ply, prev);
        proof {
            let sn = *self;
            sn.lemma_sctx_agrees(p0, ply as int);
            let ms = list.moves@;
            assert(list.scores@ =~= Seq::new(ms.len(), |k: int| c1.order_score(p0, ms[k], tt_move, ply as int, prev) as i32)) by {
                assert forall|k: int| 0 <= k < ms.len() implies list.scores@[k] == c1.order_score(p0, ms[k], tt_move, ply as int, prev) as i32 by {
                    assert(list.scores@[k] == sn.order_score(p0, ms[k], tt_move, ply as int, prev));
                }
            }
        }
        let res = self.search_moves(pos, &mut list, depth, alpha, beta, ply, pv, prev, in_check, static_eval);
        match res {
            None => 0,
            Some((best, best_move, a)) => {
                let best = if best == -INF {
                    a
                } else {
                    best
                };
                let flag = if best <= alpha_orig {
                    TT_UPPER
                } else if best >= beta {
                    TT_LOWER
                } else {
                    TT_EXACT
                };
                let ghost c2 = self.sctx();
                self.tt.put(pos.hash, depth, best, flag, best_move, ply, pos.halfmove);
                proof {
                    assert(self.sctx() == c2.put(p0.hash, depth as int, best as int, flag, best_move, ply as int, p0.halfmove as int));
                }
                best
            },
        }
    }
}

impl Searcher {
    /// Searches every root move with principal-variation windows; answers the best score
    /// (`-INF` if stopped before any move finished) and its move (the first ordered move
    /// until one finishes).
    #[verifier::spinoff_prover]
    pub fn root_search(&mut self, pos: &mut Position, depth: i32, alpha: i32, beta: i32) -> (res: (
        i32,
        u32,
    ))
        requires
            old(self).wf(),
            old(self).within_budget(),
            old(self).null_depth == 0,
            old(self).hash_len <= GAME_HISTORY_ROOM,
            old(pos)@.wf(),
            i32::MIN < depth <= 11585,
            -window_at(0) <= alpha <= window_at(0),
            -window_at(0) <= beta <= window_at(0),
        ensures
            final(pos)@ == old(pos)@,
            final(self).wf(),
            final(self).within_budget(),
            final(self).fields_kept(*old(self)),
            old(self).stopped ==> final(self).stopped,
            old(self).out_of_nodes() ==> final(self).nodes == old(self).nodes,
            !no_legal_move(old(pos)@) ==> legal_move(old(pos)@, res.1, false),
            no_legal_move(old(pos)@) ==> res.0 == -INF && res.1 == 0,
            res.0 == -INF || score_in_range(res.0 as int, alpha as int, beta as int),
            !final(self).stopped ==> res.0 == root_value(old(self).sctx(), old(pos)@, depth as int, alpha as int, beta as int).0
                && res.1 == root_value(old(self).sctx(), old(pos)@, depth as int, alpha as int, beta as int).1
                && final(self).sctx() == root_value(old(self).sctx(), old(pos)@, depth as int, alpha as int, beta as int).2,
    {
        let ghost s0 = *self;
        let ghost p0 = pos@;
        let ghost c0 = s0.sctx();
        let alpha_orig = alpha;
        let mut list = MoveList::new();
        generate_legal(pos, &mut list, false);
        let entry = self.tt.get(pos.hash);
        let tt_move = if entry.key == pos.hash {
            entry.best
        } else {
            0
        };
        proof {
            assert forall|i: int| 0 <= i < list.moves@.len() implies p0.move_ok(
                #[trigger] list.moves@[i],
            ) by {
                assert(list.moves@.contains(list.moves@[i]));
                lemma_pseudo_move_ok(p0, list.moves@[i], false);
            }
            if !no_legal_move(p0) {
                let w = choose|m: u32| legal_move(p0, m, false);
                assert(list.moves@.contains(w));
            } else if list.moves@.len() > 0 {
                assert(list.moves@.contains(list.moves@[0]));
            }
        }
        self.order_moves(pos, &mut list, tt_move, 0, 0);
        let ghost l0 = list;
        proof {
            s0.lemma_sctx_agrees(p0, 0);
            assert(list.moves@.no_duplicates() && in_gen_order(list.moves@, p0) && forall|m: u32|
                #[trigger] list.moves@.contains(m) <==> legal_move(p0, m, false));
            let l = legal_list(p0, false);
            lemma_gen_order_unique(list.moves@, l, p0);
            let ms = list.moves@;
            assert(list.scores@ =~= Seq::new(ms.len(), |k: int| c0.order_score(p0, ms[k], tt_move, 0, 0) as i32)) by {
                assert forall|k: int| 0 <= k < ms.len() implies list.scores@[k] == c0.order_score(p0, ms[k], tt_move, 0, 0) as i32 by {
                    assert(list.scores@[k] == s0.order_score(p0, ms[k], tt_move, 0, 0));
                }
            }
        }
        let n = list.moves.len();
        let mut best: i32 = -INF;
        let mut best_move: u32 = if n > 0 {
            list.moves[0]
        } else {
            0
        };
        proof {
            if n > 0 {
                assert(list.moves@.contains(best_move));
            }
        }
        let mut a = alpha;
        let mut done = false;
        let mut i: usize = 0;
        while i < n && !done
            invariant
                pos@ == p0,
                p0 == old(pos)@,
                s0 == *old(self),
                p0.wf(),
                list.wf(),
                n == list.moves@.len(),
                forall|m: u32| #[trigger] list.moves@.contains(m) ==> legal_move(p0, m, false),
                self.wf(),
                self.within_budget(),
                self.fields_kept(s0),
                s0.stopped ==> self.stopped,
                s0.wf(),
                s0.hash_len <= GAME_HISTORY_ROOM,
                s0.null_depth == 0,
                -window_at(0) <= alpha <= window_at(0),
                -window_at(0) <= beta <= window_at(0),
                alpha <= a <= max3(SCORE_BOUND as int, alpha as int, beta as int) + 1,
                score_in_range(a as int, alpha as int, beta as int),
                !done ==> a <= max3(SCORE_BOUND as int, alpha as int, beta as int),
                !done && i > 0 ==> a < beta,
                best == -INF || score_in_range(best as int, alpha as int, beta as int),
                n > 0 ==> legal_move(p0, best_move, false),
                n > 0 <==> !no_legal_move(p0),
                n == 0 ==> best_move == 0 && best == -INF,
                i32::MIN < depth <= 11585,
                s0.out_of_nodes() ==> self.nodes == s0.nodes && (i > 0 ==> done),
                c0 == s0.sctx(),
                !self.stopped ==> root_loop(self.sctx(), p0, depth as int, beta as int, list.moves@, list.scores@, i as int, best as int, best_move, a as int, done)
                    == root_loop(c0, p0, depth as int, beta as int, l0.moves@, l0.scores@, 0, -INF as int, if n > 0 { l0.moves@[0] } else { 0 }, alpha as int, false),
            decreases n - i,
        {
            let ghost c_i = self.sctx();
            proof {
                assert(c_i.hashes == s0.hashes@.subrange(0, s0.hash_len as int));
            }
            self.poll_limits();
            if self.stopped {
                done = true;
            } else {
                let mv = list.pick(i);
                proof {
                    assert(list.moves@.contains(mv));
                    lemma_pseudo_move_ok(p0, mv, false);
                    lemma_unmake_undoes_make(p0, mv);
                }
                let undo = pos.make_move(mv);
                let ghost s1 = *self;
                self.push_hash(pos.hash);
                let ghost s2 = *self;
                proof {
                    assert(s1.sctx() == c_i) by {
                        assert(s1.sctx().hashes =~= c_i.hashes);
                    }
                    assert(s2.sctx() == c_i.pushed(pos@.hash)) by {
                        assert(s2.sctx().hashes =~= c_i.hashes.push(pos@.hash));
                    }
                }
                let score = if i == 0 {
                    -self.negamax(pos, depth - 1, -beta, -a, 1, true, true, mv)
                } else {
                    let mut sc = -self.negamax(pos, depth - 1, -a - 1, -a, 1, false, true, mv);
                    if !self.stopped && sc > a {
                        sc = -self.negamax(pos, depth - 1, -beta, -a, 1, true, true, mv);
                    }
                    sc
                };
                self.pop_hash();
                pos.unmake_move(mv, undo);
                proof {
                    assert(self.hashes@.subrange(0, s0.hash_len as int) =~= s0.hashes@.subrange(
                        0,
                        s0.hash_len as int,
                    )) by {
                        assert forall|k: int| 0 <= k < s0.hash_len implies self.hashes@[k]
                            == s0.hashes@[k] by {
                            assert(self.hashes@[k] == self.hashes@.subrange(0, s2.hash_len as int)[k]);
                            assert(s2.hashes@[k] == s2.hashes@.subrange(0, s2.hash_len as int)[k]);
                            assert(s1.hashes@[k] == s1.hashes@.subrange(0, s0.hash_len as int)[k]);
                            assert(s0.hashes@[k] == s0.hashes@.subrange(0, s0.hash_len as int)[k]);
                        }
                    }
                }
                proof {
                    if !self.stopped {
                        assert(self.sctx().hashes =~= c_i.hashes);
                    }
                }
                if self.stopped {
                    done = true;
                } else {
                    if score > best {
                        best = score;
                        best_move = mv;
                    }
                    if score > a {
                        a = score;
                    }
                    if a >= beta {
                        done = true;
                    }
                }
            }
            i = i + 1;
        }
        if !self.stopped {
            let flag = if best <= alpha_orig {
                TT_UPPER
            } else if best >= beta {
                TT_LOWER
            } else {
                TT_EXACT
            };
            let ghost c2 = self.sctx();
            self.tt.put(pos.hash, depth, best, flag, best_move, 0, pos.halfmove);
            proof {
                assert(self.sctx() == c2.put(p0.hash, depth as int, best as int, flag, best_move, 0, p0.halfmove as int));
            }
        }
        (best, best_move)
    }
}

/// Whether `mv` is one of the moves of `list`.
fn list_has(list: &MoveList, mv: u32) -> (r: bool)
    ensures
        r == list.moves@.contains(mv),
{
    let n = list.moves.len();
    for i in 0..n
        invariant
            n == list.moves@.len(),
            forall|j: int| 0 <= j < i ==> list.moves@[j] != mv,
    {
        if list.moves[i] == mv {
            proof {
                assert(list.moves@[i as int] == mv);
            }
            return true;
        }
    }
    false
}

/// A legal move is never the zero move.
proof fn lemma_legal_nonzero(p: PositionModel, mv: u32)
    requires
        p.layout_ok(),
        legal_move(p, mv, false),
    ensures
        mv != 0,
{
    lemma_pseudo_move_ok(p, mv, false);
    assert(move_from_spec(0u32) == 0 && move_to_spec(0u32) == 0) by (bit_vector);
}

impl Searcher {
    /// Chooses a move: from the opening book when it has one, else by iterative deepening
    /// within the limits, keeping the result of the last completed iteration. Answers 0
    /// exactly when there is no legal move. `game_hashes` are the hashes of the game so far
    /// (the last of them the current position's), for repetition detection.
    #[verifier::spinoff_prover]
    pub fn search(&mut self, pos: &mut Position, limits: GoLimits, game_hashes: &[u64]) -> (mv: u32)
        requires
            old(self).wf(),
            old(pos)@.wf(),
        ensures
            final(pos)@ == old(pos)@,
            final(self).wf(),
            (mv == 0) == !(exists|m: u32| legal_move(old(pos)@, m, false)),
            mv != 0 ==> legal_move(old(pos)@, mv, false),
            final(self).hash_len == (if game_hashes@.len() < GAME_HISTORY_ROOM {
                game_hashes@.len() as int
            } else {
                GAME_HISTORY_ROOM as int
            }),
            final(self).hashes@.subrange(0, final(self).hash_len as int) == game_hashes@.subrange(
                game_hashes@.len() - final(self).hash_len,
                game_hashes@.len() as int,
            ),
            final(self).null_depth == 0,
            final(self).node_limit == limits.nodes,
            final(self).soft_limit == limits.soft,
            final(self).hard_limit == limits.hard,
            final(self).own_book == old(self).own_book,
            final(self).silent == old(self).silent,
            final(self).silent ==> final(self).reports@.len() == 0,
            limits.nodes matches Some(l) ==> final(self).nodes <= l,
            old(self).own_book ==> (crate::book::book_reply(old(pos)@) matches Some(b) ==> mv == b
                && final(self).reports@ == (if old(self).silent {
                seq![]
            } else {
                seq![SearchReport::Book(b)]
            })),
            iterations_ok(final(self).reports@, old(pos)@),
            final(self).reports@.len() > 0 ==> (final(self).reports@.last() matches SearchReport::Iteration(
                r,
            ) ==> mv == r.best),
            !(old(self).own_book && crate::book::book_reply(old(pos)@) is Some) && !no_legal_move(
                old(pos)@,
            ) ==> exists|k: int|
                0 <= k && (k == 0 || k <= max_iterations(limits)) && mv == #[trigger] deepening(
                    start_context(*old(self), game_hashes@),
                    old(pos)@,
                    k,
                ).1 && (!old(self).silent ==> final(self).reports@.len() == k) && (k == 0
                    ==> max_iterations(limits) < 1 || final(self).stopped) && (k < max_iterations(limits)
                    && !final(self).stopped && limits.soft is None ==> k >= 1 && decisive(
                    deepening(start_context(*old(self), game_hashes@), old(pos)@, k).0,
                )),
            !(old(self).own_book && crate::book::book_reply(old(pos)@) is Some) ==> forall|i: int|
                0 <= i < final(self).reports@.len() ==> (#[trigger] final(self).reports@[i] matches SearchReport::Iteration(
                    r,
                ) ==> r.score == deepening(start_context(*old(self), game_hashes@), old(pos)@, i + 1).0
                    && r.best == deepening(start_context(*old(self), game_hashes@), old(pos)@, i + 1).1),
    {
        let ghost p0 = pos@;
        let ghost c_start = start_context(*self, game_hashes@);
        self.started = clock_now();
        self.nodes = 0;
        self.qnodes = 0;
        self.seldepth = 0;
        self.stopped = false;
        self.null_depth = 0;
        self.tt.age = self.tt.age.wrapping_add(1);
        self.soft_limit = limits.soft;
        self.hard_limit = limits.hard;
        self.node_limit = limits.nodes;
        self.reports = Vec::new();
        let total = game_hashes.len();
        let keep = if total < GAME_HISTORY_ROOM {
            total
        } else {
            GAME_HISTORY_ROOM
        };
        let from = total - keep;
        let ghost s_pre = *self;
        for k in 0..keep
            invariant
                self.wf(),
                self.tt == s_pre.tt,
                self.killers == s_pre.killers,
                self.history == s_pre.history,
                self.counter == s_pre.counter,
                self.nodes == 0,
                !self.stopped,
                self.null_depth == 0,
                self.node_limit == limits.nodes,
                self.soft_limit == limits.soft,
                self.hard_limit == limits.hard,
                self.own_book == old(self).own_book,
                self.silent == old(self).silent,
                self.reports@.len() == 0,
                keep <= GAME_HISTORY_ROOM,
                from + keep == total,
                total == game_hashes@.len(),
                forall|j: int| 0 <= j < k ==> #[trigger] self.hashes@[j] == game_hashes@[from + j],
        {
            self.hashes.set(k, game_hashes[from + k]);
        }
        self.hash_len = keep;
        proof {
            assert(self.hashes@.subrange(0, keep as int) =~= game_hashes@.subrange(
                from as int,
                total as int,
            ));
        }
        let ghost s_start = *self;
        proof {
            assert(self.sctx() == c_start) by {
                assert(self.sctx().hashes =~= c_start.hashes);
            }
        }
        let mut legal = MoveList::new();
        generate_legal(pos, &mut legal, false);
        proof {
            assert(legal.moves@.no_duplicates() && in_gen_order(legal.moves@, p0) && forall|m: u32|
                #[trigger] legal.moves@.contains(m) <==> legal_move(p0, m, false));
            let l = legal_list(p0, false);
            lemma_gen_order_unique(legal.moves@, l, p0);
        }
        if legal.moves.len() == 0 {
            proof {
                assert forall|m: u32| !legal_move(p0, m, false) by {
                    if legal_move(p0, m, false) {
                        assert(legal.moves@.contains(m));
                    }
                }
                crate::book::lemma_book_reply_legal(p0);
            }
            return 0;
        }
        proof {
            assert(legal.moves@.contains(legal.moves@[0]));
            lemma_legal_nonzero(p0, legal.moves@[0]);
        }
        if self.own_book {
            match crate::book::opening_move(pos) {
                Some(book) => {
                    if list_has(&legal, book) {
                        if !self.silent {
                            self.reports.push(SearchReport::Book(book));
                        }
                        assert(self.reports@ =~= (if self.silent {
                            seq![]
                        } else {
                            seq![SearchReport::Book(book)]
                        }));
                        proof {
                            lemma_legal_nonzero(p0, book);
                        }
                        return book;
                    }
                },
                None => {},
            }
        }
        let mut completed_move = legal.moves[0];
        let mut previous_score: i32 = 0;
        let max_depth = if limits.depth < 64 {
            limits.depth
        } else {
            64
        };
        let mut depth: i32 = 1;
        let mut finished = false;
        let ghost mut done_k: int = 0;
        proof {
            assert(self.sctx() == c_start);
        }
        while depth <= max_depth && !finished
            invariant
                !(old(self).own_book && crate::book::book_reply(p0) is Some),
                max_depth == max_iterations(limits),
                c_start == start_context(*old(self), game_hashes@),
                0 <= done_k <= depth - 1,
                done_k == 0 || done_k <= max_depth,
                !finished ==> done_k == depth - 1,
                depth > 1 && done_k == 0 ==> self.stopped,
                finished ==> depth > 1,
                finished && !self.stopped && limits.soft is None ==> done_k >= 1 && decisive(previous_score as int),
                previous_score == deepening(c_start, p0, done_k).0,
                completed_move == deepening(c_start, p0, done_k).1,
                !finished ==> self.sctx() == deepening(c_start, p0, done_k).2,
                !self.silent ==> self.reports@.len() == done_k,
                forall|i: int|
                    0 <= i < self.reports@.len() ==> (#[trigger] self.reports@[i] matches SearchReport::Iteration(
                        r,
                    ) ==> r.score == deepening(c_start, p0, i + 1).0 && r.best == deepening(c_start, p0, i + 1).1),
                pos@ == p0,
                p0 == old(pos)@,
                p0.wf(),
                legal.wf(),
                forall|m: u32| #[trigger] legal.moves@.contains(m) <==> legal_move(p0, m, false),
                legal.moves@.len() > 0,
                legal_move(p0, completed_move, false),
                self.wf(),
                self.within_budget(),
                limits.nodes == Some(0u64) ==> self.nodes == 0,
                self.null_depth == 0,
                self.hash_len == s_start.hash_len,
                self.hash_len <= GAME_HISTORY_ROOM,
                self.hashes@.subrange(0, self.hash_len as int) == s_start.hashes@.subrange(
                    0,
                    s_start.hash_len as int,
                ),
                self.node_limit == limits.nodes,
                self.soft_limit == limits.soft,
                self.hard_limit == limits.hard,
                self.own_book == old(self).own_book,
                self.silent == old(self).silent,
                self.silent ==> self.reports@.len() == 0,
                !finished && !self.silent ==> self.reports@.len() == depth - 1,
                iterations_ok(self.reports@, p0),
                forall|i: int|
                    0 <= i < self.reports@.len() ==> #[trigger] self.reports@[i] is Iteration,
                self.reports@.len() > 0 ==> (self.reports@.last() matches SearchReport::Iteration(
                    r,
                ) ==> r.best == completed_move),
                max_depth <= 64,
                1 <= depth <= 65,
                -(SCORE_BOUND + 2 * depth) <= previous_score <= SCORE_BOUND + 2 * depth,
            decreases 65 - depth + if finished {
                0int
            } else {
                1int
            },
        {
            let late = match self.soft_limit {
                Some(limit) => millis_since(&self.started) >= limit,
                None => false,
            };
            if depth > 1 && late {
                finished = true;
            } else {
                let window: i32 = if depth >= 4 {
                    35
                } else {
                    INF
                };
                let iteration_started = clock_now();
                let low = previous_score - window;
                let high = previous_score + window;
                let mut alpha = if low > -INF {
                    low
                } else {
                    -INF
                };
                let mut beta = if high < INF {
                    high
                } else {
                    INF
                };
                let ghost c_before = self.sctx();
                let (mut score, mut best) = self.root_search(pos, depth, alpha, beta);
                if !self.stopped && (score <= alpha || score >= beta) {
                    alpha = -INF;
                    beta = INF;
                    let (s2, b2) = self.root_search(pos, depth, alpha, beta);
                    score = s2;
                    best = b2;
                }
                if self.stopped {
                    finished = true;
                } else {
                    proof {
                        assert((score as int, best, self.sctx()) == iteration_value(c_before, p0, depth as int, previous_score as int));
                        done_k = depth as int;
                    }
                    completed_move = best;
                    previous_score = score;
                    let elapsed = millis_since(&self.started);
                    let iteration_time = millis_since(&iteration_started);
                    let nps = if elapsed > 0 {
                        match self.nodes.checked_mul(1000) {
                            Some(x) => x / elapsed,
                            None => u64::MAX / elapsed,
                        }
                    } else {
                        self.nodes
                    };
                    let mating = score > MATE - 128 || score < -(MATE - 128);
                    if !self.silent {
                        let mate_in = if mating {
                            Some(
                                if score > 0 {
                                    (MATE - score + 1) / 2
                                } else {
                                    -((MATE + score) / 2)
                                },
                            )
                        } else {
                            None
                        };
                        let ghost before = self.reports@;
                        self.reports.push(
                            SearchReport::Iteration(
                                IterationReport {
                                    depth,
                                    seldepth: self.seldepth,
                                    score,
                                    mate_in,
                                    nodes: self.nodes,
                                    nps,
                                    time_ms: elapsed,
                                    best,
                                },
                            ),
                        );
                        proof {
                            assert forall|i: int| 0 <= i < self.reports@.len() implies (
                            #[trigger] self.reports@[i] matches SearchReport::Iteration(r) ==> r.depth
                                == i + 1 && legal_move(p0, r.best, false) && r.mate_in
                                == mate_in_for(r.score as int)) by {
                                if i < before.len() {
                                    assert(self.reports@[i] == before[i]);
                                }
                            }
                            assert forall|i: int| 0 <= i < self.reports@.len() implies #[trigger] self.reports@[i] is Iteration by {
                                if i < before.len() {
                                    assert(self.reports@[i] == before[i]);
                                }
                            }
                        }
                    }
                    let decisive = score > MATE - 100 || score < -(MATE - 100);
                    let no_time = match limits.soft {
                        Some(limit) => elapsed as u128 + iteration_time as u128 * 2 >= limit as u128,
                        None => false,
                    };
                    if decisive || no_time {
                        finished = true;
                    }
                }
            }
            depth = depth + 1;
        }
        proof {
            assert(done_k == 0 ==> max_iterations(limits) < 1 || self.stopped);
            assert(done_k < max_iterations(limits) && !self.stopped && limits.soft is None ==> done_k >= 1
                && decisive(deepening(c_start, p0, done_k).0));
            assert(completed_move == deepening(c_start, p0, done_k).1);
        }
        if list_has(&legal, completed_move) {
            proof {
                lemma_legal_nonzero(p0, completed_move);
            }
            completed_move
        } else {
            legal.moves[0]
        }
    }
}

proof fn lemma_rep_count_nonneg(hs: Seq<u64>, h: u64, i: int, start: int)
    ensures
        rep_count(hs, h, i, start) >= 0,
    decreases i + 2,
{
    if i >= start && i >= 0 {
        lemma_rep_count_nonneg(hs, h, i - 2, start);
    }
}

} // verus!
