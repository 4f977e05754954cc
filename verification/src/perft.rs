//! Perft: counting the leaves of the legal move tree.

use vstd::prelude::*;
use crate::movegen::{generate_legal, legal_move, lemma_pseudo_move_ok, MoveList};
use crate::position::{lemma_unmake_undoes_make, Position, PositionModel};

verus! {

broadcast use vstd::seq_lib::group_seq_properties;

/// The legal moves of `p`, in increasing order of their encoding.
pub open spec fn legal_moves(p: PositionModel) -> Seq<u32> {
    Seq::new(0x1_0000_0000nat, |i: int| i as u32).filter(|m: u32| legal_move(p, m, false))
}

/// The number of leaves of the legal move tree of `p` cut at `depth` plies.
pub open spec fn perft_count(p: PositionModel, depth: nat) -> nat
    decreases depth, 1nat, 0nat,
{
    if depth == 0 {
        1
    } else {
        subtree_sum(p, legal_moves(p), (depth - 1) as nat)
    }
}

/// The leaves below the moves `ms` of `p`, each subtree cut at `depth` plies.
pub open spec fn subtree_sum(p: PositionModel, ms: Seq<u32>, depth: nat) -> nat
    decreases depth + 1, 0nat, ms.len(),
{
    if ms.len() == 0 {
        0
    } else {
        subtree_sum(p, ms.drop_last(), depth) + perft_count(p.after_make(ms.last()), depth)
    }
}

/// A count as a `u64` holds it: exact up to `u64::MAX`, which stands for anything larger.
pub open spec fn saturated(n: nat) -> nat {
    if n <= u64::MAX {
        n
    } else {
        u64::MAX as nat
    }
}

/// Filtering keeps a sequence free of repeats.
proof fn lemma_filter_no_duplicates(s: Seq<u32>, pred: spec_fn(u32) -> bool)
    requires
        s.no_duplicates(),
    ensures
        s.filter(pred).no_duplicates(),
    decreases s.len(),
{
    reveal(Seq::filter);
    if s.len() > 0 {
        let rest = s.drop_last();
        assert(rest.no_duplicates());
        lemma_filter_no_duplicates(rest, pred);
        if pred(s.last()) {
            let f = rest.filter(pred);
            assert(!f.contains(s.last())) by {
                if f.contains(s.last()) {
                    rest.lemma_filter_contains_rev(pred, s.last());
                    let k = choose|k: int| 0 <= k < rest.len() && rest[k] == s.last();
                    assert(s[k] == s[s.len() - 1]);
                }
            }
        }
    }
}

/// `legal_moves(p)` holds each legal move once and nothing else.
pub proof fn lemma_legal_moves(p: PositionModel)
    ensures
        legal_moves(p).no_duplicates(),
        forall|m: u32| #[trigger] legal_moves(p).contains(m) <==> legal_move(p, m, false),
{
    let all = Seq::new(0x1_0000_0000nat, |i: int| i as u32);
    let pred = |m: u32| legal_move(p, m, false);
    assert(all.no_duplicates());
    lemma_filter_no_duplicates(all, pred);
    assert forall|m: u32| #[trigger] legal_moves(p).contains(m) <==> legal_move(p, m, false) by {
        if legal_move(p, m, false) {
            assert(all[m as int] == m);
            all.lemma_filter_contains(pred, m as int);
        }
        if legal_moves(p).contains(m) {
            all.lemma_filter_contains_rev(pred, m);
        }
    }
}

/// Taking one move out of the list takes its subtree out of the sum.
proof fn lemma_subtree_remove(p: PositionModel, ms: Seq<u32>, j: int, depth: nat)
    requires
        0 <= j < ms.len(),
    ensures
        subtree_sum(p, ms, depth) == subtree_sum(p, ms.remove(j), depth) + perft_count(
            p.after_make(ms[j]),
            depth,
        ),
    decreases ms.len(),
{
    if j == ms.len() - 1 {
        assert(ms.remove(j) =~= ms.drop_last());
    } else {
        let r = ms.remove(j);
        lemma_subtree_remove(p, ms.drop_last(), j, depth);
        assert(r.drop_last() =~= ms.drop_last().remove(j));
        assert(r.last() == ms.last());
    }
}

/// The sum depends only on which moves the list holds, when none is repeated.
pub proof fn lemma_subtree_permutation(p: PositionModel, a: Seq<u32>, b: Seq<u32>, depth: nat)
    requires
        a.no_duplicates(),
        b.no_duplicates(),
        forall|m: u32| a.contains(m) <==> b.contains(m),
    ensures
        subtree_sum(p, a, depth) == subtree_sum(p, b, depth),
    decreases a.len(),
{
    if a.len() == 0 {
        if b.len() > 0 {
            assert(b.contains(b[0]));
        }
    } else {
        let x = a.last();
        assert(a.contains(x));
        let j = b.index_of(x);
        let b2 = b.remove(j);
        let a2 = a.drop_last();
        lemma_subtree_remove(p, b, j, depth);
        assert(b2.no_duplicates()) by {
            assert forall|u: int, v: int| 0 <= u < v < b2.len() implies b2[u] != b2[v] by {
                let bu = if u < j { u } else { u + 1 };
                let bv = if v < j { v } else { v + 1 };
                assert(b2[u] == b[bu]);
                assert(b2[v] == b[bv]);
            }
        }
        assert forall|m: u32| a2.contains(m) <==> b2.contains(m) by {
            if a2.contains(m) {
                let k = choose|k: int| 0 <= k < a2.len() && a2[k] == m;
                assert(a[k] == m);
                assert(m != x);
                assert(b.contains(m));
                let t = choose|t: int| 0 <= t < b.len() && b[t] == m;
                assert(t != j);
                if t < j {
                    assert(b2[t] == m);
                } else {
                    assert(b2[t - 1] == m);
                }
            }
            if b2.contains(m) {
                let k = choose|k: int| 0 <= k < b2.len() && b2[k] == m;
                let bk = if k < j { k } else { k + 1 };
                assert(b[bk] == m);
                assert(bk != j);
                assert(m != x);
                assert(a.contains(m));
                let t = choose|t: int| 0 <= t < a.len() && a[t] == m;
                assert(t != a.len() - 1);
                assert(a2[t] == m);
            }
        }
        lemma_subtree_permutation(p, a2, b2, depth);
    }
}

/// Every subtree of a sum of subtrees counts no more than the sum.
proof fn lemma_subtree_term_le(p: PositionModel, ms: Seq<u32>, depth: nat, i: int)
    requires
        0 <= i < ms.len(),
    ensures
        perft_count(p.after_make(ms[i]), depth) <= subtree_sum(p, ms, depth),
    decreases ms.len(),
{
    if i < ms.len() - 1 {
        lemma_subtree_term_le(p, ms.drop_last(), depth, i);
        assert(ms.drop_last()[i] == ms[i]);
    }
}

/// Leaf counts as `perft` returns them: one leaf at depth 0, one per legal move at depth 1, and
/// at depth `d + 1` the sum of the counts below each legal move, whenever that sum fits in 64
/// bits (a larger count is returned as `u64::MAX`).
pub proof fn law_perft_sums(p: PositionModel, ms: Seq<u32>, depth: nat)
    requires
        ms.no_duplicates(),
        forall|m: u32| #[trigger] ms.contains(m) <==> legal_move(p, m, false),
    ensures
        saturated(perft_count(p, 0)) == 1,
        perft_count(p, 1) == ms.len(),
        perft_count(p, depth + 1) <= u64::MAX ==> saturated(perft_count(p, depth + 1)) == subtree_sum(
            p,
            ms,
            depth,
        ) && forall|i: int|
            0 <= i < ms.len() ==> saturated(#[trigger] perft_count(p.after_make(ms[i]), depth))
                == perft_count(p.after_make(ms[i]), depth),
{
    lemma_divide_sums_to_perft(p, ms, depth);
    lemma_divide_sums_to_perft(p, ms, 0);
    lemma_subtree_ones(p, ms);
    if perft_count(p, depth + 1) <= u64::MAX {
        assert forall|i: int| 0 <= i < ms.len() implies saturated(#[trigger] perft_count(p.after_make(ms[i]), depth))
            == perft_count(p.after_make(ms[i]), depth) by {
            lemma_subtree_term_le(p, ms, depth, i);
        }
    }
}

/// At depth 0 every move's subtree is one leaf.
proof fn lemma_subtree_ones(p: PositionModel, ms: Seq<u32>)
    ensures
        subtree_sum(p, ms, 0) == ms.len(),
    decreases ms.len(),
{
    if ms.len() > 0 {
        lemma_subtree_ones(p, ms.drop_last());
        assert(perft_count(p.after_make(ms.last()), 0) == 1);
    }
}

/// The leaf count one ply deeper is the sum of the subtrees below the legal moves, whatever
/// order they are listed in (what `perft_divide` reports adds up to `perft`).
pub proof fn lemma_divide_sums_to_perft(p: PositionModel, ms: Seq<u32>, depth: nat)
    requires
        ms.no_duplicates(),
        forall|m: u32| #[trigger] ms.contains(m) <==> legal_move(p, m, false),
    ensures
        perft_count(p, depth + 1) == subtree_sum(p, ms, depth),
{
    lemma_legal_moves(p);
    lemma_subtree_permutation(p, ms, legal_moves(p), depth);
}

/// At depth zero every subtree is one leaf.
proof fn lemma_subtree_leaves(p: PositionModel, ms: Seq<u32>)
    ensures
        subtree_sum(p, ms, 0) == ms.len(),
    decreases ms.len(),
{
    if ms.len() > 0 {
        lemma_subtree_leaves(p, ms.drop_last());
        assert(perft_count(p.after_make(ms.last()), 0) == 1);
    }
}

/// The leaf count of the legal move tree of the given depth, saturated at `u64::MAX` (the
/// position is left as it was).
pub fn perft(pos: &mut Position, depth: u32) -> (nodes: u64)
    requires
        old(pos)@.wf(),
    ensures
        final(pos)@ == old(pos)@,
        nodes == saturated(perft_count(old(pos)@, depth as nat)),
    decreases depth,
{
    if depth == 0 {
        return 1;
    }
    let ghost p0 = pos@;
    let ghost d = (depth - 1) as nat;
    let mut list = MoveList::new();
    generate_legal(pos, &mut list, false);
    proof {
        lemma_legal_moves(p0);
        lemma_subtree_permutation(p0, list.moves@, legal_moves(p0), d);
    }
    if depth == 1 {
        proof {
            lemma_subtree_leaves(p0, list.moves@);
        }
        return list.moves.len() as u64;
    }
    let mut nodes: u64 = 0;
    let n = list.moves.len();
    for i in 0..n
        invariant
            pos@ == p0,
            p0.wf(),
            n == list.moves@.len(),
            depth > 1,
            d == depth - 1,
            forall|m: u32| #[trigger] list.moves@.contains(m) <==> legal_move(p0, m, false),
            nodes == saturated(subtree_sum(p0, list.moves@.take(i as int), d)),
    {
        let mv = list.moves[i];
        proof {
            assert(list.moves@.contains(mv));
            lemma_pseudo_move_ok(p0, mv, false);
            lemma_unmake_undoes_make(p0, mv);
            let t = list.moves@.take(i as int + 1);
            assert(t.drop_last() =~= list.moves@.take(i as int));
            assert(t.last() == mv);
        }
        let undo = pos.make_move(mv);
        let count = perft(pos, depth - 1);
        nodes = nodes.saturating_add(count);
        pos.unmake_move(mv, undo);
    }
    proof {
        assert(list.moves@.take(n as int) =~= list.moves@);
    }
    nodes
}

/// Perft split by the first move: each legal move once, in the order of generation, with
/// the saturated leaf count `depth - 1` plies below it.
pub fn perft_divide(pos: &mut Position, depth: u32) -> (r: (Vec<u32>, Vec<u64>))
    requires
        old(pos)@.wf(),
        depth >= 1,
    ensures
        final(pos)@ == old(pos)@,
        r.0@.len() == r.1@.len(),
        r.0@.no_duplicates(),
        crate::movegen::in_gen_order(r.0@, old(pos)@),
        forall|m: u32| #[trigger] r.0@.contains(m) <==> legal_move(old(pos)@, m, false),
        forall|i: int|
            0 <= i < r.1@.len() ==> r.1@[i] == saturated(
                perft_count(old(pos)@.after_make(#[trigger] r.0@[i]), (depth - 1) as nat),
            ),
{
    let ghost p0 = pos@;
    let mut list = MoveList::new();
    generate_legal(pos, &mut list, false);
    let n = list.moves.len();
    let mut counts: Vec<u64> = Vec::new();
    for i in 0..n
        invariant
            pos@ == p0,
            p0.wf(),
            n == list.moves@.len(),
            counts@.len() == i,
            depth >= 1,
            forall|m: u32| #[trigger] list.moves@.contains(m) <==> legal_move(p0, m, false),
            list.moves@.no_duplicates(),
            crate::movegen::in_gen_order(list.moves@, p0),
            forall|k: int|
                0 <= k < i ==> counts@[k] == saturated(
                    perft_count(p0.after_make(#[trigger] list.moves@[k]), (depth - 1) as nat),
                ),
    {
        let mv = list.moves[i];
        proof {
            assert(list.moves@.contains(mv));
            lemma_pseudo_move_ok(p0, mv, false);
            lemma_unmake_undoes_make(p0, mv);
        }
        let undo = pos.make_move(mv);
        let count = perft(pos, depth - 1);
        pos.unmake_move(mv, undo);
        counts.push(count);
    }
    (list.moves, counts)
}

} // verus!
