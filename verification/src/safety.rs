//! A legal move never leaves the mover's king attacked.

use vstd::prelude::*;
use crate::attacks::{
    attacked, bishop_dir, knight_delta, king_delta, piece_at, ray_clear, ray_empty_at, ray_hits,
    rook_dir, step,
};
use crate::board::{
    abs_of, file_of, move_from_spec, move_to_spec, rank_of, square_at, BISHOP, FLAG_CASTLE, KING,
    KNIGHT, PAWN, QUEEN, ROOK,
};
use crate::movegen::{board_for_safety, legal_move, lemma_pseudo_move_ok};
use crate::position::{castle_rook_from, castle_rook_to, PositionModel};

verus! {

/// The castling geometries: the king's destination, and the rook's origin and destination.
spec fn castle_squares(k: int, rf: int, rt: int) -> bool {
    ||| k == 6 && rf == 7 && rt == 5
    ||| k == 2 && rf == 0 && rt == 3
    ||| k == 62 && rf == 63 && rt == 61
    ||| k == 58 && rf == 56 && rt == 59
}

/// Moving the castling rook next to the king gives the side `by` no new attack on the king's
/// square: the rook's old square lies at the end of its line, and its new one only blocks.
proof fn lemma_castle_rook_adds_no_attack(b: Seq<i8>, k: int, rf: int, rt: int, by: int)
    requires
        b.len() == 64,
        castle_squares(k, rf, rt),
        by == 1 || by == -1,
        b[rf] == -by * ROOK,
    ensures
        attacked(b.update(rf, 0).update(rt, b[rf]), k, by) ==> attacked(b, k, by),
{
    let b2 = b.update(rf, 0).update(rt, b[rf]);
    let tf = file_of(k);
    let tr = rank_of(k);
    assert forall|s: int| 0 <= s < 64 && b2[s] * by > 0 implies #[trigger] b[s] == b2[s] by {
        if s == rt {
            assert(b2[s] == -by * ROOK);
        }
    }
    if attacked(b2, k, by) {
        if piece_at(b2, tf - 1, tr - by, by * PAWN) {
            assert(piece_at(b, tf - 1, tr - by, by * PAWN));
        } else if piece_at(b2, tf + 1, tr - by, by * PAWN) {
            assert(piece_at(b, tf + 1, tr - by, by * PAWN));
        } else if exists|i: int|
            0 <= i < 8 && #[trigger] piece_at(
                b2,
                tf + knight_delta(i).0,
                tr + knight_delta(i).1,
                by * KNIGHT,
            ) {
            let i = choose|i: int|
                0 <= i < 8 && #[trigger] piece_at(
                    b2,
                    tf + knight_delta(i).0,
                    tr + knight_delta(i).1,
                    by * KNIGHT,
                );
            assert(piece_at(b, tf + knight_delta(i).0, tr + knight_delta(i).1, by * KNIGHT));
        } else if exists|i: int|
            0 <= i < 8 && #[trigger] piece_at(
                b2,
                tf + king_delta(i).0,
                tr + king_delta(i).1,
                by * KING,
            ) {
            let i = choose|i: int|
                0 <= i < 8 && #[trigger] piece_at(
                    b2,
                    tf + king_delta(i).0,
                    tr + king_delta(i).1,
                    by * KING,
                );
            assert(piece_at(b, tf + king_delta(i).0, tr + king_delta(i).1, by * KING));
        } else if exists|i: int|
            0 <= i < 4 && #[trigger] ray_hits(
                b2,
                tf,
                tr,
                bishop_dir(i).0,
                bishop_dir(i).1,
                by * BISHOP,
                by * QUEEN,
            ) {
            let i = choose|i: int|
                0 <= i < 4 && #[trigger] ray_hits(
                    b2,
                    tf,
                    tr,
                    bishop_dir(i).0,
                    bishop_dir(i).1,
                    by * BISHOP,
                    by * QUEEN,
                );
            lemma_ray_survives(b, b2, k, rf, rt, by, bishop_dir(i).0, bishop_dir(i).1, by * BISHOP, by * QUEEN);
        } else {
            let i = choose|i: int|
                0 <= i < 4 && #[trigger] ray_hits(
                    b2,
                    tf,
                    tr,
                    rook_dir(i).0,
                    rook_dir(i).1,
                    by * ROOK,
                    by * QUEEN,
                );
            lemma_ray_survives(b, b2, k, rf, rt, by, rook_dir(i).0, rook_dir(i).1, by * ROOK, by * QUEEN);
        }
    }
}

/// A ray from the king's square that reaches a piece of `by` after the castling rook moved
/// reached it before.
proof fn lemma_ray_survives(
    b: Seq<i8>,
    b2: Seq<i8>,
    k: int,
    rf: int,
    rt: int,
    by: int,
    df: int,
    dr: int,
    p1: int,
    p2: int,
)
    requires
        b.len() == 64,
        castle_squares(k, rf, rt),
        by == 1 || by == -1,
        b[rf] == -by * ROOK,
        b2 == b.update(rf, 0).update(rt, b[rf]),
        -1 <= df <= 1,
        -1 <= dr <= 1,
        df != 0 || dr != 0,
        p1 * by > 0,
        p2 * by > 0,
        ray_hits(b2, file_of(k), rank_of(k), df, dr, p1, p2),
    ensures
        ray_hits(b, file_of(k), rank_of(k), df, dr, p1, p2),
{
    let tf = file_of(k);
    let tr = rank_of(k);
    let d = choose|d: int|
        d >= 1 && ray_clear(b2, tf, tr, df, dr, d) && (#[trigger] square_at(
            step(tf, df, d),
            step(tr, dr, d),
        ) matches Some(s) && (b2[s] == p1 || b2[s] == p2));
    let hit = square_at(step(tf, df, d), step(tr, dr, d))->0;
    assert(b2[rf] == 0);
    assert(b2[rt] == -by * ROOK);
    if by == 1 {
        assert(p1 > 0 && p2 > 0) by (nonlinear_arith)
            requires
                p1 * by > 0,
                p2 * by > 0,
                by == 1,
        ;
    } else {
        assert(p1 < 0 && p2 < 0) by (nonlinear_arith)
            requires
                p1 * by > 0,
                p2 * by > 0,
                by == -1,
        ;
    }
    assert(hit != rf && hit != rt);
    assert forall|j: int| 1 <= j < d implies #[trigger] ray_empty_at(b, tf, tr, df, dr, j) by {
        assert(ray_empty_at(b2, tf, tr, df, dr, j));
        let s = square_at(step(tf, df, j), step(tr, dr, j))->0;
        assert(s != rt);
        if s == rf {
            assert(false);
        }
    }
    assert(square_at(step(tf, df, d), step(tr, dr, d)) matches Some(s) && (b[s] == p1 || b[s]
        == p2));
}

/// After a legal move, the king of the side that moved is not attacked.
pub proof fn lemma_legal_move_keeps_king_safe(p: PositionModel, mv: u32)
    requires
        p.layout_ok(),
        legal_move(p, mv, false),
    ensures
        !p.after_make(mv).in_check(p.side),
{
    lemma_pseudo_move_ok(p, mv, false);
    let side = p.side;
    let from = move_from_spec(mv);
    let to = move_to_spec(mv);
    let bs = board_for_safety(p, mv, side);
    let q = p.after_make(mv);
    let is_king = abs_of(p.board[from] as int) == KING;
    if is_king && mv & FLAG_CASTLE != 0 {
        let rf = castle_rook_from(mv);
        let rt = castle_rook_to(mv);
        assert(castle_squares(to, rf, rt));
        assert(bs[rf] == side * ROOK);
        assert(q.board =~= bs.update(rf, 0).update(rt, bs[rf]));
        lemma_castle_rook_adds_no_attack(bs, to, rf, rt, -side);
    } else {
        assert(q.board =~= bs);
    }
}

} // verus!
