//! Piece movement patterns and attack detection.

use vstd::prelude::*;
use crate::board::{file, rank, square, square_at, file_of, rank_of, sign_of, EMPTY, PAWN, KNIGHT, BISHOP, ROOK, QUEEN, KING};

verus! {

/// Knight jumps, in the order the engine tries them.
pub open spec fn knight_delta(i: int) -> (int, int) {
    if i == 0 {
        (1, 2)
    } else if i == 1 {
        (2, 1)
    } else if i == 2 {
        (2, -1)
    } else if i == 3 {
        (1, -2)
    } else if i == 4 {
        (-1, -2)
    } else if i == 5 {
        (-2, -1)
    } else if i == 6 {
        (-2, 1)
    } else {
        (-1, 2)
    }
}

/// King steps (also the eight queen directions).
pub open spec fn king_delta(i: int) -> (int, int) {
    if i == 0 {
        (1, 1)
    } else if i == 1 {
        (1, 0)
    } else if i == 2 {
        (1, -1)
    } else if i == 3 {
        (0, 1)
    } else if i == 4 {
        (0, -1)
    } else if i == 5 {
        (-1, 1)
    } else if i == 6 {
        (-1, 0)
    } else {
        (-1, -1)
    }
}

pub open spec fn bishop_dir(i: int) -> (int, int) {
    if i == 0 {
        (1, 1)
    } else if i == 1 {
        (1, -1)
    } else if i == 2 {
        (-1, 1)
    } else {
        (-1, -1)
    }
}

pub open spec fn rook_dir(i: int) -> (int, int) {
    if i == 0 {
        (1, 0)
    } else if i == 1 {
        (-1, 0)
    } else if i == 2 {
        (0, 1)
    } else {
        (0, -1)
    }
}

pub fn knight_step(i: usize) -> (d: (i8, i8))
    requires
        i < 8,
    ensures
        d.0 == knight_delta(i as int).0,
        d.1 == knight_delta(i as int).1,
{
    match i {
        0 => (1, 2),
        1 => (2, 1),
        2 => (2, -1),
        3 => (1, -2),
        4 => (-1, -2),
        5 => (-2, -1),
        6 => (-2, 1),
        _ => (-1, 2),
    }
}

pub fn king_step(i: usize) -> (d: (i8, i8))
    requires
        i < 8,
    ensures
        d.0 == king_delta(i as int).0,
        d.1 == king_delta(i as int).1,
{
    match i {
        0 => (1, 1),
        1 => (1, 0),
        2 => (1, -1),
        3 => (0, 1),
        4 => (0, -1),
        5 => (-1, 1),
        6 => (-1, 0),
        _ => (-1, -1),
    }
}

pub fn bishop_step(i: usize) -> (d: (i8, i8))
    requires
        i < 4,
    ensures
        d.0 == bishop_dir(i as int).0,
        d.1 == bishop_dir(i as int).1,
{
    match i {
        0 => (1, 1),
        1 => (1, -1),
        2 => (-1, 1),
        _ => (-1, -1),
    }
}

pub fn rook_step(i: usize) -> (d: (i8, i8))
    requires
        i < 4,
    ensures
        d.0 == rook_dir(i as int).0,
        d.1 == rook_dir(i as int).1,
{
    match i {
        0 => (1, 0),
        1 => (-1, 0),
        2 => (0, 1),
        _ => (0, -1),
    }
}

/// `x` moved `k` steps in direction `d` (one of -1, 0, 1).
pub open spec fn step(x: int, d: int, k: int) -> int {
    if d > 0 {
        x + k
    } else if d < 0 {
        x - k
    } else {
        x
    }
}

/// Whether the square at file `f`, rank `r` exists and holds `p`.
pub open spec fn piece_at(b: Seq<i8>, f: int, r: int, p: int) -> bool {
    square_at(f, r) matches Some(s) && b[s] == p
}

/// The square `j` steps along a ray exists and is empty.
pub open spec fn ray_empty_at(b: Seq<i8>, f: int, r: int, df: int, dr: int, j: int) -> bool {
    square_at(step(f, df, j), step(r, dr, j)) matches Some(s) && b[s] == 0
}

/// All squares strictly between the origin and distance `k` along a ray are empty.
pub open spec fn ray_clear(b: Seq<i8>, f: int, r: int, df: int, dr: int, k: int) -> bool {
    forall|j: int| 1 <= j < k ==> #[trigger] ray_empty_at(b, f, r, df, dr, j)
}

/// The first occupied square along the ray from (f, r) holds `p1` or `p2`.
pub open spec fn ray_hits(b: Seq<i8>, f: int, r: int, df: int, dr: int, p1: int, p2: int) -> bool {
    exists|k: int|
        k >= 1 && ray_clear(b, f, r, df, dr, k) && (#[trigger] square_at(
            step(f, df, k),
            step(r, dr, k),
        ) matches Some(s) && (b[s] == p1 || b[s] == p2))
}

/// Whether a piece of colour `by` attacks square `target` on board `b`.
pub open spec fn attacked(b: Seq<i8>, target: int, by: int) -> bool {
    let tf = file_of(target);
    let tr = rank_of(target);
    ||| piece_at(b, tf - 1, tr - by, by * PAWN)
    ||| piece_at(b, tf + 1, tr - by, by * PAWN)
    ||| exists|i: int|
        0 <= i < 8 && #[trigger] piece_at(
            b,
            tf + knight_delta(i).0,
            tr + knight_delta(i).1,
            by * KNIGHT,
        )
    ||| exists|i: int|
        0 <= i < 8 && #[trigger] piece_at(
            b,
            tf + king_delta(i).0,
            tr + king_delta(i).1,
            by * KING,
        )
    ||| exists|i: int|
        0 <= i < 4 && #[trigger] ray_hits(
            b,
            tf,
            tr,
            bishop_dir(i).0,
            bishop_dir(i).1,
            by * BISHOP,
            by * QUEEN,
        )
    ||| exists|i: int|
        0 <= i < 4 && #[trigger] ray_hits(
            b,
            tf,
            tr,
            rook_dir(i).0,
            rook_dir(i).1,
            by * ROOK,
            by * QUEEN,
        )
}

/// Putting a piece not of colour `by` on an empty square creates no attack by `by`.
pub proof fn lemma_attacked_after_adding(b1: Seq<i8>, q: int, v: i8, target: int, by: int)
    requires
        b1.len() == 64,
        by == 1 || by == -1,
        0 <= q < 64,
        b1[q] == 0,
        sign_of(v as int) != by,
    ensures
        attacked(b1.update(q, v), target, by) ==> attacked(b1, target, by),
{
    let b2 = b1.update(q, v);
    let tf = file_of(target);
    let tr = rank_of(target);
    assert forall|s: int| 0 <= s < 64 && sign_of(b2[s] as int) == by implies b1[s] == b2[s] by {}
    assert forall|s: int| 0 <= s < 64 && b2[s] == 0 implies b1[s] == 0 by {}
    if attacked(b2, target, by) {
        if piece_at(b2, tf - 1, tr - by, by * PAWN) {
            assert(piece_at(b1, tf - 1, tr - by, by * PAWN));
        } else if piece_at(b2, tf + 1, tr - by, by * PAWN) {
            assert(piece_at(b1, tf + 1, tr - by, by * PAWN));
        } else if exists|i: int|
            0 <= i < 8 && #[trigger] piece_at(b2, tf + knight_delta(i).0, tr + knight_delta(i).1, by * KNIGHT) {
            let i = choose|i: int|
                0 <= i < 8 && #[trigger] piece_at(b2, tf + knight_delta(i).0, tr + knight_delta(i).1, by * KNIGHT);
            assert(piece_at(b1, tf + knight_delta(i).0, tr + knight_delta(i).1, by * KNIGHT));
        } else if exists|i: int|
            0 <= i < 8 && #[trigger] piece_at(b2, tf + king_delta(i).0, tr + king_delta(i).1, by * KING) {
            let i = choose|i: int|
                0 <= i < 8 && #[trigger] piece_at(b2, tf + king_delta(i).0, tr + king_delta(i).1, by * KING);
            assert(piece_at(b1, tf + king_delta(i).0, tr + king_delta(i).1, by * KING));
        } else if exists|i: int|
            0 <= i < 4 && #[trigger] ray_hits(b2, tf, tr, bishop_dir(i).0, bishop_dir(i).1, by * BISHOP, by * QUEEN) {
            let i = choose|i: int|
                0 <= i < 4 && #[trigger] ray_hits(b2, tf, tr, bishop_dir(i).0, bishop_dir(i).1, by * BISHOP, by * QUEEN);
            lemma_ray_hits_after_adding(b1, q, v, tf, tr, bishop_dir(i).0, bishop_dir(i).1, by * BISHOP, by * QUEEN, by);
        } else {
            let i = choose|i: int|
                0 <= i < 4 && #[trigger] ray_hits(b2, tf, tr, rook_dir(i).0, rook_dir(i).1, by * ROOK, by * QUEEN);
            lemma_ray_hits_after_adding(b1, q, v, tf, tr, rook_dir(i).0, rook_dir(i).1, by * ROOK, by * QUEEN, by);
        }
    }
}

/// Along the ray from (f, r), some square beyond the `j0`-th is the first occupied one past
/// it and holds `p1` or `p2`.
pub open spec fn ray_hits_beyond(b: Seq<i8>, f: int, r: int, df: int, dr: int, j0: int, p1: int, p2: int) -> bool {
    exists|k: int|
        k > j0 && ray_clear(b, f, r, df, dr, k) && (#[trigger] square_at(step(f, df, k), step(r, dr, k))
            matches Some(s) && (b[s] == p1 || b[s] == p2))
}

proof fn lemma_square_at_injective(f1: int, r1: int, f2: int, r2: int)
    requires
        square_at(f1, r1) is Some,
        square_at(f1, r1) == square_at(f2, r2),
    ensures
        f1 == f2 && r1 == r2,
{
}

/// Putting a piece on an empty square `q`, the `j0`-th square along rook direction `i0` from
/// `target`, removes no attack by `by` on `target`, when no rook or queen of `by` is seen past
/// `q` along that direction.
pub proof fn lemma_attacked_kept_after_adding(b1: Seq<i8>, q: int, v: i8, target: int, by: int, i0: int, j0: int)
    requires
        b1.len() == 64,
        by == 1 || by == -1,
        0 <= q < 64,
        b1[q] == 0,
        0 <= i0 < 4,
        j0 >= 1,
        square_at(step(file_of(target), rook_dir(i0).0, j0), step(rank_of(target), rook_dir(i0).1, j0))
            == Some(q),
        !ray_hits_beyond(b1, file_of(target), rank_of(target), rook_dir(i0).0, rook_dir(i0).1, j0, by * ROOK, by * QUEEN),
    ensures
        attacked(b1, target, by) ==> attacked(b1.update(q, v), target, by),
{
    let b2 = b1.update(q, v);
    let tf = file_of(target);
    let tr = rank_of(target);
    if attacked(b1, target, by) {
        if piece_at(b1, tf - 1, tr - by, by * PAWN) {
            assert(piece_at(b2, tf - 1, tr - by, by * PAWN));
        } else if piece_at(b1, tf + 1, tr - by, by * PAWN) {
            assert(piece_at(b2, tf + 1, tr - by, by * PAWN));
        } else if exists|i: int|
            0 <= i < 8 && #[trigger] piece_at(b1, tf + knight_delta(i).0, tr + knight_delta(i).1, by * KNIGHT) {
            let i = choose|i: int|
                0 <= i < 8 && #[trigger] piece_at(b1, tf + knight_delta(i).0, tr + knight_delta(i).1, by * KNIGHT);
            assert(piece_at(b2, tf + knight_delta(i).0, tr + knight_delta(i).1, by * KNIGHT));
        } else if exists|i: int|
            0 <= i < 8 && #[trigger] piece_at(b1, tf + king_delta(i).0, tr + king_delta(i).1, by * KING) {
            let i = choose|i: int|
                0 <= i < 8 && #[trigger] piece_at(b1, tf + king_delta(i).0, tr + king_delta(i).1, by * KING);
            assert(piece_at(b2, tf + king_delta(i).0, tr + king_delta(i).1, by * KING));
        } else if exists|i: int|
            0 <= i < 4 && #[trigger] ray_hits(b1, tf, tr, bishop_dir(i).0, bishop_dir(i).1, by * BISHOP, by * QUEEN) {
            let i = choose|i: int|
                0 <= i < 4 && #[trigger] ray_hits(b1, tf, tr, bishop_dir(i).0, bishop_dir(i).1, by * BISHOP, by * QUEEN);
            let (df, dr) = bishop_dir(i);
            let k = choose|k: int|
                k >= 1 && ray_clear(b1, tf, tr, df, dr, k) && (#[trigger] square_at(step(tf, df, k), step(tr, dr, k))
                    matches Some(s) && (b1[s] == by * BISHOP || b1[s] == by * QUEEN));
            assert forall|j: int| 1 <= j < k implies #[trigger] ray_empty_at(b2, tf, tr, df, dr, j) by {
                assert(ray_empty_at(b1, tf, tr, df, dr, j));
                if square_at(step(tf, df, j), step(tr, dr, j)) == Some(q) {
                    lemma_square_at_injective(step(tf, df, j), step(tr, dr, j), step(tf, rook_dir(i0).0, j0), step(tr, rook_dir(i0).1, j0));
                }
            }
            let s = square_at(step(tf, df, k), step(tr, dr, k))->0;
            assert(b2[s] == b1[s]);
            assert(ray_clear(b2, tf, tr, df, dr, k));
            assert(ray_hits(b2, tf, tr, bishop_dir(i).0, bishop_dir(i).1, by * BISHOP, by * QUEEN));
        } else {
            let i = choose|i: int|
                0 <= i < 4 && #[trigger] ray_hits(b1, tf, tr, rook_dir(i).0, rook_dir(i).1, by * ROOK, by * QUEEN);
            let (df, dr) = rook_dir(i);
            let k = choose|k: int|
                k >= 1 && ray_clear(b1, tf, tr, df, dr, k) && (#[trigger] square_at(step(tf, df, k), step(tr, dr, k))
                    matches Some(s) && (b1[s] == by * ROOK || b1[s] == by * QUEEN));
            assert forall|j: int| 1 <= j < k implies #[trigger] ray_empty_at(b2, tf, tr, df, dr, j) by {
                assert(ray_empty_at(b1, tf, tr, df, dr, j));
                if square_at(step(tf, df, j), step(tr, dr, j)) == Some(q) {
                    lemma_square_at_injective(step(tf, df, j), step(tr, dr, j), step(tf, rook_dir(i0).0, j0), step(tr, rook_dir(i0).1, j0));
                    if i == i0 && j == j0 {
                        assert(ray_hits_beyond(b1, tf, tr, df, dr, j0, by * ROOK, by * QUEEN));
                    }
                }
            }
            let s = square_at(step(tf, df, k), step(tr, dr, k))->0;
            assert(b2[s] == b1[s]);
            assert(ray_clear(b2, tf, tr, df, dr, k));
            assert(ray_hits(b2, tf, tr, rook_dir(i).0, rook_dir(i).1, by * ROOK, by * QUEEN));
        }
    }
}

proof fn lemma_ray_hits_after_adding(
    b1: Seq<i8>,
    q: int,
    v: i8,
    f: int,
    r: int,
    df: int,
    dr: int,
    p1: int,
    p2: int,
    by: int,
)
    requires
        b1.len() == 64,
        0 <= q < 64,
        b1[q] == 0,
        sign_of(v as int) != by,
        sign_of(p1) == by,
        sign_of(p2) == by,
    ensures
        ray_hits(b1.update(q, v), f, r, df, dr, p1, p2) ==> ray_hits(b1, f, r, df, dr, p1, p2),
{
    let b2 = b1.update(q, v);
    if ray_hits(b2, f, r, df, dr, p1, p2) {
        let k = choose|k: int|
            k >= 1 && ray_clear(b2, f, r, df, dr, k) && (#[trigger] square_at(step(f, df, k), step(r, dr, k))
                matches Some(s) && (b2[s] == p1 || b2[s] == p2));
        assert forall|j: int| 1 <= j < k implies #[trigger] ray_empty_at(b1, f, r, df, dr, j) by {
            assert(ray_empty_at(b2, f, r, df, dr, j));
        }
        assert(ray_clear(b1, f, r, df, dr, k));
        let s = square_at(step(f, df, k), step(r, dr, k))->0;
        assert(b1[s] == b2[s]);
    }
}

/// Boards that agree on which squares are empty and on every piece of colour `by` see the
/// same attacks by `by`.
pub proof fn lemma_attacked_same(b1: Seq<i8>, b2: Seq<i8>, target: int, by: int)
    requires
        b1.len() == 64,
        b2.len() == 64,
        by == 1 || by == -1,
        forall|q: int| 0 <= q < 64 ==> (b1[q] == 0) == (#[trigger] b2[q] == 0),
        forall|q: int|
            0 <= q < 64 && (sign_of(b1[q] as int) == by || sign_of(b2[q] as int) == by) ==> b1[q]
                == #[trigger] b2[q],
    ensures
        attacked(b1, target, by) == attacked(b2, target, by),
{
    lemma_attacked_transfer(b1, b2, target, by);
    lemma_attacked_transfer(b2, b1, target, by);
}

proof fn lemma_attacked_transfer(b1: Seq<i8>, b2: Seq<i8>, target: int, by: int)
    requires
        b1.len() == 64,
        b2.len() == 64,
        by == 1 || by == -1,
        forall|q: int| 0 <= q < 64 ==> (b1[q] == 0) == (#[trigger] b2[q] == 0),
        forall|q: int|
            0 <= q < 64 && (sign_of(b1[q] as int) == by || sign_of(b2[q] as int) == by) ==> b1[q]
                == #[trigger] b2[q],
    ensures
        attacked(b1, target, by) ==> attacked(b2, target, by),
{
    let tf = file_of(target);
    let tr = rank_of(target);
    if attacked(b1, target, by) {
        if piece_at(b1, tf - 1, tr - by, by * PAWN) {
            assert(piece_at(b2, tf - 1, tr - by, by * PAWN));
        } else if piece_at(b1, tf + 1, tr - by, by * PAWN) {
            assert(piece_at(b2, tf + 1, tr - by, by * PAWN));
        } else if exists|i: int|
            0 <= i < 8 && #[trigger] piece_at(
                b1,
                tf + knight_delta(i).0,
                tr + knight_delta(i).1,
                by * KNIGHT,
            ) {
            let i = choose|i: int|
                0 <= i < 8 && #[trigger] piece_at(
                    b1,
                    tf + knight_delta(i).0,
                    tr + knight_delta(i).1,
                    by * KNIGHT,
                );
            assert(piece_at(b2, tf + knight_delta(i).0, tr + knight_delta(i).1, by * KNIGHT));
        } else if exists|i: int|
            0 <= i < 8 && #[trigger] piece_at(
                b1,
                tf + king_delta(i).0,
                tr + king_delta(i).1,
                by * KING,
            ) {
            let i = choose|i: int|
                0 <= i < 8 && #[trigger] piece_at(
                    b1,
                    tf + king_delta(i).0,
                    tr + king_delta(i).1,
                    by * KING,
                );
            assert(piece_at(b2, tf + king_delta(i).0, tr + king_delta(i).1, by * KING));
        } else if exists|i: int|
            0 <= i < 4 && #[trigger] ray_hits(
                b1,
                tf,
                tr,
                bishop_dir(i).0,
                bishop_dir(i).1,
                by * BISHOP,
                by * QUEEN,
            ) {
            let i = choose|i: int|
                0 <= i < 4 && #[trigger] ray_hits(
                    b1,
                    tf,
                    tr,
                    bishop_dir(i).0,
                    bishop_dir(i).1,
                    by * BISHOP,
                    by * QUEEN,
                );
            lemma_ray_transfer(b1, b2, tf, tr, bishop_dir(i).0, bishop_dir(i).1, by * BISHOP, by * QUEEN, by);
        } else {
            let i = choose|i: int|
                0 <= i < 4 && #[trigger] ray_hits(
                    b1,
                    tf,
                    tr,
                    rook_dir(i).0,
                    rook_dir(i).1,
                    by * ROOK,
                    by * QUEEN,
                );
            lemma_ray_transfer(b1, b2, tf, tr, rook_dir(i).0, rook_dir(i).1, by * ROOK, by * QUEEN, by);
        }
    }
}

proof fn lemma_ray_transfer(b1: Seq<i8>, b2: Seq<i8>, f: int, r: int, df: int, dr: int, p1: int, p2: int, by: int)
    requires
        b1.len() == 64,
        b2.len() == 64,
        forall|q: int| 0 <= q < 64 ==> (b1[q] == 0) == (#[trigger] b2[q] == 0),
        forall|q: int|
            0 <= q < 64 && (sign_of(b1[q] as int) == by || sign_of(b2[q] as int) == by) ==> b1[q]
                == #[trigger] b2[q],
        sign_of(p1) == by,
        sign_of(p2) == by,
        ray_hits(b1, f, r, df, dr, p1, p2),
    ensures
        ray_hits(b2, f, r, df, dr, p1, p2),
{
    let d = choose|d: int|
        d >= 1 && ray_clear(b1, f, r, df, dr, d) && (#[trigger] square_at(step(f, df, d), step(r, dr, d))
            matches Some(s) && (b1[s] == p1 || b1[s] == p2));
    assert forall|j: int| 1 <= j < d implies #[trigger] ray_empty_at(b2, f, r, df, dr, j) by {
        assert(ray_empty_at(b1, f, r, df, dr, j));
    }
    let s = square_at(step(f, df, d), step(r, dr, d))->0;
    assert(b2[s] == b1[s]);
    assert(square_at(step(f, df, d), step(r, dr, d)) matches Some(s) && (b2[s] == p1 || b2[s] == p2));
}

/// Walks one ray from (tf, tr) and reports whether its first piece is `p1` or `p2`.
pub fn scan_ray(board: &[i8; 64], tf: i8, tr: i8, df: i8, dr: i8, p1: i8, p2: i8) -> (hit: bool)
    requires
        0 <= tf < 8,
        0 <= tr < 8,
        -1 <= df <= 1,
        -1 <= dr <= 1,
        df != 0 || dr != 0,
        p1 != 0,
        p2 != 0,
    ensures
        hit == ray_hits(board@, tf as int, tr as int, df as int, dr as int, p1 as int, p2 as int),
{
    let ghost b = board@;
    let mut f = tf + df;
    let mut r = tr + dr;
    let ghost mut k: int = 1;
    loop
        invariant
            k >= 1,
            f == step(tf as int, df as int, k),
            r == step(tr as int, dr as int, k),
            -1 <= df <= 1,
            -1 <= dr <= 1,
            df != 0 || dr != 0,
            0 <= tf < 8,
            0 <= tr < 8,
            k <= 8,
            ray_clear(b, tf as int, tr as int, df as int, dr as int, k),
            b == board@,
            p1 != 0,
            p2 != 0,
        decreases 9 - k,
    {
        let next = square(f, r);
        match next {
            None => {
                proof {
                    assert(!ray_hits(b, tf as int, tr as int, df as int, dr as int, p1 as int, p2 as int)) by {
                        if ray_hits(b, tf as int, tr as int, df as int, dr as int, p1 as int, p2 as int) {
                            let kk = choose|kk: int|
                                kk >= 1 && ray_clear(b, tf as int, tr as int, df as int, dr as int, kk)
                                    && (#[trigger] square_at(step(tf as int, df as int, kk), step(tr as int, dr as int, kk)) matches Some(s)
                                    && (b[s] == p1 || b[s] == p2));
                            if kk < k {
                                assert(ray_empty_at(b, tf as int, tr as int, df as int, dr as int, kk));
                            } else if kk > k {
                                assert(ray_empty_at(b, tf as int, tr as int, df as int, dr as int, k));
                            }
                        }
                    }
                }
                return false;
            },
            Some(sq) => {
                let p = board[sq as usize];
                if p != EMPTY {
                    let hit = p == p1 || p == p2;
                    proof {
                        if hit {
                            assert(square_at(step(tf as int, df as int, k), step(tr as int, dr as int, k)) matches Some(s)
                                && (b[s] == p1 || b[s] == p2));
                        } else {
                            if ray_hits(b, tf as int, tr as int, df as int, dr as int, p1 as int, p2 as int) {
                                let kk = choose|kk: int|
                                    kk >= 1 && ray_clear(b, tf as int, tr as int, df as int, dr as int, kk)
                                        && (#[trigger] square_at(step(tf as int, df as int, kk), step(tr as int, dr as int, kk)) matches Some(s)
                                        && (b[s] == p1 || b[s] == p2));
                                if kk < k {
                                    assert(ray_empty_at(b, tf as int, tr as int, df as int, dr as int, kk));
                                } else if kk > k {
                                    assert(ray_empty_at(b, tf as int, tr as int, df as int, dr as int, k));
                                }
                            }
                        }
                    }
                    return hit;
                }
                proof {
                    assert(ray_empty_at(b, tf as int, tr as int, df as int, dr as int, k));
                    assert forall|j: int| 1 <= j < k + 1 implies #[trigger] ray_empty_at(b, tf as int, tr as int, df as int, dr as int, j) by {
                        if j < k {
                            assert(ray_empty_at(b, tf as int, tr as int, df as int, dr as int, j));
                        }
                    }
                    k = k + 1;
                }
                f = f + df;
                r = r + dr;
            },
        }
    }
}


/// Whether any piece of colour `by` attacks `target`.
pub fn is_attacked_on(board: &[i8; 64], target: u8, by: i8) -> (res: bool)
    requires
        target < 64,
        by == 1 || by == -1,
    ensures
        res == attacked(board@, target as int, by as int),
{
    let ghost b = board@;
    let tf = file(target);
    let tr = rank(target);
    let pawn_rank = tr - by;
    if let Some(sq) = square(tf - 1, pawn_rank) {
        if board[sq as usize] == by * PAWN {
            return true;
        }
    }
    if let Some(sq) = square(tf + 1, pawn_rank) {
        if board[sq as usize] == by * PAWN {
            assert(piece_at(b, file_of(target as int) + 1, rank_of(target as int) - by, by * PAWN));
            return true;
        }
    }
    assert(!piece_at(b, tf - 1, tr - by, by * PAWN));
    assert(!piece_at(b, tf + 1, tr - by, by * PAWN));
    for i in 0..8usize
        invariant
            b == board@,
            tf == file_of(target as int),
            tr == rank_of(target as int),
            0 <= tf < 8,
            0 <= tr < 8,
            by == 1 || by == -1,
            forall|j: int| 0 <= j < i ==> !#[trigger] piece_at(b, tf + knight_delta(j).0, tr + knight_delta(j).1, by * KNIGHT),
    {
        let (df, dr) = knight_step(i);
        if let Some(sq) = square(tf + df, tr + dr) {
            if board[sq as usize] == by * KNIGHT {
                assert(piece_at(b, file_of(target as int) + knight_delta(i as int).0, rank_of(target as int) + knight_delta(i as int).1, by * KNIGHT));
                return true;
            }
        }
    }
    for i in 0..8usize
        invariant
            b == board@,
            tf == file_of(target as int),
            tr == rank_of(target as int),
            0 <= tf < 8,
            0 <= tr < 8,
            by == 1 || by == -1,
            forall|j: int| 0 <= j < 8 ==> !#[trigger] piece_at(b, tf + knight_delta(j).0, tr + knight_delta(j).1, by * KNIGHT),
            forall|j: int| 0 <= j < i ==> !#[trigger] piece_at(b, tf + king_delta(j).0, tr + king_delta(j).1, by * KING),
    {
        let (df, dr) = king_step(i);
        if let Some(sq) = square(tf + df, tr + dr) {
            if board[sq as usize] == by * KING {
                assert(piece_at(b, file_of(target as int) + king_delta(i as int).0, rank_of(target as int) + king_delta(i as int).1, by * KING));
                return true;
            }
        }
    }
    for i in 0..4usize
        invariant
            b == board@,
            tf == file_of(target as int),
            tr == rank_of(target as int),
            0 <= tf < 8,
            0 <= tr < 8,
            by == 1 || by == -1,
            forall|j: int| 0 <= j < 8 ==> !#[trigger] piece_at(b, tf + knight_delta(j).0, tr + knight_delta(j).1, by * KNIGHT),
            forall|j: int| 0 <= j < 8 ==> !#[trigger] piece_at(b, tf + king_delta(j).0, tr + king_delta(j).1, by * KING),
            forall|j: int| 0 <= j < i ==> !#[trigger] ray_hits(b, tf as int, tr as int, bishop_dir(j).0, bishop_dir(j).1, by * BISHOP, by * QUEEN),
    {
        let (df, dr) = bishop_step(i);
        if scan_ray(board, tf, tr, df, dr, by * BISHOP, by * QUEEN) {
            assert(ray_hits(b, file_of(target as int), rank_of(target as int), bishop_dir(i as int).0, bishop_dir(i as int).1, by * BISHOP, by * QUEEN));
            return true;
        }
    }
    for i in 0..4usize
        invariant
            b == board@,
            tf == file_of(target as int),
            tr == rank_of(target as int),
            0 <= tf < 8,
            0 <= tr < 8,
            by == 1 || by == -1,
            forall|j: int| 0 <= j < 8 ==> !#[trigger] piece_at(b, tf + knight_delta(j).0, tr + knight_delta(j).1, by * KNIGHT),
            forall|j: int| 0 <= j < 8 ==> !#[trigger] piece_at(b, tf + king_delta(j).0, tr + king_delta(j).1, by * KING),
            forall|j: int| 0 <= j < 4 ==> !#[trigger] ray_hits(b, tf as int, tr as int, bishop_dir(j).0, bishop_dir(j).1, by * BISHOP, by * QUEEN),
            forall|j: int| 0 <= j < i ==> !#[trigger] ray_hits(b, tf as int, tr as int, rook_dir(j).0, rook_dir(j).1, by * ROOK, by * QUEEN),
    {
        let (df, dr) = rook_step(i);
        if scan_ray(board, tf, tr, df, dr, by * ROOK, by * QUEEN) {
            assert(ray_hits(b, file_of(target as int), rank_of(target as int), rook_dir(i as int).0, rook_dir(i as int).1, by * ROOK, by * QUEEN));
            return true;
        }
    }
    false
}

} // verus!
