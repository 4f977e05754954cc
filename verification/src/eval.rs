//! Static evaluation: material and placement, mobility, pawn structure, rooks and king
//! shelter, scored from the point of view of the side to move.

use vstd::prelude::*;
use crate::board::{
    abs_of, centrality, color, eg_bonus, eg_value, file, file_center, file_of, kind, mg_bonus,
    mg_value, phase_weight, rank, rank_of, relative_rank, sign_of, square, square_at, BISHOP,
    KING, KNIGHT, PAWN, QUEEN, ROOK, WHITE,
};
use crate::attacks::{
    bishop_dir, bishop_step, king_delta, king_step, knight_delta, knight_step, rook_dir,
    rook_step,
};
use crate::position::{board_ok, eg_sum, mg_sum, phase_sum, Position, PositionModel};

verus! {

/// Rust's integer division by a positive divisor, which rounds toward zero.
pub open spec fn tdiv(a: int, d: int) -> int {
    if a >= 0 {
        a / d
    } else {
        -((-a) / d)
    }
}

/// `x` counted for white, `-x` for black.
pub open spec fn signed(side: int, x: int) -> int {
    if side == 1 {
        x
    } else {
        -x
    }
}

// ----- tallies over the board -----

/// Number of squares below `n` holding `piece`.
pub open spec fn count_piece(b: Seq<i8>, piece: int, n: int) -> int
    decreases n,
{
    if n <= 0 {
        0
    } else {
        count_piece(b, piece, n - 1) + if b[n - 1] == piece {
            1int
        } else {
            0
        }
    }
}

/// Number of squares below `n` on file `f` holding `piece`.
pub open spec fn file_count(b: Seq<i8>, piece: int, f: int, n: int) -> int
    decreases n,
{
    if n <= 0 {
        0
    } else {
        file_count(b, piece, f, n - 1) + if b[n - 1] == piece && file_of(n - 1) == f {
            1int
        } else {
            0
        }
    }
}

/// The squares below `n` holding `piece`, in increasing order.
pub open spec fn squares_of(b: Seq<i8>, piece: int, n: int) -> Seq<int>
    decreases n,
{
    if n <= 0 {
        seq![]
    } else if b[n - 1] == piece {
        squares_of(b, piece, n - 1).push(n - 1)
    } else {
        squares_of(b, piece, n - 1)
    }
}

/// The first `k` elements of `s`, or all of them if there are fewer.
pub open spec fn first_k(s: Seq<int>, k: int) -> Seq<int> {
    if s.len() <= k {
        s
    } else {
        s.take(k)
    }
}

proof fn lemma_count_bound(b: Seq<i8>, piece: int, n: int)
    requires
        0 <= n,
    ensures
        0 <= count_piece(b, piece, n) <= n,
    decreases n,
{
    if n > 0 {
        lemma_count_bound(b, piece, n - 1);
    }
}

proof fn lemma_file_count_bound(b: Seq<i8>, piece: int, f: int, n: int)
    requires
        0 <= n,
    ensures
        0 <= file_count(b, piece, f, n) <= n,
    decreases n,
{
    if n > 0 {
        lemma_file_count_bound(b, piece, f, n - 1);
    }
}

proof fn lemma_squares_of_range(b: Seq<i8>, piece: int, n: int)
    requires
        0 <= n,
    ensures
        squares_of(b, piece, n).len() <= n,
        forall|i: int|
            0 <= i < squares_of(b, piece, n).len() ==> 0 <= #[trigger] squares_of(b, piece, n)[i]
                < n && b[squares_of(b, piece, n)[i]] == piece,
    decreases n,
{
    if n > 0 {
        lemma_squares_of_range(b, piece, n - 1);
    }
}

/// How many squares hold `piece`.
fn count_on_board(board: &[i8; 64], piece: i8) -> (c: u32)
    ensures
        c == count_piece(board@, piece as int, 64),
        c <= 64,
{
    let mut c: u32 = 0;
    for sq in 0..64usize
        invariant
            c == count_piece(board@, piece as int, sq as int),
            c <= sq,
    {
        if board[sq] == piece {
            c = c + 1;
        }
    }
    c
}

/// How many squares of each file hold `piece`.
fn file_counts(board: &[i8; 64], piece: i8) -> (c: [u32; 8])
    ensures
        forall|f: int| 0 <= f < 8 ==> #[trigger] c[f] == file_count(board@, piece as int, f, 64),
        forall|f: int| 0 <= f < 8 ==> #[trigger] c[f] <= 64,
{
    let mut c: [u32; 8] = [0; 8];
    for sq in 0..64u8
        invariant
            forall|f: int|
                0 <= f < 8 ==> #[trigger] c[f] == file_count(board@, piece as int, f, sq as int),
            forall|f: int| 0 <= f < 8 ==> #[trigger] c[f] <= sq,
    {
        if board[sq as usize] == piece {
            let f = file(sq) as usize;
            c[f] = c[f] + 1;
        }
    }
    c
}

/// The first `cap` squares, in increasing order, that hold `piece`.
fn first_squares(board: &[i8; 64], piece: i8, cap: usize) -> (v: Vec<u8>)
    ensures
        v@.len() == first_k(squares_of(board@, piece as int, 64), cap as int).len(),
        forall|i: int|
            0 <= i < v@.len() ==> #[trigger] v@[i] as int == first_k(
                squares_of(board@, piece as int, 64),
                cap as int,
            )[i],
        v@.len() <= cap,
        forall|i: int| 0 <= i < v@.len() ==> #[trigger] v@[i] < 64,
{
    let mut v: Vec<u8> = Vec::new();
    for sq in 0..64u8
        invariant
            v@.len() == first_k(squares_of(board@, piece as int, sq as int), cap as int).len(),
            forall|i: int|
                0 <= i < v@.len() ==> #[trigger] v@[i] as int == first_k(
                    squares_of(board@, piece as int, sq as int),
                    cap as int,
                )[i],
            v@.len() <= cap,
            forall|i: int| 0 <= i < v@.len() ==> #[trigger] v@[i] < sq,
    {
        let ghost s = squares_of(board@, piece as int, sq as int);
        if board[sq as usize] == piece {
            assert(squares_of(board@, piece as int, sq + 1) == s.push(sq as int));
            if v.len() < cap {
                assert(first_k(s.push(sq as int), cap as int) =~= first_k(s, cap as int).push(
                    sq as int,
                ));
                v.push(sq);
            } else {
                assert(first_k(s.push(sq as int), cap as int) =~= first_k(s, cap as int));
            }
        } else {
            assert(squares_of(board@, piece as int, sq + 1) == s);
        }
    }
    v
}

// ----- mobility -----

/// The squares a slider of `side` reaches from (f, r) onwards in direction (df, dr): every
/// empty square, and the first piece if it belongs to the other side.
pub open spec fn ray_reach(
    b: Seq<i8>,
    f: int,
    r: int,
    df: int,
    dr: int,
    side: int,
    fuel: nat,
) -> int
    decreases fuel,
{
    if fuel == 0 || !(0 <= f < 8 && 0 <= r < 8) {
        0
    } else {
        let p = b[r * 8 + f] as int;
        if sign_of(p) == side {
            0
        } else if p != 0 {
            1
        } else {
            1 + ray_reach(b, f + df, r + dr, df, dr, side, (fuel - 1) as nat)
        }
    }
}

/// Knight jumps among the first `n` from `sq` that do not land on a piece of `side`.
pub open spec fn knight_reach(b: Seq<i8>, sq: int, side: int, n: int) -> int
    decreases n,
{
    if n <= 0 {
        0
    } else {
        let d = knight_delta(n - 1);
        knight_reach(b, sq, side, n - 1) + match square_at(file_of(sq) + d.0, rank_of(sq) + d.1) {
            Some(t) => if sign_of(b[t] as int) != side {
                1int
            } else {
                0
            },
            None => 0,
        }
    }
}

/// The directions a slider of kind `k` moves in.
pub open spec fn slide_dir(k: int, i: int) -> (int, int) {
    if k == BISHOP {
        bishop_dir(i)
    } else if k == ROOK {
        rook_dir(i)
    } else {
        king_delta(i)
    }
}

/// Squares reached along the first `n` directions of a slider of kind `k` on `sq`.
pub open spec fn slider_reach(b: Seq<i8>, sq: int, side: int, k: int, n: int) -> int
    decreases n,
{
    if n <= 0 {
        0
    } else {
        let d = slide_dir(k, n - 1);
        slider_reach(b, sq, side, k, n - 1) + ray_reach(
            b,
            file_of(sq) + d.0,
            rank_of(sq) + d.1,
            d.0,
            d.1,
            side,
            8,
        )
    }
}

/// What each reachable square is worth for a piece kind.
pub open spec fn mobility_weight(k: int) -> int {
    if k == KNIGHT || k == BISHOP {
        4
    } else if k == ROOK {
        2
    } else if k == QUEEN {
        1
    } else {
        0
    }
}

/// The mobility score of the piece on `sq` (white positive).
pub open spec fn mobility_term(b: Seq<i8>, sq: int) -> int {
    let p = b[sq] as int;
    let k = abs_of(p);
    let side = sign_of(p);
    let reach = if k == KNIGHT {
        knight_reach(b, sq, side, 8)
    } else if k == BISHOP || k == ROOK {
        slider_reach(b, sq, side, k, 4)
    } else {
        slider_reach(b, sq, side, k, 8)
    };
    if p == 0 || mobility_weight(k) == 0 {
        0
    } else {
        signed(side, reach * mobility_weight(k))
    }
}

/// The mobility scores of the pieces on the squares below `n`.
pub open spec fn mobility_sum(b: Seq<i8>, n: int) -> int
    decreases n,
{
    if n <= 0 {
        0
    } else {
        mobility_sum(b, n - 1) + mobility_term(b, n - 1)
    }
}

proof fn lemma_ray_reach_bound(
    b: Seq<i8>,
    f: int,
    r: int,
    df: int,
    dr: int,
    side: int,
    fuel: nat,
)
    ensures
        0 <= ray_reach(b, f, r, df, dr, side, fuel) <= fuel,
    decreases fuel,
{
    if fuel > 0 {
        lemma_ray_reach_bound(b, f + df, r + dr, df, dr, side, (fuel - 1) as nat);
    }
}

proof fn lemma_knight_reach_bound(b: Seq<i8>, sq: int, side: int, n: int)
    requires
        0 <= n,
    ensures
        0 <= knight_reach(b, sq, side, n) <= n,
    decreases n,
{
    if n > 0 {
        lemma_knight_reach_bound(b, sq, side, n - 1);
    }
}

proof fn lemma_slider_reach_bound(b: Seq<i8>, sq: int, side: int, k: int, n: int)
    requires
        0 <= n,
    ensures
        0 <= slider_reach(b, sq, side, k, n) <= 8 * n,
    decreases n,
{
    if n > 0 {
        lemma_slider_reach_bound(b, sq, side, k, n - 1);
        let d = slide_dir(k, n - 1);
        lemma_ray_reach_bound(b, file_of(sq) + d.0, rank_of(sq) + d.1, d.0, d.1, side, 8);
    }
}

proof fn lemma_mobility_term_bound(b: Seq<i8>, sq: int)
    ensures
        -256 <= mobility_term(b, sq) <= 256,
{
    let p = b[sq] as int;
    let k = abs_of(p);
    let side = sign_of(p);
    lemma_knight_reach_bound(b, sq, side, 8);
    lemma_slider_reach_bound(b, sq, side, k, 4);
    lemma_slider_reach_bound(b, sq, side, k, 8);
    let reach = if k == KNIGHT {
        knight_reach(b, sq, side, 8)
    } else if k == BISHOP || k == ROOK {
        slider_reach(b, sq, side, k, 4)
    } else {
        slider_reach(b, sq, side, k, 8)
    };
    assert(0 <= reach <= 64);
    let w = mobility_weight(k);
    assert(0 <= reach * w <= 256) by (nonlinear_arith)
        requires
            0 <= reach <= 64,
            0 <= w <= 4,
    ;
}

proof fn lemma_mobility_sum_bound(b: Seq<i8>, n: int)
    requires
        0 <= n,
    ensures
        -256 * n <= mobility_sum(b, n) <= 256 * n,
    decreases n,
{
    if n > 0 {
        lemma_mobility_sum_bound(b, n - 1);
        lemma_mobility_term_bound(b, n - 1);
    }
}

/// Squares reached from (f, r) onwards along (df, dr), as in `ray_reach`.
fn ray_count(board: &[i8; 64], sf: i8, sr: i8, df: i8, dr: i8, side: i8) -> (m: i32)
    requires
        0 <= sf < 8,
        0 <= sr < 8,
        -1 <= df <= 1,
        -1 <= dr <= 1,
        board_ok(board@),
    ensures
        m == ray_reach(board@, sf + df, sr + dr, df as int, dr as int, side as int, 8),
        0 <= m <= 8,
{
    let mut f: i8 = sf + df;
    let mut r: i8 = sr + dr;
    let mut m: i32 = 0;
    let mut k: u32 = 0;
    let mut done = false;
    let ghost total = ray_reach(board@, sf + df, sr + dr, df as int, dr as int, side as int, 8);
    while k < 8 && !done
        invariant
            -1 <= df <= 1,
            -1 <= dr <= 1,
            k <= 8,
            f == sf + df + k * df,
            r == sr + dr + k * dr,
            -8 <= sf + df + k * df <= 16,
            -8 <= sr + dr + k * dr <= 16,
            0 <= sf < 8,
            0 <= sr < 8,
            board_ok(board@),
            total == ray_reach(board@, sf + df, sr + dr, df as int, dr as int, side as int, 8),
            done ==> m == total,
            !done ==> m + ray_reach(board@, f as int, r as int, df as int, dr as int, side as int,
                (8 - k) as nat) == total,
            0 <= m <= k + 1,
            !done ==> m <= k,
        decreases (8 - k) * 2 + if done {
            0int
        } else {
            1int
        },
    {
        match square(f, r) {
            None => {
                done = true;
            },
            Some(to) => {
                let p = board[to as usize];
                if color(p) == side {
                    done = true;
                } else if p != 0 {
                    m = m + 1;
                    done = true;
                } else {
                    m = m + 1;
                    proof {
                        assert(f + df == sf + df + (k + 1) * df) by (nonlinear_arith)
                            requires
                                f == sf + df + k * df,
                        ;
                        assert(r + dr == sr + dr + (k + 1) * dr) by (nonlinear_arith)
                            requires
                                r == sr + dr + k * dr,
                        ;
                        assert(-8 <= sf + df + (k + 1) * df <= 16 && -8 <= sr + dr + (k + 1) * dr
                            <= 16) by (nonlinear_arith)
                            requires
                                0 <= f < 8,
                                0 <= r < 8,
                                f == sf + df + k * df,
                                r == sr + dr + k * dr,
                                -1 <= df <= 1,
                                -1 <= dr <= 1,
                        ;
                    }
                    f = f + df;
                    r = r + dr;
                    k = k + 1;
                }
            },
        }
    }
    proof {
        lemma_ray_reach_bound(board@, sf + df, sr + dr, df as int, dr as int, side as int, 8);
    }
    m
}

/// The mobility score of the piece on `sq` (white positive).
fn piece_mobility(board: &[i8; 64], sq: u8) -> (m: i32)
    requires
        sq < 64,
        board_ok(board@),
    ensures
        m == mobility_term(board@, sq as int),
{
    let p = board[sq as usize];
    let k = kind(p);
    let side = color(p);
    let weight: i32 = if k == KNIGHT || k == BISHOP {
        4
    } else if k == ROOK {
        2
    } else if k == QUEEN {
        1
    } else {
        0
    };
    if p == 0 || weight == 0 {
        return 0;
    }
    let sf = file(sq);
    let sr = rank(sq);
    let mut reach: i32 = 0;
    if k == KNIGHT {
        for i in 0..8usize
            invariant
                sq < 64,
                sf == file_of(sq as int),
                sr == rank_of(sq as int),
                board_ok(board@),
                reach == knight_reach(board@, sq as int, side as int, i as int),
                0 <= reach <= i,
        {
            let (df, dr) = knight_step(i);
            if let Some(to) = square(sf + df, sr + dr) {
                if color(board[to as usize]) != side {
                    reach = reach + 1;
                }
            }
        }
    } else {
        let n: usize = if k == BISHOP || k == ROOK {
            4
        } else {
            8
        };
        for i in 0..n
            invariant
                sq < 64,
                sf == file_of(sq as int),
                sr == rank_of(sq as int),
                0 <= sf < 8,
                0 <= sr < 8,
                board_ok(board@),
                k == BISHOP || k == ROOK || k == QUEEN,
                n == (if k == BISHOP || k == ROOK {
                    4usize
                } else {
                    8usize
                }),
                reach == slider_reach(board@, sq as int, side as int, k as int, i as int),
                0 <= reach <= 8 * i,
        {
            let (df, dr) = if k == BISHOP {
                bishop_step(i)
            } else if k == ROOK {
                rook_step(i)
            } else {
                king_step(i)
            };
            reach = reach + ray_count(board, sf, sr, df, dr, side);
        }
    }
    proof {
        assert(0 <= reach * weight <= 256) by (nonlinear_arith)
            requires
                0 <= reach <= 64,
                0 <= weight <= 4,
        ;
    }
    let total = reach * weight;
    if side == WHITE {
        total
    } else {
        -total
    }
}

/// The mobility scores of all pieces (white positive).
fn mobility_total(board: &[i8; 64]) -> (m: i32)
    requires
        board_ok(board@),
    ensures
        m == mobility_sum(board@, 64),
{
    let mut m: i32 = 0;
    for sq in 0..64u8
        invariant
            board_ok(board@),
            m == mobility_sum(board@, sq as int),
    {
        proof {
            lemma_mobility_sum_bound(board@, sq as int);
            lemma_mobility_term_bound(board@, sq as int);
        }
        m = m + piece_mobility(board, sq);
    }
    m
}


// ----- pawn structure -----

/// Penalty for doubled pawns of `side` on the first `n` files.
pub open spec fn doubled_sum(b: Seq<i8>, side: int, n: int) -> int
    decreases n,
{
    if n <= 0 {
        0
    } else {
        let c = file_count(b, side * PAWN, n - 1, 64);
        doubled_sum(b, side, n - 1) + if c > 1 {
            signed(side, -12 * (c - 1))
        } else {
            0
        }
    }
}

/// Whether enemy pawn `e` stops a pawn of `side` on `sq` from being passed.
pub open spec fn blocks(e: int, sq: int, side: int) -> bool {
    abs_of(file_of(e) - file_of(sq)) <= 1 && (rank_of(e) - rank_of(sq)) * side > 0
}

/// Whether one of the first `n` pawns of `es` blocks the pawn on `sq`.
pub open spec fn any_blocker(sq: int, side: int, es: Seq<int>, n: int) -> bool
    decreases n,
{
    n > 0 && (blocks(es[n - 1], sq, side) || any_blocker(sq, side, es, n - 1))
}

/// Whether one of the first `n` pawns of `own` stands ahead of `sq` on its file.
pub open spec fn any_ahead(sq: int, side: int, own: Seq<int>, n: int) -> bool
    decreases n,
{
    n > 0 && ((file_of(own[n - 1]) == file_of(sq) && (rank_of(own[n - 1]) - rank_of(sq)) * side
        > 0) || any_ahead(sq, side, own, n - 1))
}

/// Whether the square beside and behind `sq` (file offset `df`) holds a pawn of `side`.
pub open spec fn defends(b: Seq<i8>, sq: int, side: int, df: int) -> int {
    match square_at(file_of(sq) + df, rank_of(sq) - side) {
        Some(t) => if b[t] == side * PAWN {
            1int
        } else {
            0
        },
        None => 0,
    }
}

/// How far a pawn of `side` on `sq` has advanced.
pub open spec fn advance(sq: int, side: int) -> int {
    if side == 1 {
        rank_of(sq)
    } else {
        7 - rank_of(sq)
    }
}

/// The bonus of a passed pawn: growing with its advance, larger as material comes off, and
/// more for each pawn defending it.
pub open spec fn passer_bonus(b: Seq<i8>, sq: int, side: int, phase: int) -> int {
    let a = advance(sq, side);
    (12 + a * a * 4) * (32 - phase) / 24 + 12 * (defends(b, sq, side, -1) + defends(
        b,
        sq,
        side,
        1,
    ))
}

/// The square on the same file with the rank counted from the other side of the board.
pub open spec fn mirror_square(sq: int) -> int {
    (7 - rank_of(sq)) * 8 + file_of(sq)
}

/// The board seen from the other side: ranks reversed and every piece's colour swapped.
pub open spec fn mirror_board(b: Seq<i8>) -> Seq<i8> {
    Seq::new(64, |s: int| (-b[mirror_square(s)]) as i8)
}

proof fn lemma_mirror_square(sq: int)
    requires
        0 <= sq < 64,
    ensures
        0 <= mirror_square(sq) < 64,
        file_of(mirror_square(sq)) == file_of(sq),
        rank_of(mirror_square(sq)) == 7 - rank_of(sq),
        mirror_square(mirror_square(sq)) == sq,
{
    let f = sq % 8;
    let r = sq / 8;
    assert(sq == r * 8 + f && 0 <= f < 8 && 0 <= r < 8);
    let m = (7 - r) * 8 + f;
    assert(m % 8 == f && m / 8 == 7 - r) by (nonlinear_arith)
        requires
            m == (7 - r) * 8 + f,
            0 <= f < 8,
            0 <= r < 8,
    ;
}

/// The squares of rank `r` holding `piece`.
pub open spec fn row_count(b: Seq<i8>, piece: int, r: int) -> int {
    (if b[r * 8 + 0] == piece { 1int } else { 0 }) + (if b[r * 8 + 1] == piece { 1int } else { 0 }) + (if b[r * 8 + 2] == piece { 1int } else { 0 }) + (if b[r * 8 + 3] == piece { 1int } else { 0 }) + (if b[r * 8 + 4] == piece { 1int } else { 0 }) + (if b[r * 8 + 5] == piece { 1int } else { 0 }) + (if b[r * 8 + 6] == piece { 1int } else { 0 }) + (if b[r * 8 + 7] == piece { 1int } else { 0 })
}

/// Whether the square of rank `r` on file `f` holds `piece`.
pub open spec fn row_file(b: Seq<i8>, piece: int, f: int, r: int) -> int {
    if 0 <= f < 8 && b[r * 8 + f] == piece {
        1
    } else {
        0
    }
}

proof fn lemma_row_square(r: int, i: int)
    requires
        0 <= r < 8,
        0 <= i < 8,
    ensures
        file_of(r * 8 + i) == i,
        rank_of(r * 8 + i) == r,
        mirror_square(r * 8 + i) == (7 - r) * 8 + i,
{
    assert((r * 8 + i) % 8 == i && (r * 8 + i) / 8 == r) by (nonlinear_arith)
        requires
            0 <= r < 8,
            0 <= i < 8,
    ;
}

proof fn lemma_rows(b: Seq<i8>, piece: int, f: int, r: int)
    requires
        0 <= r < 8,
    ensures
        count_piece(b, piece, r * 8 + 8) == count_piece(b, piece, r * 8) + row_count(b, piece, r),
        file_count(b, piece, f, r * 8 + 8) == file_count(b, piece, f, r * 8) + row_file(b, piece, f, r),
{
    lemma_row_square(r, 0);
    lemma_row_square(r, 1);
    lemma_row_square(r, 2);
    lemma_row_square(r, 3);
    lemma_row_square(r, 4);
    lemma_row_square(r, 5);
    lemma_row_square(r, 6);
    lemma_row_square(r, 7);
    reveal_with_fuel(count_piece, 9);
    reveal_with_fuel(file_count, 9);
}

proof fn lemma_row_mirror(b: Seq<i8>, piece: int, f: int, r: int)
    requires
        board_ok(b),
        0 <= r < 8,
    ensures
        row_count(mirror_board(b), -piece, r) == row_count(b, piece, 7 - r),
        row_file(mirror_board(b), -piece, f, r) == row_file(b, piece, f, 7 - r),
{
    lemma_row_square(r, 0);
    lemma_row_square(r, 1);
    lemma_row_square(r, 2);
    lemma_row_square(r, 3);
    lemma_row_square(r, 4);
    lemma_row_square(r, 5);
    lemma_row_square(r, 6);
    lemma_row_square(r, 7);
}

/// Mirroring the board swaps the counts of a piece and of its opposite-coloured twin, on the
/// whole board and on every file.
pub proof fn law_counts_mirror(b: Seq<i8>, piece: int, f: int)
    requires
        board_ok(b),
    ensures
        count_piece(mirror_board(b), -piece, 64) == count_piece(b, piece, 64),
        file_count(mirror_board(b), -piece, f, 64) == file_count(b, piece, f, 64),
{
    let mb = mirror_board(b);
    lemma_rows(b, piece, f, 0);
    lemma_rows(b, piece, f, 1);
    lemma_rows(b, piece, f, 2);
    lemma_rows(b, piece, f, 3);
    lemma_rows(b, piece, f, 4);
    lemma_rows(b, piece, f, 5);
    lemma_rows(b, piece, f, 6);
    lemma_rows(b, piece, f, 7);
    lemma_rows(mb, -piece, f, 0);
    lemma_rows(mb, -piece, f, 1);
    lemma_rows(mb, -piece, f, 2);
    lemma_rows(mb, -piece, f, 3);
    lemma_rows(mb, -piece, f, 4);
    lemma_rows(mb, -piece, f, 5);
    lemma_rows(mb, -piece, f, 6);
    lemma_rows(mb, -piece, f, 7);
    lemma_row_mirror(b, piece, f, 0);
    lemma_row_mirror(b, piece, f, 1);
    lemma_row_mirror(b, piece, f, 2);
    lemma_row_mirror(b, piece, f, 3);
    lemma_row_mirror(b, piece, f, 4);
    lemma_row_mirror(b, piece, f, 5);
    lemma_row_mirror(b, piece, f, 6);
    lemma_row_mirror(b, piece, f, 7);
    assert(count_piece(b, piece, 0) == 0 && count_piece(mb, -piece, 0) == 0);
    assert(file_count(b, piece, f, 0) == 0 && file_count(mb, -piece, f, 0) == 0);
}

/// The sum of `g` over the squares below `n`.
pub open spec fn square_sum(g: spec_fn(int) -> int, n: int) -> int
    decreases n,
{
    if n <= 0 {
        0
    } else {
        square_sum(g, n - 1) + g(n - 1)
    }
}

/// The sum of `g` over the squares of rank `r`.
pub open spec fn row_sum(g: spec_fn(int) -> int, r: int) -> int {
    g(r * 8 + 0) + g(r * 8 + 1) + g(r * 8 + 2) + g(r * 8 + 3) + g(r * 8 + 4) + g(r * 8 + 5) + g(r * 8 + 6) + g(r * 8 + 7)
}

proof fn lemma_square_sum_row(g: spec_fn(int) -> int, r: int)
    requires
        0 <= r < 8,
    ensures
        square_sum(g, r * 8 + 8) == square_sum(g, r * 8) + row_sum(g, r),
{
    reveal_with_fuel(square_sum, 9);
}

proof fn lemma_row_mirror_sum(g: spec_fn(int) -> int, h: spec_fn(int) -> int, r: int)
    requires
        0 <= r < 8,
        forall|s: int| 0 <= s < 64 ==> #[trigger] g(s) == h(mirror_square(s)),
    ensures
        row_sum(g, r) == row_sum(h, 7 - r),
{
    lemma_row_square(r, 0);
    lemma_row_square(r, 1);
    lemma_row_square(r, 2);
    lemma_row_square(r, 3);
    lemma_row_square(r, 4);
    lemma_row_square(r, 5);
    lemma_row_square(r, 6);
    lemma_row_square(r, 7);
}

/// Summing over the squares does not depend on the order: a sum over the board equals the
/// sum over the mirrored squares.
pub proof fn lemma_square_sum_mirror(g: spec_fn(int) -> int, h: spec_fn(int) -> int)
    requires
        forall|s: int| 0 <= s < 64 ==> #[trigger] g(s) == h(mirror_square(s)),
    ensures
        square_sum(g, 64) == square_sum(h, 64),
{
    lemma_square_sum_row(g, 0);
    lemma_square_sum_row(h, 0);
    lemma_square_sum_row(g, 1);
    lemma_square_sum_row(h, 1);
    lemma_square_sum_row(g, 2);
    lemma_square_sum_row(h, 2);
    lemma_square_sum_row(g, 3);
    lemma_square_sum_row(h, 3);
    lemma_square_sum_row(g, 4);
    lemma_square_sum_row(h, 4);
    lemma_square_sum_row(g, 5);
    lemma_square_sum_row(h, 5);
    lemma_square_sum_row(g, 6);
    lemma_square_sum_row(h, 6);
    lemma_square_sum_row(g, 7);
    lemma_square_sum_row(h, 7);
    lemma_row_mirror_sum(g, h, 0);
    lemma_row_mirror_sum(g, h, 1);
    lemma_row_mirror_sum(g, h, 2);
    lemma_row_mirror_sum(g, h, 3);
    lemma_row_mirror_sum(g, h, 4);
    lemma_row_mirror_sum(g, h, 5);
    lemma_row_mirror_sum(g, h, 6);
    lemma_row_mirror_sum(g, h, 7);
}

proof fn lemma_square_sum_neg(g: spec_fn(int) -> int, h: spec_fn(int) -> int, n: int)
    requires
        forall|s: int| 0 <= s < n ==> #[trigger] h(s) == -g(s),
    ensures
        square_sum(h, n) == -square_sum(g, n),
    decreases n,
{
    if n > 0 {
        lemma_square_sum_neg(g, h, n - 1);
    }
}

proof fn lemma_material_sums(b: Seq<i8>, n: int)
    ensures
        mg_sum(b, n) == square_sum(|s: int| mg_value(b[s] as int, s), n),
        eg_sum(b, n) == square_sum(|s: int| eg_value(b[s] as int, s), n),
        phase_sum(b, n) == square_sum(|s: int| phase_weight(b[s] as int), n),
        mobility_sum(b, n) == square_sum(|s: int| mobility_term(b, s), n),
    decreases n,
{
    if n > 0 {
        lemma_material_sums(b, n - 1);
    }
}

/// A piece's middlegame and endgame values are opposite to those of its opposite-coloured twin
/// on the mirrored square, and its phase weight is the same.
pub proof fn law_piece_values_mirror(piece: int, sq: int)
    requires
        -6 <= piece <= 6,
        0 <= sq < 64,
    ensures
        mg_value(-piece, mirror_square(sq)) == -mg_value(piece, sq),
        eg_value(-piece, mirror_square(sq)) == -eg_value(piece, sq),
        phase_weight(-piece) == phase_weight(piece),
{
    lemma_mirror_square(sq);
    let m = mirror_square(sq);
    if piece != 0 {
        assert(file_center(m) == file_center(sq));
        assert(relative_rank(-piece, m) == relative_rank(piece, sq));
        assert(centrality(-piece, m) == centrality(piece, sq));
        assert(mg_bonus(-piece, m) == mg_bonus(piece, sq));
        assert(eg_bonus(-piece, m) == eg_bonus(piece, sq));
    }
}

proof fn lemma_mg_mirror(b: Seq<i8>)
    requires
        board_ok(b),
    ensures
        mg_sum(mirror_board(b), 64) == -mg_sum(b, 64),
{
    let mb = mirror_board(b);
    lemma_material_sums(b, 64);
    lemma_material_sums(mb, 64);
    let g = |s: int| mg_value(mb[s] as int, s);
    let h = |s: int| -mg_value(b[s] as int, s);
    assert forall|s: int| 0 <= s < 64 implies #[trigger] g(s) == h(mirror_square(s)) by {
        lemma_mirror_square(s);
        let t = mirror_square(s);
        lemma_mirror_square(t);
        law_piece_values_mirror(b[t] as int, t);
    }
    lemma_square_sum_mirror(g, h);
    lemma_square_sum_neg(|s: int| mg_value(b[s] as int, s), h, 64);
}

proof fn lemma_eg_mirror(b: Seq<i8>)
    requires
        board_ok(b),
    ensures
        eg_sum(mirror_board(b), 64) == -eg_sum(b, 64),
{
    let mb = mirror_board(b);
    lemma_material_sums(b, 64);
    lemma_material_sums(mb, 64);
    let g = |s: int| eg_value(mb[s] as int, s);
    let h = |s: int| -eg_value(b[s] as int, s);
    assert forall|s: int| 0 <= s < 64 implies #[trigger] g(s) == h(mirror_square(s)) by {
        lemma_mirror_square(s);
        let t = mirror_square(s);
        lemma_mirror_square(t);
        law_piece_values_mirror(b[t] as int, t);
    }
    lemma_square_sum_mirror(g, h);
    lemma_square_sum_neg(|s: int| eg_value(b[s] as int, s), h, 64);
}

proof fn lemma_phase_mirror(b: Seq<i8>)
    requires
        board_ok(b),
    ensures
        phase_sum(mirror_board(b), 64) == phase_sum(b, 64),
{
    let mb = mirror_board(b);
    lemma_material_sums(b, 64);
    lemma_material_sums(mb, 64);
    let g = |s: int| phase_weight(mb[s] as int);
    let h = |s: int| phase_weight(b[s] as int);
    assert forall|s: int| 0 <= s < 64 implies #[trigger] g(s) == h(mirror_square(s)) by {
        lemma_mirror_square(s);
        let t = mirror_square(s);
        lemma_mirror_square(t);
        law_piece_values_mirror(b[t] as int, t);
    }
    lemma_square_sum_mirror(g, h);
}

/// The material and piece-square sums of the mirrored board are the opposite of the board's,
/// and its game phase is the same.
pub proof fn law_material_sums_mirror(b: Seq<i8>)
    requires
        board_ok(b),
    ensures
        mg_sum(mirror_board(b), 64) == -mg_sum(b, 64),
        eg_sum(mirror_board(b), 64) == -eg_sum(b, 64),
        phase_sum(mirror_board(b), 64) == phase_sum(b, 64),
{
    lemma_mg_mirror(b);
    lemma_eg_mirror(b);
    lemma_phase_mirror(b);
}

proof fn lemma_mirror_at(b: Seq<i8>, f: int, r: int)
    requires
        board_ok(b),
        0 <= f < 8,
        0 <= r < 8,
    ensures
        mirror_board(b)[(7 - r) * 8 + f] as int == -(b[r * 8 + f] as int),
        0 <= r * 8 + f < 64,
        0 <= (7 - r) * 8 + f < 64,
{
    lemma_row_square(7 - r, f);
    lemma_row_square(r, f);
}

proof fn lemma_ray_mirror(b: Seq<i8>, f: int, r: int, df: int, dr: int, side: int, fuel: nat)
    requires
        board_ok(b),
        side == 1 || side == -1,
    ensures
        ray_reach(mirror_board(b), f, 7 - r, df, -dr, -side, fuel) == ray_reach(b, f, r, df, dr, side, fuel),
    decreases fuel,
{
    if fuel > 0 && 0 <= f < 8 && 0 <= r < 8 {
        lemma_mirror_at(b, f, r);
        lemma_ray_mirror(b, f + df, r + dr, df, dr, side, (fuel - 1) as nat);
        assert(7 - r + -dr == 7 - (r + dr));
    }
}

/// What one knight jump from `sq` by `d` adds: 1 unless it leaves the board or lands on a
/// piece of `side`.
pub open spec fn jump_term(b: Seq<i8>, sq: int, side: int, d: (int, int)) -> int {
    match square_at(file_of(sq) + d.0, rank_of(sq) + d.1) {
        Some(t) => if sign_of(b[t] as int) != side {
            1int
        } else {
            0
        },
        None => 0,
    }
}

proof fn lemma_jump_mirror(b: Seq<i8>, sq: int, side: int, d0: int, d1: int)
    requires
        board_ok(b),
        0 <= sq < 64,
        side == 1 || side == -1,
    ensures
        jump_term(mirror_board(b), mirror_square(sq), -side, (d0, -d1)) == jump_term(b, sq, side, (d0, d1)),
{
    lemma_mirror_square(sq);
    let f = file_of(sq) + d0;
    let r = rank_of(sq) + d1;
    if 0 <= f < 8 && 0 <= r < 8 {
        lemma_mirror_at(b, f, r);
        assert(rank_of(mirror_square(sq)) + -d1 == 7 - r);
    }
}

proof fn lemma_knight_reach_terms(b: Seq<i8>, sq: int, side: int)
    ensures
        knight_reach(b, sq, side, 8) == jump_term(b, sq, side, (1, 2)) + jump_term(b, sq, side, (2, 1))
            + jump_term(b, sq, side, (2, -1)) + jump_term(b, sq, side, (1, -2)) + jump_term(b, sq, side, (-1, -2))
            + jump_term(b, sq, side, (-2, -1)) + jump_term(b, sq, side, (-2, 1)) + jump_term(b, sq, side, (-1, 2)),
{
    reveal_with_fuel(knight_reach, 9);
}

proof fn lemma_slider_mirror(b: Seq<i8>, sq: int, side: int, d0: int, d1: int)
    requires
        board_ok(b),
        0 <= sq < 64,
        side == 1 || side == -1,
    ensures
        ray_reach(mirror_board(b), file_of(mirror_square(sq)) + d0, rank_of(mirror_square(sq)) + -d1, d0, -d1, -side, 8)
            == ray_reach(b, file_of(sq) + d0, rank_of(sq) + d1, d0, d1, side, 8),
{
    lemma_mirror_square(sq);
    lemma_ray_mirror(b, file_of(sq) + d0, rank_of(sq) + d1, d0, d1, side, 8);
    assert(rank_of(mirror_square(sq)) + -d1 == 7 - (rank_of(sq) + d1));
}

/// A piece's mobility score does not depend on its colour: the piece of the other colour on
/// the mirrored square of the mirrored board scores the opposite.
pub proof fn law_mobility_term_mirror(b: Seq<i8>, sq: int)
    requires
        board_ok(b),
        0 <= sq < 64,
    ensures
        mobility_term(mirror_board(b), mirror_square(sq)) == -mobility_term(b, sq),
{
    let mb = mirror_board(b);
    let m = mirror_square(sq);
    lemma_mirror_square(sq);
    lemma_row_square(rank_of(sq), file_of(sq));
    lemma_mirror_at(b, file_of(sq), rank_of(sq));
    let p = b[sq] as int;
    let side = sign_of(p);
    let k = abs_of(p);
    assert(mb[m] as int == -p);
    if p != 0 && mobility_weight(k) != 0 {
        if k == KNIGHT {
            lemma_knight_reach_terms(b, sq, side);
            lemma_knight_reach_terms(mb, m, -side);
            lemma_jump_mirror(b, sq, side, 1, 2);
            lemma_jump_mirror(b, sq, side, 2, 1);
            lemma_jump_mirror(b, sq, side, 2, -1);
            lemma_jump_mirror(b, sq, side, 1, -2);
            lemma_jump_mirror(b, sq, side, -1, -2);
            lemma_jump_mirror(b, sq, side, -2, -1);
            lemma_jump_mirror(b, sq, side, -2, 1);
            lemma_jump_mirror(b, sq, side, -1, 2);
            assert(knight_reach(mb, m, -side, 8) == knight_reach(b, sq, side, 8));
        } else if k == BISHOP {
            reveal_with_fuel(slider_reach, 5);
            lemma_slider_mirror(b, sq, side, 1, 1);
            lemma_slider_mirror(b, sq, side, 1, -1);
            lemma_slider_mirror(b, sq, side, -1, 1);
            lemma_slider_mirror(b, sq, side, -1, -1);
            assert(slider_reach(mb, m, -side, k, 4) == slider_reach(b, sq, side, k, 4));
        } else if k == ROOK {
            reveal_with_fuel(slider_reach, 5);
            lemma_slider_mirror(b, sq, side, 1, 0);
            lemma_slider_mirror(b, sq, side, -1, 0);
            lemma_slider_mirror(b, sq, side, 0, 1);
            lemma_slider_mirror(b, sq, side, 0, -1);
            assert(slider_reach(mb, m, -side, k, 4) == slider_reach(b, sq, side, k, 4));
        } else {
            reveal_with_fuel(slider_reach, 9);
            lemma_slider_mirror(b, sq, side, 1, 1);
            lemma_slider_mirror(b, sq, side, 1, 0);
            lemma_slider_mirror(b, sq, side, 1, -1);
            lemma_slider_mirror(b, sq, side, 0, 1);
            lemma_slider_mirror(b, sq, side, 0, -1);
            lemma_slider_mirror(b, sq, side, -1, 1);
            lemma_slider_mirror(b, sq, side, -1, 0);
            lemma_slider_mirror(b, sq, side, -1, -1);
            assert(slider_reach(mb, m, -side, k, 8) == slider_reach(b, sq, side, k, 8));
        }
    }
}

/// The mobility score of the mirrored board is the opposite of the board's.
pub proof fn law_mobility_mirror(b: Seq<i8>)
    requires
        board_ok(b),
    ensures
        mobility_sum(mirror_board(b), 64) == -mobility_sum(b, 64),
{
    let mb = mirror_board(b);
    lemma_material_sums(b, 64);
    lemma_material_sums(mb, 64);
    let g = |s: int| mobility_term(mb, s);
    let h = |s: int| -mobility_term(b, s);
    assert forall|s: int| 0 <= s < 64 implies #[trigger] g(s) == h(mirror_square(s)) by {
        lemma_mirror_square(s);
        let t = mirror_square(s);
        lemma_mirror_square(t);
        law_mobility_term_mirror(b, t);
    }
    lemma_square_sum_mirror(g, h);
    lemma_square_sum_neg(|s: int| mobility_term(b, s), h, 64);
}

/// The sum of `g` over the first `n` entries of `s`.
pub open spec fn list_sum(g: spec_fn(int) -> int, s: Seq<int>, n: int) -> int
    decreases n,
{
    if n <= 0 {
        0
    } else {
        list_sum(g, s, n - 1) + g(s[n - 1])
    }
}

proof fn lemma_list_sum_prefix(g: spec_fn(int) -> int, s: Seq<int>, t: Seq<int>, n: int)
    requires
        0 <= n <= s.len(),
        n <= t.len(),
        forall|i: int| 0 <= i < n ==> s[i] == t[i],
    ensures
        list_sum(g, s, n) == list_sum(g, t, n),
    decreases n,
{
    if n > 0 {
        lemma_list_sum_prefix(g, s, t, n - 1);
    }
}

/// Summing over the list of squares that hold `piece` is summing over the board the squares
/// that hold it.
proof fn lemma_list_sum_squares(b: Seq<i8>, piece: int, g: spec_fn(int) -> int, n: int)
    requires
        0 <= n,
    ensures
        list_sum(g, squares_of(b, piece, n), squares_of(b, piece, n).len() as int) == square_sum(
            |x: int|
                if b[x] == piece {
                    g(x)
                } else {
                    0
                },
            n,
        ),
    decreases n,
{
    if n > 0 {
        lemma_list_sum_squares(b, piece, g, n - 1);
        let s = squares_of(b, piece, n - 1);
        if b[n - 1] == piece {
            lemma_list_sum_prefix(g, s, s.push(n - 1), s.len() as int);
        }
    }
}

proof fn lemma_pawn_sum_list(b: Seq<i8>, side: int, phase: int, own: Seq<int>, enemy: Seq<int>, n: int)
    ensures
        pawn_sum(b, side, phase, own, enemy, n) == list_sum(
            |x: int| pawn_term(b, side, phase, x, own, enemy),
            own,
            n,
        ),
    decreases n,
{
    if n > 0 {
        lemma_pawn_sum_list(b, side, phase, own, enemy, n - 1);
    }
}

proof fn lemma_rook_sum_list(b: Seq<i8>, side: int, rooks: Seq<int>, n: int)
    ensures
        rook_sum(b, side, rooks, n) == list_sum(|x: int| rook_term(b, side, x), rooks, n),
    decreases n,
{
    if n > 0 {
        lemma_rook_sum_list(b, side, rooks, n - 1);
    }
}

proof fn lemma_squares_of_members(b: Seq<i8>, piece: int, n: int)
    requires
        0 <= n <= b.len(),
    ensures
        forall|x: int| #[trigger] squares_of(b, piece, n).contains(x) <==> (0 <= x < n && b[x] == piece),
    decreases n,
{
    if n > 0 {
        lemma_squares_of_members(b, piece, n - 1);
        let s = squares_of(b, piece, n - 1);
        let t = squares_of(b, piece, n);
        assert forall|x: int| #[trigger] t.contains(x) <==> (0 <= x < n && b[x] == piece) by {
            if b[n - 1] == piece {
                assert(t == s.push(n - 1));
                if t.contains(x) {
                    let i = choose|i: int| 0 <= i < t.len() && t[i] == x;
                    if i < s.len() {
                        assert(s[i] == x);
                        assert(s.contains(x));
                    }
                }
                if 0 <= x < n && b[x] == piece {
                    if x == n - 1 {
                        assert(t[s.len() as int] == x);
                    } else {
                        assert(s.contains(x));
                        let i = choose|i: int| 0 <= i < s.len() && s[i] == x;
                        assert(t[i] == x);
                    }
                }
            } else {
                assert(t == s);
            }
        }
    }
}

proof fn lemma_any_exists(sq: int, side: int, es: Seq<int>, n: int)
    requires
        0 <= n <= es.len(),
    ensures
        any_blocker(sq, side, es, n) <==> exists|i: int| 0 <= i < n && blocks(#[trigger] es[i], sq, side),
        any_ahead(sq, side, es, n) <==> exists|i: int|
            0 <= i < n && file_of(#[trigger] es[i]) == file_of(sq) && (rank_of(es[i]) - rank_of(sq)) * side > 0,
    decreases n,
{
    if n > 0 {
        lemma_any_exists(sq, side, es, n - 1);
    }
}

/// Whether a pawn is blocked or has a pawn ahead depends only on which squares the lists
/// hold, not on their order.
proof fn lemma_same_members(sq: int, side: int, s: Seq<int>, t: Seq<int>)
    requires
        forall|x: int| s.contains(x) <==> t.contains(x),
    ensures
        any_blocker(sq, side, s, s.len() as int) == any_blocker(sq, side, t, t.len() as int),
        any_ahead(sq, side, s, s.len() as int) == any_ahead(sq, side, t, t.len() as int),
{
    lemma_any_exists(sq, side, s, s.len() as int);
    lemma_any_exists(sq, side, t, t.len() as int);
    assert forall|i: int| 0 <= i < s.len() implies t.contains(#[trigger] s[i]) by {
        assert(s.contains(s[i]));
    }
    assert forall|j: int| 0 <= j < t.len() implies s.contains(#[trigger] t[j]) by {
        assert(t.contains(t[j]));
    }
}

/// The squares of the mirrored board holding the opposite-coloured piece are the mirrors of
/// the squares holding the piece.
proof fn lemma_mirror_members(b: Seq<i8>, piece: int)
    requires
        board_ok(b),
    ensures
        forall|x: int| squares_of(mirror_board(b), -piece, 64).contains(x) <==> mirror_list(
            squares_of(b, piece, 64),
        ).contains(x),
{
    let mb = mirror_board(b);
    let s = squares_of(b, piece, 64);
    let ms = mirror_list(s);
    lemma_squares_of_members(b, piece, 64);
    lemma_squares_of_members(mb, -piece, 64);
    assert forall|x: int| squares_of(mb, -piece, 64).contains(x) <==> ms.contains(x) by {
        if squares_of(mb, -piece, 64).contains(x) {
            lemma_mirror_square(x);
            let y = mirror_square(x);
            assert(s.contains(y));
            let i = choose|i: int| 0 <= i < s.len() && s[i] == y;
            assert(ms[i] == x);
        }
        if ms.contains(x) {
            let i = choose|i: int| 0 <= i < ms.len() && ms[i] == x;
            assert(s.contains(s[i]));
            lemma_mirror_square(s[i]);
            lemma_mirror_square(x);
        }
    }
}

/// A sum over the squares holding `piece` turns into its opposite on the mirrored board, over
/// the squares holding the opposite-coloured piece, when each square's share does.
proof fn lemma_filtered_mirror(b: Seq<i8>, piece: int, g: spec_fn(int) -> int, h: spec_fn(int) -> int)
    requires
        board_ok(b),
        forall|x: int| 0 <= x < 64 && b[x] == piece ==> #[trigger] h(mirror_square(x)) == -g(x),
    ensures
        square_sum(
            |x: int|
                if mirror_board(b)[x] == -piece {
                    h(x)
                } else {
                    0
                },
            64,
        ) == -square_sum(
            |x: int|
                if b[x] == piece {
                    g(x)
                } else {
                    0
                },
            64,
        ),
{
    let mb = mirror_board(b);
    let gm = |x: int|
        if mb[x] == -piece {
            h(x)
        } else {
            0
        };
    let gb = |x: int|
        if b[x] == piece {
            g(x)
        } else {
            0
        };
    let hn = |y: int| -gb(y);
    assert forall|x: int| 0 <= x < 64 implies #[trigger] gm(x) == hn(mirror_square(x)) by {
        lemma_mirror_square(x);
        let y = mirror_square(x);
        lemma_mirror_square(y);
        assert(mb[x] as int == -(b[y] as int));
    }
    lemma_square_sum_mirror(gm, hn);
    lemma_square_sum_neg(gb, hn, 64);
}

/// The pawn scores of the other side on the mirrored board are the opposite of `side`'s, when
/// neither side has more than eight pawns.
proof fn lemma_pawn_sum_mirror(b: Seq<i8>, side: int, phase: int)
    requires
        board_ok(b),
        side == 1 || side == -1,
        count_piece(b, side * PAWN, 64) <= 8,
        count_piece(b, -side * PAWN, 64) <= 8,
    ensures
        pawn_sum(
            mirror_board(b),
            -side,
            phase,
            pawn_list(mirror_board(b), -side),
            pawn_list(mirror_board(b), side),
            pawn_list(mirror_board(b), -side).len() as int,
        ) == -pawn_sum(
            b,
            side,
            phase,
            pawn_list(b, side),
            pawn_list(b, -side),
            pawn_list(b, side).len() as int,
        ),
{
    let mb = mirror_board(b);
    let pc = side * PAWN;
    lemma_squares_of_len(b, pc, 64);
    lemma_squares_of_len(b, -pc, 64);
    lemma_squares_of_len(mb, -pc, 64);
    lemma_squares_of_len(mb, pc, 64);
    law_counts_mirror(b, pc, 0);
    law_counts_mirror(b, -pc, 0);
    assert(-side * PAWN == -pc);
    let own = squares_of(b, pc, 64);
    let enemy = squares_of(b, -pc, 64);
    let own2 = squares_of(mb, -pc, 64);
    let enemy2 = squares_of(mb, pc, 64);
    assert(pawn_list(b, side) == own);
    assert(pawn_list(b, -side) == enemy);
    assert(pawn_list(mb, -side) == own2);
    assert(pawn_list(mb, side) == enemy2);
    lemma_squares_of_range(b, pc, 64);
    lemma_squares_of_range(b, -pc, 64);
    lemma_mirror_members(b, pc);
    lemma_mirror_members(b, -pc);
    let g = |x: int| pawn_term(b, side, phase, x, own, enemy);
    let h = |x: int| pawn_term(mb, -side, phase, x, own2, enemy2);
    assert forall|x: int| 0 <= x < 64 && b[x] == pc implies #[trigger] h(mirror_square(x)) == -g(x) by {
        let m = mirror_square(x);
        lemma_same_members(m, -side, own2, mirror_list(own));
        lemma_same_members(m, -side, enemy2, mirror_list(enemy));
        law_pawn_term_mirror(b, side, phase, x, own, enemy);
    }
    lemma_filtered_mirror(b, pc, g, h);
    lemma_pawn_sum_list(b, side, phase, own, enemy, own.len() as int);
    lemma_pawn_sum_list(mb, -side, phase, own2, enemy2, own2.len() as int);
    lemma_list_sum_squares(b, pc, g, 64);
    lemma_list_sum_squares(mb, -pc, h, 64);
}

/// The rook scores of the other side on the mirrored board are the opposite of `side`'s, when
/// neither side has more than ten rooks.
proof fn lemma_rook_sum_mirror(b: Seq<i8>, side: int)
    requires
        board_ok(b),
        side == 1 || side == -1,
        count_piece(b, side * ROOK, 64) <= 10,
    ensures
        rook_sum(mirror_board(b), -side, rook_list(mirror_board(b), -side), rook_list(mirror_board(b), -side).len() as int)
            == -rook_sum(b, side, rook_list(b, side), rook_list(b, side).len() as int),
{
    let mb = mirror_board(b);
    let pc = side * ROOK;
    lemma_squares_of_len(b, pc, 64);
    lemma_squares_of_len(mb, -pc, 64);
    law_counts_mirror(b, pc, 0);
    assert(-side * ROOK == -pc);
    let rooks = squares_of(b, pc, 64);
    let rooks2 = squares_of(mb, -pc, 64);
    assert(rook_list(b, side) == rooks);
    assert(rook_list(mb, -side) == rooks2);
    let g = |x: int| rook_term(b, side, x);
    let h = |x: int| rook_term(mb, -side, x);
    assert forall|x: int| 0 <= x < 64 && b[x] == pc implies #[trigger] h(mirror_square(x)) == -g(x) by {
        law_rook_term_mirror(b, side, x);
    }
    lemma_filtered_mirror(b, pc, g, h);
    lemma_rook_sum_list(b, side, rooks, rooks.len() as int);
    lemma_rook_sum_list(mb, -side, rooks2, rooks2.len() as int);
    lemma_list_sum_squares(b, pc, g, 64);
    lemma_list_sum_squares(mb, -pc, h, 64);
}

proof fn lemma_tdiv_neg(a: int, d: int)
    requires
        d > 0,
    ensures
        tdiv(-a, d) == -tdiv(a, d),
{
}

/// The evaluation is colour-blind: mirroring the board rank for rank, swapping the colours of
/// all pieces and the side to move leaves the score of the side to move unchanged. It holds
/// whenever neither side has more than eight pawns or ten rooks, the pieces the evaluation
/// lists.
pub proof fn law_evaluation_mirror(p: PositionModel, q: PositionModel)
    requires
        p.layout_ok(),
        p.sums_ok(),
        q.sums_ok(),
        q.board == mirror_board(p.board),
        q.side == -p.side,
        q.white_king == mirror_square(p.black_king),
        q.black_king == mirror_square(p.white_king),
        count_piece(p.board, PAWN as int, 64) <= 8,
        count_piece(p.board, -PAWN, 64) <= 8,
        count_piece(p.board, ROOK as int, 64) <= 10,
        count_piece(p.board, -ROOK, 64) <= 10,
    ensures
        evaluation(q) == evaluation(p),
        white_score(q) == -white_score(p),
{
    let b = p.board;
    let mb = q.board;
    law_material_sums_mirror(b);
    law_mobility_mirror(b);
    let ph = game_phase(p);
    assert(game_phase(q) == ph);
    let x = p.mg * ph + p.eg * (24 - ph);
    assert(q.mg * ph + q.eg * (24 - ph) == -x) by (nonlinear_arith)
        requires
            q.mg == -p.mg,
            q.eg == -p.eg,
            x == p.mg * ph + p.eg * (24 - ph),
    ;
    lemma_tdiv_neg(x, 24);
    law_counts_mirror(b, BISHOP as int, 0);
    law_counts_mirror(b, -BISHOP, 0);
    law_doubled_mirror(b, 1, 8);
    law_doubled_mirror(b, -1, 8);
    lemma_pawn_sum_mirror(b, 1, ph);
    lemma_pawn_sum_mirror(b, -1, ph);
    lemma_rook_sum_mirror(b, 1);
    lemma_rook_sum_mirror(b, -1);
    law_king_term_mirror(b, 1, ph, p.white_king);
    law_king_term_mirror(b, -1, ph, p.black_king);
    assert(side_terms(mb, -1, ph, q.black_king) == -side_terms(b, 1, ph, p.white_king));
    assert(side_terms(mb, 1, ph, q.white_king) == -side_terms(b, -1, ph, p.black_king));
    assert(white_score(q) == -white_score(p));
}

/// How far a pawn has advanced is the same for a white pawn and for the black pawn on the
/// mirrored square: it counts from its own side's back rank.
pub proof fn law_advance_mirror(sq: int, side: int)
    requires
        0 <= sq < 64,
        side == 1 || side == -1,
    ensures
        advance(mirror_square(sq), -side) == advance(sq, side),
        side == 1 ==> advance(sq, side) == rank_of(sq),
        side == -1 ==> advance(sq, side) == 7 - rank_of(sq),
{
    lemma_mirror_square(sq);
}

/// A passed pawn's bonus does not depend on its colour: the pawn of the other colour on the
/// mirrored square of the mirrored board (ranks reversed, colours swapped) earns the same bonus.
pub proof fn law_passer_bonus_mirror(b: Seq<i8>, sq: int, side: int, phase: int)
    requires
        board_ok(b),
        0 <= sq < 64,
        side == 1 || side == -1,
    ensures
        passer_bonus(mirror_board(b), mirror_square(sq), -side, phase) == passer_bonus(b, sq, side, phase),
{
    let mb = mirror_board(b);
    let msq = mirror_square(sq);
    lemma_mirror_square(sq);
    law_advance_mirror(sq, side);
    assert forall|df: int| df == -1 || df == 1 implies defends(mb, msq, -side, df) == defends(b, sq, side, df) by {
        let f = file_of(sq) + df;
        let r = rank_of(sq) - side;
        assert(rank_of(msq) - (-side) == 7 - r);
        if 0 <= f < 8 && 0 <= r < 8 {
            let t = r * 8 + f;
            let mt = (7 - r) * 8 + f;
            assert(t % 8 == f && t / 8 == r) by (nonlinear_arith)
                requires
                    t == r * 8 + f,
                    0 <= f < 8,
                    0 <= r < 8,
            ;
            assert(mirror_square(mt) == t) by {
                lemma_mirror_square(t);
            }
            assert(mb[mt] == -b[t]);
        }
    }
}

/// A list of squares seen from the other side of the board.
pub open spec fn mirror_list(s: Seq<int>) -> Seq<int> {
    Seq::new(s.len(), |i: int| mirror_square(s[i]))
}

proof fn lemma_blocks_mirror(e: int, sq: int, side: int)
    requires
        0 <= e < 64,
        0 <= sq < 64,
        side == 1 || side == -1,
    ensures
        blocks(mirror_square(e), mirror_square(sq), -side) == blocks(e, sq, side),
        (file_of(mirror_square(e)) == file_of(mirror_square(sq)) && (rank_of(mirror_square(e))
            - rank_of(mirror_square(sq))) * -side > 0) == (file_of(e) == file_of(sq) && (rank_of(e)
            - rank_of(sq)) * side > 0),
{
    lemma_mirror_square(e);
    lemma_mirror_square(sq);
    let dr = rank_of(e) - rank_of(sq);
    assert(rank_of(mirror_square(e)) - rank_of(mirror_square(sq)) == -dr);
    assert((-dr) * -side == dr * side) by (nonlinear_arith);
    assert(file_of(mirror_square(e)) - file_of(mirror_square(sq)) == file_of(e) - file_of(sq));
}

proof fn lemma_lists_mirror(sq: int, side: int, s: Seq<int>, n: int)
    requires
        0 <= sq < 64,
        side == 1 || side == -1,
        0 <= n <= s.len(),
        forall|i: int| 0 <= i < s.len() ==> 0 <= #[trigger] s[i] < 64,
    ensures
        any_blocker(mirror_square(sq), -side, mirror_list(s), n) == any_blocker(sq, side, s, n),
        any_ahead(mirror_square(sq), -side, mirror_list(s), n) == any_ahead(sq, side, s, n),
    decreases n,
{
    if n > 0 {
        lemma_lists_mirror(sq, side, s, n - 1);
        lemma_blocks_mirror(s[n - 1], sq, side);
        assert(mirror_list(s)[n - 1] == mirror_square(s[n - 1]));
    }
}

/// A pawn's score does not depend on its colour: the pawn of the other colour on the mirrored
/// square of the mirrored board, with both sides' pawn lists mirrored, scores the opposite
/// (the same for its own side).
pub proof fn law_pawn_term_mirror(b: Seq<i8>, side: int, phase: int, sq: int, own: Seq<int>, enemy: Seq<int>)
    requires
        board_ok(b),
        side == 1 || side == -1,
        0 <= sq < 64,
        forall|i: int| 0 <= i < own.len() ==> 0 <= #[trigger] own[i] < 64,
        forall|i: int| 0 <= i < enemy.len() ==> 0 <= #[trigger] enemy[i] < 64,
    ensures
        pawn_term(mirror_board(b), -side, phase, mirror_square(sq), mirror_list(own), mirror_list(enemy))
            == -pawn_term(b, side, phase, sq, own, enemy),
{
    lemma_mirror_square(sq);
    let f = file_of(sq);
    law_counts_mirror(b, side * PAWN, f - 1);
    law_counts_mirror(b, side * PAWN, f + 1);
    lemma_lists_mirror(sq, side, own, own.len() as int);
    lemma_lists_mirror(sq, side, enemy, enemy.len() as int);
    law_passer_bonus_mirror(b, sq, side, phase);
}

/// A rook's score does not depend on its colour: the rook of the other colour on the mirrored
/// square of the mirrored board scores the opposite.
pub proof fn law_rook_term_mirror(b: Seq<i8>, side: int, sq: int)
    requires
        board_ok(b),
        side == 1 || side == -1,
        0 <= sq < 64,
    ensures
        rook_term(mirror_board(b), -side, mirror_square(sq)) == -rook_term(b, side, sq),
{
    lemma_mirror_square(sq);
    let f = file_of(sq);
    law_counts_mirror(b, side * PAWN, f);
    law_counts_mirror(b, -side * PAWN, f);
    law_advance_mirror(sq, side);
}

proof fn lemma_squares_of_len(b: Seq<i8>, piece: int, n: int)
    requires
        0 <= n,
    ensures
        squares_of(b, piece, n).len() == count_piece(b, piece, n),
    decreases n,
{
    if n > 0 {
        lemma_squares_of_len(b, piece, n - 1);
    }
}

/// The doubled-pawn penalty does not depend on colour: the other side's penalty on the
/// mirrored board is the opposite.
pub proof fn law_doubled_mirror(b: Seq<i8>, side: int, n: int)
    requires
        board_ok(b),
        side == 1 || side == -1,
        0 <= n,
    ensures
        doubled_sum(mirror_board(b), -side, n) == -doubled_sum(b, side, n),
    decreases n,
{
    if n > 0 {
        law_doubled_mirror(b, side, n - 1);
        law_counts_mirror(b, side * PAWN, n - 1);
    }
}

/// The king's shelter score does not depend on its colour: the king of the other colour on the
/// mirrored square of the mirrored board scores the opposite.
pub proof fn law_king_term_mirror(b: Seq<i8>, side: int, phase: int, king: int)
    requires
        board_ok(b),
        side == 1 || side == -1,
        0 <= king < 64,
    ensures
        king_term(mirror_board(b), -side, phase, mirror_square(king)) == -king_term(b, side, phase, king),
{
    let mb = mirror_board(b);
    let mk = mirror_square(king);
    lemma_mirror_square(king);
    let f = file_of(king);
    law_counts_mirror(b, side * PAWN, f - 1);
    law_counts_mirror(b, side * PAWN, f);
    law_counts_mirror(b, side * PAWN, f + 1);
    law_counts_mirror(b, -side * PAWN, f - 1);
    law_counts_mirror(b, -side * PAWN, f);
    law_counts_mirror(b, -side * PAWN, f + 1);
    law_counts_mirror(b, -side * QUEEN, 0);
    law_counts_mirror(b, -side * ROOK, 0);
    lemma_squares_of_len(b, -side * ROOK, 64);
    lemma_squares_of_len(mb, side * ROOK, 64);
    assert(heavy(mb, -side) == heavy(b, side));
    assert forall|df: int| df == -1 || df == 0 || df == 1 implies shield_at(mb, -side, mk, df) == shield_at(b, side, king, df) by {
        let ff = file_of(king) + df;
        let r = rank_of(king) + side;
        if 0 <= ff < 8 && 0 <= r < 8 {
            lemma_row_square(r, ff);
            lemma_row_square(7 - r, ff);
            assert(mb[(7 - r) * 8 + ff] == -b[r * 8 + ff]);
        }
    }
    assert forall|df: int| df == -1 || df == 0 || df == 1 implies exposure_at(mb, -side, mk, df) == exposure_at(b, side, king, df) by {
        law_counts_mirror(b, side * PAWN, f + df);
        law_counts_mirror(b, -side * PAWN, f + df);
    }
    let x = shield_at(b, side, king, -1) + shield_at(b, side, king, 0) + shield_at(b, side, king, 1)
        ;
    let y = exposure_at(b, side, king, -1) + exposure_at(b, side, king, 0) + exposure_at(b, side, king, 1);
    let v = signed(side, x * 12 - y * heavy(b, side));
    assert(signed(-side, x * 12 - y * heavy(b, side)) == -v);
    assert((-v) * phase == -(v * phase)) by (nonlinear_arith);
}

/// The score of the pawn of `side` on `sq`: a penalty when isolated, a bonus when passed and
/// frontmost on its file.
pub open spec fn pawn_term(
    b: Seq<i8>,
    side: int,
    phase: int,
    sq: int,
    own: Seq<int>,
    enemy: Seq<int>,
) -> int {
    let f = file_of(sq);
    let isolated = (f == 0 || file_count(b, side * PAWN, f - 1, 64) == 0) && (f == 7
        || file_count(b, side * PAWN, f + 1, 64) == 0);
    let iso = if isolated {
        signed(side, -10)
    } else {
        0
    };
    let passed = !any_blocker(sq, side, enemy, enemy.len() as int);
    let front = !any_ahead(sq, side, own, own.len() as int);
    iso + if passed && front {
        signed(side, passer_bonus(b, sq, side, phase))
    } else {
        0
    }
}

/// The scores of the first `n` pawns of `own`.
pub open spec fn pawn_sum(
    b: Seq<i8>,
    side: int,
    phase: int,
    own: Seq<int>,
    enemy: Seq<int>,
    n: int,
) -> int
    decreases n,
{
    if n <= 0 {
        0
    } else {
        pawn_sum(b, side, phase, own, enemy, n - 1) + pawn_term(
            b,
            side,
            phase,
            own[n - 1],
            own,
            enemy,
        )
    }
}

/// The pawns of `side` that the evaluation looks at: the first eight on the board.
pub open spec fn pawn_list(b: Seq<i8>, side: int) -> Seq<int> {
    first_k(squares_of(b, side * PAWN, 64), 8)
}

/// The rooks of `side` that the evaluation looks at: the first ten on the board.
pub open spec fn rook_list(b: Seq<i8>, side: int) -> Seq<int> {
    first_k(squares_of(b, side * ROOK, 64), 10)
}

// ----- rooks and king -----

/// The score of a rook of `side` on `sq`: open or half-open file, and the seventh rank.
pub open spec fn rook_term(b: Seq<i8>, side: int, sq: int) -> int {
    let f = file_of(sq);
    let open = if file_count(b, side * PAWN, f, 64) == 0 {
        signed(
            side,
            if file_count(b, -side * PAWN, f, 64) == 0 {
                18
            } else {
                10
            },
        )
    } else {
        0
    };
    let seventh = if advance(sq, side) == 6 {
        signed(side, 18)
    } else {
        0
    };
    open + seventh
}

pub open spec fn rook_sum(b: Seq<i8>, side: int, rooks: Seq<int>, n: int) -> int
    decreases n,
{
    if n <= 0 {
        0
    } else {
        rook_sum(b, side, rooks, n - 1) + rook_term(b, side, rooks[n - 1])
    }
}

/// Whether the square in front of the king (file offset `df`) holds a pawn of `side`.
pub open spec fn shield_at(b: Seq<i8>, side: int, king: int, df: int) -> int {
    match square_at(file_of(king) + df, rank_of(king) + side) {
        Some(t) => if b[t] == side * PAWN {
            1int
        } else {
            0
        },
        None => 0,
    }
}

/// How exposed the king is along the file at offset `df`: 8 for an open file, 4 for one
/// holding only enemy pawns.
pub open spec fn exposure_at(b: Seq<i8>, side: int, king: int, df: int) -> int {
    let f = file_of(king) + df;
    if 0 <= f < 8 && file_count(b, side * PAWN, f, 64) == 0 {
        if file_count(b, -side * PAWN, f, 64) == 0 {
            8
        } else {
            4
        }
    } else {
        0
    }
}

/// The enemy's heavy pieces as the king's safety weighs them: queens twice, rooks once (at
/// most ten of them).
pub open spec fn heavy(b: Seq<i8>, side: int) -> int {
    count_piece(b, -side * QUEEN, 64) * 2 + rook_list(b, -side).len()
}

/// King shelter, scaled by the material left; nothing once the board is bare.
pub open spec fn king_term(b: Seq<i8>, side: int, phase: int, king: int) -> int {
    let shield = shield_at(b, side, king, -1) + shield_at(b, side, king, 0) + shield_at(
        b,
        side,
        king,
        1,
    );
    let exposure = exposure_at(b, side, king, -1) + exposure_at(b, side, king, 0) + exposure_at(
        b,
        side,
        king,
        1,
    );
    if phase > 0 {
        tdiv(signed(side, shield * 12 - exposure * heavy(b, side)) * phase, 24)
    } else {
        0
    }
}

/// Everything one side's pawns, rooks and king contribute.
pub open spec fn side_terms(b: Seq<i8>, side: int, phase: int, king: int) -> int {
    let own = pawn_list(b, side);
    let enemy = pawn_list(b, -side);
    let rooks = rook_list(b, side);
    doubled_sum(b, side, 8) + pawn_sum(b, side, phase, own, enemy, own.len() as int) + rook_sum(
        b,
        side,
        rooks,
        rooks.len() as int,
    ) + king_term(b, side, phase, king)
}

/// The game phase: the piece-weight sum, at most 24.
pub open spec fn game_phase(p: PositionModel) -> int {
    if p.phase < 24 {
        p.phase
    } else {
        24
    }
}

/// The evaluation from white's point of view.
pub open spec fn white_score(p: PositionModel) -> int {
    let b = p.board;
    let ph = game_phase(p);
    let base = tdiv(p.mg * ph + p.eg * (24 - ph), 24);
    let pair = (if count_piece(b, BISHOP as int, 64) >= 2 {
        28int
    } else {
        0
    }) - (if count_piece(b, -BISHOP, 64) >= 2 {
        28int
    } else {
        0
    });
    base + mobility_sum(b, 64) + pair + side_terms(b, 1, ph, p.white_king) + side_terms(
        b,
        -1,
        ph,
        p.black_king,
    )
}

/// The evaluation from the side to move's point of view, with a small bonus for having the
/// move.
pub open spec fn evaluation(p: PositionModel) -> int {
    signed(p.side, white_score(p) + signed(p.side, 8))
}


// ----- computing the terms -----

/// The file counts of `side`'s pawns agree with the board.
pub open spec fn files_match(b: Seq<i8>, piece: int, fc: [u32; 8]) -> bool {
    forall|f: int| 0 <= f < 8 ==> #[trigger] fc[f] as int == file_count(b, piece, f, 64)
}

/// A list of squares agrees with a sequence of integers.
pub open spec fn list_match(v: Seq<u8>, s: Seq<int>) -> bool {
    &&& v.len() == s.len()
    &&& forall|i: int| 0 <= i < v.len() ==> #[trigger] v[i] as int == s[i]
    &&& forall|i: int| 0 <= i < v.len() ==> #[trigger] v[i] < 64
}

fn doubled_penalty(fc: &[u32; 8], side: i8, Ghost(b): Ghost<Seq<i8>>) -> (r: i32)
    requires
        side == 1 || side == -1,
        files_match(b, side * PAWN, *fc),
        forall|f: int| 0 <= f < 8 ==> #[trigger] fc[f] <= 64,
    ensures
        r == doubled_sum(b, side as int, 8),
        -6400 <= r <= 6400,
{
    let mut r: i32 = 0;
    for f in 0..8usize
        invariant
            side == 1 || side == -1,
            files_match(b, side * PAWN, *fc),
            forall|g: int| 0 <= g < 8 ==> #[trigger] fc[g] <= 64,
            r == doubled_sum(b, side as int, f as int),
            -800 * f <= r <= 800 * f,
    {
        let c = fc[f];
        assert(c as int == file_count(b, side * PAWN, f as int, 64));
        if c > 1 {
            let pen: i32 = 12 * (c as i32 - 1);
            if side == WHITE {
                r = r - pen;
            } else {
                r = r + pen;
            }
        }
    }
    r
}

/// Whether enemy pawn `e` stops the pawn of `side` on `sq` from being passed.
fn pawn_blocks(e: u8, sq: u8, side: i8) -> (r: bool)
    requires
        e < 64,
        sq < 64,
        side == 1 || side == -1,
    ensures
        r == blocks(e as int, sq as int, side as int),
{
    let df = file(e) as i32 - file(sq) as i32;
    let dr = rank(e) as i32 - rank(sq) as i32;
    let ahead = if side == WHITE {
        dr > 0
    } else {
        dr < 0
    };
    proof {
        assert(ahead == (dr * side > 0)) by (nonlinear_arith)
            requires
                side == 1 || side == -1,
                ahead == (if side == 1 {
                    dr > 0
                } else {
                    dr < 0
                }),
        ;
    }
    -1 <= df && df <= 1 && ahead
}

/// Whether own pawn `o` stands ahead of the pawn of `side` on `sq`, on the same file.
fn pawn_ahead(o: u8, sq: u8, side: i8) -> (r: bool)
    requires
        o < 64,
        sq < 64,
        side == 1 || side == -1,
    ensures
        r == (file_of(o as int) == file_of(sq as int) && (rank_of(o as int) - rank_of(sq as int))
            * side > 0),
{
    let dr = rank(o) as i32 - rank(sq) as i32;
    let ahead = if side == WHITE {
        dr > 0
    } else {
        dr < 0
    };
    proof {
        assert(ahead == (dr * side > 0)) by (nonlinear_arith)
            requires
                side == 1 || side == -1,
                ahead == (if side == 1 {
                    dr > 0
                } else {
                    dr < 0
                }),
        ;
    }
    file(o) == file(sq) && ahead
}

fn defender_at(board: &[i8; 64], sq: u8, side: i8, df: i8) -> (r: i32)
    requires
        sq < 64,
        side == 1 || side == -1,
        df == 1 || df == -1,
    ensures
        r == defends(board@, sq as int, side as int, df as int),
        0 <= r <= 1,
{
    match square(file(sq) + df, rank(sq) - side) {
        Some(t) => if board[t as usize] == side * PAWN {
            1
        } else {
            0
        },
        None => 0,
    }
}

/// The score of the pawn of `side` on `sq`.
fn pawn_score(
    board: &[i8; 64],
    side: i8,
    phase: i32,
    sq: u8,
    own: &Vec<u8>,
    enemy: &Vec<u8>,
    fc: &[u32; 8],
    Ghost(own_s): Ghost<Seq<int>>,
    Ghost(enemy_s): Ghost<Seq<int>>,
) -> (r: i32)
    requires
        sq < 64,
        side == 1 || side == -1,
        0 <= phase <= 24,
        list_match(own@, own_s),
        list_match(enemy@, enemy_s),
        files_match(board@, side * PAWN, *fc),
    ensures
        r == pawn_term(board@, side as int, phase as int, sq as int, own_s, enemy_s),
        -400 <= r <= 400,
{
    let f = file(sq) as usize;
    let isolated = (f == 0 || fc[f - 1] == 0) && (f == 7 || fc[f + 1] == 0);
    let mut r: i32 = 0;
    if isolated {
        r = if side == WHITE {
            -10
        } else {
            10
        };
    }
    let mut passed = true;
    for j in 0..enemy.len()
        invariant
            sq < 64,
            side == 1 || side == -1,
            list_match(enemy@, enemy_s),
            passed == !any_blocker(sq as int, side as int, enemy_s, j as int),
    {
        if pawn_blocks(enemy[j], sq, side) {
            passed = false;
        }
    }
    let mut front = true;
    for j in 0..own.len()
        invariant
            sq < 64,
            side == 1 || side == -1,
            list_match(own@, own_s),
            front == !any_ahead(sq as int, side as int, own_s, j as int),
    {
        if pawn_ahead(own[j], sq, side) {
            front = false;
        }
    }
    if passed && front {
        let a: i32 = if side == WHITE {
            rank(sq) as i32
        } else {
            7 - rank(sq) as i32
        };
        proof {
            assert(0 <= a * a <= 49) by (nonlinear_arith)
                requires
                    0 <= a <= 7,
            ;
            assert(0 <= (12 + a * a * 4) * (32 - phase) <= 208 * 32) by (nonlinear_arith)
                requires
                    0 <= a <= 7,
                    0 <= phase <= 24,
            ;
        }
        let mut bonus = (12 + a * a * 4) * (32 - phase) / 24;
        bonus = bonus + 12 * (defender_at(board, sq, side, -1) + defender_at(board, sq, side, 1));
        if side == WHITE {
            r = r + bonus;
        } else {
            r = r - bonus;
        }
    }
    r
}

/// The scores of the pawns in `own`.
fn pawns_score(
    board: &[i8; 64],
    side: i8,
    phase: i32,
    own: &Vec<u8>,
    enemy: &Vec<u8>,
    fc: &[u32; 8],
    Ghost(own_s): Ghost<Seq<int>>,
    Ghost(enemy_s): Ghost<Seq<int>>,
) -> (r: i32)
    requires
        side == 1 || side == -1,
        0 <= phase <= 24,
        own@.len() <= 8,
        list_match(own@, own_s),
        list_match(enemy@, enemy_s),
        files_match(board@, side * PAWN, *fc),
    ensures
        r == pawn_sum(board@, side as int, phase as int, own_s, enemy_s, own_s.len() as int),
        -4000 <= r <= 4000,
{
    let mut r: i32 = 0;
    for i in 0..own.len()
        invariant
            side == 1 || side == -1,
            0 <= phase <= 24,
            own@.len() <= 8,
            list_match(own@, own_s),
            list_match(enemy@, enemy_s),
            files_match(board@, side * PAWN, *fc),
            r == pawn_sum(board@, side as int, phase as int, own_s, enemy_s, i as int),
            -400 * i <= r <= 400 * i,
    {
        r = r + pawn_score(board, side, phase, own[i], own, enemy, fc, Ghost(own_s), Ghost(enemy_s));
    }
    r
}

/// The scores of the rooks in `rooks`.
fn rooks_score(
    side: i8,
    rooks: &Vec<u8>,
    fc_own: &[u32; 8],
    fc_enemy: &[u32; 8],
    Ghost(b): Ghost<Seq<i8>>,
    Ghost(rooks_s): Ghost<Seq<int>>,
) -> (r: i32)
    requires
        side == 1 || side == -1,
        rooks@.len() <= 10,
        list_match(rooks@, rooks_s),
        files_match(b, side * PAWN, *fc_own),
        files_match(b, -side * PAWN, *fc_enemy),
    ensures
        r == rook_sum(b, side as int, rooks_s, rooks_s.len() as int),
        -400 <= r <= 400,
{
    let mut r: i32 = 0;
    for i in 0..rooks.len()
        invariant
            side == 1 || side == -1,
            rooks@.len() <= 10,
            list_match(rooks@, rooks_s),
            files_match(b, side * PAWN, *fc_own),
            files_match(b, -side * PAWN, *fc_enemy),
            r == rook_sum(b, side as int, rooks_s, i as int),
            -36 * i <= r <= 36 * i,
    {
        let sq = rooks[i];
        let f = file(sq) as usize;
        let mut t: i32 = 0;
        if fc_own[f] == 0 {
            t = if fc_enemy[f] == 0 {
                18
            } else {
                10
            };
        }
        let relative_rank = if side == WHITE {
            rank(sq)
        } else {
            7 - rank(sq)
        };
        if relative_rank == 6 {
            t = t + 18;
        }
        if side == WHITE {
            r = r + t;
        } else {
            r = r - t;
        }
    }
    r
}

fn shield_pawn(board: &[i8; 64], side: i8, king: u8, df: i8) -> (r: i32)
    requires
        king < 64,
        side == 1 || side == -1,
        -1 <= df <= 1,
    ensures
        r == shield_at(board@, side as int, king as int, df as int),
        0 <= r <= 1,
{
    match square(file(king) + df, rank(king) + side) {
        Some(t) => if board[t as usize] == side * PAWN {
            1
        } else {
            0
        },
        None => 0,
    }
}

fn exposure_file(side: i8, king: u8, df: i8, fc_own: &[u32; 8], fc_enemy: &[u32; 8], Ghost(b): Ghost<Seq<i8>>) -> (r: i32)
    requires
        king < 64,
        side == 1 || side == -1,
        -1 <= df <= 1,
        files_match(b, side * PAWN, *fc_own),
        files_match(b, -side * PAWN, *fc_enemy),
    ensures
        r == exposure_at(b, side as int, king as int, df as int),
        0 <= r <= 8,
{
    let f = file(king) + df;
    if 0 <= f && f < 8 && fc_own[f as usize] == 0 {
        if fc_enemy[f as usize] == 0 {
            8
        } else {
            4
        }
    } else {
        0
    }
}

/// King shelter for `side`.
fn king_score(
    board: &[i8; 64],
    side: i8,
    phase: i32,
    king: u8,
    fc_own: &[u32; 8],
    fc_enemy: &[u32; 8],
    enemy_heavy: i32,
) -> (r: i32)
    requires
        king < 64,
        side == 1 || side == -1,
        0 <= phase <= 24,
        files_match(board@, side * PAWN, *fc_own),
        files_match(board@, -side * PAWN, *fc_enemy),
        enemy_heavy == heavy(board@, side as int),
        0 <= enemy_heavy <= 200,
    ensures
        r == king_term(board@, side as int, phase as int, king as int),
        -5000 <= r <= 5000,
{
    if phase <= 0 {
        return 0;
    }
    let shield = shield_pawn(board, side, king, -1) + shield_pawn(board, side, king, 0)
        + shield_pawn(board, side, king, 1);
    let ghost b = board@;
    let exposure = exposure_file(side, king, -1, fc_own, fc_enemy, Ghost(b)) + exposure_file(
        side,
        king,
        0,
        fc_own,
        fc_enemy,
        Ghost(b),
    ) + exposure_file(side, king, 1, fc_own, fc_enemy, Ghost(b));
    proof {
        assert(0 <= exposure * enemy_heavy <= 24 * 200) by (nonlinear_arith)
            requires
                0 <= exposure <= 24,
                0 <= enemy_heavy <= 200,
        ;
    }
    let x = shield * 12 - exposure * enemy_heavy;
    let sx = if side == WHITE {
        x
    } else {
        -x
    };
    proof {
        assert(-5000 * 24 <= sx * phase <= 5000 * 24) by (nonlinear_arith)
            requires
                -5000 <= sx <= 5000,
                0 <= phase <= 24,
        ;
    }
    let r = sx * phase / 24;
    r
}

/// Static evaluation of the position from the side to move's point of view.
#[verifier::rlimit(40)]
#[verifier::spinoff_prover]
pub fn evaluate(pos: &Position) -> (score: i32)
    requires
        pos@.layout_ok(),
        pos@.sums_ok(),
    ensures
        score == evaluation(pos@),
        -1_400_000 <= score <= 1_400_000,
{
    let ghost b = pos@.board;
    proof {
        crate::position::lemma_sums_bounds(b, 64);
        lemma_mobility_sum_bound(b, 64);
    }
    let phase: i32 = if pos.phase < 24 {
        pos.phase
    } else {
        24
    };
    proof {
        assert(-20100 * 64 * 24 <= pos.mg * phase <= 20100 * 64 * 24) by (nonlinear_arith)
            requires
                -20100 * 64 <= pos.mg <= 20100 * 64,
                0 <= phase <= 24,
        ;
        assert(-20100 * 64 * 24 <= pos.eg * (24 - phase) <= 20100 * 64 * 24) by (nonlinear_arith)
            requires
                -20100 * 64 <= pos.eg <= 20100 * 64,
                0 <= phase <= 24,
        ;
        assert(-20100 * 64 * 24 <= pos.mg * phase + pos.eg * (24 - phase) <= 20100 * 64 * 24)
            by (nonlinear_arith)
            requires
                -20100 * 64 <= pos.mg <= 20100 * 64,
                -20100 * 64 <= pos.eg <= 20100 * 64,
                0 <= phase <= 24,
        ;
    }
    let mut score = (pos.mg * phase + pos.eg * (24 - phase)) / 24;
    score = score + mobility_total(&pos.board);
    let white_bishops = count_on_board(&pos.board, BISHOP);
    let black_bishops = count_on_board(&pos.board, -BISHOP);
    if white_bishops >= 2 {
        score = score + 28;
    }
    if black_bishops >= 2 {
        score = score - 28;
    }
    let white_files = file_counts(&pos.board, PAWN);
    let black_files = file_counts(&pos.board, -PAWN);
    let white_pawns = first_squares(&pos.board, PAWN, 8);
    let black_pawns = first_squares(&pos.board, -PAWN, 8);
    let white_rooks = first_squares(&pos.board, ROOK, 10);
    let black_rooks = first_squares(&pos.board, -ROOK, 10);
    let white_queens = count_on_board(&pos.board, QUEEN);
    let black_queens = count_on_board(&pos.board, -QUEEN);
    let ghost wp = pawn_list(b, 1);
    let ghost bp = pawn_list(b, -1);
    let ghost wr = rook_list(b, 1);
    let ghost br = rook_list(b, -1);
    let white_heavy = black_queens as i32 * 2 + black_rooks.len() as i32;
    let black_heavy = white_queens as i32 * 2 + white_rooks.len() as i32;
    let white_terms = doubled_penalty(&white_files, WHITE, Ghost(b)) + pawns_score(
        &pos.board,
        WHITE,
        phase,
        &white_pawns,
        &black_pawns,
        &white_files,
        Ghost(wp),
        Ghost(bp),
    ) + rooks_score(WHITE, &white_rooks, &white_files, &black_files, Ghost(b), Ghost(wr))
        + king_score(&pos.board, WHITE, phase, pos.king_sq[0], &white_files, &black_files, white_heavy);
    let black_terms = doubled_penalty(&black_files, -1, Ghost(b)) + pawns_score(
        &pos.board,
        -1,
        phase,
        &black_pawns,
        &white_pawns,
        &black_files,
        Ghost(bp),
        Ghost(wp),
    ) + rooks_score(-1, &black_rooks, &black_files, &white_files, Ghost(b), Ghost(br))
        + king_score(&pos.board, -1, phase, pos.king_sq[1], &black_files, &white_files, black_heavy);
    score = score + white_terms + black_terms;
    let tempo: i32 = if pos.side == WHITE {
        8
    } else {
        -8
    };
    if pos.side == WHITE {
        score + tempo
    } else {
        -(score + tempo)
    }
}


/// The evaluation is seen from the side to move, with a tempo of 8: the same placement
/// scores 16 in total for the two sides to move.
pub proof fn lemma_evaluation_side_to_move(p: PositionModel, q: PositionModel)
    requires
        p.side == 1,
        q.side == -1,
        q.board == p.board,
        q.mg == p.mg,
        q.eg == p.eg,
        q.phase == p.phase,
        q.white_king == p.white_king,
        q.black_king == p.black_king,
    ensures
        evaluation(p) + evaluation(q) == 16,
        evaluation(p) == white_score(p) + 8,
{
    assert(white_score(p) == white_score(q));
}

} // verus!
