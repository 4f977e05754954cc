//! Material rules: dead positions, non-pawn material and capture geometry.

use vstd::prelude::*;
use crate::board::{
    move_from, move_from_spec, move_promo, move_promo_spec, move_to, move_to_spec, FLAG_CAPTURE,
    FLAG_EP, FLAG_PROMO, abs_of, color, file, file_of, kind, piece_value, piece_value_spec, rank, rank_of, sign_of,
    square, BISHOP, EMPTY, KING, KNIGHT, PAWN, QUEEN, ROOK, WHITE,
};
use crate::attacks::{attacked, is_attacked_on, ray_clear, ray_empty_at, step};
use crate::position::{board_ok, ep_ok, Position, PositionModel};

verus! {

/// Colour (0 or 1) of a square on the chequered board.
pub open spec fn square_color(sq: int) -> int {
    (file_of(sq) + rank_of(sq)) % 2
}

pub open spec fn is_bishop(b: Seq<i8>, i: int) -> bool {
    abs_of(b[i] as int) == BISHOP
}

/// Number of pieces of kind `k` (either colour) on the first `n` squares.
pub open spec fn kind_count(b: Seq<i8>, k: int, n: int) -> int
    decreases n,
{
    if n <= 0 {
        0
    } else {
        kind_count(b, k, n - 1) + if abs_of(b[n - 1] as int) == k {
            1int
        } else {
            0
        }
    }
}

/// A pawn, rook or queen stands on one of the first `n` squares.
pub open spec fn has_major_or_pawn(b: Seq<i8>, n: int) -> bool {
    exists|i: int|
        0 <= i < n && (abs_of(#[trigger] b[i] as int) == PAWN || abs_of(b[i] as int) == ROOK
            || abs_of(b[i] as int) == QUEEN)
}

/// Two bishops among the first `n` squares stand on squares of different colours.
pub open spec fn bishops_mixed(b: Seq<i8>, n: int) -> bool {
    exists|i: int, j: int|
        0 <= i < n && 0 <= j < n && #[trigger] is_bishop(b, i) && #[trigger] is_bishop(b, j)
            && square_color(i) != square_color(j)
}

/// Neither side can possibly mate: no pawn, rook or queen, and at most one minor piece, or
/// only bishops all on squares of one colour.
pub open spec fn insufficient_spec(b: Seq<i8>) -> bool {
    !has_major_or_pawn(b, 64) && (kind_count(b, KNIGHT as int, 64) + kind_count(b, BISHOP as int, 64)
        <= 1 || (kind_count(b, KNIGHT as int, 64) == 0 && !bishops_mixed(b, 64)))
}

/// Whether the material on the board cannot deliver mate.
pub fn insufficient_material(pos: &Position) -> (r: bool)
    requires
        board_ok(pos@.board),
    ensures
        r == insufficient_spec(pos@.board),
{
    let ghost b = pos@.board;
    let mut knights: u32 = 0;
    let mut bishops: u32 = 0;
    // None: no bishop yet; Some(c): every bishop so far on colour c; Some(2): both colours.
    let mut bishop_color: Option<i8> = None;
    for sq in 0..64u8
        invariant
            b == pos@.board,
            board_ok(b),
            !has_major_or_pawn(b, sq as int),
            knights == kind_count(b, KNIGHT as int, sq as int),
            bishops == kind_count(b, BISHOP as int, sq as int),
            knights <= sq,
            bishops <= sq,
            bishop_color is None <==> (forall|i: int| 0 <= i < sq ==> !#[trigger] is_bishop(b, i)),
            bishop_color == Some(2i8) <==> bishops_mixed(b, sq as int),
            match bishop_color {
                Some(c) => c != 2 ==> 0 <= c < 2 && (forall|i: int|
                    0 <= i < sq && #[trigger] is_bishop(b, i) ==> square_color(i) == c) && exists|i: int|
                    0 <= i < sq && #[trigger] is_bishop(b, i),
                None => true,
            },
    {
        let piece = pos.board[sq as usize];
        let k = kind(piece);
        let ghost old_color = bishop_color;
        assert(is_bishop(b, sq as int) <==> k == BISHOP);
        if k == PAWN || k == ROOK || k == QUEEN {
            assert(has_major_or_pawn(b, 64)) by {
                assert(abs_of(b[sq as int] as int) == k);
            }
            return false;
        }
        if k == KNIGHT {
            knights = knights + 1;
        } else if k == BISHOP {
            bishops = bishops + 1;
            let x: i8 = file(sq) + rank(sq);
            let c = x & 1;
            assert(x & 1 == x % 2) by (bit_vector)
                requires
                    0 <= x < 16,
            ;
            assert(c == square_color(sq as int));
            match bishop_color {
                None => {
                    bishop_color = Some(c);
                },
                Some(old) => {
                    if old != c && old != 2 {
                        let ghost j = choose|i: int| 0 <= i < sq && #[trigger] is_bishop(b, i);
                        assert(is_bishop(b, j) && is_bishop(b, sq as int));
                        bishop_color = Some(2);
                    }
                },
            }
        }
        proof {
            assert(!has_major_or_pawn(b, sq + 1)) by {
                if has_major_or_pawn(b, sq + 1) {
                    let i = choose|i: int|
                        0 <= i < sq + 1 && (abs_of(#[trigger] b[i] as int) == PAWN || abs_of(
                            b[i] as int,
                        ) == ROOK || abs_of(b[i] as int) == QUEEN);
                    assert(i < sq);
                }
            }
            if k == BISHOP {
                assert(exists|i: int| 0 <= i < sq + 1 && #[trigger] is_bishop(b, i)) by {
                    assert(is_bishop(b, sq as int));
                }
            }
            if old_color is Some && k == BISHOP {
                assert(exists|i: int| 0 <= i < sq && #[trigger] is_bishop(b, i));
            }
            if bishops_mixed(b, sq + 1) && !bishops_mixed(b, sq as int) {
                let (i, j) = choose|i: int, j: int|
                    0 <= i < sq + 1 && 0 <= j < sq + 1 && #[trigger] is_bishop(b, i)
                        && #[trigger] is_bishop(b, j) && square_color(i) != square_color(j);
                assert(i == sq || j == sq);
            }
        }
    }
    let total_knights = knights;
    let total_bishops = bishops;
    total_knights + total_bishops <= 1 || (total_knights == 0 && bishop_color != Some(2i8))
}

/// Whether `side` has a knight, bishop, rook or queen.
pub open spec fn non_pawn_material_spec(b: Seq<i8>, side: int) -> bool {
    exists|i: int|
        0 <= i < 64 && sign_of(#[trigger] b[i] as int) == side && (abs_of(b[i] as int) == KNIGHT
            || abs_of(b[i] as int) == BISHOP || abs_of(b[i] as int) == ROOK || abs_of(b[i] as int)
            == QUEEN)
}

pub fn has_non_pawn_material(pos: &Position, side: i8) -> (r: bool)
    requires
        board_ok(pos@.board),
    ensures
        r == non_pawn_material_spec(pos@.board, side as int),
{
    let ghost b = pos@.board;
    for sq in 0..64usize
        invariant
            b == pos@.board,
            board_ok(b),
            forall|i: int|
                0 <= i < sq ==> !(sign_of(#[trigger] b[i] as int) == side && (abs_of(b[i] as int)
                    == KNIGHT || abs_of(b[i] as int) == BISHOP || abs_of(b[i] as int) == ROOK
                    || abs_of(b[i] as int) == QUEEN)),
    {
        let piece = pos.board[sq];
        let k = kind(piece);
        if color(piece) == side && (k == KNIGHT || k == BISHOP || k == ROOK || k == QUEEN) {
            return true;
        }
    }
    false
}

pub open spec fn signum(x: int) -> int {
    if x > 0 {
        1
    } else if x < 0 {
        -1
    } else {
        0
    }
}

/// The move pattern of `piece` covers `target` from `from` (ignoring blockers).
pub open spec fn pattern_covers(from: int, target: int, piece: int) -> bool {
    let df = file_of(target) - file_of(from);
    let dr = rank_of(target) - rank_of(from);
    let k = abs_of(piece);
    if k == PAWN {
        dr == sign_of(piece) && abs_of(df) == 1
    } else if k == KNIGHT {
        (abs_of(df) == 1 && abs_of(dr) == 2) || (abs_of(df) == 2 && abs_of(dr) == 1)
    } else if k == BISHOP {
        abs_of(df) == abs_of(dr)
    } else if k == ROOK {
        df == 0 || dr == 0
    } else if k == QUEEN {
        df == 0 || dr == 0 || abs_of(df) == abs_of(dr)
    } else if k == KING {
        (abs_of(df) == 1 && abs_of(dr) <= 1) || (abs_of(dr) == 1 && abs_of(df) <= 1)
    } else {
        false
    }
}

/// Walking from `from` towards `target` one step at a time reaches it over empty squares.
pub open spec fn path_reaches(b: Seq<i8>, from: int, target: int) -> bool {
    let sf = signum(file_of(target) - file_of(from));
    let sr = signum(rank_of(target) - rank_of(from));
    exists|k: int|
        k >= 1 && ray_clear(b, file_of(from), rank_of(from), sf, sr, k) && #[trigger] step(
            file_of(from),
            sf,
            k,
        ) == file_of(target) && step(rank_of(from), sr, k) == rank_of(target)
}

/// `piece` standing on `from` attacks `target` on board `b`.
pub open spec fn attacks_spec(b: Seq<i8>, from: int, target: int, piece: int) -> bool {
    let k = abs_of(piece);
    pattern_covers(from, target, piece) && ((k != BISHOP && k != ROOK && k != QUEEN)
        || path_reaches(b, from, target))
}

/// Whether `piece` on `from` attacks `target` on `board`.
pub fn piece_attacks_square(board: &[i8; 64], from: u8, target: u8, piece: i8) -> (r: bool)
    requires
        from < 64,
        target < 64,
        -6 <= piece <= 6,
    ensures
        r == attacks_spec(board@, from as int, target as int, piece as int),
{
    let ghost b = board@;
    let df = file(target) - file(from);
    let dr = rank(target) - rank(from);
    let adf = if df < 0 {
        -df
    } else {
        df
    };
    let adr = if dr < 0 {
        -dr
    } else {
        dr
    };
    let k = kind(piece);
    let attacks = if k == PAWN {
        dr == color(piece) && adf == 1
    } else if k == KNIGHT {
        (adf == 1 && adr == 2) || (adf == 2 && adr == 1)
    } else if k == BISHOP {
        adf == adr
    } else if k == ROOK {
        df == 0 || dr == 0
    } else if k == QUEEN {
        df == 0 || dr == 0 || adf == adr
    } else if k == KING {
        (if adf > adr {
            adf
        } else {
            adr
        }) == 1
    } else {
        false
    };
    assert(attacks == pattern_covers(from as int, target as int, piece as int));
    if !attacks || !(k == BISHOP || k == ROOK || k == QUEEN) {
        return attacks;
    }
    let sf: i8 = if df > 0 {
        1
    } else if df < 0 {
        -1
    } else {
        0
    };
    let sr: i8 = if dr > 0 {
        1
    } else if dr < 0 {
        -1
    } else {
        0
    };
    let ff = file(from);
    let fr = rank(from);
    let tf = file(target);
    let tr = rank(target);
    let mut f = ff + sf;
    let mut r = fr + sr;
    let ghost mut kk: int = 1;
    loop
        invariant
            b == board@,
            0 <= ff < 8,
            0 <= fr < 8,
            0 <= tf < 8,
            0 <= tr < 8,
            ff == file_of(from as int),
            fr == rank_of(from as int),
            tf == file_of(target as int),
            tr == rank_of(target as int),
            sf == signum(tf - ff),
            sr == signum(tr - fr),
            pattern_covers(from as int, target as int, piece as int),
            k == abs_of(piece as int),
            k == BISHOP || k == ROOK || k == QUEEN,
            from < 64,
            target < 64,
            1 <= kk <= 8,
            f == step(ff as int, sf as int, kk),
            r == step(fr as int, sr as int, kk),
            ray_clear(b, ff as int, fr as int, sf as int, sr as int, kk),
            forall|j: int|
                1 <= j < kk ==> !(#[trigger] step(ff as int, sf as int, j) == tf && step(
                    fr as int,
                    sr as int,
                    j,
                ) == tr),
        decreases 9 - kk,
    {
        match square(f, r) {
            None => {
                proof {
                    if path_reaches(b, from as int, target as int) {
                        let k2 = choose|k2: int|
                            k2 >= 1 && ray_clear(b, ff as int, fr as int, sf as int, sr as int, k2)
                                && #[trigger] step(ff as int, sf as int, k2) == tf && step(
                                fr as int,
                                sr as int,
                                k2,
                            ) == tr;
                        if k2 > kk {
                            assert(ray_empty_at(b, ff as int, fr as int, sf as int, sr as int, kk));
                        }
                    }
                }
                return false;
            },
            Some(sq) => {
                if sq == target {
                    proof {
                        assert(f == tf && r == tr);
                        assert(path_reaches(b, from as int, target as int)) by {
                            assert(step(ff as int, sf as int, kk) == tf);
                        }
                    }
                    return true;
                }
                if board[sq as usize] != EMPTY {
                    proof {
                        if path_reaches(b, from as int, target as int) {
                            let k2 = choose|k2: int|
                                k2 >= 1 && ray_clear(b, ff as int, fr as int, sf as int, sr as int, k2)
                                    && #[trigger] step(ff as int, sf as int, k2) == tf && step(
                                    fr as int,
                                    sr as int,
                                    k2,
                                ) == tr;
                            if k2 > kk {
                                assert(ray_empty_at(b, ff as int, fr as int, sf as int, sr as int, kk));
                            }
                        }
                    }
                    return false;
                }
                proof {
                    assert(ray_empty_at(b, ff as int, fr as int, sf as int, sr as int, kk));
                    assert forall|j: int| 1 <= j < kk + 1 implies #[trigger] ray_empty_at(
                        b,
                        ff as int,
                        fr as int,
                        sf as int,
                        sr as int,
                        j,
                    ) by {
                        if j < kk {
                            assert(ray_empty_at(b, ff as int, fr as int, sf as int, sr as int, j));
                        }
                    }
                    kk = kk + 1;
                }
                f = f + sf;
                r = r + sr;
            },
        }
    }
}

/// The piece kind that lands on `target` when the piece on `sq` captures there: pawns
/// reaching the last rank become queens.
pub open spec fn landing_kind(b: Seq<i8>, sq: int, target: int) -> int {
    let k = abs_of(b[sq] as int);
    if k == PAWN && (rank_of(target) == 0 || rank_of(target) == 7) {
        QUEEN as int
    } else {
        k
    }
}

/// The board after the piece on `sq` (of colour `side`) captures on `target`.
pub open spec fn capture_board(b: Seq<i8>, sq: int, target: int, side: int) -> Seq<i8> {
    b.update(sq, 0).update(target, (side * landing_kind(b, sq, target)) as i8)
}

/// The capturing side's king square after the capture.
pub open spec fn king_after_capture(b: Seq<i8>, sq: int, target: int, side: int, kings: (int, int)) -> int {
    if abs_of(b[sq] as int) == KING {
        target
    } else if side == 1 {
        kings.0
    } else {
        kings.1
    }
}

/// The piece of `side` on `sq` can capture on `target` without exposing its king.
pub open spec fn legal_recapture(b: Seq<i8>, sq: int, target: int, side: int, kings: (int, int)) -> bool {
    &&& sign_of(b[sq] as int) == side
    &&& attacks_spec(b, sq, target, b[sq] as int)
    &&& !attacked(
        capture_board(b, sq, target, side),
        king_after_capture(b, sq, target, side, kings),
        -side,
    )
}

pub open spec fn recapture_value(b: Seq<i8>, sq: int) -> int {
    piece_value_spec(abs_of(b[sq] as int))
}

/// The cheapest legal recapture on `target` for `side`, the first in square order among equals.
pub fn least_legal_attacker(board: &[i8; 64], target: u8, side: i8, king_sq: [u8; 2]) -> (r: Option<(u8, i8)>)
    requires
        board_ok(board@),
        target < 64,
        side == 1 || side == -1,
        king_sq[0] < 64,
        king_sq[1] < 64,
    ensures
        r is None <==> forall|s: int|
            0 <= s < 64 ==> !#[trigger] legal_recapture(
                board@,
                s,
                target as int,
                side as int,
                (king_sq[0] as int, king_sq[1] as int),
            ),
        r matches Some((sq, k)) ==> {
            &&& sq < 64
            &&& legal_recapture(board@, sq as int, target as int, side as int, (king_sq[0] as int, king_sq[1] as int))
            &&& k == abs_of(board@[sq as int] as int)
            &&& forall|s: int|
                0 <= s < 64 && #[trigger] legal_recapture(
                    board@,
                    s,
                    target as int,
                    side as int,
                    (king_sq[0] as int, king_sq[1] as int),
                ) ==> recapture_value(board@, sq as int) <= recapture_value(board@, s)
            &&& forall|s: int|
                0 <= s < sq && #[trigger] legal_recapture(
                    board@,
                    s,
                    target as int,
                    side as int,
                    (king_sq[0] as int, king_sq[1] as int),
                ) ==> recapture_value(board@, sq as int) < recapture_value(board@, s)
        },
{
    let ghost b = board@;
    let ghost kings = (king_sq[0] as int, king_sq[1] as int);
    let side_index: usize = if side == WHITE {
        0
    } else {
        1
    };
    let mut best: Option<(u8, i8)> = None;
    let mut best_value: i32 = i32::MAX;
    for sq in 0..64u8
        invariant
            b == board@,
            board_ok(b),
            target < 64,
            side == 1 || side == -1,
            king_sq[0] < 64,
            king_sq[1] < 64,
            kings == (king_sq[0] as int, king_sq[1] as int),
            side_index == (if side == 1 { 0usize } else { 1usize }),
            best is None ==> best_value == i32::MAX && forall|s: int|
                0 <= s < sq ==> !#[trigger] legal_recapture(b, s, target as int, side as int, kings),
            best matches Some((bs, bk)) ==> {
                &&& bs < sq
                &&& legal_recapture(b, bs as int, target as int, side as int, kings)
                &&& bk == abs_of(b[bs as int] as int)
                &&& best_value == recapture_value(b, bs as int)
                &&& forall|s: int|
                    0 <= s < sq && #[trigger] legal_recapture(b, s, target as int, side as int, kings)
                        ==> recapture_value(b, bs as int) <= recapture_value(b, s)
                &&& forall|s: int|
                    0 <= s < bs && #[trigger] legal_recapture(b, s, target as int, side as int, kings)
                        ==> recapture_value(b, bs as int) < recapture_value(b, s)
            },
    {
        let piece = board[sq as usize];
        if color(piece) == side && piece_attacks_square(board, sq, target, piece) {
            let attacker = kind(piece);
            let value = piece_value(attacker);
            assert(recapture_value(b, sq as int) == value);
            if value < best_value {
                let placed = if attacker == PAWN && (rank(target) == 0 || rank(target) == 7) {
                    QUEEN
                } else {
                    attacker
                };
                let mut test = *board;
                test[sq as usize] = EMPTY;
                test[target as usize] = if side == WHITE {
                    placed
                } else {
                    -placed
                };
                assert(test@ =~= capture_board(b, sq as int, target as int, side as int));
                let king = if attacker == KING {
                    target
                } else {
                    king_sq[side_index]
                };
                if !is_attacked_on(&test, king, -side) {
                    best = Some((sq, attacker));
                    best_value = value;
                }
            }
        }
    }
    best
}

/// The first square in order holding a cheapest legal recapture on `to` for `side`.
pub open spec fn is_cheapest(b: Seq<i8>, to: int, side: int, kings: (int, int), sq: int) -> bool {
    &&& 0 <= sq < 64
    &&& legal_recapture(b, sq, to, side, kings)
    &&& forall|s: int|
        0 <= s < 64 && #[trigger] legal_recapture(b, s, to, side, kings) ==> recapture_value(b, sq)
            <= recapture_value(b, s)
    &&& forall|s: int|
        0 <= s < sq && #[trigger] legal_recapture(b, s, to, side, kings) ==> recapture_value(b, sq)
            < recapture_value(b, s)
}

pub open spec fn cheapest(b: Seq<i8>, to: int, side: int, kings: (int, int)) -> Option<int> {
    if exists|sq: int| is_cheapest(b, to, side, kings, sq) {
        Some(choose|sq: int| is_cheapest(b, to, side, kings, sq))
    } else {
        None
    }
}

proof fn lemma_cheapest_unique(b: Seq<i8>, to: int, side: int, kings: (int, int), sq: int)
    requires
        is_cheapest(b, to, side, kings, sq),
    ensures
        cheapest(b, to, side, kings) == Some(sq),
{
    let c = choose|s: int| is_cheapest(b, to, side, kings, s);
    assert(is_cheapest(b, to, side, kings, c));
    if c < sq {
        assert(legal_recapture(b, c, to, side, kings));
    } else if c > sq {
        assert(legal_recapture(b, sq, to, side, kings));
    }
}

pub open spec fn min_int(a: int, b: int) -> int {
    if a < b {
        a
    } else {
        b
    }
}

/// The exchange on `to` from the point where `side` may recapture the `victim` standing
/// there, `g` being the balance so far (for the side that made the last capture) after `d`
/// captures: each side recaptures with its cheapest legal piece or stops, whichever is better
/// for it, for at most 30 captures; a king capture ends the exchange.
pub open spec fn exchange(b: Seq<i8>, to: int, side: int, kings: (int, int), victim: int, g: int, d: int) -> int
    decreases 30 - d,
{
    if d >= 30 {
        g
    } else {
        match cheapest(b, to, side, kings) {
            None => g,
            Some(sq) => {
                let att = abs_of(b[sq] as int);
                let promotes = att == PAWN && (rank_of(to) == 0 || rank_of(to) == 7);
                let g2 = piece_value_spec(victim) - g + if promotes {
                    850int
                } else {
                    0
                };
                let placed = if promotes {
                    QUEEN as int
                } else {
                    att
                };
                let b2 = capture_board(b, sq, to, side);
                let kings2 = if att == KING {
                    if side == 1 {
                        (to, kings.1)
                    } else {
                        (kings.0, to)
                    }
                } else {
                    kings
                };
                let x = if att == KING {
                    g2
                } else {
                    exchange(b2, to, -side, kings2, placed, g2, d + 1)
                };
                min_int(g, -x)
            },
        }
    }
}

proof fn lemma_exchange_bound(
    b: Seq<i8>,
    to: int,
    side: int,
    kings: (int, int),
    victim: int,
    g: int,
    d: int,
)
    requires
        0 <= d <= 30,
    ensures
        -(abs_of(g) + 20850 * (30 - d)) <= exchange(b, to, side, kings, victim, g, d) <= abs_of(g),
    decreases 30 - d,
{
    if d < 30 {
        match cheapest(b, to, side, kings) {
            None => {},
            Some(sq) => {
                let att = abs_of(b[sq] as int);
                let promotes = att == PAWN && (rank_of(to) == 0 || rank_of(to) == 7);
                let g2 = piece_value_spec(victim) - g + if promotes {
                    850int
                } else {
                    0
                };
                let placed = if promotes {
                    QUEEN as int
                } else {
                    att
                };
                let b2 = capture_board(b, sq, to, side);
                let kings2 = if att == KING {
                    if side == 1 {
                        (to, kings.1)
                    } else {
                        (kings.0, to)
                    }
                } else {
                    kings
                };
                assert(0 <= piece_value_spec(victim) <= 20000);
                if att != KING {
                    lemma_exchange_bound(b2, to, -side, kings2, placed, g2, d + 1);
                }
            },
        }
    }
}

/// The exchange value of a move stays within the value of the pieces that can change hands.
pub proof fn lemma_see_bound(p: PositionModel, mv: u32)
    ensures
        -700_000 <= see_spec(p, mv) <= 700_000,
{
    if mv & FLAG_CAPTURE != 0 {
        let from = move_from_spec(mv);
        let to = move_to_spec(mv);
        let b = p.board;
        let side = p.side;
        let captured = if mv & FLAG_EP != 0 {
            PAWN as int
        } else {
            abs_of(b[to] as int)
        };
        let placed = if mv & FLAG_PROMO != 0 {
            move_promo_spec(mv)
        } else {
            abs_of(b[from] as int)
        };
        let b1 = b.update(from, 0);
        let b2 = if mv & FLAG_EP != 0 {
            b1.update(to - side * 8, 0)
        } else {
            b1
        };
        let b3 = b2.update(to, (side * placed) as i8);
        let kings = if placed == KING {
            if side == 1 {
                (to, p.black_king)
            } else {
                (p.white_king, to)
            }
        } else {
            (p.white_king, p.black_king)
        };
        let g0 = piece_value_spec(captured) + if mv & FLAG_PROMO != 0 {
            piece_value_spec(placed) - 100
        } else {
            0
        };
        assert(0 <= piece_value_spec(captured) <= 20000);
        assert(0 <= piece_value_spec(placed) <= 20000);
        lemma_exchange_bound(b3, to, -side, kings, placed, g0, 0);
    }
}

/// Folds the balances `gs[0..d]` back onto the outcome `x` at depth `d`.
pub open spec fn unwind(gs: Seq<i32>, d: int, x: int) -> int
    decreases d,
{
    if d <= 0 {
        x
    } else {
        unwind(gs, d - 1, min_int(gs[d - 1] as int, -x))
    }
}

proof fn lemma_unwind_prefix(gs: Seq<i32>, gs2: Seq<i32>, d: int, x: int)
    requires
        gs.len() >= d,
        gs2.len() >= d,
        forall|i: int| 0 <= i < d ==> gs[i] == gs2[i],
    ensures
        unwind(gs, d, x) == unwind(gs2, d, x),
    decreases d,
{
    if d > 0 {
        lemma_unwind_prefix(gs, gs2, d - 1, min_int(gs[d - 1] as int, -x));
    }
}

/// Static exchange evaluation of a capture: the material balance for the mover when both
/// sides keep recapturing on the destination with their cheapest legal piece while it pays.
/// Non-captures are worth 0.
pub open spec fn see_spec(p: PositionModel, mv: u32) -> int {
    if mv & FLAG_CAPTURE == 0 {
        0
    } else {
        let from = move_from_spec(mv);
        let to = move_to_spec(mv);
        let b = p.board;
        let side = p.side;
        let captured = if mv & FLAG_EP != 0 {
            PAWN as int
        } else {
            abs_of(b[to] as int)
        };
        let placed = if mv & FLAG_PROMO != 0 {
            move_promo_spec(mv)
        } else {
            abs_of(b[from] as int)
        };
        let b1 = b.update(from, 0);
        let b2 = if mv & FLAG_EP != 0 {
            b1.update(to - side * 8, 0)
        } else {
            b1
        };
        let b3 = b2.update(to, (side * placed) as i8);
        let kings = if placed == KING {
            if side == 1 {
                (to, p.black_king)
            } else {
                (p.white_king, to)
            }
        } else {
            (p.white_king, p.black_king)
        };
        let g0 = piece_value_spec(captured) + if mv & FLAG_PROMO != 0 {
            piece_value_spec(placed) - 100
        } else {
            0
        };
        exchange(b3, to, -side, kings, placed, g0, 0)
    }
}

/// Static exchange evaluation of `mv` (0 for non-captures).
#[verifier::rlimit(50)]
pub fn see(pos: &Position, mv: u32) -> (v: i32)
    requires
        pos@.layout_ok(),
        pos@.move_ok(mv),
    ensures
        v == see_spec(pos@, mv),
{
    if mv & FLAG_CAPTURE == 0 {
        return 0;
    }
    let ghost p = pos@;
    let from = move_from(mv);
    let to = move_to(mv);
    let side0 = pos.side;
    proof {
        if mv & FLAG_EP != 0 {
            assert(ep_ok(p.ep, p.side));
        }
    }
    let captured = if mv & FLAG_EP != 0 {
        PAWN
    } else {
        kind(pos.board[to as usize])
    };
    let mut board = pos.board;
    board[from as usize] = 0;
    if mv & FLAG_EP != 0 {
        board[(to as i16 - side0 as i16 * 8) as usize] = 0;
    }
    let placed = if mv & FLAG_PROMO != 0 {
        move_promo(mv)
    } else {
        kind(pos.board[from as usize])
    };
    board[to as usize] = if side0 == WHITE {
        placed
    } else {
        -placed
    };
    let mut king_sq = pos.king_sq;
    if placed == KING {
        king_sq[if side0 == WHITE {
            0
        } else {
            1
        }] = to;
    }
    let mut gain = [0i32; 32];
    gain[0] = piece_value(captured) + if mv & FLAG_PROMO != 0 {
        piece_value(placed) - piece_value(PAWN)
    } else {
        0
    };
    let mut side = -side0;
    let mut victim = placed;
    let mut depth: usize = 0;
    let mut done = false;
    proof {
        let b1 = p.board.update(from as int, 0);
        let b2 = if mv & FLAG_EP != 0 {
            b1.update(to - side0 * 8, 0)
        } else {
            b1
        };
        assert(board@ =~= b2.update(to as int, (side0 * placed) as i8));
    }
    while depth < 30 && !done
        invariant
            0 <= depth <= 30,
            to < 64,
            board_ok(board@),
            side == 1 || side == -1,
            king_sq[0] < 64,
            king_sq[1] < 64,
            0 <= victim <= 6,
            gain@.len() == 32,
            forall|j: int| 0 <= j <= depth ==> -21000 * (j + 1) <= #[trigger] gain@[j] <= 21000 * (j + 1),
            done ==> see_spec(p, mv) == unwind(gain@, depth as int, gain@[depth as int] as int),
            !done ==> see_spec(p, mv) == unwind(
                gain@,
                depth as int,
                exchange(
                    board@,
                    to as int,
                    side as int,
                    (king_sq[0] as int, king_sq[1] as int),
                    victim as int,
                    gain@[depth as int] as int,
                    depth as int,
                ),
            ),
        decreases 30 - depth + if done { 0int } else { 1 },
    {
        let ghost state_b = board@;
        let ghost kings = (king_sq[0] as int, king_sq[1] as int);
        match least_legal_attacker(&board, to, side, king_sq) {
            None => {
                proof {
                    if exists|sq: int| is_cheapest(state_b, to as int, side as int, kings, sq) {
                        let sq = choose|sq: int| is_cheapest(state_b, to as int, side as int, kings, sq);
                        assert(legal_recapture(state_b, sq, to as int, side as int, kings));
                    }
                }
                done = true;
            },
            Some((sq, attacker)) => {
                proof {
                    lemma_cheapest_unique(state_b, to as int, side as int, kings, sq as int);
                }
                let ghost old_gain = gain@;
                let ghost e_old = exchange(state_b, to as int, side as int, kings, victim as int, gain@[depth as int] as int, depth as int);
                depth = depth + 1;
                let promotes = attacker == PAWN && (rank(to) == 0 || rank(to) == 7);
                gain[depth] = piece_value(victim) - gain[depth - 1] + if promotes {
                    piece_value(QUEEN) - piece_value(PAWN)
                } else {
                    0
                };
                board[sq as usize] = 0;
                let placed_attacker = if promotes {
                    QUEEN
                } else {
                    attacker
                };
                board[to as usize] = if side == WHITE {
                    placed_attacker
                } else {
                    -placed_attacker
                };
                assert(board@ =~= capture_board(state_b, sq as int, to as int, side as int));
                let side_index: usize = if side == WHITE {
                    0
                } else {
                    1
                };
                if attacker == KING {
                    king_sq[side_index] = to;
                }
                victim = placed_attacker;
                side = -side;
                if attacker == KING {
                    done = true;
                }
                proof {
                    lemma_unwind_prefix(old_gain, gain@, (depth - 1) as int, min_int(old_gain[depth - 1] as int, -(gain@[depth as int] as int)));
                    if attacker != KING {
                        lemma_unwind_prefix(old_gain, gain@, (depth - 1) as int, e_old);
                    }
                }
            },
        }
    }
    while depth > 0
        invariant
            0 <= depth <= 30,
            gain@.len() == 32,
            forall|j: int| 0 <= j <= depth ==> -21000 * 31 <= #[trigger] gain@[j] <= 21000 * 31,
            see_spec(p, mv) == unwind(gain@, depth as int, gain@[depth as int] as int),
        decreases depth,
    {
        let ghost old_gain = gain@;
        depth = depth - 1;
        let a = -gain[depth];
        let bb = gain[depth + 1];
        gain[depth] = -(if a > bb {
            a
        } else {
            bb
        });
        proof {
            lemma_unwind_prefix(old_gain, gain@, depth as int, gain@[depth as int] as int);
        }
    }
    gain[0]
}

} // verus!
