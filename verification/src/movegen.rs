//! Move generation.

use vstd::prelude::*;
use crate::board::{
    lemma_decode_encode, move_from, move_promo, move_to, abs_of, color, encode_move, lemma_flag_values, lemma_recompose, encoded, file, file_of, kind, move_from_spec, move_promo_spec,
    move_to_spec, rank, rank_of, sign_of, square, square_at, BISHOP, BLACK, EMPTY,
    FLAG_CAPTURE, FLAG_CASTLE, FLAG_DOUBLE, FLAG_EP, FLAG_PROMO, KING, KNIGHT, PAWN, QUEEN, ROOK,
    WHITE,
};
use crate::attacks::{
    attacked, bishop_dir, bishop_step, king_delta, king_step, knight_delta, knight_step,
    ray_clear, ray_empty_at, rook_dir, rook_step, step, is_attacked_on, lemma_attacked_same,
    lemma_attacked_after_adding, lemma_attacked_kept_after_adding, ray_hits, ray_hits_beyond,
};
use crate::position::{
    castle_rook_from, castle_rook_to, ep_capturer_of, ep_file_of, kings_unique,
    lemma_unmake_undoes_make, Position, PositionModel,
};

verus! {

broadcast use vstd::seq_lib::group_seq_properties;

/// A list of moves with their ordering scores.
pub struct MoveList {
    pub moves: Vec<u32>,
    pub scores: Vec<i32>,
    pub see_scores: Vec<i16>,
}

/// The position of the first highest score among `scores[from..upto]` (`from` when the range
/// holds only it).
pub open spec fn best_upto(scores: Seq<i32>, from: int, upto: int) -> int
    decreases upto - from,
{
    if upto <= from + 1 {
        from
    } else {
        let b = best_upto(scores, from, upto - 1);
        if scores[upto - 1] > scores[b] {
            upto - 1
        } else {
            b
        }
    }
}

impl MoveList {
    pub open spec fn wf(&self) -> bool {
        self.scores.len() == self.moves.len() && self.see_scores.len() == self.moves.len()
    }

    pub fn new() -> (l: MoveList)
        ensures
            l.wf(),
            l.moves@ == Seq::<u32>::empty(),
    {
        MoveList { moves: Vec::new(), scores: Vec::new(), see_scores: Vec::new() }
    }

    pub fn push(&mut self, mv: u32)
        requires
            old(self).wf(),
        ensures
            final(self).wf(),
            final(self).moves@ == old(self).moves@.push(mv),
    {
        self.moves.push(mv);
        self.scores.push(0);
        self.see_scores.push(0);
    }

    pub fn len(&self) -> (n: usize)
        ensures
            n == self.moves@.len(),
    {
        self.moves.len()
    }

    /// Moves the first best-scored move from position `index` on to position `index`, by
    /// exchanging the two, and returns it (one step of selection sort).
    pub fn pick(&mut self, index: usize) -> (mv: u32)
        requires
            old(self).wf(),
            index < old(self).moves@.len(),
        ensures
            final(self).wf(),
            ({
                let b = best_upto(old(self).scores@, index as int, old(self).moves@.len() as int);
                &&& index <= b < old(self).moves@.len()
                &&& mv == old(self).moves@[b]
                &&& final(self).moves@ == old(self).moves@.update(index as int, old(self).moves@[b]).update(
                    b,
                    old(self).moves@[index as int],
                )
                &&& final(self).scores@ == old(self).scores@.update(index as int, old(self).scores@[b]).update(
                    b,
                    old(self).scores@[index as int],
                )
                &&& final(self).see_scores@ == old(self).see_scores@.update(
                    index as int,
                    old(self).see_scores@[b],
                ).update(b, old(self).see_scores@[index as int])
            }),
            forall|m: u32| #[trigger] final(self).moves@.contains(m) <==> old(self).moves@.contains(m),
    {
        let n = self.moves.len();
        let mut best = index;
        let mut i = index + 1;
        while i < n
            invariant
                self.wf(),
                n == self.moves@.len(),
                index < i <= n,
                index <= best < n,
                best == best_upto(self.scores@, index as int, i as int),
            decreases n - i,
        {
            if self.scores[i] > self.scores[best] {
                best = i;
            }
            i = i + 1;
        }
        let ghost m0 = self.moves@;
        let mi = self.moves[index];
        let mb = self.moves[best];
        self.moves.set(index, mb);
        self.moves.set(best, mi);
        let si = self.scores[index];
        let sb = self.scores[best];
        self.scores.set(index, sb);
        self.scores.set(best, si);
        let ei = self.see_scores[index];
        let eb = self.see_scores[best];
        self.see_scores.set(index, eb);
        self.see_scores.set(best, ei);
        proof {
            assert forall|m: u32| #[trigger] self.moves@.contains(m) <==> m0.contains(m) by {
                if self.moves@.contains(m) {
                    let j = choose|j: int| 0 <= j < self.moves@.len() && self.moves@[j] == m;
                    if j == index as int {
                        assert(m0[best as int] == m);
                    } else if j == best as int {
                        assert(m0[index as int] == m);
                    } else {
                        assert(m0[j] == m);
                    }
                }
                if m0.contains(m) {
                    let j = choose|j: int| 0 <= j < m0.len() && m0[j] == m;
                    if j == index as int {
                        assert(self.moves@[best as int] == m);
                    } else if j == best as int {
                        assert(self.moves@[index as int] == m);
                    } else {
                        assert(self.moves@[j] == m);
                    }
                }
            }
        }
        mb
    }

    /// Empties the list.
    pub fn clear(&mut self)
        ensures
            final(self).wf(),
            final(self).moves@ == Seq::<u32>::empty(),
    {
        self.moves = Vec::new();
        self.scores = Vec::new();
        self.see_scores = Vec::new();
    }
}

/// A kind a pawn may promote to.
pub open spec fn promo_kind(k: int) -> bool {
    k == QUEEN || k == ROOK || k == BISHOP || k == KNIGHT
}

/// A piece of the opponent of `side` that may be captured (kings are never captured).
pub open spec fn capturable(target: int, side: int) -> bool {
    sign_of(target) == -side && abs_of(target) != KING
}

pub open spec fn promotion_rank(side: int) -> int {
    if side == 1 {
        7
    } else {
        0
    }
}

pub open spec fn pawn_start_rank(side: int) -> int {
    if side == 1 {
        1
    } else {
        6
    }
}

/// A pawn push of one square (promoting on the last rank).
pub open spec fn pawn_push(p: PositionModel, from: int, to: int, promo: int, flags: u32, t: bool) -> bool {
    let s = p.side;
    square_at(file_of(from), rank_of(from) + s) == Some(to) && p.board[to] == 0 && if rank_of(to)
        == promotion_rank(s) {
        promo_kind(promo) && flags == FLAG_PROMO
    } else {
        !t && promo == 0 && flags == 0
    }
}

/// A pawn's double step from its starting rank over an empty square.
pub open spec fn pawn_double(p: PositionModel, from: int, to: int, promo: int, flags: u32, t: bool) -> bool {
    let s = p.side;
    let ff = file_of(from);
    let fr = rank_of(from);
    !t && fr == pawn_start_rank(s) && (square_at(ff, fr + s) matches Some(mid) && p.board[mid] == 0)
        && square_at(ff, fr + 2 * s) == Some(to) && p.board[to] == 0 && promo == 0 && flags
        == FLAG_DOUBLE
}

/// A diagonal pawn capture towards file offset `df`, including en passant.
pub open spec fn pawn_side(p: PositionModel, from: int, df: int, to: int, promo: int, flags: u32) -> bool {
    let s = p.side;
    let b = p.board;
    square_at(file_of(from) + df, rank_of(from) + s) == Some(to) && ((capturable(b[to] as int, s)
        && if rank_of(to) == promotion_rank(s) {
        promo_kind(promo) && flags == FLAG_CAPTURE | FLAG_PROMO
    } else {
        promo == 0 && flags == FLAG_CAPTURE
    }) || (p.ep == to && b[to] == 0 && b[to - 8 * s] == -s * PAWN && promo == 0 && flags
        == FLAG_CAPTURE | FLAG_EP))
}

/// Pawn moves: pushes (with promotions), double pushes, captures and en passant.
pub open spec fn pawn_move(p: PositionModel, from: int, to: int, promo: int, flags: u32, t: bool) -> bool {
    ||| pawn_push(p, from, to, promo, flags, t)
    ||| pawn_double(p, from, to, promo, flags, t)
    ||| pawn_side(p, from, -1, to, promo, flags)
    ||| pawn_side(p, from, 1, to, promo, flags)
}

/// A single step onto an empty square (quiet, unless only tactical moves are wanted) or a capture.
pub open spec fn step_target(p: PositionModel, to: int, promo: int, flags: u32, t: bool) -> bool {
    promo == 0 && ((capturable(p.board[to] as int, p.side) && flags == FLAG_CAPTURE) || (p.board[to]
        == 0 && !t && flags == 0))
}

/// Offset `i` of a knight jump (`knight`) or a king step.
pub open spec fn step_delta(knight: bool, i: int) -> (int, int) {
    if knight {
        knight_delta(i)
    } else {
        king_delta(i)
    }
}

/// The single-step move along offset `i` from `from` to `to` is available.
pub open spec fn step_at(p: PositionModel, from: int, i: int, to: int, promo: int, flags: u32, t: bool, knight: bool) -> bool {
    square_at(file_of(from) + step_delta(knight, i).0, rank_of(from) + step_delta(knight, i).1)
        == Some(to) && step_target(p, to, promo, flags, t)
}

pub open spec fn step_move(p: PositionModel, from: int, to: int, promo: int, flags: u32, t: bool, knight: bool) -> bool {
    exists|i: int| 0 <= i < 8 && #[trigger] step_at(p, from, i, to, promo, flags, t, knight)
}

pub open spec fn knight_move(p: PositionModel, from: int, to: int, promo: int, flags: u32, t: bool) -> bool {
    step_move(p, from, to, promo, flags, t, true)
}

pub open spec fn king_step_move(p: PositionModel, from: int, to: int, promo: int, flags: u32, t: bool) -> bool {
    step_move(p, from, to, promo, flags, t, false)
}

/// `mv` is a well-formed move value starting on `from`.
pub open spec fn starts_at(mv: u32, from: int) -> bool {
    mv < 0x100000 && move_from_spec(mv) == from
}

/// Direction `i` of a sliding piece of kind `k` (queens use the eight king directions).
pub open spec fn slide_dir(k: int, i: int) -> (int, int) {
    if k == BISHOP {
        bishop_dir(i)
    } else if k == ROOK {
        rook_dir(i)
    } else {
        king_delta(i)
    }
}

pub open spec fn slide_dir_count(k: int) -> int {
    if k == QUEEN {
        8
    } else {
        4
    }
}

/// A slide along direction `i` over empty squares to a free or capturable square.
pub open spec fn slide_along(p: PositionModel, from: int, i: int, k: int, to: int, promo: int, flags: u32, t: bool) -> bool {
    let kind = abs_of(p.board[from] as int);
    let (df, dr) = slide_dir(kind, i);
    k >= 1 && ray_clear(p.board, file_of(from), rank_of(from), df, dr, k) && square_at(
        step(file_of(from), df, k),
        step(rank_of(from), dr, k),
    ) == Some(to) && step_target(p, to, promo, flags, t)
}

pub open spec fn slide_move(p: PositionModel, from: int, to: int, promo: int, flags: u32, t: bool) -> bool {
    exists|i: int, k: int|
        0 <= i < slide_dir_count(abs_of(p.board[from] as int)) && #[trigger] slide_along(
            p,
            from,
            i,
            k,
            to,
            promo,
            flags,
            t,
        )
}

/// Castling: rights held, king not in check, path empty and not attacked, rook at home.
pub open spec fn castle_move(p: PositionModel, from: int, to: int, promo: int, flags: u32, t: bool) -> bool {
    let b = p.board;
    let s = p.side;
    &&& !t && promo == 0 && flags == FLAG_CASTLE
    &&& !p.in_check(s)
    &&& if s == 1 {
        from == 4 && ((to == 6 && p.castle as u8 & 1u8 != 0 && b[5] == 0 && b[6] == 0 && b[7]
            == ROOK && !attacked(b, 5, -1) && !attacked(b, 6, -1)) || (to == 2 && p.castle as u8
            & 2u8 != 0 && b[3] == 0 && b[2] == 0 && b[1] == 0 && b[0] == ROOK && !attacked(b, 3, -1)
            && !attacked(b, 2, -1)))
    } else {
        from == 60 && ((to == 62 && p.castle as u8 & 4u8 != 0 && b[61] == 0 && b[62] == 0 && b[63]
            == -ROOK && !attacked(b, 61, 1) && !attacked(b, 62, 1)) || (to == 58 && p.castle as u8
            & 8u8 != 0 && b[59] == 0 && b[58] == 0 && b[57] == 0 && b[56] == -ROOK && !attacked(
            b,
            59,
            1,
        ) && !attacked(b, 58, 1)))
    }
}

/// A pseudo-legal move of the side to move (legal except possibly for leaving its own king
/// attacked). With `t` set only captures, promotions and en-passant captures count.
pub open spec fn pseudo_move(p: PositionModel, mv: u32, t: bool) -> bool {
    let from = move_from_spec(mv);
    let to = move_to_spec(mv);
    let promo = move_promo_spec(mv);
    let flags = mv & 0xf8000u32;
    let piece = p.board[from] as int;
    let k = abs_of(piece);
    &&& mv < 0x100000
    &&& sign_of(piece) == p.side
    &&& if k == PAWN {
        pawn_move(p, from, to, promo, flags, t)
    } else if k == KNIGHT {
        knight_move(p, from, to, promo, flags, t)
    } else if k == BISHOP || k == ROOK || k == QUEEN {
        slide_move(p, from, to, promo, flags, t)
    } else if k == KING {
        king_step_move(p, from, to, promo, flags, t) || castle_move(p, from, to, promo, flags, t)
    } else {
        false
    }
}

proof fn lemma_flag_bits(mv: u32)
    ensures
        mv & FLAG_EP == (mv & 0xf8000u32) & FLAG_EP,
        mv & FLAG_PROMO == (mv & 0xf8000u32) & FLAG_PROMO,
        mv & FLAG_CASTLE == (mv & 0xf8000u32) & FLAG_CASTLE,
        mv & FLAG_DOUBLE == (mv & 0xf8000u32) & FLAG_DOUBLE,
        mv & FLAG_CAPTURE == (mv & 0xf8000u32) & FLAG_CAPTURE,
{
    assert(mv & 0x10000u32 == (mv & 0xf8000u32) & 0x10000u32) by (bit_vector);
    assert(mv & 0x80000u32 == (mv & 0xf8000u32) & 0x80000u32) by (bit_vector);
    assert(mv & 0x20000u32 == (mv & 0xf8000u32) & 0x20000u32) by (bit_vector);
    assert(mv & 0x40000u32 == (mv & 0xf8000u32) & 0x40000u32) by (bit_vector);
    assert(mv & 0x8000u32 == (mv & 0xf8000u32) & 0x8000u32) by (bit_vector);
}

/// Every pseudo-legal move meets the conditions under which `make_move` applies it.
pub proof fn lemma_pseudo_move_ok(p: PositionModel, mv: u32, t: bool)
    requires
        p.layout_ok(),
        pseudo_move(p, mv, t),
    ensures
        p.move_ok(mv),
{
    lemma_flag_values();
    lemma_flag_bits(mv);
    lemma_recompose(mv);
    let from = move_from_spec(mv);
    let to = move_to_spec(mv);
    let promo = move_promo_spec(mv);
    let flags = mv & 0xf8000u32;
    let k = abs_of(p.board[from] as int);
    if k == KNIGHT || k == KING {
        let kn = k == KNIGHT;
        if step_move(p, from, to, promo, flags, t, kn) {
            let i = choose|i: int| 0 <= i < 8 && #[trigger] step_at(p, from, i, to, promo, flags, t, kn);
            assert(step_at(p, from, i, to, promo, flags, t, kn));
        }
    } else if k == BISHOP || k == ROOK || k == QUEEN {
        let (i, kk) = choose|i: int, kk: int|
            0 <= i < slide_dir_count(k) && #[trigger] slide_along(p, from, i, kk, to, promo, flags, t);
        assert(slide_along(p, from, i, kk, to, promo, flags, t));
    }
}

/// The board `move_keeps_king_safe` examines: the mover lifted from `from`, an en-passant
/// victim removed, and the moved (or promoted) piece placed on `to`.
pub open spec fn board_for_safety(p: PositionModel, mv: u32, side: int) -> Seq<i8> {
    let from = move_from_spec(mv);
    let to = move_to_spec(mv);
    let b1 = p.board.update(from, 0);
    let b2 = if mv & FLAG_EP != 0 {
        b1.update(to - side * 8, 0)
    } else {
        b1
    };
    b2.update(
        to,
        if mv & FLAG_PROMO != 0 {
            (side * move_promo_spec(mv)) as i8
        } else {
            p.board[from]
        },
    )
}

/// After the move, the mover's king (possibly the moved piece) is not attacked.
pub open spec fn keeps_king_safe(p: PositionModel, mv: u32, side: int) -> bool {
    let king = if abs_of(p.board[move_from_spec(mv)] as int) == KING {
        move_to_spec(mv)
    } else {
        p.king_square(side)
    };
    !attacked(board_for_safety(p, mv, side), king, -side)
}

/// Seen from the castling king's destination `tf` on rank `r`, no rook or queen of `by` lies past
/// the square beside it in direction `i0` (towards the king's start, two squares away), when
/// the king was not attacked on its start and the board agrees with `pb` beyond the start.
proof fn lemma_castle_line_free(pb: Seq<i8>, c: Seq<i8>, tf: int, r: int, i0: int, by: int)
    requires
        pb.len() == 64,
        c.len() == 64,
        by == 1 || by == -1,
        0 <= r < 8,
        0 <= i0 < 2,
        0 <= tf + 2 * rook_dir(i0).0 < 8,
        c[r * 8 + tf + 2 * rook_dir(i0).0] == 0,
        forall|j: int| #![trigger step(tf, rook_dir(i0).0, j)]
            j >= 3 ==> (square_at(step(tf, rook_dir(i0).0, j), r) matches Some(x) ==> c[x] == pb[x]),
        !attacked(pb, r * 8 + tf + 2 * rook_dir(i0).0, by),
    ensures
        !ray_hits_beyond(c, tf, r, rook_dir(i0).0, rook_dir(i0).1, 1, by * ROOK, by * QUEEN),
{
    let (df, dr) = rook_dir(i0);
    let start = r * 8 + tf + 2 * df;
    if ray_hits_beyond(c, tf, r, df, dr, 1, by * ROOK, by * QUEEN) {
        let k = choose|k: int|
            k > 1 && ray_clear(c, tf, r, df, dr, k) && (#[trigger] square_at(step(tf, df, k), step(r, dr, k))
                matches Some(s) && (c[s] == by * ROOK || c[s] == by * QUEEN));
        assert(dr == 0 && (df == 1 || df == -1));
        assert(step(r, dr, k) == r);
        assert(k >= 3) by {
            if k == 2 {
                assert(step(tf, df, 2) == tf + 2 * df);
                assert(square_at(step(tf, df, 2), step(r, dr, 2)) == Some(start));
                assert(c[start] == 0);
            }
        }
        let sf = start % 8;
        assert(sf == tf + 2 * df && start / 8 == r);
        assert forall|j: int| 1 <= j < k - 2 implies #[trigger] ray_empty_at(pb, sf, r, df, dr, j) by {
            assert(ray_empty_at(c, tf, r, df, dr, j + 2));
            assert(step(tf, df, j + 2) == step(sf, df, j));
            assert(step(r, dr, j + 2) == r && step(r, dr, j) == r);
        }
        assert(step(tf, df, k) == step(sf, df, k - 2));
        assert(step(r, dr, k - 2) == r);
        let hit = square_at(step(tf, df, k), r)->0;
        assert(c[hit] == pb[hit]);
        assert(square_at(step(sf, df, k - 2), step(r, dr, k - 2)) == Some(hit));
        assert(ray_clear(pb, sf, r, df, dr, k - 2));
        assert(ray_hits(pb, sf, r, rook_dir(i0).0, rook_dir(i0).1, by * ROOK, by * QUEEN));
        assert(attacked(pb, start, by));
    }
}

/// Castling: the trial board lacks the rook's move, but the rook's squares lie on the king's
/// rank beside the king, where they can neither shield the king nor open a line to it that did
/// not already pass through the king's (unattacked) starting square.
proof fn lemma_castle_safety_is_check_after(p: PositionModel, mv: u32)
    requires
        p.layout_ok(),
        castle_move(p, move_from_spec(mv), move_to_spec(mv), move_promo_spec(mv), mv & 0xf8000u32, false),
        abs_of(p.board[move_from_spec(mv)] as int) == KING,
        p.king_square(p.side) == move_from_spec(mv),
    ensures
        keeps_king_safe(p, mv, p.side) == !p.after_make(mv).in_check(p.side),
{
    lemma_flag_values();
    lemma_flag_bits(mv);
    let s = p.side;
    let from = move_from_spec(mv);
    let to = move_to_spec(mv);
    let rf = castle_rook_from(mv);
    let rt = castle_rook_to(mv);
    let by = -s;
    let b = board_for_safety(p, mv, s);
    let rook = b[rf];
    let c = b.update(rf, 0);
    let r = rank_of(to);
    let tf = file_of(to);
    assert(b =~= p.board.update(from, 0).update(to, p.board[from]));
    assert(rook == (s * ROOK) as i8);
    assert(c[rt] == 0);
    assert(b =~= c.update(rf, rook));
    assert(p.board_after(mv) =~= c.update(rt, rook));
    assert(sign_of(rook as int) != by);
    lemma_attacked_after_adding(c, rf, rook, to, by);
    lemma_attacked_after_adding(c, rt, rook, to, by);
    let (irf, jrf, irt): (int, int, int) = if to > from {
        (0, 1, 1)
    } else {
        (1, 2, 0)
    };
    assert(square_at(step(tf, rook_dir(irf).0, jrf), step(r, rook_dir(irf).1, jrf)) == Some(rf));
    assert(square_at(step(tf, rook_dir(irt).0, 1), step(r, rook_dir(irt).1, 1)) == Some(rt));
    assert(!ray_hits_beyond(c, tf, r, rook_dir(irf).0, rook_dir(irf).1, jrf, by * ROOK, by * QUEEN)) by {
        if ray_hits_beyond(c, tf, r, rook_dir(irf).0, rook_dir(irf).1, jrf, by * ROOK, by * QUEEN) {
            let k = choose|k: int|
                k > jrf && ray_clear(c, tf, r, rook_dir(irf).0, rook_dir(irf).1, k) && (#[trigger] square_at(
                    step(tf, rook_dir(irf).0, k),
                    step(r, rook_dir(irf).1, k),
                ) matches Some(x) && (c[x] == by * ROOK || c[x] == by * QUEEN));
        }
    }
    assert(r * 8 + tf + 2 * rook_dir(irt).0 == from);
    assert forall|j: int| #![trigger step(tf, rook_dir(irt).0, j)]
        j >= 3 implies (square_at(step(tf, rook_dir(irt).0, j), r) matches Some(x) ==> c[x] == p.board[x]) by {
        if square_at(step(tf, rook_dir(irt).0, j), r) is Some {
            let x = square_at(step(tf, rook_dir(irt).0, j), r)->0;
            assert(x != from && x != to && x != rf);
        }
    }
    lemma_castle_line_free(p.board, c, tf, r, irt, by);
    lemma_attacked_kept_after_adding(c, rf, rook, to, by, irf, jrf);
    lemma_attacked_kept_after_adding(c, rt, rook, to, by, irt, 1);
}

/// The trial board that decides whether a pseudo-legal move keeps the mover's king safe gives
/// the same answer as the position the move leaves: the move keeps the king safe exactly when
/// the mover is not in check after it.
pub proof fn law_king_safety_is_check_after_move(p: PositionModel, mv: u32)
    requires
        p.layout_ok(),
        pseudo_move(p, mv, false),
    ensures
        keeps_king_safe(p, mv, p.side) == !p.after_make(mv).in_check(p.side),
{
    assert(p.board[move_from_spec(mv)] == p.side * KING ==> move_from_spec(mv) == p.king_square(p.side)) by {
        reveal(kings_unique);
        lemma_pseudo_move_ok(p, mv, false);
        assert(0 <= move_from_spec(mv) < 64) by {
            assert(mv & 63u32 < 64) by (bit_vector);
        }
    }
    lemma_flag_values();
    lemma_flag_bits(mv);
    let from = move_from_spec(mv);
    let k = abs_of(p.board[from] as int);
    if k == KING && mv & FLAG_CASTLE != 0 {
        let to = move_to_spec(mv);
        let promo = move_promo_spec(mv);
        let flags = mv & 0xf8000u32;
        if step_move(p, from, to, promo, flags, false, false) {
            let i = choose|i: int| 0 <= i < 8 && #[trigger] step_at(p, from, i, to, promo, flags, false, false);
            assert(step_at(p, from, i, to, promo, flags, false, false));
            assert(false);
        }
        lemma_castle_safety_is_check_after(p, mv);
    } else {
        assert(p.board_after(mv) =~= board_for_safety(p, mv, p.side));
    }
}

/// A legal move: pseudo-legal and not leaving the mover's king attacked.
pub open spec fn legal_move(p: PositionModel, mv: u32, t: bool) -> bool {
    pseudo_move(p, mv, t) && keeps_king_safe(p, mv, p.side)
}

/// A legal tactical move is a legal move.
pub proof fn lemma_tactical_is_move(p: PositionModel, m: u32)
    requires
        legal_move(p, m, true),
    ensures
        legal_move(p, m, false),
{
    let from = move_from_spec(m);
    let to = move_to_spec(m);
    let promo = move_promo_spec(m);
    let flags = m & 0xf8000u32;
    let k = abs_of(p.board[from] as int);
    if k == KNIGHT || k == KING {
        let knight = k == KNIGHT;
        if step_move(p, from, to, promo, flags, true, knight) {
            let i = choose|i: int| 0 <= i < 8 && #[trigger] step_at(p, from, i, to, promo, flags, true, knight);
            assert(step_at(p, from, i, to, promo, flags, false, knight));
        }
    } else if k == BISHOP || k == ROOK || k == QUEEN {
        let (i, d) = choose|i: int, d: int|
            0 <= i < slide_dir_count(abs_of(p.board[from] as int)) && #[trigger] slide_along(
                p,
                from,
                i,
                d,
                to,
                promo,
                flags,
                true,
            );
        assert(slide_along(p, from, i, d, to, promo, flags, false));
    }
}

/// Only promotions carry a promotion kind, and theirs is a real one.
pub proof fn lemma_promo_field(p: PositionModel, m: u32)
    requires
        p.layout_ok(),
        pseudo_move(p, m, false),
    ensures
        m & FLAG_PROMO != 0 ==> promo_kind(move_promo_spec(m)),
        m & FLAG_PROMO == 0 ==> move_promo_spec(m) == 0,
{
    lemma_flag_values();
    lemma_flag_bits(m);
    let from = move_from_spec(m);
    let to = move_to_spec(m);
    let promo = move_promo_spec(m);
    let flags = m & 0xf8000u32;
    let k = abs_of(p.board[from] as int);
    if k == KNIGHT || k == KING && !castle_move(p, from, to, promo, flags, false) {
        let knight = k == KNIGHT;
        let i = choose|i: int| 0 <= i < 8 && #[trigger] step_at(p, from, i, to, promo, flags, false, knight);
        assert(step_target(p, to, promo, flags, false));
    } else if k == BISHOP || k == ROOK || k == QUEEN {
        let (i, kk) = choose|i: int, kk: int|
            0 <= i < slide_dir_count(k) && #[trigger] slide_along(p, from, i, kk, to, promo, flags, false);
        assert(step_target(p, to, promo, flags, false));
    }
}

/// A pseudo-legal move is fixed by its squares and promotion: the flags follow from the
/// board.
pub proof fn lemma_pseudo_unique(p: PositionModel, m1: u32, m2: u32)
    requires
        p.layout_ok(),
        pseudo_move(p, m1, false),
        pseudo_move(p, m2, false),
        move_from_spec(m1) == move_from_spec(m2),
        move_to_spec(m1) == move_to_spec(m2),
        move_promo_spec(m1) == move_promo_spec(m2),
    ensures
        m1 == m2,
{
    let from = move_from_spec(m1);
    let to = move_to_spec(m1);
    let promo = move_promo_spec(m1);
    let f1 = m1 & 0xf8000u32;
    let f2 = m2 & 0xf8000u32;
    let k = abs_of(p.board[from] as int);
    lemma_recompose(m1);
    lemma_recompose(m2);
    if k == PAWN {
        assert(f1 == f2);
    } else if k == KNIGHT || k == KING && !castle_move(p, from, to, promo, f1, false) && !castle_move(
        p,
        from,
        to,
        promo,
        f2,
        false,
    ) {
        let knight = k == KNIGHT;
        let i1 = choose|i: int| 0 <= i < 8 && #[trigger] step_at(p, from, i, to, promo, f1, false, knight);
        let i2 = choose|i: int| 0 <= i < 8 && #[trigger] step_at(p, from, i, to, promo, f2, false, knight);
        assert(step_target(p, to, promo, f1, false));
        assert(step_target(p, to, promo, f2, false));
        assert(f1 == f2);
    } else if k == KING {
        if castle_move(p, from, to, promo, f1, false) && castle_move(p, from, to, promo, f2, false) {
            assert(f1 == f2);
        } else if castle_move(p, from, to, promo, f1, false) {
            let i2 = choose|i: int| 0 <= i < 8 && #[trigger] step_at(p, from, i, to, promo, f2, false, false);
            assert(false);
        } else {
            let i1 = choose|i: int| 0 <= i < 8 && #[trigger] step_at(p, from, i, to, promo, f1, false, false);
            assert(false);
        }
    } else {
        let (i1, k1) = choose|i: int, kk: int|
            0 <= i < slide_dir_count(k) && #[trigger] slide_along(p, from, i, kk, to, promo, f1, false);
        let (i2, k2) = choose|i: int, kk: int|
            0 <= i < slide_dir_count(k) && #[trigger] slide_along(p, from, i, kk, to, promo, f2, false);
        assert(step_target(p, to, promo, f1, false));
        assert(step_target(p, to, promo, f2, false));
        assert(f1 == f2);
    }
}

/// `l` begins with `l0`.
pub open spec fn extends(l: Seq<u32>, l0: Seq<u32>) -> bool {
    &&& l0.len() <= l.len()
    &&& forall|k: int| 0 <= k < l0.len() ==> #[trigger] l[k] == l0[k]
}

/// The moves come grouped by origin square, in increasing order of it.
pub open spec fn by_origin(l: Seq<u32>) -> bool {
    forall|i: int, j: int|
        0 <= i <= j < l.len() ==> move_from_spec(#[trigger] l[i]) <= move_from_spec(#[trigger] l[j])
}

/// The order of a promotion kind among the promotions of one pawn move: queen, rook,
/// bishop, knight (0 when there is none).
pub open spec fn promo_order(pr: int) -> int {
    if pr == ROOK {
        1
    } else if pr == BISHOP {
        2
    } else if pr == KNIGHT {
        3
    } else {
        0
    }
}

/// The group of a pawn move from `from` to `to`: single step, double step, capture towards
/// the a-file, capture towards the h-file.
pub open spec fn pawn_group(from: int, to: int) -> int {
    if file_of(to) == file_of(from) {
        if to == from + 16 || to == from - 16 {
            1
        } else {
            0
        }
    } else if file_of(to) < file_of(from) {
        2
    } else {
        3
    }
}

/// Where a pawn move stands among the moves of its pawn: by group, then promotions in
/// promotion order.
pub open spec fn pawn_key(mv: u32) -> int {
    pawn_group(move_from_spec(mv), move_to_spec(mv)) * 4 + promo_order(move_promo_spec(mv))
}

/// The offset by which a knight (`knight`) or a king steps from `from` to `to`.
pub open spec fn step_index(knight: bool, from: int, to: int) -> int {
    choose|i: int|
        0 <= i < 8 && #[trigger] square_at(
            file_of(from) + step_delta(knight, i).0,
            rank_of(from) + step_delta(knight, i).1,
        ) == Some(to)
}

/// The direction and the distance by which a slider of kind `k` moves from `from` to `to`.
pub open spec fn slide_index(k: int, from: int, to: int) -> (int, int) {
    choose|i: int, d: int|
        0 <= i < slide_dir_count(k) && 1 <= d && #[trigger] square_at(
            step(file_of(from), slide_dir(k, i).0, d),
            step(rank_of(from), slide_dir(k, i).1, d),
        ) == Some(to)
}

/// Where a move stands among the moves of the piece on its origin square: pawn moves by
/// `pawn_key`; knight and king steps by their offset, castling short then long after the
/// king's steps; slides direction by direction, nearer squares first.
pub open spec fn gen_key(p: PositionModel, mv: u32) -> int {
    let from = move_from_spec(mv);
    let to = move_to_spec(mv);
    let k = abs_of(p.board[from] as int);
    if k == PAWN {
        pawn_key(mv)
    } else if k == KNIGHT {
        step_index(true, from, to)
    } else if k == KING {
        if mv & 0xf8000u32 == FLAG_CASTLE {
            if to > from {
                8
            } else {
                9
            }
        } else {
            step_index(false, from, to)
        }
    } else {
        slide_index(k, from, to).0 * 8 + slide_index(k, from, to).1
    }
}

/// The moves come by origin square, and within one origin square by `gen_key`.
pub open spec fn in_gen_order(l: Seq<u32>, p: PositionModel) -> bool {
    forall|a: int, b: int|
        0 <= a < b < l.len() ==> move_from_spec(#[trigger] l[a]) < move_from_spec(#[trigger] l[b])
            || (move_from_spec(l[a]) == move_from_spec(l[b]) && gen_key(p, l[a]) < gen_key(p, l[b]))
}

/// From position `n0` on, the `gen_key`s of `l` rise strictly and stay in `[lo, hi)`.
pub open spec fn keys_rise(l: Seq<u32>, n0: int, p: PositionModel, lo: int, hi: int) -> bool {
    &&& forall|a: int| n0 <= a < l.len() ==> lo <= gen_key(p, #[trigger] l[a]) < hi
    &&& forall|a: int, b: int|
        n0 <= a < b < l.len() ==> gen_key(p, #[trigger] l[a]) < gen_key(p, #[trigger] l[b])
}

/// From position `n0` on, the `pawn_key`s of `l` rise strictly and stay in `[lo, hi)`.
pub open spec fn pawn_keys_rise(l: Seq<u32>, n0: int, lo: int, hi: int) -> bool {
    &&& forall|a: int| n0 <= a < l.len() ==> lo <= pawn_key(#[trigger] l[a]) < hi
    &&& forall|a: int, b: int|
        n0 <= a < b < l.len() ==> pawn_key(#[trigger] l[a]) < pawn_key(#[trigger] l[b])
}

/// The moves in `list` are exactly the pseudo-legal moves from squares below `upto`.
pub open spec fn lists_moves_below(list: Seq<u32>, p: PositionModel, t: bool, upto: int) -> bool {
    forall|mv: u32|
        #[trigger] list.contains(mv) <==> (pseudo_move(p, mv, t) && move_from_spec(mv) < upto)
}

/// Appending a move that is not in a list keeps the list free of repeats.
pub proof fn lemma_push_fresh(s: Seq<u32>, m: u32)
    requires
        s.no_duplicates(),
        !s.contains(m),
    ensures
        s.push(m).no_duplicates(),
{
    assert forall|i: int, j: int|
        0 <= i < s.push(m).len() && 0 <= j < s.push(m).len() && i != j implies s.push(m)[i]
        != s.push(m)[j] by {
        if i == s.len() {
            assert(s[j] == s.push(m)[j]);
        } else if j == s.len() {
            assert(s[i] == s.push(m)[i]);
        }
    }
}

/// Two different offsets of one kind of step never reach the same square.
proof fn lemma_step_targets_differ(f: int, r: int, knight: bool, i: int, j: int, x: int)
    requires
        0 <= i < 8,
        0 <= j < 8,
        square_at(f + step_delta(knight, i).0, r + step_delta(knight, i).1) == Some(x),
        square_at(f + step_delta(knight, j).0, r + step_delta(knight, j).1) == Some(x),
    ensures
        i == j,
{
}

/// Two repeat-free lists of the same moves, both in the order of generation, are the same
/// list: the order `generate_legal` promises leaves it no choice.
pub proof fn lemma_gen_order_unique(a: Seq<u32>, b: Seq<u32>, p: PositionModel)
    requires
        a.no_duplicates(),
        b.no_duplicates(),
        in_gen_order(a, p),
        in_gen_order(b, p),
        forall|m: u32| a.contains(m) <==> b.contains(m),
    ensures
        a == b,
    decreases a.len(),
{
    if a.len() == 0 {
        if b.len() > 0 {
            assert(b.contains(b[0]));
        }
        assert(a =~= b);
    } else {
        assert(a.contains(a[0]));
        assert(b.len() > 0);
        assert(b.contains(b[0]));
        if a[0] != b[0] {
            let j = choose|j: int| 0 <= j < b.len() && b[j] == a[0];
            let k = choose|k: int| 0 <= k < a.len() && a[k] == b[0];
            assert(j > 0 && k > 0);
            assert(move_from_spec(b[0]) < move_from_spec(b[j]) || (move_from_spec(b[0])
                == move_from_spec(b[j]) && gen_key(p, b[0]) < gen_key(p, b[j])));
            assert(move_from_spec(a[0]) < move_from_spec(a[k]) || (move_from_spec(a[0])
                == move_from_spec(a[k]) && gen_key(p, a[0]) < gen_key(p, a[k])));
        }
        let a2 = a.drop_first();
        let b2 = b.drop_first();
        assert(a2.no_duplicates());
        assert(b2.no_duplicates());
        assert(in_gen_order(a2, p)) by {
            assert forall|x: int, y: int| 0 <= x < y < a2.len() implies move_from_spec(
                #[trigger] a2[x],
            ) < move_from_spec(#[trigger] a2[y]) || (move_from_spec(a2[x]) == move_from_spec(a2[y])
                && gen_key(p, a2[x]) < gen_key(p, a2[y])) by {
                assert(a2[x] == a[x + 1] && a2[y] == a[y + 1]);
            }
        }
        assert(in_gen_order(b2, p)) by {
            assert forall|x: int, y: int| 0 <= x < y < b2.len() implies move_from_spec(
                #[trigger] b2[x],
            ) < move_from_spec(#[trigger] b2[y]) || (move_from_spec(b2[x]) == move_from_spec(b2[y])
                && gen_key(p, b2[x]) < gen_key(p, b2[y])) by {
                assert(b2[x] == b[x + 1] && b2[y] == b[y + 1]);
            }
        }
        assert forall|m: u32| a2.contains(m) <==> b2.contains(m) by {
            if a2.contains(m) {
                let x = choose|x: int| 0 <= x < a2.len() && a2[x] == m;
                assert(a[x + 1] == m);
                assert(a.contains(m));
                assert(m != a[0]);
                let y = choose|y: int| 0 <= y < b.len() && b[y] == m;
                assert(y != 0);
                assert(b2[y - 1] == m);
            }
            if b2.contains(m) {
                let x = choose|x: int| 0 <= x < b2.len() && b2[x] == m;
                assert(b[x + 1] == m);
                assert(b.contains(m));
                assert(m != b[0]);
                let y = choose|y: int| 0 <= y < a.len() && a[y] == m;
                assert(y != 0);
                assert(a2[y - 1] == m);
            }
        }
        lemma_gen_order_unique(a2, b2, p);
        assert(a =~= seq![a[0]] + a2);
        assert(b =~= seq![b[0]] + b2);
    }
}

/// Keys rising in `[lo, mid)` up to the end of `l1`, then in `[mid, hi)` in what `l2` adds
/// to it, rise in `[lo, hi)` throughout; the added moves start where the earlier ones did.
proof fn lemma_keys_join(l1: Seq<u32>, l2: Seq<u32>, n0: int, p: PositionModel, lo: int, mid: int, hi: int, from: int)
    requires
        0 <= n0 <= l1.len(),
        lo <= mid <= hi,
        keys_rise(l1, n0, p, lo, mid),
        extends(l2, l1),
        keys_rise(l2, l1.len() as int, p, mid, hi),
        forall|k: int| n0 <= k < l1.len() ==> starts_at(#[trigger] l1[k], from),
        forall|k: int| l1.len() <= k < l2.len() ==> starts_at(#[trigger] l2[k], from),
    ensures
        keys_rise(l2, n0, p, lo, hi),
        forall|k: int| n0 <= k < l2.len() ==> starts_at(#[trigger] l2[k], from),
{
    assert forall|a: int| n0 <= a < l2.len() implies lo <= gen_key(p, #[trigger] l2[a]) < hi
        && starts_at(l2[a], from) by {
        if a < l1.len() {
            assert(l2[a] == l1[a]);
        }
    }
    assert forall|a: int, b: int| n0 <= a < b < l2.len() implies gen_key(p, #[trigger] l2[a])
        < gen_key(p, #[trigger] l2[b]) by {
        if b < l1.len() {
            assert(l2[a] == l1[a]);
            assert(l2[b] == l1[b]);
        } else if a < l1.len() {
            assert(l2[a] == l1[a]);
        }
    }
}

/// The step along offset `i` is not yet in a list holding only the earlier offsets' steps
/// and moves of other kinds.
proof fn lemma_step_fresh(
    p: PositionModel,
    list: Seq<u32>,
    l0: Seq<u32>,
    from: int,
    i: int,
    m: u32,
    t: bool,
    knight: bool,
)
    requires
        0 <= i < 8,
        starts_at(m, from),
        step_at(p, from, i, move_to_spec(m), move_promo_spec(m), m & 0xf8000u32, t, knight),
        forall|x: u32|
            #[trigger] l0.contains(x) ==> !(starts_at(x, from) && step_move(
                p,
                from,
                move_to_spec(x),
                move_promo_spec(x),
                x & 0xf8000u32,
                t,
                knight,
            )),
        forall|mv: u32|
            #[trigger] list.contains(mv) <==> l0.contains(mv) || (starts_at(mv, from) && exists|j: int|
                0 <= j < i && #[trigger] step_at(
                    p,
                    from,
                    j,
                    move_to_spec(mv),
                    move_promo_spec(mv),
                    mv & 0xf8000u32,
                    t,
                    knight,
                )),
    ensures
        !list.contains(m),
{
    if list.contains(m) {
        if l0.contains(m) {
            assert(step_move(p, from, move_to_spec(m), move_promo_spec(m), m & 0xf8000u32, t, knight));
        } else {
            let j = choose|j: int|
                0 <= j < i && #[trigger] step_at(
                    p,
                    from,
                    j,
                    move_to_spec(m),
                    move_promo_spec(m),
                    m & 0xf8000u32,
                    t,
                    knight,
                );
            lemma_step_targets_differ(file_of(from), rank_of(from), knight, i, j, move_to_spec(m));
        }
    }
}

/// Adds the knight jumps (`knight`) or king steps from `from`.
#[verifier::spinoff_prover]
fn gen_steps(pos: &Position, list: &mut MoveList, from: u8, t: bool, knight: bool)
    requires
        pos@.layout_ok(),
        old(list).wf(),
        from < 64,
        abs_of(pos@.board[from as int] as int) == (if knight {
            KNIGHT
        } else {
            KING
        }),
        old(list).moves@.no_duplicates(),
        forall|m: u32|
            #[trigger] old(list).moves@.contains(m) ==> !(starts_at(m, from as int) && step_move(
                pos@,
                from as int,
                move_to_spec(m),
                move_promo_spec(m),
                m & 0xf8000u32,
                t,
                knight,
            )),
    ensures
        final(list).wf(),
        extends(final(list).moves@, old(list).moves@),
        keys_rise(final(list).moves@, old(list).moves@.len() as int, pos@, 0, 8),
        forall|k: int|
            old(list).moves@.len() <= k < final(list).moves@.len() ==> starts_at(
                #[trigger] final(list).moves@[k],
                from as int,
            ),
        final(list).moves@.no_duplicates(),
        forall|mv: u32|
            #[trigger] final(list).moves@.contains(mv) <==> old(list).moves@.contains(mv) || (
            starts_at(mv, from as int) && step_move(
                pos@,
                from as int,
                move_to_spec(mv),
                move_promo_spec(mv),
                mv & 0xf8000u32,
                t,
                knight,
            )),
{
    let ghost p = pos@;
    let ghost l0 = list.moves@;
    proof {
        lemma_flag_values();
    }
    let side = pos.side;
    let ff = file(from);
    let fr = rank(from);
    for i in 0..8usize
        invariant
            p == pos@,
            p.layout_ok(),
            side == p.side,
            ff == file_of(from as int),
            fr == rank_of(from as int),
            from < 64,
            list.wf(),
            extends(list.moves@, l0),
            keys_rise(list.moves@, l0.len() as int, p, 0, i as int),
            forall|k: int|
                l0.len() <= k < list.moves@.len() ==> starts_at(#[trigger] list.moves@[k], from as int),
            abs_of(p.board[from as int] as int) == (if knight {
                KNIGHT
            } else {
                KING
            }),
            list.moves@.no_duplicates(),
            forall|m: u32|
                #[trigger] l0.contains(m) ==> !(starts_at(m, from as int) && step_move(
                    p,
                    from as int,
                    move_to_spec(m),
                    move_promo_spec(m),
                    m & 0xf8000u32,
                    t,
                    knight,
                )),
            forall|mv: u32|
                #[trigger] list.moves@.contains(mv) <==> l0.contains(mv) || (starts_at(
                    mv,
                    from as int,
                ) && exists|j: int|
                    0 <= j < i && #[trigger] step_at(
                        p,
                        from as int,
                        j,
                        move_to_spec(mv),
                        move_promo_spec(mv),
                        mv & 0xf8000u32,
                        t,
                        knight,
                    )),
    {
        let ghost before = list.moves@;
        proof {
            lemma_flag_values();
        }
        let (df, dr) = if knight {
            knight_step(i)
        } else {
            king_step(i)
        };
        let mut pushed: Option<u32> = None;
        if let Some(to) = square(ff + df, fr + dr) {
            let target = pos.board[to as usize];
            if color(target) == -side && kind(target) != KING {
                let m = encode_move(from, to, 0, FLAG_CAPTURE);
                proof {
                    lemma_step_fresh(p, list.moves@, l0, from as int, i as int, m, t, knight);
                    lemma_push_fresh(list.moves@, m);
                }
                list.push(m);
                pushed = Some(m);
            } else if target == EMPTY && !t {
                let m = encode_move(from, to, 0, 0);
                proof {
                    lemma_step_fresh(p, list.moves@, l0, from as int, i as int, m, t, knight);
                    lemma_push_fresh(list.moves@, m);
                }
                list.push(m);
                pushed = Some(m);
            }
        }
        proof {
            assert forall|mv: u32|
                #[trigger] list.moves@.contains(mv) <==> l0.contains(mv) || (starts_at(
                    mv,
                    from as int,
                ) && exists|j: int|
                    0 <= j < i + 1 && #[trigger] step_at(
                        p,
                        from as int,
                        j,
                        move_to_spec(mv),
                        move_promo_spec(mv),
                        mv & 0xf8000u32,
                        t,
                        knight,
                    )) by {
                let here = starts_at(mv, from as int) && step_at(
                    p,
                    from as int,
                    i as int,
                    move_to_spec(mv),
                    move_promo_spec(mv),
                    mv & 0xf8000u32,
                    t,
                    knight,
                );
                if here {
                    lemma_recompose(mv);
                    assert(pushed == Some(mv));
                }
                if pushed == Some(mv) {
                    assert(here);
                }
                if starts_at(mv, from as int) && exists|j: int|
                    0 <= j < i + 1 && #[trigger] step_at(
                        p,
                        from as int,
                        j,
                        move_to_spec(mv),
                        move_promo_spec(mv),
                        mv & 0xf8000u32,
                        t,
                        knight,
                    ) {
                    let j = choose|j: int|
                        0 <= j < i + 1 && #[trigger] step_at(
                            p,
                            from as int,
                            j,
                            move_to_spec(mv),
                            move_promo_spec(mv),
                            mv & 0xf8000u32,
                            t,
                            knight,
                        );
                    if j == i {
                        assert(here);
                    }
                }
            }
        }
    }
}

/// The slide of `k` squares along direction `i` from `from` is available.
pub open spec fn slide_in(p: PositionModel, from: int, i: int, mv: u32, t: bool) -> bool {
    exists|k: int|
        #[trigger] slide_along(
            p,
            from,
            i,
            k,
            move_to_spec(mv),
            move_promo_spec(mv),
            mv & 0xf8000u32,
            t,
        )
}

/// The slide of `k` squares along a ray is not yet in a list holding only the shorter
/// slides along it and moves of other kinds.
proof fn lemma_ray_fresh(
    p: PositionModel,
    list: Seq<u32>,
    l0: Seq<u32>,
    from: int,
    i: int,
    k: int,
    m: u32,
    t: bool,
)
    requires
        0 <= i < 8,
        starts_at(m, from),
        slide_along(p, from, i, k, move_to_spec(m), move_promo_spec(m), m & 0xf8000u32, t),
        forall|x: u32|
            #[trigger] l0.contains(x) ==> !(starts_at(x, from) && slide_in(p, from, i, x, t)),
        forall|mv: u32|
            #[trigger] list.contains(mv) <==> l0.contains(mv) || (starts_at(mv, from) && exists|kk: int|
                kk < k && #[trigger] slide_along(
                    p,
                    from,
                    i,
                    kk,
                    move_to_spec(mv),
                    move_promo_spec(mv),
                    mv & 0xf8000u32,
                    t,
                )),
    ensures
        !list.contains(m),
{
    if list.contains(m) {
        if l0.contains(m) {
            assert(slide_in(p, from, i, m, t));
        } else {
            let kk = choose|kk: int|
                kk < k && #[trigger] slide_along(
                    p,
                    from,
                    i,
                    kk,
                    move_to_spec(m),
                    move_promo_spec(m),
                    m & 0xf8000u32,
                    t,
                );
            let kind = abs_of(p.board[from] as int);
            let d = slide_dir(kind, i);
            assert(d.0 != 0 || d.1 != 0);
            assert(step(file_of(from), d.0, kk) == step(file_of(from), d.0, k));
            assert(step(rank_of(from), d.1, kk) == step(rank_of(from), d.1, k));
        }
    }
}

/// A slide along direction `i` over `k` squares stands at place `8 * i + k` among its
/// piece's moves, and no slide is longer than seven squares.
proof fn lemma_slide_key(p: PositionModel, from: int, i: int, k: int, m: u32)
    requires
        0 <= from < 64,
        abs_of(p.board[from] as int) == BISHOP || abs_of(p.board[from] as int) == ROOK || abs_of(
            p.board[from] as int,
        ) == QUEEN,
        0 <= i < slide_dir_count(abs_of(p.board[from] as int)),
        1 <= k,
        move_from_spec(m) == from,
        square_at(
            step(file_of(from), slide_dir(abs_of(p.board[from] as int), i).0, k),
            step(rank_of(from), slide_dir(abs_of(p.board[from] as int), i).1, k),
        ) == Some(move_to_spec(m)),
    ensures
        gen_key(p, m) == i * 8 + k,
        k <= 7,
{
    let kind = abs_of(p.board[from] as int);
    let to = move_to_spec(m);
    let (j, d) = slide_index(kind, from, to);
    assert(square_at(
        step(file_of(from), slide_dir(kind, i).0, k),
        step(rank_of(from), slide_dir(kind, i).1, k),
    ) == Some(to));
    let di = slide_dir(kind, i);
    let dj = slide_dir(kind, j);
    assert(step(file_of(from), di.0, k) == step(file_of(from), dj.0, d));
    assert(step(rank_of(from), di.1, k) == step(rank_of(from), dj.1, d));
}

/// Adds the moves of the sliding piece on `from` along its direction `i`.
#[verifier::spinoff_prover]
#[verifier::rlimit(60)]
fn gen_ray(pos: &Position, list: &mut MoveList, from: u8, t: bool, i: usize)
    requires
        pos@.layout_ok(),
        old(list).wf(),
        from < 64,
        abs_of(pos@.board[from as int] as int) == BISHOP || abs_of(pos@.board[from as int] as int)
            == ROOK || abs_of(pos@.board[from as int] as int) == QUEEN,
        i < slide_dir_count(abs_of(pos@.board[from as int] as int)),
        old(list).moves@.no_duplicates(),
        forall|m: u32|
            #[trigger] old(list).moves@.contains(m) ==> !(starts_at(m, from as int) && slide_in(
                pos@,
                from as int,
                i as int,
                m,
                t,
            )),
    ensures
        final(list).wf(),
        extends(final(list).moves@, old(list).moves@),
        keys_rise(final(list).moves@, old(list).moves@.len() as int, pos@, i * 8 + 1, i * 8 + 8),
        forall|k: int|
            old(list).moves@.len() <= k < final(list).moves@.len() ==> starts_at(
                #[trigger] final(list).moves@[k],
                from as int,
            ),
        final(list).moves@.no_duplicates(),
        forall|mv: u32|
            #[trigger] final(list).moves@.contains(mv) <==> old(list).moves@.contains(mv) || (
            starts_at(mv, from as int) && slide_in(pos@, from as int, i as int, mv, t)),
{
    let ghost p = pos@;
    let ghost l0 = list.moves@;
    let side = pos.side;
    let ff = file(from);
    let fr = rank(from);
    let piece_kind = kind(pos.board[from as usize]);
    let (df, dr) = if piece_kind == BISHOP {
        bishop_step(i)
    } else if piece_kind == ROOK {
        rook_step(i)
    } else {
        king_step(i)
    };
    assert(df == slide_dir(piece_kind as int, i as int).0);
    assert(dr == slide_dir(piece_kind as int, i as int).1);
    let mut f = ff + df;
    let mut r = fr + dr;
    let ghost mut k: int = 1;
    loop
        invariant
            p == pos@,
            p.layout_ok(),
            side == p.side,
            from < 64,
            ff == file_of(from as int),
            fr == rank_of(from as int),
            0 <= ff < 8,
            0 <= fr < 8,
            piece_kind == abs_of(p.board[from as int] as int),
            df == slide_dir(piece_kind as int, i as int).0,
            dr == slide_dir(piece_kind as int, i as int).1,
            -1 <= df <= 1,
            -1 <= dr <= 1,
            df != 0 || dr != 0,
            1 <= k <= 8,
            l0 == old(list).moves@,
            f == step(ff as int, df as int, k),
            r == step(fr as int, dr as int, k),
            ray_clear(p.board, ff as int, fr as int, df as int, dr as int, k),
            list.wf(),
            extends(list.moves@, l0),
            keys_rise(list.moves@, l0.len() as int, p, i * 8 + 1, i * 8 + k),
            forall|kk: int|
                l0.len() <= kk < list.moves@.len() ==> starts_at(#[trigger] list.moves@[kk], from as int),
            abs_of(p.board[from as int] as int) == BISHOP || abs_of(p.board[from as int] as int)
                == ROOK || abs_of(p.board[from as int] as int) == QUEEN,
            i < slide_dir_count(abs_of(p.board[from as int] as int)),
            list.moves@.no_duplicates(),
            i < 8,
            forall|m: u32|
                #[trigger] l0.contains(m) ==> !(starts_at(m, from as int) && slide_in(
                    p,
                    from as int,
                    i as int,
                    m,
                    t,
                )),
            forall|mv: u32|
                #[trigger] list.moves@.contains(mv) <==> l0.contains(mv) || (starts_at(
                    mv,
                    from as int,
                ) && exists|kk: int|
                    kk < k && #[trigger] slide_along(
                        p,
                        from as int,
                        i as int,
                        kk,
                        move_to_spec(mv),
                        move_promo_spec(mv),
                        mv & 0xf8000u32,
                        t,
                    )),
        decreases 9 - k,
    {
        proof {
            lemma_flag_values();
        }
        let ghost before = list.moves@;
        let next = square(f, r);
        let ghost kk_here = k;
        match next {
            None => {
                proof {
                    assert forall|mv: u32|
                        #[trigger] list.moves@.contains(mv) <==> l0.contains(mv) || (starts_at(
                            mv,
                            from as int,
                        ) && slide_in(p, from as int, i as int, mv, t)) by {
                        if starts_at(mv, from as int) && slide_in(p, from as int, i as int, mv, t) {
                            let kk = choose|kk: int|
                                #[trigger] slide_along(
                                    p,
                                    from as int,
                                    i as int,
                                    kk,
                                    move_to_spec(mv),
                                    move_promo_spec(mv),
                                    mv & 0xf8000u32,
                                    t,
                                );
                            if kk > k {
                                assert(ray_empty_at(p.board, ff as int, fr as int, df as int, dr as int, k));
                            }
                            assert(kk < k);
                        }
                    }
                }
                return ;
            },
            Some(to) => {
                let target = pos.board[to as usize];
                if target == EMPTY {
                    if !t {
                        let m = encode_move(from, to, 0, 0);
                        proof {
                            lemma_decode_encode(from as u32, to as u32, 0, 0);
                            assert(slide_along(
                                p,
                                from as int,
                                i as int,
                                k,
                                move_to_spec(m),
                                move_promo_spec(m),
                                m & 0xf8000u32,
                                t,
                            ));
                            lemma_ray_fresh(p, list.moves@, l0, from as int, i as int, k, m, t);
                            lemma_push_fresh(list.moves@, m);
                        }
                        list.push(m);
                        proof {
                            lemma_slide_key(p, from as int, i as int, k, m);
                            assert(starts_at(m, from as int)) by {
                                lemma_recompose(m);
                            }
                        }
                    }
                    proof {
                        assert(ray_empty_at(p.board, ff as int, fr as int, df as int, dr as int, k));
                        assert forall|j: int| 1 <= j < k + 1 implies #[trigger] ray_empty_at(
                            p.board,
                            ff as int,
                            fr as int,
                            df as int,
                            dr as int,
                            j,
                        ) by {
                            if j < k {
                                assert(ray_empty_at(p.board, ff as int, fr as int, df as int, dr as int, j));
                            }
                        }
                        assert forall|mv: u32|
                            #[trigger] list.moves@.contains(mv) <==> l0.contains(mv) || (starts_at(
                                mv,
                                from as int,
                            ) && exists|kk: int|
                                kk < k + 1 && #[trigger] slide_along(
                                    p,
                                    from as int,
                                    i as int,
                                    kk,
                                    move_to_spec(mv),
                                    move_promo_spec(mv),
                                    mv & 0xf8000u32,
                                    t,
                                )) by {
                            let here = starts_at(mv, from as int) && slide_along(
                                p,
                                from as int,
                                i as int,
                                k,
                                move_to_spec(mv),
                                move_promo_spec(mv),
                                mv & 0xf8000u32,
                                t,
                            );
                            if here {
                                lemma_recompose(mv);
                            }
                            if starts_at(mv, from as int) && exists|kk: int|
                                kk < k + 1 && #[trigger] slide_along(
                                    p,
                                    from as int,
                                    i as int,
                                    kk,
                                    move_to_spec(mv),
                                    move_promo_spec(mv),
                                    mv & 0xf8000u32,
                                    t,
                                ) {
                                let kk = choose|kk: int|
                                    kk < k + 1 && #[trigger] slide_along(
                                        p,
                                        from as int,
                                        i as int,
                                        kk,
                                        move_to_spec(mv),
                                        move_promo_spec(mv),
                                        mv & 0xf8000u32,
                                        t,
                                    );
                                if kk == k {
                                    assert(here);
                                }
                            }
                        }
                        k = k + 1;
                    }
                    f = f + df;
                    r = r + dr;
                } else {
                    if color(target) == -side && kind(target) != KING {
                        let m = encode_move(from, to, 0, FLAG_CAPTURE);
                        proof {
                            lemma_decode_encode(from as u32, to as u32, 0, FLAG_CAPTURE);
                            assert(slide_along(
                                p,
                                from as int,
                                i as int,
                                k,
                                move_to_spec(m),
                                move_promo_spec(m),
                                m & 0xf8000u32,
                                t,
                            ));
                            lemma_ray_fresh(p, list.moves@, l0, from as int, i as int, k, m, t);
                            lemma_push_fresh(list.moves@, m);
                        }
                        list.push(m);
                        proof {
                            lemma_slide_key(p, from as int, i as int, k, m);
                            assert(starts_at(m, from as int)) by {
                                lemma_recompose(m);
                            }
                        }
                    }
                    proof {
                        assert forall|mv: u32|
                            #[trigger] list.moves@.contains(mv) <==> l0.contains(mv) || (starts_at(
                                mv,
                                from as int,
                            ) && slide_in(p, from as int, i as int, mv, t)) by {
                            let here = starts_at(mv, from as int) && slide_along(
                                p,
                                from as int,
                                i as int,
                                k,
                                move_to_spec(mv),
                                move_promo_spec(mv),
                                mv & 0xf8000u32,
                                t,
                            );
                            if here {
                                lemma_recompose(mv);
                            }
                            if starts_at(mv, from as int) && exists|kk: int|
                                kk < k && #[trigger] slide_along(
                                    p,
                                    from as int,
                                    i as int,
                                    kk,
                                    move_to_spec(mv),
                                    move_promo_spec(mv),
                                    mv & 0xf8000u32,
                                    t,
                                ) {
                                let kk = choose|kk: int|
                                    kk < k && #[trigger] slide_along(
                                        p,
                                        from as int,
                                        i as int,
                                        kk,
                                        move_to_spec(mv),
                                        move_promo_spec(mv),
                                        mv & 0xf8000u32,
                                        t,
                                    );
                                assert(slide_in(p, from as int, i as int, mv, t));
                            }
                            if starts_at(mv, from as int) && slide_in(p, from as int, i as int, mv, t) {
                                let kk = choose|kk: int|
                                    #[trigger] slide_along(
                                        p,
                                        from as int,
                                        i as int,
                                        kk,
                                        move_to_spec(mv),
                                        move_promo_spec(mv),
                                        mv & 0xf8000u32,
                                        t,
                                    );
                                if kk > k {
                                    assert(ray_empty_at(p.board, ff as int, fr as int, df as int, dr as int, k));
                                } else if kk < k {
                                    assert(exists|kk2: int|
                                        kk2 < k && #[trigger] slide_along(
                                            p,
                                            from as int,
                                            i as int,
                                            kk2,
                                            move_to_spec(mv),
                                            move_promo_spec(mv),
                                            mv & 0xf8000u32,
                                            t,
                                        ));
                                } else {
                                    assert(here);
                                }
                            }
                        }
                    }
                    return ;
                }
            },
        }
    }
}

/// Slides along two different directions never reach the same square.
proof fn lemma_rays_disjoint(p: PositionModel, from: int, i: int, j: int, ki: int, kj: int, m: u32, t: bool)
    requires
        0 <= i < slide_dir_count(abs_of(p.board[from] as int)),
        0 <= j < slide_dir_count(abs_of(p.board[from] as int)),
        slide_along(p, from, i, ki, move_to_spec(m), move_promo_spec(m), m & 0xf8000u32, t),
        slide_along(p, from, j, kj, move_to_spec(m), move_promo_spec(m), m & 0xf8000u32, t),
    ensures
        i == j,
{
    let kind = abs_of(p.board[from] as int);
    let di = slide_dir(kind, i);
    let dj = slide_dir(kind, j);
    assert(step(file_of(from), di.0, ki) == step(file_of(from), dj.0, kj));
    assert(step(rank_of(from), di.1, ki) == step(rank_of(from), dj.1, kj));
}

/// Adds every move of the sliding piece on `from`.
#[verifier::spinoff_prover]
fn gen_slides(pos: &Position, list: &mut MoveList, from: u8, t: bool)
    requires
        pos@.layout_ok(),
        old(list).wf(),
        from < 64,
        abs_of(pos@.board[from as int] as int) == BISHOP || abs_of(pos@.board[from as int] as int)
            == ROOK || abs_of(pos@.board[from as int] as int) == QUEEN,
        old(list).moves@.no_duplicates(),
        forall|m: u32|
            #[trigger] old(list).moves@.contains(m) ==> !(starts_at(m, from as int) && slide_move(
                pos@,
                from as int,
                move_to_spec(m),
                move_promo_spec(m),
                m & 0xf8000u32,
                t,
            )),
    ensures
        final(list).wf(),
        extends(final(list).moves@, old(list).moves@),
        keys_rise(final(list).moves@, old(list).moves@.len() as int, pos@, 0, 64),
        forall|k: int|
            old(list).moves@.len() <= k < final(list).moves@.len() ==> starts_at(
                #[trigger] final(list).moves@[k],
                from as int,
            ),
        final(list).moves@.no_duplicates(),
        forall|mv: u32|
            #[trigger] final(list).moves@.contains(mv) <==> old(list).moves@.contains(mv) || (
            starts_at(mv, from as int) && slide_move(
                pos@,
                from as int,
                move_to_spec(mv),
                move_promo_spec(mv),
                mv & 0xf8000u32,
                t,
            )),
{
    let ghost p = pos@;
    let ghost l0 = list.moves@;
    let k = kind(pos.board[from as usize]);
    let n: usize = if k == QUEEN {
        8
    } else {
        4
    };
    for i in 0..n
        invariant
            p == pos@,
            p.layout_ok(),
            from < 64,
            k == abs_of(p.board[from as int] as int),
            k == BISHOP || k == ROOK || k == QUEEN,
            n == slide_dir_count(k as int),
            list.wf(),
            extends(list.moves@, l0),
            keys_rise(list.moves@, l0.len() as int, p, 0, i * 8),
            forall|kk: int|
                l0.len() <= kk < list.moves@.len() ==> starts_at(#[trigger] list.moves@[kk], from as int),
            list.moves@.no_duplicates(),
            forall|m: u32|
                #[trigger] l0.contains(m) ==> !(starts_at(m, from as int) && slide_move(
                    p,
                    from as int,
                    move_to_spec(m),
                    move_promo_spec(m),
                    m & 0xf8000u32,
                    t,
                )),
            forall|mv: u32|
                #[trigger] list.moves@.contains(mv) <==> l0.contains(mv) || (starts_at(
                    mv,
                    from as int,
                ) && exists|j: int| 0 <= j < i && #[trigger] slide_in(p, from as int, j, mv, t)),
    {
        proof {
            assert forall|m: u32| #[trigger] list.moves@.contains(m) implies !(starts_at(
                m,
                from as int,
            ) && slide_in(p, from as int, i as int, m, t)) by {
                if starts_at(m, from as int) && slide_in(p, from as int, i as int, m, t) {
                    let kk = choose|kk: int|
                        #[trigger] slide_along(
                            p,
                            from as int,
                            i as int,
                            kk,
                            move_to_spec(m),
                            move_promo_spec(m),
                            m & 0xf8000u32,
                            t,
                        );
                    if l0.contains(m) {
                        assert(slide_move(
                            p,
                            from as int,
                            move_to_spec(m),
                            move_promo_spec(m),
                            m & 0xf8000u32,
                            t,
                        ));
                    } else {
                        let j = choose|j: int| 0 <= j < i && #[trigger] slide_in(p, from as int, j, m, t);
                        let kj = choose|kj: int|
                            #[trigger] slide_along(
                                p,
                                from as int,
                                j,
                                kj,
                                move_to_spec(m),
                                move_promo_spec(m),
                                m & 0xf8000u32,
                                t,
                            );
                        lemma_rays_disjoint(p, from as int, i as int, j, kk, kj, m, t);
                    }
                }
            }
        }
        let ghost before_ray = list.moves@;
        gen_ray(pos, list, from, t, i);
        proof {
            lemma_keys_join(before_ray, list.moves@, l0.len() as int, p, 0, i * 8, i * 8 + 8, from as int);
            assert forall|mv: u32|
                #[trigger] list.moves@.contains(mv) <==> l0.contains(mv) || (starts_at(
                    mv,
                    from as int,
                ) && exists|j: int| 0 <= j < i + 1 && #[trigger] slide_in(p, from as int, j, mv, t)) by {
                if starts_at(mv, from as int) && exists|j: int|
                    0 <= j < i + 1 && #[trigger] slide_in(p, from as int, j, mv, t) {
                    let j = choose|j: int| 0 <= j < i + 1 && #[trigger] slide_in(p, from as int, j, mv, t);
                    if j < i {
                        assert(exists|j2: int| 0 <= j2 < i && #[trigger] slide_in(p, from as int, j2, mv, t));
                    }
                }
            }
        }
    }
    proof {
        assert forall|mv: u32|
            #[trigger] list.moves@.contains(mv) <==> l0.contains(mv) || (starts_at(
                mv,
                from as int,
            ) && slide_move(p, from as int, move_to_spec(mv), move_promo_spec(mv), mv & 0xf8000u32, t)) by {
            if starts_at(mv, from as int) && slide_move(p, from as int, move_to_spec(mv), move_promo_spec(mv), mv & 0xf8000u32, t) {
                let (j, kk) = choose|j: int, kk: int|
                    0 <= j < slide_dir_count(abs_of(p.board[from as int] as int)) && #[trigger] slide_along(
                        p,
                        from as int,
                        j,
                        kk,
                        move_to_spec(mv),
                        move_promo_spec(mv),
                        mv & 0xf8000u32,
                        t,
                    );
                assert(slide_in(p, from as int, j, mv, t));
            }
            if starts_at(mv, from as int) && exists|j: int| 0 <= j < n && #[trigger] slide_in(p, from as int, j, mv, t) {
                let j = choose|j: int| 0 <= j < n && #[trigger] slide_in(p, from as int, j, mv, t);
                let kk = choose|kk: int|
                    #[trigger] slide_along(
                        p,
                        from as int,
                        j,
                        kk,
                        move_to_spec(mv),
                        move_promo_spec(mv),
                        mv & 0xf8000u32,
                        t,
                    );
                assert(slide_along(p, from as int, j, kk, move_to_spec(mv), move_promo_spec(mv), mv & 0xf8000u32, t));
            }
        }
    }
}

/// Adds the four promotions of the pawn move from `from` to `to` with `flags`.
fn push_promotions(list: &mut MoveList, from: u8, to: u8, flags: u32)
    requires
        old(list).wf(),
        from < 64,
        to < 64,
        flags == FLAG_PROMO || flags == FLAG_CAPTURE | FLAG_PROMO,
        old(list).moves@.no_duplicates(),
        forall|m: u32|
            #[trigger] old(list).moves@.contains(m) ==> !(starts_at(m, from as int) && move_to_spec(m)
                == to),
    ensures
        final(list).wf(),
        extends(final(list).moves@, old(list).moves@),
        pawn_keys_rise(
            final(list).moves@,
            old(list).moves@.len() as int,
            pawn_group(from as int, to as int) * 4,
            pawn_group(from as int, to as int) * 4 + 4,
        ),
        forall|k: int|
            old(list).moves@.len() <= k < final(list).moves@.len() ==> starts_at(
                #[trigger] final(list).moves@[k],
                from as int,
            ),
        final(list).moves@.no_duplicates(),
        forall|mv: u32|
            #[trigger] final(list).moves@.contains(mv) <==> old(list).moves@.contains(mv) || (
            starts_at(mv, from as int) && move_to_spec(mv) == to && promo_kind(move_promo_spec(mv))
                && mv & 0xf8000u32 == flags),
{
    proof {
        lemma_flag_values();
    }
    let ghost l0 = list.moves@;
    let m1 = encode_move(from, to, QUEEN, flags);
    let m2 = encode_move(from, to, ROOK, flags);
    let m3 = encode_move(from, to, BISHOP, flags);
    let m4 = encode_move(from, to, KNIGHT, flags);
    proof {
        lemma_decode_encode(from as u32, to as u32, QUEEN as u32, flags);
        lemma_decode_encode(from as u32, to as u32, ROOK as u32, flags);
        lemma_decode_encode(from as u32, to as u32, BISHOP as u32, flags);
        lemma_decode_encode(from as u32, to as u32, KNIGHT as u32, flags);
        lemma_push_fresh(list.moves@, m1);
        lemma_push_fresh(list.moves@.push(m1), m2);
        lemma_push_fresh(list.moves@.push(m1).push(m2), m3);
        lemma_push_fresh(list.moves@.push(m1).push(m2).push(m3), m4);
    }
    list.push(m1);
    list.push(m2);
    list.push(m3);
    list.push(m4);
    proof {
        assert forall|mv: u32|
            #[trigger] list.moves@.contains(mv) <==> l0.contains(mv) || (starts_at(mv, from as int)
                && move_to_spec(mv) == to && promo_kind(move_promo_spec(mv)) && mv & 0xf8000u32
                == flags) by {
            if starts_at(mv, from as int) && move_to_spec(mv) == to && promo_kind(move_promo_spec(mv)) {
                lemma_recompose(mv);
            }
        }
    }
}

/// Adds the pawn pushes (single, promoting and double) from `from`.
#[verifier::spinoff_prover]
fn gen_pawn_pushes(pos: &Position, list: &mut MoveList, from: u8, t: bool)
    requires
        pos@.layout_ok(),
        old(list).wf(),
        from < 64,
        abs_of(pos@.board[from as int] as int) == PAWN,
        old(list).moves@.no_duplicates(),
        forall|m: u32|
            #[trigger] old(list).moves@.contains(m) ==> !(starts_at(m, from as int) && file_of(
                move_to_spec(m),
            ) == file_of(from as int)),
    ensures
        final(list).wf(),
        extends(final(list).moves@, old(list).moves@),
        keys_rise(final(list).moves@, old(list).moves@.len() as int, pos@, 0, 5),
        forall|k: int|
            old(list).moves@.len() <= k < final(list).moves@.len() ==> starts_at(
                #[trigger] final(list).moves@[k],
                from as int,
            ),
        final(list).moves@.no_duplicates(),
        forall|mv: u32|
            #[trigger] final(list).moves@.contains(mv) <==> old(list).moves@.contains(mv) || (
            starts_at(mv, from as int) && (pawn_push(
                pos@,
                from as int,
                move_to_spec(mv),
                move_promo_spec(mv),
                mv & 0xf8000u32,
                t,
            ) || pawn_double(
                pos@,
                from as int,
                move_to_spec(mv),
                move_promo_spec(mv),
                mv & 0xf8000u32,
                t,
            ))),
{
    proof {
        lemma_flag_values();
    }
    let ghost p = pos@;
    let ghost l0 = list.moves@;
    let side = pos.side;
    let ff = file(from);
    let fr = rank(from);
    let promotion_rank: i8 = if side == WHITE {
        7
    } else {
        0
    };
    let start_rank: i8 = if side == WHITE {
        1
    } else {
        6
    };
    let mut single: Option<u32> = None;
    let mut double: Option<u32> = None;
    if let Some(to) = square(ff, fr + side) {
        if pos.board[to as usize] == EMPTY {
            if rank(to) == promotion_rank {
                push_promotions(list, from, to, FLAG_PROMO);
                proof {
                    let l = list.moves@;
                    assert(pawn_group(from as int, to as int) == 0);
                    assert forall|a: int| l0.len() <= a < l.len() implies gen_key(p, #[trigger] l[a])
                        == pawn_key(l[a]) by {
                        assert(starts_at(l[a], from as int));
                    }
                }
            } else if !t {
                let m = encode_move(from, to, 0, 0);
                proof {
                    lemma_decode_encode(from as u32, to as u32, 0, 0);
                    lemma_push_fresh(list.moves@, m);
                }
                list.push(m);
                single = Some(m);
                proof {
                    assert(starts_at(m, from as int)) by {
                        lemma_recompose(m);
                    }
                    assert(pawn_key(m) == 0);
                    assert(list.moves@ == l0.push(m));
                }
                if fr == start_rank {
                    let to2 = match square(ff, fr + 2 * side) {
                        Some(s) => s,
                        None => {
                            assert(false);
                            0
                        },
                    };
                    if pos.board[to2 as usize] == EMPTY {
                        let m2 = encode_move(from, to2, 0, FLAG_DOUBLE);
                        proof {
                            lemma_decode_encode(from as u32, to2 as u32, 0, FLAG_DOUBLE);
                            assert(!list.moves@.contains(m2)) by {
                                if list.moves@.contains(m2) {
                                    let j = choose|j: int| 0 <= j < list.moves@.len() && list.moves@[j] == m2;
                                    if j == list.moves@.len() - 1 {
                                        assert(list.moves@[j] == m);
                                    } else {
                                        assert(l0[j] == m2);
                                        assert(l0.contains(m2));
                                    }
                                }
                            }
                            lemma_push_fresh(list.moves@, m2);
                        }
                        list.push(m2);
                        double = Some(m2);
                        proof {
                            assert(starts_at(m2, from as int)) by {
                                lemma_recompose(m2);
                            }
                            assert(pawn_group(from as int, to2 as int) == 1);
                            assert(pawn_key(m2) == 4);
                            assert(list.moves@ == l0.push(m).push(m2));
                        }
                    }
                }
            }
        }
    }
    proof {
        assert forall|mv: u32|
            #[trigger] list.moves@.contains(mv) <==> l0.contains(mv) || (starts_at(mv, from as int)
                && (pawn_push(p, from as int, move_to_spec(mv), move_promo_spec(mv), mv & 0xf8000u32, t)
                || pawn_double(p, from as int, move_to_spec(mv), move_promo_spec(mv), mv & 0xf8000u32, t))) by {
            if starts_at(mv, from as int) {
                lemma_recompose(mv);
            }
        }
    }
}

/// Adds the diagonal captures (and en-passant capture) towards file offset `df`.
#[verifier::spinoff_prover]
fn gen_pawn_side(pos: &Position, list: &mut MoveList, from: u8, df: i8)
    requires
        pos@.layout_ok(),
        old(list).wf(),
        from < 64,
        abs_of(pos@.board[from as int] as int) == PAWN,
        df == 1 || df == -1,
        old(list).moves@.no_duplicates(),
        forall|m: u32|
            #[trigger] old(list).moves@.contains(m) ==> !(starts_at(m, from as int) && file_of(
                move_to_spec(m),
            ) == file_of(from as int) + df),
    ensures
        final(list).wf(),
        extends(final(list).moves@, old(list).moves@),
        keys_rise(
            final(list).moves@,
            old(list).moves@.len() as int,
            pos@,
            if df < 0 {
                8
            } else {
                12
            },
            if df < 0 {
                12
            } else {
                16
            },
        ),
        forall|k: int|
            old(list).moves@.len() <= k < final(list).moves@.len() ==> starts_at(
                #[trigger] final(list).moves@[k],
                from as int,
            ),
        final(list).moves@.no_duplicates(),
        forall|mv: u32|
            #[trigger] final(list).moves@.contains(mv) <==> old(list).moves@.contains(mv) || (
            starts_at(mv, from as int) && pawn_side(
                pos@,
                from as int,
                df as int,
                move_to_spec(mv),
                move_promo_spec(mv),
                mv & 0xf8000u32,
            )),
{
    proof {
        lemma_flag_values();
    }
    let ghost p = pos@;
    let ghost l0 = list.moves@;
    let side = pos.side;
    let ff = file(from);
    let fr = rank(from);
    let promotion_rank: i8 = if side == WHITE {
        7
    } else {
        0
    };
    if let Some(to) = square(ff + df, fr + side) {
        let target = pos.board[to as usize];
        if color(target) == -side && kind(target) != KING {
            if rank(to) == promotion_rank {
                push_promotions(list, from, to, FLAG_CAPTURE | FLAG_PROMO);
                proof {
                    let l = list.moves@;
                    assert(pawn_group(from as int, to as int) == if df < 0 {
                        2int
                    } else {
                        3
                    });
                    assert forall|a: int| l0.len() <= a < l.len() implies gen_key(p, #[trigger] l[a])
                        == pawn_key(l[a]) by {
                        assert(starts_at(l[a], from as int));
                    }
                }
            } else {
                let m = encode_move(from, to, 0, FLAG_CAPTURE);
                proof {
                    lemma_decode_encode(from as u32, to as u32, 0, FLAG_CAPTURE);
                    lemma_push_fresh(list.moves@, m);
                }
                list.push(m);
                proof {
                    assert(starts_at(m, from as int)) by {
                        lemma_recompose(m);
                    }
                    assert(pawn_group(from as int, to as int) == if df < 0 {
                        2int
                    } else {
                        3
                    });
                    assert(list.moves@ == l0.push(m));
                }
            }
        } else if pos.ep == to as i8 && target == EMPTY && pos.board[(to as i16 - side as i16 * 8) as usize] == -side * PAWN {
            let m = encode_move(from, to, 0, FLAG_CAPTURE | FLAG_EP);
            proof {
                lemma_decode_encode(from as u32, to as u32, 0, FLAG_CAPTURE | FLAG_EP);
                lemma_push_fresh(list.moves@, m);
            }
            list.push(m);
            proof {
                assert(starts_at(m, from as int)) by {
                    lemma_recompose(m);
                }
                assert(pawn_group(from as int, to as int) == if df < 0 {
                    2int
                } else {
                    3
                });
                assert(list.moves@ == l0.push(m));
            }
        }
    }
    proof {
        assert forall|mv: u32|
            #[trigger] list.moves@.contains(mv) <==> l0.contains(mv) || (starts_at(mv, from as int)
                && pawn_side(p, from as int, df as int, move_to_spec(mv), move_promo_spec(mv), mv & 0xf8000u32)) by {
            if starts_at(mv, from as int) {
                lemma_recompose(mv);
            }
        }
    }
}

/// A castling move is not yet in a list that holds only castling moves to the other side and
/// moves of other kinds.
proof fn lemma_castle_fresh(list: Seq<u32>, l0: Seq<u32>, m: u32, from: int)
    requires
        starts_at(m, from),
        file_of(move_to_spec(m)) == file_of(from) + 2 || file_of(move_to_spec(m)) == file_of(from)
            - 2,
        forall|x: u32|
            #[trigger] l0.contains(x) ==> !(starts_at(x, from) && (file_of(move_to_spec(x))
                == file_of(from) + 2 || file_of(move_to_spec(x)) == file_of(from) - 2)),
        list.len() >= l0.len(),
        list.len() <= l0.len() + 1,
        list.subrange(0, l0.len() as int) == l0,
        list.len() == l0.len() + 1 ==> move_to_spec(list.last()) != move_to_spec(m),
    ensures
        !list.contains(m),
{
    if list.contains(m) {
        let j = choose|j: int| 0 <= j < list.len() && list[j] == m;
        if j < l0.len() {
            assert(l0[j] == list.subrange(0, l0.len() as int)[j]);
            assert(l0.contains(m));
        }
    }
}

/// Adds the castling moves of the king on `from`.
#[verifier::spinoff_prover]
fn gen_castles(pos: &Position, list: &mut MoveList, from: u8, t: bool)
    requires
        pos@.layout_ok(),
        old(list).wf(),
        from < 64,
        abs_of(pos@.board[from as int] as int) == KING,
        old(list).moves@.no_duplicates(),
        forall|m: u32|
            #[trigger] old(list).moves@.contains(m) ==> !(starts_at(m, from as int) && (file_of(
                move_to_spec(m),
            ) == file_of(from as int) + 2 || file_of(move_to_spec(m)) == file_of(from as int) - 2)),
    ensures
        final(list).wf(),
        extends(final(list).moves@, old(list).moves@),
        keys_rise(final(list).moves@, old(list).moves@.len() as int, pos@, 8, 10),
        forall|k: int|
            old(list).moves@.len() <= k < final(list).moves@.len() ==> starts_at(
                #[trigger] final(list).moves@[k],
                from as int,
            ),
        final(list).moves@.no_duplicates(),
        forall|mv: u32|
            #[trigger] final(list).moves@.contains(mv) <==> old(list).moves@.contains(mv) || (
            starts_at(mv, from as int) && castle_move(
                pos@,
                from as int,
                move_to_spec(mv),
                move_promo_spec(mv),
                mv & 0xf8000u32,
                t,
            )),
{
    proof {
        lemma_flag_values();
    }
    let ghost p = pos@;
    let ghost l0 = list.moves@;
    let side = pos.side;
    let side_rights: u8 = if side == WHITE {
        3
    } else {
        12
    };
    if !t && pos.castle & side_rights != 0 && !pos.in_check(side) {
        if side == WHITE && from == 4 {
            if pos.castle & 1 != 0 && pos.board[5] == 0 && pos.board[6] == 0 && pos.board[7] == ROOK
                && !pos.is_attacked(5, BLACK) && !pos.is_attacked(6, BLACK) {
                let m = encode_move(4, 6, 0, FLAG_CASTLE);
                proof {
                    lemma_decode_encode(4u32, 6u32, 0, FLAG_CASTLE);
                    assert(list.moves@.subrange(0, l0.len() as int) =~= l0);
                    lemma_castle_fresh(list.moves@, l0, m, from as int);
                    lemma_push_fresh(list.moves@, m);
                }
                list.push(m);
                proof {
                    assert(starts_at(m, from as int)) by {
                        lemma_recompose(m);
                    }
                    assert(gen_key(p, m) == 8);
                }
            }
            if pos.castle & 2 != 0 && pos.board[3] == 0 && pos.board[2] == 0 && pos.board[1] == 0
                && pos.board[0] == ROOK && !pos.is_attacked(3, BLACK) && !pos.is_attacked(2, BLACK) {
                let m = encode_move(4, 2, 0, FLAG_CASTLE);
                proof {
                    lemma_decode_encode(4u32, 2u32, 0, FLAG_CASTLE);
                    assert(list.moves@.subrange(0, l0.len() as int) =~= l0);
                    lemma_castle_fresh(list.moves@, l0, m, from as int);
                    lemma_push_fresh(list.moves@, m);
                }
                list.push(m);
                proof {
                    assert(starts_at(m, from as int)) by {
                        lemma_recompose(m);
                    }
                    assert(gen_key(p, m) == 9);
                }
            }
        } else if side == BLACK && from == 60 {
            if pos.castle & 4 != 0 && pos.board[61] == 0 && pos.board[62] == 0 && pos.board[63]
                == -ROOK && !pos.is_attacked(61, WHITE) && !pos.is_attacked(62, WHITE) {
                let m = encode_move(60, 62, 0, FLAG_CASTLE);
                proof {
                    lemma_decode_encode(60u32, 62u32, 0, FLAG_CASTLE);
                    assert(list.moves@.subrange(0, l0.len() as int) =~= l0);
                    lemma_castle_fresh(list.moves@, l0, m, from as int);
                    lemma_push_fresh(list.moves@, m);
                }
                list.push(m);
                proof {
                    assert(starts_at(m, from as int)) by {
                        lemma_recompose(m);
                    }
                    assert(gen_key(p, m) == 8);
                }
            }
            if pos.castle & 8 != 0 && pos.board[59] == 0 && pos.board[58] == 0 && pos.board[57]
                == 0 && pos.board[56] == -ROOK && !pos.is_attacked(59, WHITE) && !pos.is_attacked(
                58,
                WHITE,
            ) {
                let m = encode_move(60, 58, 0, FLAG_CASTLE);
                proof {
                    lemma_decode_encode(60u32, 58u32, 0, FLAG_CASTLE);
                    assert(list.moves@.subrange(0, l0.len() as int) =~= l0);
                    lemma_castle_fresh(list.moves@, l0, m, from as int);
                    lemma_push_fresh(list.moves@, m);
                }
                list.push(m);
                proof {
                    assert(starts_at(m, from as int)) by {
                        lemma_recompose(m);
                    }
                    assert(gen_key(p, m) == 9);
                }
            }
        }
    }
    proof {
        let c = p.castle as u8;
        assert(c & 3u8 == 0 ==> c & 1u8 == 0 && c & 2u8 == 0) by (bit_vector);
        assert(c & 12u8 == 0 ==> c & 4u8 == 0 && c & 8u8 == 0) by (bit_vector);
        assert forall|mv: u32|
            #[trigger] list.moves@.contains(mv) <==> l0.contains(mv) || (starts_at(mv, from as int)
                && castle_move(p, from as int, move_to_spec(mv), move_promo_spec(mv), mv & 0xf8000u32, t)) by {
            if starts_at(mv, from as int) {
                lemma_recompose(mv);
            }
        }
    }
}

/// Adds the moves of the pawn on `from`: pushes, then captures towards the a-file, then
/// towards the h-file.
#[verifier::spinoff_prover]
fn gen_pawn(pos: &Position, list: &mut MoveList, from: u8, t: bool)
    requires
        pos@.layout_ok(),
        old(list).wf(),
        from < 64,
        abs_of(pos@.board[from as int] as int) == PAWN,
        old(list).moves@.no_duplicates(),
        forall|m: u32| #[trigger] old(list).moves@.contains(m) ==> move_from_spec(m) != from,
    ensures
        final(list).wf(),
        extends(final(list).moves@, old(list).moves@),
        keys_rise(final(list).moves@, old(list).moves@.len() as int, pos@, 0, 16),
        forall|k: int|
            old(list).moves@.len() <= k < final(list).moves@.len() ==> starts_at(
                #[trigger] final(list).moves@[k],
                from as int,
            ),
        final(list).moves@.no_duplicates(),
        forall|mv: u32|
            #[trigger] final(list).moves@.contains(mv) <==> old(list).moves@.contains(mv) || (
            starts_at(mv, from as int) && pawn_move(
                pos@,
                from as int,
                move_to_spec(mv),
                move_promo_spec(mv),
                mv & 0xf8000u32,
                t,
            )),
{
    let ghost p = pos@;
    let ghost l0 = list.moves@;
    gen_pawn_pushes(pos, list, from, t);
    proof {
        assert forall|m: u32| #[trigger] list.moves@.contains(m) implies !(starts_at(
            m,
            from as int,
        ) && file_of(move_to_spec(m)) == file_of(from as int) - 1) by {}
    }
    let ghost l1 = list.moves@;
    gen_pawn_side(pos, list, from, -1);
    proof {
        lemma_keys_join(l1, list.moves@, l0.len() as int, p, 0, 8, 12, from as int);
    }
    let ghost l2 = list.moves@;
    proof {
        assert forall|m: u32| #[trigger] list.moves@.contains(m) implies !(starts_at(
            m,
            from as int,
        ) && file_of(move_to_spec(m)) == file_of(from as int) + 1) by {
            if l1.contains(m) {
            }
        }
    }
    gen_pawn_side(pos, list, from, 1);
    proof {
        lemma_keys_join(l2, list.moves@, l0.len() as int, p, 0, 12, 16, from as int);
    }
}

/// Adds the moves of the king on `from`: its steps, then castling.
#[verifier::spinoff_prover]
fn gen_king(pos: &Position, list: &mut MoveList, from: u8, t: bool)
    requires
        pos@.layout_ok(),
        old(list).wf(),
        from < 64,
        abs_of(pos@.board[from as int] as int) == KING,
        old(list).moves@.no_duplicates(),
        forall|m: u32| #[trigger] old(list).moves@.contains(m) ==> move_from_spec(m) != from,
    ensures
        final(list).wf(),
        extends(final(list).moves@, old(list).moves@),
        keys_rise(final(list).moves@, old(list).moves@.len() as int, pos@, 0, 10),
        forall|k: int|
            old(list).moves@.len() <= k < final(list).moves@.len() ==> starts_at(
                #[trigger] final(list).moves@[k],
                from as int,
            ),
        final(list).moves@.no_duplicates(),
        forall|mv: u32|
            #[trigger] final(list).moves@.contains(mv) <==> old(list).moves@.contains(mv) || (
            starts_at(mv, from as int) && (king_step_move(
                pos@,
                from as int,
                move_to_spec(mv),
                move_promo_spec(mv),
                mv & 0xf8000u32,
                t,
            ) || castle_move(
                pos@,
                from as int,
                move_to_spec(mv),
                move_promo_spec(mv),
                mv & 0xf8000u32,
                t,
            ))),
{
    let ghost p = pos@;
    let ghost l0 = list.moves@;
    gen_steps(pos, list, from, t, false);
    proof {
        assert forall|m: u32| #[trigger] list.moves@.contains(m) implies !(starts_at(
            m,
            from as int,
        ) && (file_of(move_to_spec(m)) == file_of(from as int) + 2 || file_of(move_to_spec(m))
            == file_of(from as int) - 2)) by {
            if !l0.contains(m) && starts_at(m, from as int) {
                let j = choose|j: int|
                    0 <= j < 8 && #[trigger] step_at(
                        p,
                        from as int,
                        j,
                        move_to_spec(m),
                        move_promo_spec(m),
                        m & 0xf8000u32,
                        t,
                        false,
                    );
            }
        }
    }
    let ghost l_steps = list.moves@;
    gen_castles(pos, list, from, t);
    proof {
        lemma_keys_join(l_steps, list.moves@, l0.len() as int, p, 0, 8, 10, from as int);
    }
}

/// Adds the pseudo-legal moves of the piece on `from`.
#[verifier::spinoff_prover]
fn gen_piece(pos: &Position, list: &mut MoveList, from: u8, tactical_only: bool)
    requires
        pos@.layout_ok(),
        old(list).wf(),
        from < 64,
        old(list).moves@.no_duplicates(),
        forall|m: u32| #[trigger] old(list).moves@.contains(m) ==> move_from_spec(m) != from,
    ensures
        final(list).wf(),
        extends(final(list).moves@, old(list).moves@),
        keys_rise(final(list).moves@, old(list).moves@.len() as int, pos@, 0, 64),
        forall|k: int|
            old(list).moves@.len() <= k < final(list).moves@.len() ==> starts_at(
                #[trigger] final(list).moves@[k],
                from as int,
            ),
        final(list).moves@.no_duplicates(),
        forall|mv: u32|
            #[trigger] final(list).moves@.contains(mv) <==> old(list).moves@.contains(mv) || (
            starts_at(mv, from as int) && pseudo_move(pos@, mv, tactical_only)),
{
    let ghost p = pos@;
    let ghost l0 = list.moves@;
    let side = pos.side;
    let piece = pos.board[from as usize];
    if color(piece) == side {
        let k = kind(piece);
        if k == PAWN {
            gen_pawn(pos, list, from, tactical_only);
        } else if k == KNIGHT {
            gen_steps(pos, list, from, tactical_only, true);
        } else if k == BISHOP || k == ROOK || k == QUEEN {
            gen_slides(pos, list, from, tactical_only);
        } else if k == KING {
            gen_king(pos, list, from, tactical_only);
        }
    }
    proof {
        assert forall|mv: u32|
            #[trigger] list.moves@.contains(mv) <==> l0.contains(mv) || (starts_at(mv, from as int)
                && pseudo_move(p, mv, tactical_only)) by {
        }
    }
}

/// A move marked as a capture or a promotion.
pub open spec fn tactical_flags(mv: u32) -> bool {
    mv & FLAG_CAPTURE != 0 || mv & FLAG_PROMO != 0
}

/// The tactical pseudo-legal moves are exactly the pseudo-legal moves marked as captures or
/// promotions.
pub proof fn lemma_tactical_iff(p: PositionModel, mv: u32)
    ensures
        pseudo_move(p, mv, true) == (pseudo_move(p, mv, false) && tactical_flags(mv)),
{
    lemma_flag_values();
    lemma_flag_bits(mv);
    let from = move_from_spec(mv);
    let to = move_to_spec(mv);
    let promo = move_promo_spec(mv);
    let flags = mv & 0xf8000u32;
    let k = abs_of(p.board[from] as int);
    if k == KNIGHT || k == KING {
        let kn = k == KNIGHT;
        if step_move(p, from, to, promo, flags, true, kn) {
            let i = choose|i: int| 0 <= i < 8 && #[trigger] step_at(p, from, i, to, promo, flags, true, kn);
            assert(step_at(p, from, i, to, promo, flags, false, kn));
        }
        if step_move(p, from, to, promo, flags, false, kn) && tactical_flags(mv) {
            let i = choose|i: int| 0 <= i < 8 && #[trigger] step_at(p, from, i, to, promo, flags, false, kn);
            assert(step_at(p, from, i, to, promo, flags, true, kn));
        }
    } else if k == BISHOP || k == ROOK || k == QUEEN {
        if slide_move(p, from, to, promo, flags, true) {
            let (i, kk) = choose|i: int, kk: int|
                0 <= i < slide_dir_count(k) && #[trigger] slide_along(p, from, i, kk, to, promo, flags, true);
            assert(slide_along(p, from, i, kk, to, promo, flags, false));
        }
        if slide_move(p, from, to, promo, flags, false) && tactical_flags(mv) {
            let (i, kk) = choose|i: int, kk: int|
                0 <= i < slide_dir_count(k) && #[trigger] slide_along(p, from, i, kk, to, promo, flags, false);
            assert(slide_along(p, from, i, kk, to, promo, flags, true));
        }
    }
}

/// `x` comes before `y` in generation order.
pub open spec fn gen_before(p: PositionModel, x: u32, y: u32) -> bool {
    move_from_spec(x) < move_from_spec(y) || (move_from_spec(x) == move_from_spec(y) && gen_key(
        p,
        x,
    ) < gen_key(p, y))
}

/// Filtering a list in generation order keeps it in generation order.
proof fn lemma_filter_in_gen_order(l: Seq<u32>, p: PositionModel, f: spec_fn(u32) -> bool)
    requires
        in_gen_order(l, p),
    ensures
        in_gen_order(l.filter(f), p),
    decreases l.len(),
{
    reveal(Seq::filter);
    if l.len() > 0 {
        let d = l.drop_last();
        assert(in_gen_order(d, p)) by {
            assert forall|a: int, b: int| 0 <= a < b < d.len() implies gen_before(p, #[trigger] d[a], #[trigger] d[b]) by {
                assert(d[a] == l[a] && d[b] == l[b]);
            }
        }
        lemma_filter_in_gen_order(d, p, f);
        let sub = d.filter(f);
        if f(l.last()) {
            let out = sub.push(l.last());
            assert forall|a: int, b: int| 0 <= a < b < out.len() implies gen_before(p, #[trigger] out[a], #[trigger] out[b]) by {
                if b == out.len() - 1 {
                    assert(sub.contains(sub[a]));
                    d.lemma_filter_contains_rev(f, sub[a]);
                    let j = choose|j: int| 0 <= j < d.len() && d[j] == sub[a];
                    assert(l[j] == out[a] && l[l.len() - 1] == out[b]);
                } else {
                    assert(out[a] == sub[a] && out[b] == sub[b]);
                }
            }
        }
    }
}

proof fn lemma_square_parts(f: int, r: int)
    requires
        0 <= f < 8,
        0 <= r < 8,
    ensures
        file_of(r * 8 + f) == f,
        rank_of(r * 8 + f) == r,
{
    assert((r * 8 + f) % 8 == f && (r * 8 + f) / 8 == r) by (nonlinear_arith)
        requires
            0 <= f < 8,
            0 <= r < 8,
    ;
}

/// A pseudo-legal move marked en passant is a pawn's diagonal step onto the en-passant square.
proof fn lemma_ep_move_shape(p: PositionModel, mv: u32)
    requires
        p.layout_ok(),
        pseudo_move(p, mv, false),
        mv & FLAG_EP != 0,
    ensures
        p.board[move_from_spec(mv)] == p.side * PAWN,
        move_to_spec(mv) == p.ep,
        move_promo_spec(mv) == 0,
        mv & FLAG_PROMO == 0,
        square_at(file_of(move_from_spec(mv)) - 1, rank_of(move_from_spec(mv)) + p.side) == Some(p.ep as int)
            || square_at(file_of(move_from_spec(mv)) + 1, rank_of(move_from_spec(mv)) + p.side) == Some(p.ep as int),
{
    lemma_flag_values();
    lemma_flag_bits(mv);
    let from = move_from_spec(mv);
    let to = move_to_spec(mv);
    let promo = move_promo_spec(mv);
    let flags = mv & 0xf8000u32;
    let k = abs_of(p.board[from] as int);
    if k == KNIGHT || k == KING {
        let kn = k == KNIGHT;
        if step_move(p, from, to, promo, flags, false, kn) {
            let i = choose|i: int| 0 <= i < 8 && #[trigger] step_at(p, from, i, to, promo, flags, false, kn);
            assert(step_at(p, from, i, to, promo, flags, false, kn));
        }
    } else if k == BISHOP || k == ROOK || k == QUEEN {
        let (i, kk) = choose|i: int, kk: int|
            0 <= i < slide_dir_count(k) && #[trigger] slide_along(p, from, i, kk, to, promo, flags, false);
        assert(slide_along(p, from, i, kk, to, promo, flags, false));
    }
}

/// Every pseudo-legal move moves a piece of the side to move, never takes a king, and is marked
/// as a capture exactly when it lands on an enemy piece or captures en passant.
pub proof fn law_pseudo_move_facts(p: PositionModel, mv: u32, t: bool)
    requires
        p.layout_ok(),
        pseudo_move(p, mv, t),
    ensures
        sign_of(p.board[move_from_spec(mv)] as int) == p.side,
        abs_of(p.board[move_to_spec(mv)] as int) != KING,
        (mv & FLAG_CAPTURE != 0) == (sign_of(p.board[move_to_spec(mv)] as int) == -p.side || mv
            & FLAG_EP != 0),
{
    lemma_flag_values();
    lemma_flag_bits(mv);
    let from = move_from_spec(mv);
    let to = move_to_spec(mv);
    let promo = move_promo_spec(mv);
    let flags = mv & 0xf8000u32;
    let k = abs_of(p.board[from] as int);
    if k == KNIGHT || k == KING {
        let kn = k == KNIGHT;
        if step_move(p, from, to, promo, flags, t, kn) {
            let i = choose|i: int| 0 <= i < 8 && #[trigger] step_at(p, from, i, to, promo, flags, t, kn);
            assert(step_at(p, from, i, to, promo, flags, t, kn));
        }
    } else if k == BISHOP || k == ROOK || k == QUEEN {
        let (i, kk) = choose|i: int, kk: int|
            0 <= i < slide_dir_count(k) && #[trigger] slide_along(p, from, i, kk, to, promo, flags, t);
        assert(slide_along(p, from, i, kk, to, promo, flags, t));
    }
}

/// The en-passant file enters the hash exactly when a legal en-passant capture exists.
pub proof fn law_ep_file_iff_ep_capture(p: PositionModel)
    requires
        p.layout_ok(),
    ensures
        p.ep_file() == (if exists|mv: u32| #[trigger] legal_move(p, mv, false) && mv & FLAG_EP != 0 {
            Some(file_of(p.ep as int))
        } else {
            None
        }),
{
    reveal(ep_file_of);
    lemma_flag_values();
    let s = p.side;
    let b = p.board;
    let king = p.king_square(s);
    let ep = p.ep as int;
    if exists|mv: u32| #[trigger] legal_move(p, mv, false) && mv & FLAG_EP != 0 {
        let mv = choose|mv: u32| #[trigger] legal_move(p, mv, false) && mv & FLAG_EP != 0;
        lemma_ep_move_shape(p, mv);
        lemma_pseudo_move_ok(p, mv, false);
        let from = move_from_spec(mv);
        assert(0 <= from < 64) by {
            assert(mv & 63u32 < 64) by (bit_vector);
        }
        lemma_square_parts(file_of(from), rank_of(from));
        let df: int = if square_at(file_of(from) - 1, rank_of(from) + s) == Some(ep) {
            1
        } else {
            -1
        };
        lemma_square_parts(file_of(from) - df, rank_of(from) + s);
        assert(square_at(file_of(ep) + df, rank_of(ep) - s) == Some(from));
        assert(board_for_safety(p, mv, s) =~= b.update(from, 0).update(ep - s * 8, 0).update(ep, (s * PAWN) as i8));
        assert(ep_capturer_of(b, s, ep, king, df));
    } else if ep >= 0 {
        if ep_capturer_of(b, s, ep, king, -1) || ep_capturer_of(b, s, ep, king, 1) {
            let df: int = if ep_capturer_of(b, s, ep, king, -1) {
                -1
            } else {
                1
            };
            let from = square_at(file_of(ep) + df, rank_of(ep) - s)->0;
            lemma_square_parts(file_of(ep) + df, rank_of(ep) - s);
            lemma_square_parts(file_of(ep), rank_of(ep));
            assert(0 <= ep < 64);
            let flags = FLAG_CAPTURE | FLAG_EP;
            let mv = encoded(from as u32, ep as u32, 0u32, flags);
            lemma_decode_encode(from as u32, ep as u32, 0u32, flags);
            let fu = from as u32;
            let eu = ep as u32;
            assert(fu | (eu << 6u32) | (0u32 << 12u32) | 0x18000u32 < 0x100000u32) by (bit_vector)
                requires
                    fu < 64u32,
                    eu < 64u32,
            ;
            assert(square_at(file_of(from) - df, rank_of(from) + s) == Some(ep));
            assert(pawn_side(p, from, -df, ep, 0, mv & 0xf8000u32));
            assert(pseudo_move(p, mv, false));
            assert(board_for_safety(p, mv, s) =~= b.update(from, 0).update(ep - s * 8, 0).update(ep, (s * PAWN) as i8));
            assert(legal_move(p, mv, false) && mv & FLAG_EP != 0);
            assert(false);
        }
    }
}

/// What `generate_legal` lists is what `generate_pseudo` lists (with the same choice of tactical
/// moves only), filtered to the moves that keep the mover's king safe, in the same order.
pub proof fn law_legal_list_is_filtered(p: PositionModel, pseudo: Seq<u32>, legal: Seq<u32>, t: bool)
    requires
        in_gen_order(pseudo, p),
        forall|mv: u32| #[trigger] pseudo.contains(mv) <==> pseudo_move(p, mv, t),
        legal.no_duplicates(),
        in_gen_order(legal, p),
        forall|mv: u32| #[trigger] legal.contains(mv) <==> legal_move(p, mv, t),
    ensures
        legal == pseudo.filter(|mv: u32| keeps_king_safe(p, mv, p.side)),
{
    broadcast use vstd::seq_lib::group_filter_ensures;

    let f = |mv: u32| keeps_king_safe(p, mv, p.side);
    let filtered = pseudo.filter(f);
    lemma_filter_in_gen_order(pseudo, p, f);
    assert forall|x: u32| filtered.contains(x) <==> legal.contains(x) by {
        if filtered.contains(x) {
            pseudo.lemma_filter_contains_rev(f, x);
            let i = choose|i: int| 0 <= i < filtered.len() && filtered[i] == x;
            assert(f(filtered[i]));
        }
        if legal.contains(x) {
            assert(pseudo.contains(x));
            let i = choose|i: int| 0 <= i < pseudo.len() && pseudo[i] == x;
            assert(filtered.contains(pseudo[i]));
        }
    }
    assert(filtered.no_duplicates()) by {
        assert forall|a: int, b: int| 0 <= a < filtered.len() && 0 <= b < filtered.len() && a != b
            implies filtered[a] != filtered[b] by {
            if a < b {
                assert(gen_before(p, filtered[a], filtered[b]));
            } else {
                assert(gen_before(p, filtered[b], filtered[a]));
            }
        }
    }
    lemma_gen_order_unique(legal, filtered, p);
}

/// What `generate_pseudo` lists when asked for tactical moves only is what it lists for all
/// moves, filtered to the captures and promotions, in the same order.
pub proof fn law_tactical_list_is_filtered(p: PositionModel, full: Seq<u32>, tactical: Seq<u32>)
    requires
        in_gen_order(full, p),
        forall|mv: u32| #[trigger] full.contains(mv) <==> pseudo_move(p, mv, false),
        tactical.no_duplicates(),
        in_gen_order(tactical, p),
        forall|mv: u32| #[trigger] tactical.contains(mv) <==> pseudo_move(p, mv, true),
    ensures
        tactical == full.filter(|mv: u32| tactical_flags(mv)),
{
    let f = |mv: u32| tactical_flags(mv);
    let filtered = full.filter(f);
    lemma_filter_in_gen_order(full, p, f);
    broadcast use vstd::seq_lib::group_filter_ensures;

    assert forall|x: u32| filtered.contains(x) <==> tactical.contains(x) by {
        lemma_tactical_iff(p, x);
        if filtered.contains(x) {
            full.lemma_filter_contains_rev(f, x);
            let i = choose|i: int| 0 <= i < filtered.len() && filtered[i] == x;
            assert(f(filtered[i]));
        }
        if tactical.contains(x) {
            assert(full.contains(x));
            let i = choose|i: int| 0 <= i < full.len() && full[i] == x;
            assert(filtered.contains(full[i]));
        }
    }
    assert(filtered.no_duplicates()) by {
        assert forall|a: int, b: int| 0 <= a < filtered.len() && 0 <= b < filtered.len() && a != b
            implies filtered[a] != filtered[b] by {
            if a < b {
                assert(gen_before(p, filtered[a], filtered[b]));
            } else {
                assert(gen_before(p, filtered[b], filtered[a]));
            }
        }
    }
    lemma_gen_order_unique(tactical, filtered, p);
}

/// Generates the pseudo-legal moves of the side to move (only captures, promotions and
/// en-passant captures when `tactical_only`), each once, origin square by origin square and
/// each piece's moves in the order of `gen_key`.
#[verifier::spinoff_prover]
pub fn generate_pseudo(pos: &Position, list: &mut MoveList, tactical_only: bool)
    requires
        pos@.layout_ok(),
    ensures
        final(list).wf(),
        final(list).moves@.no_duplicates(),
        by_origin(final(list).moves@),
        in_gen_order(final(list).moves@, pos@),
        forall|mv: u32|
            #[trigger] final(list).moves@.contains(mv) <==> pseudo_move(pos@, mv, tactical_only),
{
    let ghost p = pos@;
    list.clear();
    for from in 0..64u8
        invariant
            p == pos@,
            p.layout_ok(),
            list.wf(),
            list.moves@.no_duplicates(),
            lists_moves_below(list.moves@, p, tactical_only, from as int),
            by_origin(list.moves@),
            in_gen_order(list.moves@, p),
    {
        let ghost before = list.moves@;
        gen_piece(pos, list, from, tactical_only);
        proof {
            let l = list.moves@;
            assert forall|k: int| before.len() <= k < l.len() implies move_from_spec(#[trigger] l[k])
                == from by {
                let m = l[k];
                assert(l.contains(m));
                if before.contains(m) {
                    let q = choose|q: int| 0 <= q < before.len() && before[q] == m;
                    assert(l[q] == before[q]);
                    assert(false);
                }
            }
            assert forall|a: int| 0 <= a < before.len() implies move_from_spec(#[trigger] l[a])
                < from by {
                assert(l[a] == before[a]);
                assert(before.contains(before[a]));
            }
            assert forall|a: int, b: int| 0 <= a <= b < l.len() implies move_from_spec(
                #[trigger] l[a],
            ) <= move_from_spec(#[trigger] l[b]) by {
                if b < before.len() {
                    assert(l[a] == before[a]);
                    assert(l[b] == before[b]);
                }
            }
            assert forall|a: int, b: int| 0 <= a < b < l.len() implies move_from_spec(
                #[trigger] l[a],
            ) < move_from_spec(#[trigger] l[b]) || (move_from_spec(l[a]) == move_from_spec(l[b])
                && gen_key(p, l[a]) < gen_key(p, l[b])) by {
                if b < before.len() {
                    assert(l[a] == before[a]);
                    assert(l[b] == before[b]);
                }
            }
        }
        proof {
            assert forall|mv: u32|
                #[trigger] list.moves@.contains(mv) <==> (pseudo_move(p, mv, tactical_only)
                    && move_from_spec(mv) < from + 1) by {
                if move_from_spec(mv) == from && mv < 0x100000 {
                    assert(starts_at(mv, from as int));
                }
            }
        }
    }
    proof {
        assert forall|mv: u32| #[trigger] list.moves@.contains(mv) <==> pseudo_move(p, mv, tactical_only) by {
            if pseudo_move(p, mv, tactical_only) {
                lemma_recompose(mv);
            }
        }
    }
}

/// Whether playing `mv` leaves the king of `side` unattacked.
#[verifier::spinoff_prover]
pub fn move_keeps_king_safe(pos: &Position, mv: u32, side: i8) -> (safe: bool)
    requires
        pos@.layout_ok(),
        side == pos.side,
        mv & FLAG_EP != 0 ==> 0 <= move_to_spec(mv) - side * 8 < 64,
    ensures
        safe == keeps_king_safe(pos@, mv, side as int),
{
    let from = move_from(mv);
    let to = move_to(mv);
    let moving = pos.board[from as usize];
    let old_king = pos.king_of(side);
    let mut b = pos.board;
    b[from as usize] = EMPTY;
    if mv & FLAG_EP != 0 {
        let cap_sq = (to as i16 - side as i16 * 8) as u8;
        assert(cap_sq == to - side * 8);
        b[cap_sq as usize] = EMPTY;
    }
    b[to as usize] = if mv & FLAG_PROMO != 0 {
        if side == WHITE {
            move_promo(mv)
        } else {
            -move_promo(mv)
        }
    } else {
        moving
    };
    let king = if kind(moving) == KING {
        to
    } else {
        old_king
    };
    assert(b@ =~= board_for_safety(pos@, mv, side as int));
    !is_attacked_on(&b, king, -side)
}

/// Fills `list` with the legal moves of the side to move (only tactical ones when asked), each
/// once, in the order in which `generate_pseudo` lists them.
#[verifier::spinoff_prover]
pub fn generate_legal(pos: &Position, list: &mut MoveList, tactical_only: bool)
    requires
        pos@.layout_ok(),
    ensures
        final(list).wf(),
        final(list).moves@.no_duplicates(),
        by_origin(final(list).moves@),
        in_gen_order(final(list).moves@, pos@),
        forall|mv: u32| #[trigger] final(list).moves@.contains(mv) <==> legal_move(pos@, mv, tactical_only),
{
    let ghost p = pos@;
    let side = pos.side;
    let mut pseudo = MoveList::new();
    generate_pseudo(pos, &mut pseudo, tactical_only);
    list.clear();
    let n = pseudo.moves.len();
    for i in 0..n
        invariant
            p == pos@,
            p.layout_ok(),
            side == p.side,
            n == pseudo.moves@.len(),
            forall|mv: u32| #[trigger] pseudo.moves@.contains(mv) <==> pseudo_move(p, mv, tactical_only),
            pseudo.moves@.no_duplicates(),
            by_origin(pseudo.moves@),
            by_origin(list.moves@),
            in_gen_order(pseudo.moves@, p),
            in_gen_order(list.moves@, p),
            list.wf(),
            list.moves@.no_duplicates(),
            forall|mv: u32|
                #[trigger] list.moves@.contains(mv) <==> (exists|j: int|
                    0 <= j < i && pseudo.moves@[j] == mv) && keeps_king_safe(p, mv, side as int),
    {
        let mv = pseudo.moves[i];
        proof {
            assert(pseudo.moves@.contains(mv));
            lemma_pseudo_move_ok(p, mv, tactical_only);
        }
        if move_keeps_king_safe(pos, mv, side) {
            proof {
                if list.moves@.contains(mv) {
                    let j = choose|j: int| 0 <= j < i && pseudo.moves@[j] == mv;
                    assert(pseudo.moves@[j] == pseudo.moves@[i as int]);
                }
                lemma_push_fresh(list.moves@, mv);
                let l = list.moves@;
                assert forall|a: int| 0 <= a < l.len() implies move_from_spec(#[trigger] l[a])
                    < move_from_spec(mv) || (move_from_spec(l[a]) == move_from_spec(mv) && gen_key(
                    p,
                    l[a],
                ) < gen_key(p, mv)) by {
                    assert(l.contains(l[a]));
                    let j = choose|j: int| 0 <= j < i && pseudo.moves@[j] == l[a];
                    assert(move_from_spec(pseudo.moves@[j]) <= move_from_spec(pseudo.moves@[i as int]));
                }
            }
            let ghost l_before = list.moves@;
            list.push(mv);
            proof {
                let l = list.moves@;
                assert forall|a: int, b: int| 0 <= a <= b < l.len() implies move_from_spec(
                    #[trigger] l[a],
                ) <= move_from_spec(#[trigger] l[b]) by {
                    if b < l_before.len() {
                        assert(l[a] == l_before[a]);
                        assert(l[b] == l_before[b]);
                    } else if a < l_before.len() {
                        assert(l[a] == l_before[a]);
                    }
                }
                assert forall|a: int, b: int| 0 <= a < b < l.len() implies move_from_spec(
                    #[trigger] l[a],
                ) < move_from_spec(#[trigger] l[b]) || (move_from_spec(l[a]) == move_from_spec(l[b])
                    && gen_key(p, l[a]) < gen_key(p, l[b])) by {
                    if b < l_before.len() {
                        assert(l[a] == l_before[a]);
                        assert(l[b] == l_before[b]);
                    } else {
                        assert(l[a] == l_before[a]);
                    }
                }
            }
        }
        proof {
            assert forall|m: u32|
                #[trigger] list.moves@.contains(m) <==> (exists|j: int|
                    0 <= j < i + 1 && pseudo.moves@[j] == m) && keeps_king_safe(p, m, side as int) by {
                if exists|j: int| 0 <= j < i + 1 && pseudo.moves@[j] == m {
                    let j = choose|j: int| 0 <= j < i + 1 && pseudo.moves@[j] == m;
                    if j < i {
                        assert(exists|j2: int| 0 <= j2 < i && pseudo.moves@[j2] == m);
                    }
                }
            }
        }
    }
    proof {
        assert forall|m: u32| #[trigger] list.moves@.contains(m) <==> legal_move(p, m, tactical_only) by {
            if pseudo_move(p, m, tactical_only) {
                assert(pseudo.moves@.contains(m));
                let j = choose|j: int| 0 <= j < pseudo.moves@.len() && pseudo.moves@[j] == m;
                assert(exists|j2: int| 0 <= j2 < n && pseudo.moves@[j2] == m);
            }
            if list.moves@.contains(m) {
                let j = choose|j: int| 0 <= j < n && pseudo.moves@[j] == m;
                assert(pseudo.moves@.contains(m));
            }
        }
    }
}

/// King safety looks only at origin, destination, the en-passant and promotion flags, and the
/// promotion kind when promoting.
proof fn lemma_safety_same(p: PositionModel, m1: u32, m2: u32, side: int)
    requires
        move_from_spec(m1) == move_from_spec(m2),
        move_to_spec(m1) == move_to_spec(m2),
        (m1 & FLAG_EP != 0) == (m2 & FLAG_EP != 0),
        (m1 & FLAG_PROMO != 0) == (m2 & FLAG_PROMO != 0),
        m1 & FLAG_PROMO != 0 ==> move_promo_spec(m1) == move_promo_spec(m2),
    ensures
        keeps_king_safe(p, m1, side) == keeps_king_safe(p, m2, side),
{
    assert(board_for_safety(p, m1, side) =~= board_for_safety(p, m2, side));
}

/// The piece on `from` has a legal move.
pub open spec fn has_move_from(p: PositionModel, from: int) -> bool {
    exists|mv: u32| #[trigger] legal_move(p, mv, false) && move_from_spec(mv) == from
}

/// King safety looks only at origin, destination and the en-passant and promotion flags:
/// which piece a pawn promotes to cannot matter, since any piece of the mover blocks alike.
proof fn lemma_safety_flags(p: PositionModel, m1: u32, m2: u32, side: int)
    requires
        p.board.len() == 64,
        side == 1 || side == -1,
        move_from_spec(m1) == move_from_spec(m2),
        move_to_spec(m1) == move_to_spec(m2),
        move_from_spec(m1) < 64,
        move_to_spec(m1) < 64,
        (m1 & 0xf8000u32) & FLAG_EP != 0 ==> 0 <= move_to_spec(m1) - side * 8 < 64,
        ((m1 & 0xf8000u32) & FLAG_EP != 0) == ((m2 & 0xf8000u32) & FLAG_EP != 0),
        ((m1 & 0xf8000u32) & FLAG_PROMO != 0) == ((m2 & 0xf8000u32) & FLAG_PROMO != 0),
        (m1 & 0xf8000u32) & FLAG_PROMO != 0 ==> promo_kind(move_promo_spec(m1)) && promo_kind(
            move_promo_spec(m2),
        ),
    ensures
        keeps_king_safe(p, m1, side) == keeps_king_safe(p, m2, side),
{
    lemma_flag_bits(m1);
    lemma_flag_bits(m2);
    let b1 = board_for_safety(p, m1, side);
    let b2 = board_for_safety(p, m2, side);
    let to = move_to_spec(m1);
    let king = if abs_of(p.board[move_from_spec(m1)] as int) == KING {
        move_to_spec(m1)
    } else {
        p.king_square(side)
    };
    if m1 & FLAG_PROMO == 0 {
        assert(b1 =~= b2);
    } else {
        let v1 = (side * move_promo_spec(m1)) as i8;
        let v2 = (side * move_promo_spec(m2)) as i8;
        if side == 1 {
            assert(v1 > 0 && v2 > 0);
        } else {
            assert(v1 < 0 && v2 < 0);
        }
        assert(b1[to] == v1 && b2[to] == v2);
        assert forall|q: int| 0 <= q < 64 && q != to implies b1[q] == #[trigger] b2[q] by {}
        lemma_attacked_same(b1, b2, king, -side);
    }
}

/// The pawn move `m` of the pawn on `from` pushes it one or two squares.
pub open spec fn pawn_advance(p: PositionModel, from: int, m: u32) -> bool {
    ||| pawn_push(p, from, move_to_spec(m), move_promo_spec(m), m & 0xf8000u32, false)
    ||| pawn_double(p, from, move_to_spec(m), move_promo_spec(m), m & 0xf8000u32, false)
}

/// Looks for a legal move of the pawn on `from` without generating the full move list.
fn probe_pawn(pos: &Position, from: u8) -> (found: bool)
    requires
        pos@.layout_ok(),
        from < 64,
        pos@.board[from as int] == pos@.side * PAWN,
    ensures
        found == has_move_from(pos@, from as int),
        found ==> exists|mv: u32| legal_move(pos@, mv, false),
{
    proof {
        lemma_flag_values();
    }
    let ghost p = pos@;
    let side = pos.side;
    let ff = file(from);
    let fr = rank(from);
    let last_rank: i8 = if side == WHITE {
        7
    } else {
        0
    };
    let sq = square(ff, fr + side);
    if let Some(to) = sq {
        if pos.board[to as usize] == EMPTY {
            let promo = if rank(to) == last_rank {
                FLAG_PROMO
            } else {
                0
            };
            let mv = encode_move(from, to, QUEEN, promo);
            if move_keeps_king_safe(pos, mv, side) {
                proof {
                    let c = if promo == FLAG_PROMO {
                        mv
                    } else {
                        encoded(from as u32, to as u32, 0, 0)
                    };
                    lemma_decode_encode(from as u32, to as u32, 0, 0);
                    lemma_recompose(mv);
                    assert(c < 0x100000) by {
                        let a = from as u32;
                        let b = to as u32;
                        assert(a | (b << 6u32) | (0u32 << 12u32) | 0u32 < 0x100000u32) by (bit_vector)
                            requires
                                a < 64u32,
                                b < 64u32,
                        ;
                    }
                    lemma_flag_bits(c);
                    lemma_safety_same(p, mv, c, side as int);
                    assert(legal_move(p, c, false));
                    assert(move_from_spec(c) == from);
                    assert(has_move_from(p, from as int));
                }
                return true;
            }
            proof {
                lemma_decode_encode(from as u32, to as u32, QUEEN as u32, promo);
                assert forall|m: u32|
                    #[trigger] legal_move(p, m, false) && move_from_spec(m) == from && pawn_push(
                        p,
                        from as int,
                        move_to_spec(m),
                        move_promo_spec(m),
                        m & 0xf8000u32,
                        false,
                    ) implies false by {
                    lemma_recompose(m);
                    lemma_safety_flags(p, m, mv, side as int);
                }
            }
            let start_rank: i8 = if side == WHITE {
                1
            } else {
                6
            };
            if fr == start_rank {
                let to2 = match square(ff, fr + 2 * side) {
                    Some(s) => s,
                    None => {
                        assert(false);
                        0
                    },
                };
                if pos.board[to2 as usize] == EMPTY {
                    let mv = encode_move(from, to2, 0, FLAG_DOUBLE);
                    if move_keeps_king_safe(pos, mv, side) {
                        proof {
                            lemma_flag_bits(mv);
                            assert(legal_move(p, mv, false));
                            assert(has_move_from(p, from as int));
                        }
                        return true;
                    }
                    proof {
                        lemma_decode_encode(from as u32, to2 as u32, 0, FLAG_DOUBLE);
                        assert forall|m: u32|
                            #[trigger] legal_move(p, m, false) && move_from_spec(m) == from
                                && pawn_double(
                                p,
                                from as int,
                                move_to_spec(m),
                                move_promo_spec(m),
                                m & 0xf8000u32,
                                false,
                            ) implies false by {
                            lemma_recompose(m);
                            lemma_safety_flags(p, m, mv, side as int);
                        }
                    }
                }
            }
        }
    }
    proof {
        assert forall|m: u32| #[trigger] legal_move(p, m, false) && move_from_spec(m) == from
            implies !pawn_advance(p, from as int, m) by {}
    }
    let mut step: usize = 0;
    while step < 2
        invariant
            p == pos@,
            p.layout_ok(),
            side == p.side,
            from < 64,
            ff == file_of(from as int),
            fr == rank_of(from as int),
            last_rank == promotion_rank(side as int),
            p.board[from as int] == p.side * PAWN,
            step <= 2,
            forall|m: u32| #[trigger] legal_move(p, m, false) && move_from_spec(m) == from
                ==> !pawn_advance(p, from as int, m),
            forall|d: int, m: u32|
                (d == -1 && step >= 1 || d == 1 && step >= 2) && #[trigger] pawn_side(
                    p,
                    from as int,
                    d,
                    move_to_spec(m),
                    move_promo_spec(m),
                    m & 0xf8000u32,
                ) && move_from_spec(m) == from ==> !legal_move(p, m, false),
        decreases 2 - step,
    {
        proof {
            lemma_flag_values();
        }
        let df: i8 = if step == 0 {
            -1
        } else {
            1
        };
        let sq = square(ff + df, fr + side);
        if let Some(to) = sq {
            let target = pos.board[to as usize];
            let mut flags: u32 = 0;
            let mut ok = false;
            if color(target) == -side && kind(target) != KING {
                flags = if rank(to) == last_rank {
                    FLAG_CAPTURE | FLAG_PROMO
                } else {
                    FLAG_CAPTURE
                };
                ok = true;
            } else if pos.ep == to as i8 && target == EMPTY && pos.board[(to as i16 - side as i16 * 8) as usize] == -side * PAWN {
                flags = FLAG_CAPTURE | FLAG_EP;
                ok = true;
            }
            if ok {
                let mv = encode_move(from, to, QUEEN, flags);
                if move_keeps_king_safe(pos, mv, side) {
                    proof {
                        let c = if flags == FLAG_CAPTURE | FLAG_PROMO {
                            mv
                        } else {
                            encoded(from as u32, to as u32, 0, flags)
                        };
                        lemma_decode_encode(from as u32, to as u32, 0, flags);
                        assert(c < 0x100000) by {
                            let a = from as u32;
                            let b = to as u32;
                            assert(a | (b << 6u32) | (0u32 << 12u32) | flags < 0x100000u32) by (bit_vector)
                                requires
                                    a < 64u32,
                                    b < 64u32,
                                    flags & !0xf8000u32 == 0,
                            ;
                        }
                        lemma_flag_bits(c);
                        lemma_flag_bits(mv);
                        lemma_safety_same(p, mv, c, side as int);
                        assert(pawn_side(p, from as int, df as int, to as int, move_promo_spec(c), flags));
                        assert(legal_move(p, c, false));
                        assert(move_from_spec(c) == from);
                        assert(has_move_from(p, from as int));
                    }
                    return true;
                }
                proof {
                    lemma_decode_encode(from as u32, to as u32, QUEEN as u32, flags);
                    assert forall|m: u32|
                        #[trigger] pawn_side(
                            p,
                            from as int,
                            df as int,
                            move_to_spec(m),
                            move_promo_spec(m),
                            m & 0xf8000u32,
                        ) && move_from_spec(m) == from implies !legal_move(p, m, false) by {
                        if legal_move(p, m, false) {
                            lemma_recompose(m);
                            lemma_safety_flags(p, m, mv, side as int);
                        }
                    }
                }
            }
        }
        step = step + 1;
    }
    proof {
        assert forall|m: u32| #[trigger] legal_move(p, m, false) implies move_from_spec(m) != from by {
            if move_from_spec(m) == from {
                assert(!pawn_advance(p, from as int, m));
                assert(!pawn_side(p, from as int, -1, move_to_spec(m), move_promo_spec(m), m & 0xf8000u32));
                assert(!pawn_side(p, from as int, 1, move_to_spec(m), move_promo_spec(m), m & 0xf8000u32));
            }
        }
    }
    false
}

/// Looks for a legal move of the knight on `from`.
fn probe_knight(pos: &Position, from: u8) -> (found: bool)
    requires
        pos@.layout_ok(),
        from < 64,
        pos@.board[from as int] == pos@.side * KNIGHT,
    ensures
        found == has_move_from(pos@, from as int),
        found ==> exists|mv: u32| legal_move(pos@, mv, false),
{
    let ghost p = pos@;
    let side = pos.side;
    for i in 0..8usize
        invariant
            p == pos@,
            p.layout_ok(),
            side == p.side,
            from < 64,
            p.board[from as int] == p.side * KNIGHT,
            forall|j: int, m: u32|
                0 <= j < i && #[trigger] step_at(
                    p,
                    from as int,
                    j,
                    move_to_spec(m),
                    move_promo_spec(m),
                    m & 0xf8000u32,
                    false,
                    true,
                ) && move_from_spec(m) == from ==> !legal_move(p, m, false),
    {
        proof {
            lemma_flag_values();
        }
        let (df, dr) = knight_step(i);
        let sq = square(file(from) + df, rank(from) + dr);
        if let Some(to) = sq {
            let target = pos.board[to as usize];
            if !(color(target) == side || kind(target) == KING) {
                let flags: u32 = if target == EMPTY {
                    0
                } else {
                    FLAG_CAPTURE
                };
                let mv = encode_move(from, to, 0, flags);
                if move_keeps_king_safe(pos, mv, side) {
                    proof {
                        lemma_flag_bits(mv);
                        assert(step_at(p, from as int, i as int, to as int, 0, mv & 0xf8000u32, false, true));
                        assert(legal_move(p, mv, false));
                        assert(has_move_from(p, from as int));
                    }
                    return true;
                }
                proof {
                    lemma_decode_encode(from as u32, to as u32, 0, flags);
                    assert forall|m: u32|
                        #[trigger] step_at(
                            p,
                            from as int,
                            i as int,
                            move_to_spec(m),
                            move_promo_spec(m),
                            m & 0xf8000u32,
                            false,
                            true,
                        ) && move_from_spec(m) == from implies !legal_move(p, m, false) by {
                        if legal_move(p, m, false) {
                            lemma_recompose(m);
                            lemma_safety_flags(p, m, mv, side as int);
                        }
                    }
                }
            }
        }
    }
    proof {
        assert forall|m: u32| #[trigger] legal_move(p, m, false) implies move_from_spec(m) != from by {
            if move_from_spec(m) == from {
                let i = choose|i: int|
                    0 <= i < 8 && #[trigger] step_at(
                        p,
                        from as int,
                        i,
                        move_to_spec(m),
                        move_promo_spec(m),
                        m & 0xf8000u32,
                        false,
                        true,
                    );
            }
        }
    }
    false
}

/// Whether the side to move has any legal move.
pub fn has_legal_move(pos: &Position) -> (res: bool)
    requires
        pos@.layout_ok(),
    ensures
        res == exists|mv: u32| legal_move(pos@, mv, false),
{
    let side = pos.side;
    // Most quiet positions have an immediately legal pawn or knight move; probe those
    // before generating every pseudo-legal move.
    for from in 0..64u8
        invariant
            pos@.layout_ok(),
            side == pos.side,
    {
        let piece = pos.board[from as usize];
        if piece == side * PAWN {
            if probe_pawn(pos, from) {
                return true;
            }
        } else if piece == side * KNIGHT {
            if probe_knight(pos, from) {
                return true;
            }
        }
    }
    let mut list = MoveList::new();
    generate_legal(pos, &mut list, false);
    if list.moves.len() > 0 {
        proof {
            assert(list.moves@.contains(list.moves@[0]));
        }
        true
    } else {
        proof {
            assert forall|mv: u32| !legal_move(pos@, mv, false) by {
                if legal_move(pos@, mv, false) {
                    assert(list.moves@.contains(mv));
                }
            }
        }
        false
    }
}

} // verus!
