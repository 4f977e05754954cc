//! Board positions and their incrementally maintained state.

use vstd::prelude::*;
use crate::board::{
    move_from, move_from_spec, move_promo, move_promo_spec, move_to, move_to_spec, FLAG_CASTLE,
    FLAG_DOUBLE, FLAG_EP, FLAG_PROMO, ROOK, abs_of, eg_value, file, file_of, kind, lemma_piece_eval_bounds, mg_value,
    phase_weight, piece_eval, piece_index, piece_index_spec, rank, rank_of, sign_of, square,
    square_at, BLACK, EMPTY, KING, PAWN, WHITE,
};
use crate::attacks::{attacked, is_attacked_on};
use crate::zobrist::{
    castle_key, castling_key, en_passant_key, ep_key, piece_key, piece_square_key, side_key,
    side_to_move_key,
};

verus! {

/// A chess position with incrementally maintained hash and evaluation sums.
#[derive(Clone, Copy, Debug, PartialEq, Eq)]
pub struct Position {
    pub board: [i8; 64],
    pub side: i8,
    pub castle: u8,
    pub ep: i8,
    pub halfmove: u16,
    pub fullmove: u16,
    pub king_sq: [u8; 2],
    pub hash: u64,
    pub mg: i32,
    pub eg: i32,
    pub phase: i32,
}

/// The mathematical content of a position.
#[verifier::ext_equal]
pub ghost struct PositionModel {
    pub board: Seq<i8>,
    pub side: int,
    pub castle: int,
    pub ep: int,
    pub halfmove: int,
    pub fullmove: int,
    pub white_king: int,
    pub black_king: int,
    pub hash: u64,
    pub mg: int,
    pub eg: int,
    pub phase: int,
}

impl View for Position {
    type V = PositionModel;

    open spec fn view(&self) -> PositionModel {
        PositionModel {
            board: self.board@,
            side: self.side as int,
            castle: self.castle as int,
            ep: self.ep as int,
            halfmove: self.halfmove as int,
            fullmove: self.fullmove as int,
            white_king: self.king_sq[0] as int,
            black_king: self.king_sq[1] as int,
            hash: self.hash,
            mg: self.mg as int,
            eg: self.eg as int,
            phase: self.phase as int,
        }
    }
}

/// Every square holds a piece code between -6 and 6.
pub open spec fn board_ok(b: Seq<i8>) -> bool {
    b.len() == 64 && forall|i: int| 0 <= i < 64 ==> -6 <= #[trigger] b[i] <= 6
}

/// An en-passant target is either absent or on the rank behind a pawn that just advanced two.
pub open spec fn ep_ok(ep: int, side: int) -> bool {
    ||| ep == -1
    ||| side == 1 && 40 <= ep < 48
    ||| side == -1 && 16 <= ep < 24
}

/// No king stands anywhere but on its side's recorded square: one king per side.
#[verifier::opaque]
pub open spec fn kings_unique(b: Seq<i8>, white_king: int, black_king: int) -> bool {
    forall|sq: int|
        #![trigger b[sq]]
        0 <= sq < 64 ==> (b[sq] == KING ==> sq == white_king) && (b[sq] == -KING ==> sq == black_king)
}

impl PositionModel {
    pub open spec fn king_square(self, side: int) -> int {
        if side == 1 {
            self.white_king
        } else {
            self.black_king
        }
    }

    /// The position's rule state is coherent: pieces, side, rights, en-passant and kings.
    pub open spec fn layout_ok(self) -> bool {
        &&& board_ok(self.board)
        &&& self.side == 1 || self.side == -1
        &&& 0 <= self.castle < 16
        &&& ep_ok(self.ep, self.side)
        &&& 0 <= self.halfmove <= u16::MAX
        &&& 0 <= self.fullmove <= u16::MAX
        &&& 0 <= self.white_king < 64 && self.board[self.white_king] == KING
        &&& 0 <= self.black_king < 64 && self.board[self.black_king] == -KING
        &&& kings_unique(self.board, self.white_king, self.black_king)
        &&& self.ep >= 0 ==> self.board[self.ep] == 0 && self.board[self.ep - 8 * self.side]
            == -self.side * PAWN
    }

    /// The layout without the rule that ties the en-passant square to the side to move: any
    /// square of the board, or none.
    pub open spec fn layout_loose(self) -> bool {
        &&& board_ok(self.board)
        &&& self.side == 1 || self.side == -1
        &&& 0 <= self.castle < 16
        &&& self.ep < 64
        &&& 0 <= self.halfmove <= u16::MAX
        &&& 0 <= self.fullmove <= u16::MAX
        &&& 0 <= self.white_king < 64 && self.board[self.white_king] == KING
        &&& 0 <= self.black_king < 64 && self.board[self.black_king] == -KING
    }

    /// Whether the side to move's king is attacked.
    pub open spec fn in_check(self, side: int) -> bool {
        attacked(self.board, self.king_square(side), -side)
    }

    /// The en-passant file that enters the hash: only when a legal en-passant capture exists.
    pub open spec fn ep_file(self) -> Option<int> {
        ep_file_of(self.board, self.side, self.ep, self.king_square(self.side))
    }

    pub open spec fn ep_capturer(self, df: int) -> bool {
        ep_capturer_of(self.board, self.side, self.ep, self.king_square(self.side), df)
    }

    /// The Zobrist hash of the position.
    pub open spec fn state_hash(self) -> u64 {
        hash_of(self.board, self.side, self.castle, self.ep, self.king_square(self.side))
    }

    /// The cached evaluation sums agree with the board.
    pub open spec fn sums_ok(self) -> bool {
        &&& self.mg == mg_sum(self.board, 64)
        &&& self.eg == eg_sum(self.board, 64)
        &&& self.phase == phase_sum(self.board, 64)
    }

    /// The position is coherent and its cached hash and sums are exact.
    pub open spec fn wf(self) -> bool {
        &&& self.layout_ok()
        &&& self.sums_ok()
        &&& self.hash == self.state_hash()
    }
}

/// What a move takes back when it is undone.
#[derive(Clone, Copy, Debug, PartialEq, Eq)]
pub struct Undo {
    pub captured: i8,
    pub castle: u8,
    pub ep: i8,
    pub halfmove: u16,
    pub fullmove: u16,
    pub hash: u64,
    pub mg: i32,
    pub eg: i32,
    pub phase: i32,
    pub king_sq: [u8; 2],
}

#[verifier::ext_equal]
pub ghost struct UndoModel {
    pub captured: int,
    pub castle: int,
    pub ep: int,
    pub halfmove: int,
    pub fullmove: int,
    pub hash: u64,
    pub mg: int,
    pub eg: int,
    pub phase: int,
    pub white_king: int,
    pub black_king: int,
}

impl View for Undo {
    type V = UndoModel;

    open spec fn view(&self) -> UndoModel {
        UndoModel {
            captured: self.captured as int,
            castle: self.castle as int,
            ep: self.ep as int,
            halfmove: self.halfmove as int,
            fullmove: self.fullmove as int,
            hash: self.hash,
            mg: self.mg as int,
            eg: self.eg as int,
            phase: self.phase as int,
            white_king: self.king_sq[0] as int,
            black_king: self.king_sq[1] as int,
        }
    }
}

/// The rook's origin square for a castling move.
pub open spec fn castle_rook_from(mv: u32) -> int {
    if move_to_spec(mv) > move_from_spec(mv) {
        move_from_spec(mv) + 3
    } else {
        move_from_spec(mv) - 4
    }
}

/// The rook's destination square for a castling move.
pub open spec fn castle_rook_to(mv: u32) -> int {
    if move_to_spec(mv) > move_from_spec(mv) {
        move_from_spec(mv) + 1
    } else {
        move_from_spec(mv) - 1
    }
}

/// Castling rights lost when a rook leaves, or is captured on, square `sq`.
pub open spec fn rook_rights_cleared(c: u8, sq: int) -> u8 {
    if sq == 0 {
        c & !2u8
    } else if sq == 7 {
        c & !1u8
    } else if sq == 56 {
        c & !8u8
    } else if sq == 63 {
        c & !4u8
    } else {
        c
    }
}

pub open spec fn sat_inc(x: int) -> int {
    if x + 1 > u16::MAX {
        u16::MAX as int
    } else {
        x + 1
    }
}

impl PositionModel {
    /// The structural conditions on a move that `make_move` relies on: the side to move moves
    /// one of its own pieces, never onto its own piece or a king, and the flags agree with the
    /// piece and the board.
    pub open spec fn move_ok(self, mv: u32) -> bool {
        let from = move_from_spec(mv);
        let to = move_to_spec(mv);
        let piece = self.board[from] as int;
        let target = self.board[to] as int;
        let s = self.side;
        &&& from != to
        &&& sign_of(piece) == s
        &&& target == 0 || (sign_of(target) == -s && abs_of(target) != KING)
        &&& mv & FLAG_EP != 0 ==> abs_of(piece) == PAWN && target == 0 && self.ep == to
            && self.board[to - s * 8] == -s * PAWN
        &&& mv & FLAG_PROMO != 0 ==> abs_of(piece) == PAWN && 2 <= move_promo_spec(mv) <= 5
        &&& mv & FLAG_CASTLE != 0 ==> {
            &&& abs_of(piece) == KING
            &&& target == 0
            &&& (s == 1 && from == 4 && (to == 6 || to == 2)) || (s == -1 && from == 60 && (to
                == 62 || to == 58))
            &&& self.board[castle_rook_from(mv)] == s * ROOK
            &&& self.board[castle_rook_to(mv)] == 0
        }
        &&& mv & FLAG_DOUBLE != 0 ==> abs_of(piece) == PAWN && ((s == 1 && 8 <= from < 16 && to
            == from + 16) || (s == -1 && 48 <= from < 56 && to == from - 16)) && self.board[from + s
            * 8] == 0 && mv & FLAG_PROMO == 0
    }

    /// The piece a move takes off the board.
    pub open spec fn captured_by(self, mv: u32) -> int {
        if mv & FLAG_EP != 0 {
            -self.side * PAWN
        } else {
            self.board[move_to_spec(mv)] as int
        }
    }

    /// The piece that stands on the destination square after the move.
    pub open spec fn placed_by(self, mv: u32) -> int {
        if mv & FLAG_PROMO != 0 {
            self.side * move_promo_spec(mv)
        } else {
            self.board[move_from_spec(mv)] as int
        }
    }

    /// The board after the move.
    pub open spec fn board_after(self, mv: u32) -> Seq<i8> {
        let from = move_from_spec(mv);
        let to = move_to_spec(mv);
        let b1 = self.board.update(from, 0);
        let b2 = if mv & FLAG_EP != 0 {
            b1.update(to - self.side * 8, 0)
        } else {
            b1
        };
        let b3 = b2.update(to, self.placed_by(mv) as i8);
        if abs_of(self.board[from] as int) == KING && mv & FLAG_CASTLE != 0 {
            b3.update(castle_rook_from(mv), 0).update(castle_rook_to(mv), b3[castle_rook_from(mv)])
        } else {
            b3
        }
    }

    /// Castling rights after the move.
    pub open spec fn castle_after(self, mv: u32) -> int {
        let from = move_from_spec(mv);
        let to = move_to_spec(mv);
        let c0 = self.castle as u8;
        let k = abs_of(self.board[from] as int);
        let c1 = if k == KING {
            if self.side == 1 {
                c0 & !3u8
            } else {
                c0 & !12u8
            }
        } else {
            c0
        };
        let c2 = if k == ROOK {
            rook_rights_cleared(c1, from)
        } else {
            c1
        };
        let c3 = if abs_of(self.captured_by(mv)) == ROOK {
            rook_rights_cleared(c2, to)
        } else {
            c2
        };
        c3 as int
    }

    /// The position after the move, with exact hash and evaluation sums.
    pub open spec fn after_make(self, mv: u32) -> PositionModel {
        let from = move_from_spec(mv);
        let to = move_to_spec(mv);
        let is_king = abs_of(self.board[from] as int) == KING;
        let b = self.board_after(mv);
        let core = PositionModel {
            board: b,
            side: -self.side,
            castle: self.castle_after(mv),
            ep: if mv & FLAG_DOUBLE != 0 {
                from + self.side * 8
            } else {
                -1
            },
            halfmove: if abs_of(self.board[from] as int) == PAWN || self.captured_by(mv) != 0 {
                0
            } else {
                sat_inc(self.halfmove)
            },
            fullmove: if self.side == -1 {
                sat_inc(self.fullmove)
            } else {
                self.fullmove
            },
            white_king: if is_king && self.side == 1 {
                to
            } else {
                self.white_king
            },
            black_king: if is_king && self.side == -1 {
                to
            } else {
                self.black_king
            },
            hash: 0,
            mg: 0,
            eg: 0,
            phase: 0,
        };
        PositionModel {
            board: b,
            side: core.side,
            castle: core.castle,
            ep: core.ep,
            halfmove: core.halfmove,
            fullmove: core.fullmove,
            white_king: core.white_king,
            black_king: core.black_king,
            hash: hash_of(b, core.side, core.castle, core.ep, core.king_square(core.side)),
            mg: mg_sum(b, 64),
            eg: eg_sum(b, 64),
            phase: phase_sum(b, 64),
        }
    }

    /// What `make_move` records to take the move back.
    pub open spec fn undo_for(self, mv: u32) -> UndoModel {
        UndoModel {
            captured: self.captured_by(mv),
            castle: self.castle,
            ep: self.ep,
            halfmove: self.halfmove,
            fullmove: self.fullmove,
            hash: self.hash,
            mg: self.mg,
            eg: self.eg,
            phase: self.phase,
            white_king: self.white_king,
            black_king: self.black_king,
        }
    }

    /// The position after taking back `mv` with the record `u`.
    pub open spec fn after_unmake(self, mv: u32, u: UndoModel) -> PositionModel {
        let from = move_from_spec(mv);
        let to = move_to_spec(mv);
        let side = -self.side;
        let moved = self.board[to];
        let b1 = self.board.update(
            from,
            if mv & FLAG_PROMO != 0 {
                (side * PAWN) as i8
            } else {
                moved
            },
        ).update(to, 0);
        let b2 = if mv & FLAG_CASTLE != 0 {
            b1.update(castle_rook_from(mv), b1[castle_rook_to(mv)]).update(castle_rook_to(mv), 0)
        } else {
            b1
        };
        let b3 = if mv & FLAG_EP != 0 {
            b2.update(to - side * 8, u.captured as i8)
        } else {
            b2.update(to, u.captured as i8)
        };
        PositionModel {
            board: b3,
            side: side,
            castle: u.castle,
            ep: u.ep,
            halfmove: u.halfmove,
            fullmove: u.fullmove,
            white_king: u.white_king,
            black_king: u.black_king,
            hash: u.hash,
            mg: u.mg,
            eg: u.eg,
            phase: u.phase,
        }
    }
}

/// Taking a move back with the record made for it restores the position exactly.
pub proof fn lemma_unmake_undoes_make(p: PositionModel, mv: u32)
    requires
        p.layout_ok(),
        p.move_ok(mv),
    ensures
        p.after_make(mv).after_unmake(mv, p.undo_for(mv)) == p,
{
    let q = p.after_make(mv);
    let r = q.after_unmake(mv, p.undo_for(mv));
    let from = move_from_spec(mv);
    let to = move_to_spec(mv);
    let s = p.side;
    lemma_move_squares(mv);
    let piece = p.board[from];
    assert(q.board.len() == 64);
    assert forall|i: int| 0 <= i < 64 implies r.board[i] == p.board[i] by {
        if mv & FLAG_EP != 0 {
            assert(ep_ok(p.ep, p.side));
            assert(0 <= to - s * 8 < 64);
        }
        if mv & FLAG_CASTLE != 0 {
            assert(0 <= castle_rook_from(mv) < 64);
        }
    }
    assert(r.board =~= p.board);
}

pub proof fn lemma_and_le(c: u8, m: u8)
    ensures
        c & m <= c,
{
    assert(c & m <= c) by (bit_vector);
}

pub proof fn lemma_rook_rights_le(c: u8, sq: int)
    ensures
        rook_rights_cleared(c, sq) <= c,
{
    lemma_and_le(c, !2u8);
    lemma_and_le(c, !1u8);
    lemma_and_le(c, !8u8);
    lemma_and_le(c, !4u8);
}

pub proof fn lemma_castle_after_bound(p: PositionModel, mv: u32)
    requires
        0 <= p.castle < 16,
    ensures
        0 <= p.castle_after(mv) < 16,
{
    let c0 = p.castle as u8;
    lemma_and_le(c0, !3u8);
    lemma_and_le(c0, !12u8);
    let from = move_from_spec(mv);
    let k = abs_of(p.board[from] as int);
    let c1 = if k == KING {
        if p.side == 1 {
            c0 & !3u8
        } else {
            c0 & !12u8
        }
    } else {
        c0
    };
    lemma_rook_rights_le(c1, from);
    let c2 = if k == ROOK {
        rook_rights_cleared(c1, from)
    } else {
        c1
    };
    lemma_rook_rights_le(c2, move_to_spec(mv));
}

pub proof fn lemma_hash_of_unfold(b: Seq<i8>, side: int, castle: int, ep: int, king: int)
    ensures
        hash_of(b, side, castle, ep, king) == ((castle_key(castle) ^ (if side == -1 {
            side_key()
        } else {
            0u64
        })) ^ board_hash(b, 64)) ^ match ep_file_of(b, side, ep, king) {
            Some(f) => ep_key(f),
            None => 0u64,
        },
{
    reveal(hash_of);
    let base = castle_key(castle) ^ (if side == -1 {
        side_key()
    } else {
        0u64
    });
    lemma_xor_zero(base ^ board_hash(b, 64));
}

proof fn lemma_xor_solve(h: u64, b: u64, s: u64)
    requires
        h ^ b == s,
    ensures
        h == s ^ b,
{
    assert(h ^ b == s ==> h == s ^ b) by (bit_vector);
}

proof fn lemma_side_part_flip(side: int)
    requires
        side == 1 || side == -1,
    ensures
        (if side == -1 {
            side_key()
        } else {
            0u64
        }) ^ side_key() == (if -side == -1 {
            side_key()
        } else {
            0u64
        }),
{
    let k = side_key();
    assert(k ^ k == 0u64) by (bit_vector);
    assert(0u64 ^ k == k) by (bit_vector);
}

/// Removing the castling and en-passant parts from a full hash leaves side part ^ board part.
proof fn lemma_strip_hash(c: u64, sp: u64, bh: u64, e: u64, h: u64)
    requires
        h == (((c ^ sp) ^ bh) ^ e) ^ c ^ e,
    ensures
        h ^ bh == sp,
{
    assert((((((c ^ sp) ^ bh) ^ e) ^ c ^ e) ^ bh) == sp) by (bit_vector);
}

/// Toggling one square's key in both the hash and the board part keeps their XOR.
proof fn lemma_keep_rest_remove(h: u64, bh: u64, k: u64)
    ensures
        (h ^ k) ^ ((bh ^ k) ^ 0u64) == h ^ bh,
{
    assert((h ^ k) ^ ((bh ^ k) ^ 0u64) == h ^ bh) by (bit_vector);
}

proof fn lemma_keep_rest_add(h: u64, bh: u64, k: u64)
    ensures
        (h ^ k) ^ ((bh ^ 0u64) ^ k) == h ^ bh,
{
    assert((h ^ k) ^ ((bh ^ 0u64) ^ k) == h ^ bh) by (bit_vector);
}

/// Rebuilding the full hash from side part ^ board part.
proof fn lemma_rebuild_hash(sp: u64, bh: u64, c: u64, sk: u64, e: u64)
    ensures
        (((sp ^ bh) ^ c) ^ sk) ^ e == ((c ^ (sp ^ sk)) ^ bh) ^ e,
{
    assert((((sp ^ bh) ^ c) ^ sk) ^ e == ((c ^ (sp ^ sk)) ^ bh) ^ e) by (bit_vector);
}

/// Castling rights after a move of `piece` from `from` to `to` that captured `captured`.
pub fn castle_rights_after(c: u8, piece: i8, captured: i8, from: u8, to: u8, side: i8) -> (res: u8)
    requires
        -6 <= piece <= 6,
        -6 <= captured <= 6,
    ensures
        res == {
            let k = abs_of(piece as int);
            let c1 = if k == KING {
                if side == 1 {
                    c & !3u8
                } else {
                    c & !12u8
                }
            } else {
                c
            };
            let c2 = if k == ROOK {
                rook_rights_cleared(c1, from as int)
            } else {
                c1
            };
            if abs_of(captured as int) == ROOK {
                rook_rights_cleared(c2, to as int)
            } else {
                c2
            }
        },
{
    let mut c = c;
    if kind(piece) == KING {
        if side == WHITE {
            c = c & !3u8;
        } else {
            c = c & !12u8;
        }
    }
    if kind(piece) == ROOK {
        c = clear_rook_rights(c, from);
    }
    if kind(captured) == ROOK {
        c = clear_rook_rights(c, to);
    }
    c
}

/// Clears the castling right tied to a rook's home square.
pub fn clear_rook_rights(c: u8, sq: u8) -> (res: u8)
    ensures
        res == rook_rights_cleared(c, sq as int),
{
    match sq {
        0 => c & !2u8,
        7 => c & !1u8,
        56 => c & !8u8,
        63 => c & !4u8,
        _ => c,
    }
}

/// The fifty-move count after a move: back to 0 after a pawn move or a move that takes a
/// piece (en passant included), one more otherwise (stopping at the counter's limit).
pub proof fn law_halfmove_after_move(p: PositionModel, mv: u32)
    requires
        p.side == 1 || p.side == -1,
    ensures
        abs_of(p.board[move_from_spec(mv)] as int) == PAWN || p.board[move_to_spec(mv)] != 0 || mv
            & FLAG_EP != 0 ==> p.after_make(mv).halfmove == 0,
        !(abs_of(p.board[move_from_spec(mv)] as int) == PAWN || p.board[move_to_spec(mv)] != 0 || mv
            & FLAG_EP != 0) ==> p.after_make(mv).halfmove == if p.halfmove < u16::MAX {
            p.halfmove + 1
        } else {
            u16::MAX as int
        },
{
}

/// Both squares a move names lie on the board.
pub proof fn lemma_move_squares(mv: u32)
    ensures
        0 <= move_from_spec(mv) < 64,
        0 <= move_to_spec(mv) < 64,
{
    assert(mv & 63u32 < 64) by (bit_vector);
    assert((mv >> 6u32) & 63u32 < 64) by (bit_vector);
}

/// What a move does to the position: the other side moves next; the fullmove number grows
/// after black's move only; the moving piece (or the promoted piece) lands on the destination
/// and leaves its origin empty; an en-passant capture empties the victim's square; castling
/// moves the rook beside the king; every other square keeps its piece; an en-passant target
/// is left exactly after a double step, on the square stepped over; and castling rights stay
/// as they were unless a king or rook moves or a rook is taken.
pub proof fn law_move_effects(p: PositionModel, mv: u32)
    requires
        p.layout_ok(),
        p.move_ok(mv),
    ensures
        ({
            let q = p.after_make(mv);
            let from = move_from_spec(mv);
            let to = move_to_spec(mv);
            let s = p.side;
            let castling = abs_of(p.board[from] as int) == KING && mv & FLAG_CASTLE != 0;
            &&& q.side == -s
            &&& q.fullmove == if s == -1 && p.fullmove < u16::MAX {
                p.fullmove + 1
            } else {
                p.fullmove
            }
            &&& q.board[to] == if mv & FLAG_PROMO != 0 {
                s * move_promo_spec(mv)
            } else {
                p.board[from] as int
            }
            &&& q.board[from] == 0
            &&& (mv & FLAG_EP != 0 ==> q.board[to - 8 * s] == 0)
            &&& (castling ==> q.board[castle_rook_from(mv)] == 0 && q.board[castle_rook_to(mv)] == s * ROOK)
            &&& (forall|sq: int|
                0 <= sq < 64 && sq != from && sq != to && !(mv & FLAG_EP != 0 && sq == to - 8 * s)
                    && !(castling && (sq == castle_rook_from(mv) || sq == castle_rook_to(mv)))
                    ==> #[trigger] q.board[sq] == p.board[sq])
            &&& q.ep == if mv & FLAG_DOUBLE != 0 {
                from + 8 * s
            } else {
                -1
            }
            &&& (!(abs_of(p.board[from] as int) == KING || abs_of(p.board[from] as int) == ROOK
                || abs_of(p.board[to] as int) == ROOK) ==> q.castle == p.castle)
        }),
{
    let from = move_from_spec(mv);
    let to = move_to_spec(mv);
    lemma_move_squares(mv);
    assert((p.castle as u8) as int == p.castle);
}

/// A move keeps the position's rule state coherent.
pub proof fn lemma_after_make_layout(p: PositionModel, mv: u32)
    requires
        p.layout_ok(),
        p.move_ok(mv),
    ensures
        p.after_make(mv).layout_ok(),
        p.after_make(mv).wf(),
{
    let q = p.after_make(mv);
    let from = move_from_spec(mv);
    let to = move_to_spec(mv);
    let s = p.side;
    lemma_move_squares(mv);
    if mv & FLAG_EP != 0 {
        assert(0 <= to - s * 8 < 64);
    }
    assert(board_ok(q.board));
    lemma_castle_after_bound(p, mv);
    assert(q.board[q.white_king] == KING);
    assert(q.board[q.black_king] == -KING);
    reveal(kings_unique);
    assert forall|sq: int| 0 <= sq < 64 implies (q.board[sq] == KING ==> sq == q.white_king) && (
    q.board[sq] == -KING ==> sq == q.black_king) by {
        if sq != to && sq != from && !(mv & FLAG_EP != 0 && sq == to - s * 8) && !(abs_of(
            p.board[from] as int,
        ) == KING && mv & FLAG_CASTLE != 0 && (sq == castle_rook_from(mv) || sq == castle_rook_to(mv))) {
            assert(q.board[sq] == p.board[sq]);
        }
    }
    assert(kings_unique(q.board, q.white_king, q.black_king));
    if mv & FLAG_DOUBLE != 0 {
        let mid = from + s * 8;
        if !(mv & FLAG_EP != 0) {
            assert(q.board[mid] == p.board[mid]);
        }
        assert(q.board[to] == s * PAWN);
    }
}

/// Capturing en passant from `from` would not leave the mover's king (on `king`) attacked.
pub open spec fn ep_capture_safe(b: Seq<i8>, side: int, ep: int, king: int, from: int) -> bool {
    let cap = ep - side * 8;
    let t = b.update(from, 0).update(cap, 0).update(ep, (side * PAWN) as i8);
    !attacked(t, king, -side)
}

/// A pawn of the side to move on the file `df` away can legally capture en passant.
pub open spec fn ep_capturer_of(b: Seq<i8>, side: int, ep: int, king: int, df: int) -> bool {
    square_at(file_of(ep) + df, rank_of(ep) - side) matches Some(from) && b[from] == side * PAWN
        && ep_capture_safe(b, side, ep, king, from)
}

/// The en-passant file that enters the hash.
#[verifier::opaque]
pub open spec fn ep_file_of(b: Seq<i8>, side: int, ep: int, king: int) -> Option<int> {
    if ep < 0 {
        None
    } else if ep_capturer_of(b, side, ep, king, -1) || ep_capturer_of(b, side, ep, king, 1) {
        Some(file_of(ep))
    } else {
        None
    }
}

/// The Zobrist hash of a position given by its parts (`king` is the mover's king square).
#[verifier::opaque]
pub open spec fn hash_of(b: Seq<i8>, side: int, castle: int, ep: int, king: int) -> u64 {
    let base = castle_key(castle) ^ (if side == -1 {
        side_key()
    } else {
        0u64
    });
    let with_board = base ^ board_hash(b, 64);
    match ep_file_of(b, side, ep, king) {
        Some(f) => with_board ^ ep_key(f),
        None => with_board,
    }
}

/// Coherent positions with the same board, side to move and castling rights, whose
/// en-passant targets leave the same file open to a legal capture (or none), have the same
/// hash, however they were reached.
pub proof fn lemma_hash_transposition(p: PositionModel, q: PositionModel)
    requires
        p.wf(),
        q.wf(),
        p.board == q.board,
        p.side == q.side,
        p.castle == q.castle,
        p.ep_file() == q.ep_file(),
    ensures
        p.hash == q.hash,
{
    reveal(hash_of);
}

/// What a null move keeps to take it back.
#[derive(Clone, Copy, Debug, PartialEq, Eq)]
pub struct NullUndo {
    pub ep: i8,
    pub halfmove: u16,
    pub hash: u64,
}

impl PositionModel {
    /// The position after passing the move: same board, other side, no en-passant target.
    pub open spec fn after_null(self) -> PositionModel {
        PositionModel {
            side: -self.side,
            ep: -1,
            halfmove: sat_inc(self.halfmove),
            hash: hash_of(self.board, -self.side, self.castle, -1, self.king_square(-self.side)),
            ..self
        }
    }
}

/// Passing the move and taking the pass back restores the position exactly.
pub proof fn lemma_unmake_null_undoes_null(p: PositionModel)
    requires
        p.wf(),
    ensures
        (PositionModel {
            side: -p.after_null().side,
            ep: p.ep,
            halfmove: p.halfmove,
            hash: p.hash,
            ..p.after_null()
        }) == p,
{
}

/// Key contribution of `piece` standing on `sq` (zero for an empty square).
pub open spec fn sq_key(piece: int, sq: int) -> u64 {
    if piece == 0 {
        0
    } else {
        piece_key(piece_index_spec(piece), sq)
    }
}

/// XOR of the piece keys of the first `n` squares.
pub open spec fn board_hash(b: Seq<i8>, n: int) -> u64
    decreases n,
{
    if n <= 0 {
        0
    } else {
        board_hash(b, n - 1) ^ sq_key(b[n - 1] as int, n - 1)
    }
}

/// Sum of the middlegame values of the first `n` squares.
pub open spec fn mg_sum(b: Seq<i8>, n: int) -> int
    decreases n,
{
    if n <= 0 {
        0
    } else {
        mg_sum(b, n - 1) + mg_value(b[n - 1] as int, n - 1)
    }
}

/// Sum of the endgame values of the first `n` squares.
pub open spec fn eg_sum(b: Seq<i8>, n: int) -> int
    decreases n,
{
    if n <= 0 {
        0
    } else {
        eg_sum(b, n - 1) + eg_value(b[n - 1] as int, n - 1)
    }
}

/// Sum of the phase weights of the first `n` squares.
pub open spec fn phase_sum(b: Seq<i8>, n: int) -> int
    decreases n,
{
    if n <= 0 {
        0
    } else {
        phase_sum(b, n - 1) + phase_weight(b[n - 1] as int)
    }
}

pub proof fn lemma_xor_zero(a: u64)
    ensures
        a ^ 0u64 == a,
{
    assert(a ^ 0u64 == a) by (bit_vector);
}

pub proof fn lemma_xor_assoc(a: u64, b: u64, c: u64)
    ensures
        (a ^ b) ^ c == a ^ (b ^ c),
{
    assert((a ^ b) ^ c == a ^ (b ^ c)) by (bit_vector);
}

proof fn lemma_xor_swap(a: u64, b: u64, c: u64, d: u64)
    ensures
        (a ^ b ^ c) ^ d == (a ^ d) ^ b ^ c,
{
    assert((a ^ b ^ c) ^ d == (a ^ d) ^ b ^ c) by (bit_vector);
}

pub proof fn lemma_board_hash_update(b: Seq<i8>, s: int, v: i8, n: int)
    requires
        b.len() == 64,
        0 <= s < 64,
        0 <= n <= 64,
    ensures
        board_hash(b.update(s, v), n) == if n > s {
            board_hash(b, n) ^ sq_key(b[s] as int, s) ^ sq_key(v as int, s)
        } else {
            board_hash(b, n)
        },
    decreases n,
{
    if n > 0 {
        lemma_board_hash_update(b, s, v, n - 1);
        let b2 = b.update(s, v);
        if n - 1 == s {
            let x = board_hash(b, n - 1);
            let ko = sq_key(b[s] as int, s);
            let kn = sq_key(v as int, s);
            assert(x ^ kn == (x ^ ko) ^ ko ^ kn) by (bit_vector);
        } else if n - 1 > s {
            lemma_xor_swap(
                board_hash(b, n - 1),
                sq_key(b[s] as int, s),
                sq_key(v as int, s),
                sq_key(b[n - 1] as int, n - 1),
            );
        }
    }
}

pub proof fn lemma_sums_update(b: Seq<i8>, s: int, v: i8, n: int)
    requires
        b.len() == 64,
        0 <= s < 64,
        0 <= n <= 64,
    ensures
        mg_sum(b.update(s, v), n) == if n > s {
            mg_sum(b, n) - mg_value(b[s] as int, s) + mg_value(v as int, s)
        } else {
            mg_sum(b, n)
        },
        eg_sum(b.update(s, v), n) == if n > s {
            eg_sum(b, n) - eg_value(b[s] as int, s) + eg_value(v as int, s)
        } else {
            eg_sum(b, n)
        },
        phase_sum(b.update(s, v), n) == if n > s {
            phase_sum(b, n) - phase_weight(b[s] as int) + phase_weight(v as int)
        } else {
            phase_sum(b, n)
        },
    decreases n,
{
    if n > 0 {
        lemma_sums_update(b, s, v, n - 1);
    }
}

pub proof fn lemma_sums_bounds(b: Seq<i8>, n: int)
    requires
        board_ok(b),
        0 <= n <= 64,
    ensures
        -20100 * n <= mg_sum(b, n) <= 20100 * n,
        -20100 * n <= eg_sum(b, n) <= 20100 * n,
        0 <= phase_sum(b, n) <= 4 * n,
    decreases n,
{
    if n > 0 {
        lemma_sums_bounds(b, n - 1);
        lemma_piece_eval_bounds(b[n - 1] as int, n - 1);
    }
}

impl Position {
    pub fn is_attacked(&self, target: u8, by: i8) -> (res: bool)
        requires
            target < 64,
            by == 1 || by == -1,
        ensures
            res == attacked(self@.board, target as int, by as int),
    {
        is_attacked_on(&self.board, target, by)
    }

    pub fn in_check(&self, side: i8) -> (res: bool)
        requires
            self@.layout_ok(),
            side == 1 || side == -1,
        ensures
            res == self@.in_check(side as int),
    {
        self.is_attacked(self.king_of(side), -side)
    }

    /// Whether the pawn `df` files beside the en-passant target may capture it legally.
    fn ep_capturer_at(&self, target: u8, cap_sq: u8, df: i8) -> (res: bool)
        requires
            self@.layout_loose(),
            self.ep >= 0,
            target == self.ep,
            cap_sq == (target - self.side * 8) as u8,
            df == 1 || df == -1,
        ensures
            res == self@.ep_capturer(df as int),
    {
        match square(file(target) + df, rank(target) - self.side) {
            None => false,
            Some(from) => {
                if self.board[from as usize] != self.side * PAWN {
                    return false;
                }
                let mut test = self.board;
                test[from as usize] = EMPTY;
                test[cap_sq as usize] = EMPTY;
                test[target as usize] = self.side * PAWN;
                let king = self.king_of(self.side);
                let hit = is_attacked_on(&test, king, -self.side);
                assert(test@ =~= self@.board.update(from as int, 0).update(cap_sq as int, 0).update(
                    target as int,
                    (self.side * PAWN) as i8,
                ));
                !hit
            },
        }
    }

    /// The file of the en-passant target when a legal en-passant capture exists.
    pub fn ep_hash_file(&self) -> (res: Option<usize>)
        requires
            self@.layout_loose(),
        ensures
            res matches Some(f) ==> self@.ep_file() == Some(f as int) && f < 8,
            res is None <==> self@.ep_file() is None,
    {
        proof {
            reveal(ep_file_of);
        }
        if self.ep < 0 {
            return None;
        }
        let target = self.ep as u8;
        let cap_sq = (target as i16 - self.side as i16 * 8) as u8;
        if self.ep_capturer_at(target, cap_sq, -1) || self.ep_capturer_at(target, cap_sq, 1) {
            Some(file(target) as usize)
        } else {
            None
        }
    }

    /// Recomputes hash and evaluation sums from scratch.
    #[verifier::rlimit(40)]
    pub fn recompute_state(&mut self)
        requires
            old(self)@.layout_loose(),
        ensures
            final(self)@.sums_ok(),
            final(self).hash == final(self)@.state_hash(),
            old(self)@.layout_ok() ==> final(self)@.wf(),
            final(self).board == old(self).board,
            final(self).side == old(self).side,
            final(self).castle == old(self).castle,
            final(self).ep == old(self).ep,
            final(self).halfmove == old(self).halfmove,
            final(self).fullmove == old(self).fullmove,
            final(self).king_sq == old(self).king_sq,
    {
        let ghost b = self.board@;
        let mut hash = castling_key(self.castle);
        if self.side == BLACK {
            hash = hash ^ side_to_move_key();
        } else {
            proof {
                lemma_xor_zero(hash);
            }
        }
        let ghost base = hash;
        proof {
            lemma_xor_zero(base);
            lemma_sums_bounds(b, 64);
        }
        let mut mg: i32 = 0;
        let mut eg: i32 = 0;
        let mut phase: i32 = 0;
        for sq in 0..64u8
            invariant
                b == self.board@,
                board_ok(b),
                hash == base ^ board_hash(b, sq as int),
                mg == mg_sum(b, sq as int),
                eg == eg_sum(b, sq as int),
                phase == phase_sum(b, sq as int),
        {
            proof {
                lemma_sums_bounds(b, sq as int + 1);
                lemma_piece_eval_bounds(b[sq as int] as int, sq as int);
            }
            let p = self.board[sq as usize];
            if p != EMPTY {
                let k = piece_square_key(piece_index(p), sq);
                proof {
                    lemma_xor_assoc(base, board_hash(b, sq as int), k);
                }
                hash = hash ^ k;
                let (m, e, ph) = piece_eval(p, sq);
                mg = mg + m;
                eg = eg + e;
                phase = phase + ph;
            } else {
                proof {
                    lemma_xor_zero(board_hash(b, sq as int));
                }
            }
        }
        if let Some(f) = self.ep_hash_file() {
            hash = hash ^ en_passant_key(f);
        }
        proof {
            lemma_hash_of_unfold(b, self.side as int, self.castle as int, self.ep as int, self@.king_square(self.side as int));
            if self@.ep_file() is None {
                lemma_xor_zero(base ^ board_hash(b, 64));
            }
        }
        self.hash = hash;
        self.mg = mg;
        self.eg = eg;
        self.phase = phase;
    }

    /// Plays `mv`, returning what is needed to take it back.
    #[verifier::rlimit(60)]
    pub fn make_move(&mut self, mv: u32) -> (undo: Undo)
        requires
            old(self)@.wf(),
            old(self)@.move_ok(mv),
        ensures
            final(self)@ == old(self)@.after_make(mv),
            final(self)@.wf(),
            undo@ == old(self)@.undo_for(mv),
    {
        let ghost p0 = self@;
        proof {
            lemma_after_make_layout(p0, mv);
        }
        let from = move_from(mv);
        let to = move_to(mv);
        let piece = self.board[from as usize];
        let side = self.side;
        let undo = Undo {
            captured: if mv & FLAG_EP != 0 {
                -self.side * PAWN
            } else {
                self.board[to as usize]
            },
            castle: self.castle,
            ep: self.ep,
            halfmove: self.halfmove,
            fullmove: self.fullmove,
            hash: self.hash,
            mg: self.mg,
            eg: self.eg,
            phase: self.phase,
            king_sq: self.king_sq,
        };
        let ghost side_part: u64 = if side == -1 { side_key() } else { 0u64 };
        self.strip_hash();
        // From here on, hash ^ board_hash(board) stays equal to `side_part`.
        self.ep = -1;
        self.halfmove = self.halfmove.saturating_add(1);
        self.move_pieces(mv, Ghost(p0), Ghost(side_part));
        if kind(piece) == KING {
            self.king_sq[if self.side == WHITE {
                0
            } else {
                1
            }] = to;
        }
        self.castle = castle_rights_after(self.castle, piece, undo.captured, from, to, side);
        if kind(piece) == PAWN || undo.captured != EMPTY {
            self.halfmove = 0;
        }
        if mv & FLAG_DOUBLE != 0 {
            self.ep = (from as i16 + self.side as i16 * 8) as i8;
        }
        if self.side == BLACK {
            self.fullmove = self.fullmove.saturating_add(1);
        }
        let ghost q = p0.after_make(mv);
        assert(self.board@ =~= q.board);
        assert(self.castle == q.castle);
        assert(self.ep == q.ep);
        assert(self.halfmove == q.halfmove);
        assert(self.fullmove == q.fullmove);
        assert(self.king_sq[0] == q.white_king);
        assert(self.king_sq[1] == q.black_king);
        self.finish_hash(Ghost(side_part));
        assert(self@ =~= q);
        undo
    }

    /// Takes back `mv` using the record `undo` that `make_move` returned for it.
    pub fn unmake_move(&mut self, mv: u32, undo: Undo)
        requires
            old(self).side == 1 || old(self).side == -1,
            mv & FLAG_EP != 0 ==> 0 <= move_to_spec(mv) + old(self).side * 8 < 64,
            mv & FLAG_CASTLE != 0 ==> 4 <= move_from_spec(mv) <= 60,
        ensures
            final(self)@ == old(self)@.after_unmake(mv, undo@),
    {
        let ghost p0 = self@;
        self.side = -self.side;
        let from = move_from(mv);
        let to = move_to(mv);
        let moved = self.board[to as usize];
        self.board[from as usize] = if mv & FLAG_PROMO != 0 {
            self.side * PAWN
        } else {
            moved
        };
        self.board[to as usize] = EMPTY;
        if mv & FLAG_CASTLE != 0 {
            let (rf, rt) = if to > from {
                (from + 3, from + 1)
            } else {
                (from - 4, from - 1)
            };
            self.board[rf as usize] = self.board[rt as usize];
            self.board[rt as usize] = EMPTY;
        }
        if mv & FLAG_EP != 0 {
            let cap_sq = (to as i16 - self.side as i16 * 8) as u8;
            self.board[cap_sq as usize] = undo.captured;
        } else {
            self.board[to as usize] = undo.captured;
        }
        self.castle = undo.castle;
        self.ep = undo.ep;
        self.halfmove = undo.halfmove;
        self.fullmove = undo.fullmove;
        self.hash = undo.hash;
        self.mg = undo.mg;
        self.eg = undo.eg;
        self.phase = undo.phase;
        self.king_sq = undo.king_sq;
        assert(self@ =~= p0.after_unmake(mv, undo@));
    }

    /// Passes the move to the opponent without moving a piece.
    #[verifier::rlimit(40)]
    pub fn make_null(&mut self) -> (undo: NullUndo)
        requires
            old(self)@.wf(),
        ensures
            final(self)@ == old(self)@.after_null(),
            final(self)@.wf(),
            undo.ep == old(self).ep,
            undo.halfmove == old(self).halfmove,
            undo.hash == old(self).hash,
    {
        let ghost p0 = self@;
        let undo = NullUndo { ep: self.ep, halfmove: self.halfmove, hash: self.hash };
        let ghost side_part: u64 = if self.side == -1 { side_key() } else { 0u64 };
        self.strip_hash();
        self.ep = -1;
        self.halfmove = self.halfmove.saturating_add(1);
        self.finish_hash(Ghost(side_part));
        assert(self@ =~= p0.after_null());
        undo
    }

    /// Takes back a null move.
    pub fn unmake_null(&mut self, undo: NullUndo)
        requires
            old(self).side == 1 || old(self).side == -1,
        ensures
            final(self)@ == (PositionModel {
                side: -old(self)@.side,
                ep: undo.ep as int,
                halfmove: undo.halfmove as int,
                hash: undo.hash,
                ..old(self)@
            }),
    {
        self.side = -self.side;
        self.ep = undo.ep;
        self.halfmove = undo.halfmove;
        self.hash = undo.hash;
    }

    /// Takes the castling and en-passant parts out of the hash, leaving
    /// `hash ^ board_hash(board)` equal to the side-to-move part.
    fn strip_hash(&mut self)
        requires
            old(self)@.wf(),
        ensures
            final(self).hash ^ board_hash(final(self)@.board, 64) == (if old(self).side == -1 {
                side_key()
            } else {
                0u64
            }),
            final(self).board == old(self).board,
            final(self).side == old(self).side,
            final(self).castle == old(self).castle,
            final(self).ep == old(self).ep,
            final(self).halfmove == old(self).halfmove,
            final(self).fullmove == old(self).fullmove,
            final(self).king_sq == old(self).king_sq,
            final(self).mg == old(self).mg,
            final(self).eg == old(self).eg,
            final(self).phase == old(self).phase,
    {
        let ghost p0 = self@;
        let ghost side_part: u64 = if self.side == -1 { side_key() } else { 0u64 };
        let c0 = castling_key(self.castle);
        let e0 = self.ep_hash_file();
        proof {
            lemma_hash_of_unfold(p0.board, p0.side, p0.castle, p0.ep, p0.king_square(p0.side));
        }
        self.hash = self.hash ^ c0;
        if let Some(f) = e0 {
            self.hash = self.hash ^ en_passant_key(f);
        } else {
            proof {
                lemma_xor_zero(self.hash);
            }
        }
        proof {
            let bh = board_hash(p0.board, 64);
            let epk: u64 = match p0.ep_file() {
                Some(f) => ep_key(f),
                None => 0u64,
            };
            lemma_strip_hash(c0, side_part, bh, epk, self.hash);
        }
    }

    /// Hands the move to the other side and adds the castling, side and en-passant parts
    /// back into the hash.
    #[verifier::rlimit(40)]
    fn finish_hash(&mut self, Ghost(side_part): Ghost<u64>)
        requires
            side_part == (if old(self).side == -1 {
                side_key()
            } else {
                0u64
            }),
            old(self).hash ^ board_hash(old(self)@.board, 64) == side_part,
            (PositionModel { side: -old(self)@.side, ..old(self)@ }).layout_ok(),
        ensures
            final(self)@ == (PositionModel {
                side: -old(self)@.side,
                hash: final(self)@.hash,
                ..old(self)@
            }),
            final(self)@.hash == final(self)@.state_hash(),
    {
        let ghost p0 = self@;
        proof {
            lemma_xor_solve(self.hash, board_hash(p0.board, 64), side_part);
        }
        let c1 = castling_key(self.castle);
        self.hash = self.hash ^ c1;
        self.side = -self.side;
        self.hash = self.hash ^ side_to_move_key();
        let ghost pre_ep = self.hash;
        let e1 = self.ep_hash_file();
        if let Some(f) = e1 {
            self.hash = self.hash ^ en_passant_key(f);
        } else {
            proof {
                lemma_xor_zero(pre_ep);
            }
        }
        proof {
            let q = self@;
            lemma_hash_of_unfold(q.board, q.side, q.castle, q.ep, q.king_square(q.side));
            let epk: u64 = match q.ep_file() {
                Some(f) => ep_key(f),
                None => 0u64,
            };
            lemma_rebuild_hash(side_part, board_hash(q.board, 64), c1, side_key(), epk);
            lemma_side_part_flip(p0.side);
        }
    }

    /// Moves the pieces of `mv` on the board (including a castling rook and an en-passant
    /// victim), keeping the sums exact and `hash ^ board_hash(board)` unchanged.
    #[verifier::rlimit(40)]
    fn move_pieces(&mut self, mv: u32, Ghost(p0): Ghost<PositionModel>, Ghost(rest): Ghost<u64>)
        requires
            p0.layout_ok(),
            p0.move_ok(mv),
            old(self)@.board == p0.board,
            old(self).side == p0.side,
            old(self)@.sums_ok(),
            old(self).hash ^ board_hash(old(self)@.board, 64) == rest,
        ensures
            final(self)@.board == p0.board_after(mv),
            final(self).hash ^ board_hash(final(self)@.board, 64) == rest,
            final(self)@.sums_ok(),
            final(self).side == old(self).side,
            final(self).castle == old(self).castle,
            final(self).ep == old(self).ep,
            final(self).halfmove == old(self).halfmove,
            final(self).fullmove == old(self).fullmove,
            final(self).king_sq == old(self).king_sq,
    {
        let from = move_from(mv);
        let to = move_to(mv);
        let piece = self.board[from as usize];
        let ghost s = p0.side;
        proof {
            if mv & FLAG_EP != 0 {
                assert(0 <= to - s * 8 < 64);
            }
        }
        self.remove_piece_tracked(from, Ghost(rest));
        if mv & FLAG_EP != 0 {
            let cap_sq = (to as i16 - self.side as i16 * 8) as u8;
            self.remove_piece_tracked(cap_sq, Ghost(rest));
        } else if self.board[to as usize] != EMPTY {
            self.remove_piece_tracked(to, Ghost(rest));
        }
        let placed = if mv & FLAG_PROMO != 0 {
            if self.side == WHITE {
                move_promo(mv)
            } else {
                -move_promo(mv)
            }
        } else {
            piece
        };
        assert(placed == p0.placed_by(mv));
        self.add_piece_tracked(to, placed, Ghost(rest));
        let ghost b3 = self@.board;
        assert(b3 =~= {
            let b1 = p0.board.update(from as int, 0);
            let b2 = if mv & FLAG_EP != 0 {
                b1.update(to - s * 8, 0)
            } else {
                b1
            };
            b2.update(to as int, p0.placed_by(mv) as i8)
        });
        if kind(piece) == KING && mv & FLAG_CASTLE != 0 {
            let (rf, rt) = if to > from {
                (from + 3, from + 1)
            } else {
                (from - 4, from - 1)
            };
            let rook = self.remove_piece_tracked(rf, Ghost(rest));
            self.add_piece_tracked(rt, rook, Ghost(rest));
            assert(self@.board =~= b3.update(castle_rook_from(mv), 0).update(
                castle_rook_to(mv),
                b3[castle_rook_from(mv)],
            ));
        }
    }

    /// `remove_piece`, also stating that `hash ^ board_hash(board)` is unchanged.
    fn remove_piece_tracked(&mut self, sq: u8, Ghost(rest): Ghost<u64>) -> (p: i8)
        requires
            board_ok(old(self)@.board),
            old(self)@.sums_ok(),
            sq < 64,
            old(self).hash ^ board_hash(old(self)@.board, 64) == rest,
        ensures
            p == old(self)@.board[sq as int],
            final(self)@.board == old(self)@.board.update(sq as int, 0),
            final(self).hash ^ board_hash(final(self)@.board, 64) == rest,
            final(self)@.sums_ok(),
            final(self).side == old(self).side,
            final(self).castle == old(self).castle,
            final(self).ep == old(self).ep,
            final(self).halfmove == old(self).halfmove,
            final(self).fullmove == old(self).fullmove,
            final(self).king_sq == old(self).king_sq,
    {
        let ghost b = self.board@;
        let ghost h = self.hash;
        let p = self.remove_piece(sq);
        proof {
            lemma_board_hash_update(b, sq as int, 0, 64);
            lemma_keep_rest_remove(h, board_hash(b, 64), sq_key(p as int, sq as int));
        }
        p
    }

    /// `add_piece`, also stating that `hash ^ board_hash(board)` is unchanged.
    fn add_piece_tracked(&mut self, sq: u8, p: i8, Ghost(rest): Ghost<u64>)
        requires
            board_ok(old(self)@.board),
            old(self)@.sums_ok(),
            sq < 64,
            old(self)@.board[sq as int] == 0,
            -6 <= p <= 6,
            p != 0,
            old(self).hash ^ board_hash(old(self)@.board, 64) == rest,
        ensures
            final(self)@.board == old(self)@.board.update(sq as int, p),
            final(self).hash ^ board_hash(final(self)@.board, 64) == rest,
            final(self)@.sums_ok(),
            final(self).side == old(self).side,
            final(self).castle == old(self).castle,
            final(self).ep == old(self).ep,
            final(self).halfmove == old(self).halfmove,
            final(self).fullmove == old(self).fullmove,
            final(self).king_sq == old(self).king_sq,
    {
        let ghost b = self.board@;
        let ghost h = self.hash;
        self.add_piece(sq, p);
        proof {
            lemma_board_hash_update(b, sq as int, p, 64);
            lemma_keep_rest_add(h, board_hash(b, 64), sq_key(p as int, sq as int));
        }
    }

    pub fn king_of(&self, side: i8) -> (sq: u8)
        requires
            self@.layout_loose(),
            side == 1 || side == -1,
        ensures
            sq == self@.king_square(side as int),
            sq < 64,
    {
        self.king_sq[if side == WHITE {
            0
        } else {
            1
        }]
    }

    /// Empties square `sq`, keeping hash and sums in step; returns what stood there.
    pub fn remove_piece(&mut self, sq: u8) -> (p: i8)
        requires
            board_ok(old(self)@.board),
            old(self)@.sums_ok(),
            sq < 64,
        ensures
            p == old(self)@.board[sq as int],
            final(self)@.board == old(self)@.board.update(sq as int, 0),
            final(self)@.hash == old(self)@.hash ^ sq_key(p as int, sq as int),
            final(self)@.sums_ok(),
            final(self).side == old(self).side,
            final(self).castle == old(self).castle,
            final(self).ep == old(self).ep,
            final(self).halfmove == old(self).halfmove,
            final(self).fullmove == old(self).fullmove,
            final(self).king_sq == old(self).king_sq,
    {
        let p = self.board[sq as usize];
        let ghost b = self.board@;
        proof {
            lemma_board_hash_update(b, sq as int, 0, 64);
            lemma_sums_update(b, sq as int, 0, 64);
            lemma_sums_bounds(b, 64);
            lemma_sums_bounds(b.update(sq as int, 0), 64);
        }
        if p != EMPTY {
            self.hash = self.hash ^ piece_square_key(piece_index(p), sq);
            let (mg, eg, phase) = piece_eval(p, sq);
            self.mg = self.mg - mg;
            self.eg = self.eg - eg;
            self.phase = self.phase - phase;
            self.board[sq as usize] = EMPTY;
        } else {
            proof { lemma_xor_zero(self.hash); }
            assert(b.update(sq as int, 0) =~= b);
        }
        assert(self@.board =~= b.update(sq as int, 0));
        p
    }

    /// Places `p` on the empty square `sq`, keeping hash and sums in step.
    pub fn add_piece(&mut self, sq: u8, p: i8)
        requires
            board_ok(old(self)@.board),
            old(self)@.sums_ok(),
            sq < 64,
            old(self)@.board[sq as int] == 0,
            -6 <= p <= 6,
            p != 0,
        ensures
            final(self)@.board == old(self)@.board.update(sq as int, p),
            final(self)@.hash == old(self)@.hash ^ sq_key(p as int, sq as int),
            final(self)@.sums_ok(),
            final(self).side == old(self).side,
            final(self).castle == old(self).castle,
            final(self).ep == old(self).ep,
            final(self).halfmove == old(self).halfmove,
            final(self).fullmove == old(self).fullmove,
            final(self).king_sq == old(self).king_sq,
    {
        let ghost b = self.board@;
        proof {
            lemma_board_hash_update(b, sq as int, p, 64);
            lemma_sums_update(b, sq as int, p, 64);
            lemma_sums_bounds(b, 64);
            assert(board_ok(b.update(sq as int, p)));
            lemma_sums_bounds(b.update(sq as int, p), 64);
        }
        self.board[sq as usize] = p;
        self.hash = self.hash ^ piece_square_key(piece_index(p), sq);
        let (mg, eg, phase) = piece_eval(p, sq);
        self.mg = self.mg + mg;
        self.eg = self.eg + eg;
        self.phase = self.phase + phase;
        assert(self@.board =~= b.update(sq as int, p));
    }
}

} // verus!
