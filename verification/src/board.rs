//! Squares, pieces and move encoding.

use vstd::prelude::*;

verus! {

pub const EMPTY: i8 = 0;
pub const PAWN: i8 = 1;
pub const KNIGHT: i8 = 2;
pub const BISHOP: i8 = 3;
pub const ROOK: i8 = 4;
pub const QUEEN: i8 = 5;
pub const KING: i8 = 6;
pub const WHITE: i8 = 1;
pub const BLACK: i8 = -1;

pub const FLAG_CAPTURE: u32 = 0x8000;
pub const FLAG_EP: u32 = 0x10000;
pub const FLAG_CASTLE: u32 = 0x20000;
pub const FLAG_DOUBLE: u32 = 0x40000;
pub const FLAG_PROMO: u32 = 0x80000;

pub const INF: i32 = 32000;
pub const MATE: i32 = 30000;
pub const MAX_PLY: usize = 128;

/// File (column, 0 = a) of a square.
pub open spec fn file_of(sq: int) -> int {
    sq % 8
}

/// Rank (row, 0 = first rank) of a square.
pub open spec fn rank_of(sq: int) -> int {
    sq / 8
}

/// The square at file `f` and rank `r`, if both lie on the board.
pub open spec fn square_at(f: int, r: int) -> Option<int> {
    if 0 <= f < 8 && 0 <= r < 8 {
        Some(r * 8 + f)
    } else {
        None
    }
}

pub open spec fn sign_of(piece: int) -> int {
    if piece > 0 {
        1
    } else if piece < 0 {
        -1
    } else {
        0
    }
}

pub open spec fn abs_of(x: int) -> int {
    if x < 0 {
        -x
    } else {
        x
    }
}

pub fn file(sq: u8) -> (f: i8)
    requires
        sq < 64,
    ensures
        f == file_of(sq as int),
        0 <= f < 8,
{
    assert(sq & 7 == sq % 8) by (bit_vector);
    (sq & 7) as i8
}

pub fn rank(sq: u8) -> (r: i8)
    requires
        sq < 64,
    ensures
        r == rank_of(sq as int),
        0 <= r < 8,
{
    assert(sq >> 3 == sq / 8) by (bit_vector);
    (sq >> 3) as i8
}

pub fn square(f: i8, r: i8) -> (res: Option<u8>)
    ensures
        res matches Some(s) ==> square_at(f as int, r as int) == Some(s as int),
        res is None <==> square_at(f as int, r as int) is None,
{
    if 0 <= f && f < 8 && 0 <= r && r < 8 {
        Some((r * 8 + f) as u8)
    } else {
        None
    }
}

pub fn color(piece: i8) -> (c: i8)
    ensures
        c == sign_of(piece as int),
{
    if piece > 0 {
        WHITE
    } else if piece < 0 {
        BLACK
    } else {
        0
    }
}

pub fn kind(piece: i8) -> (k: i8)
    requires
        piece > i8::MIN,
    ensures
        k == abs_of(piece as int),
{
    if piece < 0 {
        -piece
    } else {
        piece
    }
}


/// The encoding of a move: origin in bits 0..6, destination in bits 6..12,
/// promotion kind in bits 12..15 and the flags above.
pub open spec fn encoded(from: u32, to: u32, promo: u32, flags: u32) -> u32 {
    from | (to << 6u32) | (promo << 12u32) | flags
}

pub open spec fn move_from_spec(mv: u32) -> int {
    (mv & 63u32) as int
}

pub open spec fn move_to_spec(mv: u32) -> int {
    ((mv >> 6u32) & 63u32) as int
}

pub open spec fn move_promo_spec(mv: u32) -> int {
    ((mv >> 12u32) & 7u32) as int
}

/// The flags a move may carry, and nothing else.
pub open spec fn flags_ok(flags: u32) -> bool {
    flags & !0xf8000u32 == 0
}

/// Decoding recovers the parts from which a move was encoded.
pub proof fn lemma_decode_encode(from: u32, to: u32, promo: u32, flags: u32)
    requires
        from < 64,
        to < 64,
        promo < 8,
        flags_ok(flags),
    ensures
        move_from_spec(encoded(from, to, promo, flags)) == from,
        move_to_spec(encoded(from, to, promo, flags)) == to,
        move_promo_spec(encoded(from, to, promo, flags)) == promo,
        encoded(from, to, promo, flags) & 0xf8000u32 == flags,
        encoded(from, to, promo, flags) & FLAG_CAPTURE == flags & FLAG_CAPTURE,
        encoded(from, to, promo, flags) & FLAG_EP == flags & FLAG_EP,
        encoded(from, to, promo, flags) & FLAG_CASTLE == flags & FLAG_CASTLE,
        encoded(from, to, promo, flags) & FLAG_DOUBLE == flags & FLAG_DOUBLE,
        encoded(from, to, promo, flags) & FLAG_PROMO == flags & FLAG_PROMO,
{
    assert(move_from_spec(encoded(from, to, promo, flags)) == from) by (bit_vector)
        requires
            from < 64,
            to < 64,
            promo < 8,
            flags & !0xf8000u32 == 0,
    ;
    assert(((((from | (to << 6u32) | (promo << 12u32) | flags) >> 6u32) & 63u32) == to))
        by (bit_vector)
        requires
            from < 64,
            to < 64,
            promo < 8,
            flags & !0xf8000u32 == 0,
    ;
    assert(((((from | (to << 6u32) | (promo << 12u32) | flags) >> 12u32) & 7u32) == promo))
        by (bit_vector)
        requires
            from < 64,
            to < 64,
            promo < 8,
            flags & !0xf8000u32 == 0,
    ;
    assert((from | (to << 6u32) | (promo << 12u32) | flags) & 0xf8000u32 == flags)
        by (bit_vector)
        requires
            from < 64,
            to < 64,
            promo < 8,
            flags & !0xf8000u32 == 0,
    ;
    let m = encoded(from, to, promo, flags);
    assert(m & 0xf8000u32 == flags);
    assert(m & 0x8000u32 == (m & 0xf8000u32) & 0x8000u32 && m & 0x10000u32 == (m & 0xf8000u32)
        & 0x10000u32 && m & 0x20000u32 == (m & 0xf8000u32) & 0x20000u32 && m & 0x40000u32 == (m
        & 0xf8000u32) & 0x40000u32 && m & 0x80000u32 == (m & 0xf8000u32) & 0x80000u32) by (bit_vector);
}

/// The flag combinations the generator uses are flag-only values.
pub proof fn lemma_flag_values()
    ensures
        flags_ok(0u32),
        flags_ok(FLAG_CAPTURE),
        flags_ok(FLAG_PROMO),
        flags_ok(FLAG_CAPTURE | FLAG_PROMO),
        flags_ok(FLAG_CAPTURE | FLAG_EP),
        flags_ok(FLAG_CASTLE),
        flags_ok(FLAG_DOUBLE),
        FLAG_CAPTURE | FLAG_PROMO == 0x88000u32,
        FLAG_CAPTURE | FLAG_EP == 0x18000u32,
        0x88000u32 & FLAG_EP == 0,
        0x88000u32 & FLAG_CASTLE == 0,
        0x88000u32 & FLAG_DOUBLE == 0,
        0x88000u32 & FLAG_PROMO != 0,
        0x88000u32 & FLAG_CAPTURE != 0,
        0x18000u32 & FLAG_PROMO == 0,
        0x18000u32 & FLAG_CASTLE == 0,
        0x18000u32 & FLAG_DOUBLE == 0,
        0x18000u32 & FLAG_EP != 0,
        0x18000u32 & FLAG_CAPTURE != 0,
        0u32 & FLAG_EP == 0 && 0u32 & FLAG_CASTLE == 0 && 0u32 & FLAG_DOUBLE == 0 && 0u32 & FLAG_PROMO == 0 && 0u32 & FLAG_CAPTURE == 0,
        FLAG_CAPTURE & FLAG_EP == 0 && FLAG_CAPTURE & FLAG_CASTLE == 0 && FLAG_CAPTURE & FLAG_DOUBLE == 0 && FLAG_CAPTURE & FLAG_PROMO == 0 && FLAG_CAPTURE & FLAG_CAPTURE != 0,
        FLAG_PROMO & FLAG_EP == 0 && FLAG_PROMO & FLAG_CASTLE == 0 && FLAG_PROMO & FLAG_DOUBLE == 0 && FLAG_PROMO & FLAG_PROMO != 0 && FLAG_PROMO & FLAG_CAPTURE == 0,
        FLAG_CASTLE & FLAG_EP == 0 && FLAG_CASTLE & FLAG_CASTLE != 0 && FLAG_CASTLE & FLAG_DOUBLE == 0 && FLAG_CASTLE & FLAG_PROMO == 0 && FLAG_CASTLE & FLAG_CAPTURE == 0,
        FLAG_DOUBLE & FLAG_EP == 0 && FLAG_DOUBLE & FLAG_CASTLE == 0 && FLAG_DOUBLE & FLAG_DOUBLE != 0 && FLAG_DOUBLE & FLAG_PROMO == 0 && FLAG_DOUBLE & FLAG_CAPTURE == 0,
{
    assert((0u32 & !0xf8000u32 == 0) &&
        (0x8000u32 & !0xf8000u32 == 0) &&
        (0x80000u32 & !0xf8000u32 == 0) &&
        (0x88000u32 & !0xf8000u32 == 0) &&
        (0x18000u32 & !0xf8000u32 == 0) &&
        (0x20000u32 & !0xf8000u32 == 0) &&
        (0x40000u32 & !0xf8000u32 == 0) &&
        (0x8000u32 | 0x80000u32 == 0x88000u32) &&
        (0x8000u32 | 0x10000u32 == 0x18000u32) &&
        (0x88000u32 & 0x10000u32 == 0) &&
        (0x88000u32 & 0x20000u32 == 0) &&
        (0x88000u32 & 0x40000u32 == 0) &&
        (0x88000u32 & 0x80000u32 != 0) &&
        (0x88000u32 & 0x8000u32 != 0) &&
        (0x18000u32 & 0x80000u32 == 0) &&
        (0x18000u32 & 0x20000u32 == 0) &&
        (0x18000u32 & 0x40000u32 == 0) &&
        (0x18000u32 & 0x10000u32 != 0) &&
        (0x18000u32 & 0x8000u32 != 0) &&
        (0u32 & 0x10000u32 == 0 && 0u32 & 0x20000u32 == 0 && 0u32 & 0x40000u32 == 0 && 0u32 & 0x80000u32 == 0 && 0u32 & 0x8000u32 == 0) &&
        (0x8000u32 & 0x10000u32 == 0 && 0x8000u32 & 0x20000u32 == 0 && 0x8000u32 & 0x40000u32 == 0 && 0x8000u32 & 0x80000u32 == 0 && 0x8000u32 & 0x8000u32 != 0) &&
        (0x80000u32 & 0x10000u32 == 0 && 0x80000u32 & 0x20000u32 == 0 && 0x80000u32 & 0x40000u32 == 0 && 0x80000u32 & 0x80000u32 != 0 && 0x80000u32 & 0x8000u32 == 0) &&
        (0x20000u32 & 0x10000u32 == 0 && 0x20000u32 & 0x20000u32 != 0 && 0x20000u32 & 0x40000u32 == 0 && 0x20000u32 & 0x80000u32 == 0 && 0x20000u32 & 0x8000u32 == 0) &&
        (0x40000u32 & 0x10000u32 == 0 && 0x40000u32 & 0x20000u32 == 0 && 0x40000u32 & 0x40000u32 != 0 && 0x40000u32 & 0x80000u32 == 0 && 0x40000u32 & 0x8000u32 == 0)) by (bit_vector);
}

/// A move value below 2^20 is the encoding of its decoded parts.
pub proof fn lemma_recompose(mv: u32)
    requires
        mv < 0x100000,
    ensures
        mv == encoded(
            move_from_spec(mv) as u32,
            move_to_spec(mv) as u32,
            move_promo_spec(mv) as u32,
            mv & 0xf8000u32,
        ),
        flags_ok(mv & 0xf8000u32),
        move_from_spec(mv) < 64,
        move_to_spec(mv) < 64,
        move_promo_spec(mv) < 8,
{
    assert(mv == ((mv & 63u32) | (((mv >> 6u32) & 63u32) << 6u32) | (((mv >> 12u32) & 7u32)
        << 12u32) | (mv & 0xf8000u32)) && (mv & 0xf8000u32) & !0xf8000u32 == 0 && mv & 63u32 < 64
        && (mv >> 6u32) & 63u32 < 64 && (mv >> 12u32) & 7u32 < 8) by (bit_vector)
        requires
            mv < 0x100000u32,
    ;
}

pub fn encode_move(from: u8, to: u8, promo: i8, flags: u32) -> (mv: u32)
    requires
        from < 64,
        to < 64,
        0 <= promo < 8,
        flags_ok(flags),
    ensures
        mv == encoded(from as u32, to as u32, promo as u32, flags),
        move_from_spec(mv) == from,
        move_to_spec(mv) == to,
        move_promo_spec(mv) == promo,
        mv & 0xf8000u32 == flags,
        mv & FLAG_CAPTURE == flags & FLAG_CAPTURE,
        mv & FLAG_EP == flags & FLAG_EP,
        mv & FLAG_CASTLE == flags & FLAG_CASTLE,
        mv & FLAG_DOUBLE == flags & FLAG_DOUBLE,
        mv & FLAG_PROMO == flags & FLAG_PROMO,
        mv < 0x100000,
{
    proof {
        let a = from as u32;
        let b = to as u32;
        let c = promo as u32;
        assert(a | (b << 6u32) | (c << 12u32) | flags < 0x100000u32) by (bit_vector)
            requires
                a < 64u32,
                b < 64u32,
                c < 8u32,
                flags & !0xf8000u32 == 0,
        ;
        lemma_decode_encode(from as u32, to as u32, promo as u32, flags);
    }
    (from as u32) | ((to as u32) << 6u32) | ((promo as u32) << 12u32) | flags
}

pub fn move_from(mv: u32) -> (sq: u8)
    ensures
        sq == move_from_spec(mv),
        sq < 64,
{
    assert(mv & 63u32 < 64) by (bit_vector);
    (mv & 63) as u8
}

pub fn move_to(mv: u32) -> (sq: u8)
    ensures
        sq == move_to_spec(mv),
        sq < 64,
{
    assert((mv >> 6u32) & 63u32 < 64) by (bit_vector);
    ((mv >> 6) & 63) as u8
}

pub fn move_promo(mv: u32) -> (p: i8)
    ensures
        p == move_promo_spec(mv),
        0 <= p < 8,
{
    assert((mv >> 12u32) & 7u32 < 8) by (bit_vector);
    ((mv >> 12) & 7) as i8
}

/// Index of a piece in the piece-square key table: white pieces first.
pub open spec fn piece_index_spec(piece: int) -> int {
    if piece > 0 {
        piece - 1
    } else {
        6 + (-piece - 1)
    }
}

pub fn piece_index(piece: i8) -> (i: usize)
    requires
        1 <= abs_of(piece as int) <= 6,
    ensures
        i == piece_index_spec(piece as int),
        i < 12,
{
    if piece > 0 {
        (piece - 1) as usize
    } else {
        (6 + (-piece - 1)) as usize
    }
}


/// Material value of a piece kind (0 for an empty square).
pub open spec fn piece_value_spec(k: int) -> int {
    if k == 1 {
        100
    } else if k == 2 {
        320
    } else if k == 3 {
        330
    } else if k == 4 {
        500
    } else if k == 5 {
        950
    } else if k == 6 {
        20000
    } else {
        0
    }
}

pub fn piece_value(k: i8) -> (v: i32)
    ensures
        v == piece_value_spec(k as int),
        0 <= v <= 20000,
{
    match k {
        1 => 100,
        2 => 320,
        3 => 330,
        4 => 500,
        5 => 950,
        6 => 20000,
        _ => 0,
    }
}

pub open spec fn min_int(a: int, b: int) -> int {
    if a < b {
        a
    } else {
        b
    }
}

/// Rank of a square seen from the owner of `piece` (white's view for empty squares is mirrored).
pub open spec fn relative_rank(piece: int, sq: int) -> int {
    if sign_of(piece) == 1 {
        rank_of(sq)
    } else {
        7 - rank_of(sq)
    }
}

pub open spec fn file_center(sq: int) -> int {
    min_int(abs_of(file_of(sq) - 3), abs_of(file_of(sq) - 4))
}

pub open spec fn rank_center(piece: int, sq: int) -> int {
    min_int(abs_of(relative_rank(piece, sq) - 3), abs_of(relative_rank(piece, sq) - 4))
}

pub open spec fn centrality(piece: int, sq: int) -> int {
    6 - file_center(sq) - rank_center(piece, sq)
}

/// Middlegame positional term of a piece on a square (before the colour sign).
pub open spec fn mg_bonus(piece: int, sq: int) -> int {
    let r = relative_rank(piece, sq);
    let c = centrality(piece, sq);
    let k = abs_of(piece);
    if k == 1 {
        r * 7 - file_center(sq) * 2
    } else if k == 2 {
        c * 9
    } else if k == 3 {
        c * 5
    } else if k == 4 {
        r * 2
    } else if k == 5 {
        c * 2
    } else if k == 6 {
        -c * 10 - r * 3
    } else {
        0
    }
}

/// Endgame positional term of a piece on a square (before the colour sign).
pub open spec fn eg_bonus(piece: int, sq: int) -> int {
    let r = relative_rank(piece, sq);
    let c = centrality(piece, sq);
    let k = abs_of(piece);
    if k == 1 {
        r * 12
    } else if k == 2 {
        c * 6
    } else if k == 3 {
        c * 5
    } else if k == 4 {
        c * 2
    } else if k == 5 {
        c * 4
    } else if k == 6 {
        c * 10
    } else {
        0
    }
}

pub open spec fn phase_weight(piece: int) -> int {
    let k = abs_of(piece);
    if k == 2 || k == 3 {
        1
    } else if k == 4 {
        2
    } else if k == 5 {
        4
    } else {
        0
    }
}

/// Signed middlegame value of a piece on a square (white positive).
pub open spec fn mg_value(piece: int, sq: int) -> int {
    if piece > 0 {
        piece_value_spec(abs_of(piece)) + mg_bonus(piece, sq)
    } else if piece < 0 {
        -(piece_value_spec(abs_of(piece)) + mg_bonus(piece, sq))
    } else {
        0
    }
}

/// Signed endgame value of a piece on a square (white positive).
pub open spec fn eg_value(piece: int, sq: int) -> int {
    if piece > 0 {
        piece_value_spec(abs_of(piece)) + eg_bonus(piece, sq)
    } else if piece < 0 {
        -(piece_value_spec(abs_of(piece)) + eg_bonus(piece, sq))
    } else {
        0
    }
}

pub proof fn lemma_piece_eval_bounds(piece: int, sq: int)
    requires
        -6 <= piece <= 6,
        0 <= sq < 64,
    ensures
        -20100 <= mg_value(piece, sq) <= 20100,
        -20100 <= eg_value(piece, sq) <= 20100,
        0 <= phase_weight(piece) <= 4,
        piece == 0 ==> mg_value(piece, sq) == 0 && eg_value(piece, sq) == 0 && phase_weight(
            piece,
        ) == 0,
{
    assert(0 <= centrality(piece, sq) <= 6);
    assert(0 <= relative_rank(piece, sq) <= 7);
}

/// A piece and the piece of the other colour on the square mirrored across the middle of the
/// board (`sq ^ 56`: same file, rank counted from the other side) are worth exactly opposite
/// middlegame and endgame values and the same phase weight; an empty square is worth nothing.
pub proof fn law_piece_eval_mirror(piece: i8, sq: u8)
    requires
        1 <= piece <= 6,
        sq < 64,
    ensures
        mg_value(-piece, (sq ^ 56u8) as int) == -mg_value(piece as int, sq as int),
        eg_value(-piece, (sq ^ 56u8) as int) == -eg_value(piece as int, sq as int),
        phase_weight(-piece) == phase_weight(piece as int),
        mg_value(0, sq as int) == 0 && eg_value(0, sq as int) == 0 && phase_weight(0) == 0,
{
    let m = sq ^ 56u8;
    assert(m < 64 && m / 8 == 7 - sq / 8 && m % 8 == sq % 8) by (bit_vector)
        requires
            sq < 64,
            m == sq ^ 56u8,
    ;
    assert(file_of(m as int) == file_of(sq as int));
    assert(relative_rank(-piece, m as int) == relative_rank(piece as int, sq as int));
    assert(centrality(-piece, m as int) == centrality(piece as int, sq as int));
    assert(mg_bonus(-piece, m as int) == mg_bonus(piece as int, sq as int));
    assert(eg_bonus(-piece, m as int) == eg_bonus(piece as int, sq as int));
}

#[verifier::rlimit(30)]
/// The (middlegame, endgame, phase) contribution of `piece` standing on `sq`.
pub fn piece_eval(piece: i8, sq: u8) -> (res: (i32, i32, i32))
    requires
        -6 <= piece <= 6,
        sq < 64,
    ensures
        res.0 == mg_value(piece as int, sq as int),
        res.1 == eg_value(piece as int, sq as int),
        res.2 == phase_weight(piece as int),
{
    proof {
        lemma_piece_eval_bounds(piece as int, sq as int);
    }
    let side = color(piece);
    let k = kind(piece);
    let r: i32 = if side == WHITE {
        rank(sq)
    } else {
        7 - rank(sq)
    } as i32;
    let f: i32 = file(sq) as i32;
    let fa: i32 = if f - 3 < 0 { 3 - f } else { f - 3 };
    let fb: i32 = if f - 4 < 0 { 4 - f } else { f - 4 };
    let fc: i32 = if fa < fb { fa } else { fb };
    assert(fc == file_center(sq as int));
    let ra: i32 = if r - 3 < 0 { 3 - r } else { r - 3 };
    let rb: i32 = if r - 4 < 0 { 4 - r } else { r - 4 };
    let rc: i32 = if ra < rb { ra } else { rb };
    assert(r == relative_rank(piece as int, sq as int));
    assert(rc == rank_center(piece as int, sq as int));
    let center: i32 = 6 - fc - rc;
    let (mg_pos, eg_pos): (i32, i32) = match k {
        1 => (r * 7 - fc * 2, r * 12),
        2 => (center * 9, center * 6),
        3 => (center * 5, center * 5),
        4 => (r * 2, center * 2),
        5 => (center * 2, center * 4),
        6 => (-center * 10 - r * 3, center * 10),
        _ => (0, 0),
    };
    let phase: i32 = match k {
        2 | 3 => 1,
        4 => 2,
        5 => 4,
        _ => 0,
    };
    let value = piece_value(k);
    assert(center == centrality(piece as int, sq as int));
    assert(mg_pos == mg_bonus(piece as int, sq as int));
    assert(eg_pos == eg_bonus(piece as int, sq as int));
    if side == WHITE {
        (value + mg_pos, value + eg_pos, phase)
    } else if side == BLACK {
        (-(value + mg_pos), -(value + eg_pos), phase)
    } else {
        (0, 0, phase)
    }
}

} // verus!
