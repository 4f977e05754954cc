//! Reading and writing positions in Forsyth-Edwards Notation.

use vstd::prelude::*;
use crate::board::{
    rank, rank_of, BLACK, EMPTY, KING, PAWN, ROOK, WHITE,
};
use crate::position::{board_ok, eg_sum, hash_of, kings_unique, mg_sum, phase_sum, Position, PositionModel};
use crate::text::{
    square_name_chars, square_name_spec, string_of, chars_of, is_digit, parse_square_spec, parse_unsigned, parse_unsigned_spec, split_whitespace,
    split_ws, square_from_pair, lemma_parse_unsigned_range,
};

verus! {

/// The standard starting position.
pub const START_FEN: &'static str = "rnbqkbnr/pppppppp/8/8/8/8/PPPPPPPP/RNBQKBNR w KQkq - 0 1";

/// The piece a FEN letter stands for (upper case white, lower case black).
pub open spec fn piece_letter(c: char) -> Option<int> {
    if c == 'P' {
        Some(1)
    } else if c == 'N' {
        Some(2)
    } else if c == 'B' {
        Some(3)
    } else if c == 'R' {
        Some(4)
    } else if c == 'Q' {
        Some(5)
    } else if c == 'K' {
        Some(6)
    } else if c == 'p' {
        Some(-1)
    } else if c == 'n' {
        Some(-2)
    } else if c == 'b' {
        Some(-3)
    } else if c == 'r' {
        Some(-4)
    } else if c == 'q' {
        Some(-5)
    } else if c == 'k' {
        Some(-6)
    } else {
        None
    }
}

pub fn piece_from_letter(c: char) -> (r: Option<i8>)
    ensures
        r matches Some(p) ==> piece_letter(c) == Some(p as int),
        r is None <==> piece_letter(c) is None,
{
    match c {
        'P' => Some(1),
        'N' => Some(2),
        'B' => Some(3),
        'R' => Some(4),
        'Q' => Some(5),
        'K' => Some(6),
        'p' => Some(-1),
        'n' => Some(-2),
        'b' => Some(-3),
        'r' => Some(-4),
        'q' => Some(-5),
        'k' => Some(-6),
        _ => None,
    }
}

/// Reads the piece-placement field from character `i` on, with the cursor on rank `r` and
/// file `f` and the squares filled so far in `b`: ranks from the eighth down, separated by
/// `/`, each listing pieces and runs of 1 to 8 empty squares that fill exactly eight files.
pub open spec fn scan_board(s: Seq<char>, i: int, r: int, f: int, b: Seq<i8>) -> Option<Seq<i8>>
    decreases s.len() - i,
{
    if i < 0 || i >= s.len() {
        if r == 0 && f == 8 {
            Some(b)
        } else {
            None
        }
    } else {
        let c = s[i];
        if c == '/' {
            if f != 8 || r == 0 {
                None
            } else {
                scan_board(s, i + 1, r - 1, 0, b)
            }
        } else if is_digit(c) {
            let n = c as int - 48;
            if n == 0 || n > 8 || f + n > 8 {
                None
            } else {
                scan_board(s, i + 1, r, f + n, b)
            }
        } else if piece_letter(c) is Some {
            if f >= 8 || r < 0 {
                None
            } else {
                scan_board(s, i + 1, r, f + 1, b.update(r * 8 + f, piece_letter(c)->0 as i8))
            }
        } else {
            None
        }
    }
}

/// The board a piece-placement field describes.
pub open spec fn board_field(s: Seq<char>) -> Option<Seq<i8>> {
    scan_board(s, 0, 7, 0, Seq::new(64, |i: int| 0i8))
}

/// The message for a piece-placement field that `scan_board` rejects, read from the same
/// cursor: the first character that breaks the layout names the fault.
pub open spec fn board_error(s: Seq<char>, i: int, r: int, f: int) -> Seq<char>
    decreases s.len() - i,
{
    if i < 0 || i >= s.len() {
        "incomplete FEN board"@
    } else {
        let c = s[i];
        if c == '/' {
            if f != 8 || r == 0 {
                "invalid FEN board"@
            } else {
                board_error(s, i + 1, r - 1, 0)
            }
        } else if is_digit(c) {
            let n = c as int - 48;
            if n == 0 || n > 8 || f + n > 8 {
                "invalid FEN empty-square count"@
            } else {
                board_error(s, i + 1, r, f + n)
            }
        } else if piece_letter(c) is Some {
            if f >= 8 || r < 0 {
                "invalid FEN placement"@
            } else {
                board_error(s, i + 1, r, f + 1)
            }
        } else {
            "invalid FEN piece"@
        }
    }
}

/// Reads a piece-placement field.
fn parse_board(s: &Vec<char>) -> (r: Result<[i8; 64], &'static str>)
    ensures
        r matches Ok(b) ==> board_field(s@) == Some(b@),
        r is Err <==> board_field(s@) is None,
        r matches Err(e) ==> e@ == board_error(s@, 0, 7, 0),
{
    let mut board = [EMPTY; 64];
    let mut r: i8 = 7;
    let mut f: i8 = 0;
    let n = s.len();
    let ghost init = Seq::new(64, |i: int| 0i8);
    assert(board@ =~= init);
    for i in 0..n
        invariant
            n == s@.len(),
            0 <= r <= 7,
            0 <= f <= 8,
            board_field(s@) == scan_board(s@, i as int, r as int, f as int, board@),
            board_error(s@, 0, 7, 0) == board_error(s@, i as int, r as int, f as int),
            board@.len() == 64,
    {
        let c = s[i];
        if c == '/' {
            if f != 8 || r == 0 {
                return Err("invalid FEN board");
            }
            r = r - 1;
            f = 0;
        } else if '0' <= c && c <= '9' {
            let d = (c as u32 - 48) as i8;
            if d == 0 || d > 8 || f + d > 8 {
                return Err("invalid FEN empty-square count");
            }
            f = f + d;
        } else {
            match piece_from_letter(c) {
                None => {
                    return Err("invalid FEN piece");
                },
                Some(p) => {
                    if f >= 8 {
                        return Err("invalid FEN placement");
                    }
                    board[(r * 8 + f) as usize] = p;
                    f = f + 1;
                },
            }
        }
    }
    if r != 0 || f != 8 {
        return Err("incomplete FEN board");
    }
    Ok(board)
}

/// The castling right a FEN letter stands for (0 for any other character).
pub open spec fn castle_letter(c: char) -> u8 {
    if c == 'K' {
        1
    } else if c == 'Q' {
        2
    } else if c == 'k' {
        4
    } else if c == 'q' {
        8
    } else {
        0
    }
}

/// The rights named by the first `n` letters, or `None` on an unknown or repeated letter.
pub open spec fn castle_scan(s: Seq<char>, n: int) -> Option<u8>
    decreases n,
{
    if n <= 0 {
        Some(0u8)
    } else {
        match castle_scan(s, n - 1) {
            None => None,
            Some(seen) => {
                let bit = castle_letter(s[n - 1]);
                if bit == 0 || seen & bit != 0 {
                    None
                } else {
                    Some(seen | bit)
                }
            },
        }
    }
}

/// The message for castling letters that `castle_scan` rejects: the first unknown or
/// repeated letter among the first `n` names the fault.
pub open spec fn castle_error(s: Seq<char>, n: int) -> Seq<char>
    decreases n,
{
    if n <= 0 {
        seq![]
    } else if castle_scan(s, n - 1) is None {
        castle_error(s, n - 1)
    } else if castle_letter(s[n - 1]) == 0 {
        "invalid castling rights"@
    } else {
        "duplicate castling right"@
    }
}

/// The castling-rights field: `-`, or distinct letters among `KQkq`.
pub open spec fn castling_field(s: Seq<char>) -> Option<u8> {
    if s == seq!['-'] {
        Some(0u8)
    } else {
        castle_scan(s, s.len() as int)
    }
}

/// Number of the first `n` squares holding `p`.
pub open spec fn count_of(b: Seq<i8>, p: int, n: int) -> int
    decreases n,
{
    if n <= 0 {
        0
    } else {
        count_of(b, p, n - 1) + if b[n - 1] == p {
            1int
        } else {
            0
        }
    }
}

/// The last of the first `n` squares holding `p` (255 when there is none).
pub open spec fn last_square_of(b: Seq<i8>, p: int, n: int) -> int
    decreases n,
{
    if n <= 0 {
        255
    } else if b[n - 1] == p {
        n - 1
    } else {
        last_square_of(b, p, n - 1)
    }
}

/// Each castling right held needs its king and rook on their home squares.
pub open spec fn rights_match_homes(b: Seq<i8>, c: u8) -> bool {
    &&& c & 1u8 != 0 ==> b[4] == KING && b[7] == ROOK
    &&& c & 2u8 != 0 ==> b[4] == KING && b[0] == ROOK
    &&& c & 4u8 != 0 ==> b[60] == -KING && b[63] == -ROOK
    &&& c & 8u8 != 0 ==> b[60] == -KING && b[56] == -ROOK
}

/// An en-passant target must sit behind an enemy pawn that just advanced two squares from
/// an empty origin, right after that move.
pub open spec fn ep_state_ok(b: Seq<i8>, side: int, ep: int, half: int) -> bool {
    ep < 0 || (rank_of(ep) == (if side == 1 {
        5int
    } else {
        2
    }) && b[ep] == 0 && b[ep - side * 8] == -side * PAWN && b[ep + side * 8] == 0 && half == 0)
}

/// The side-to-move field.
pub open spec fn side_field(s: Seq<char>) -> Option<int> {
    if s == seq!['w'] {
        Some(1)
    } else if s == seq!['b'] {
        Some(-1)
    } else {
        None
    }
}

/// The en-passant field: `-` or a square name.
pub open spec fn ep_field(s: Seq<char>) -> Option<int> {
    if s == seq!['-'] {
        Some(-1)
    } else {
        parse_square_spec(s)
    }
}

/// The position a FEN text describes, when it is a valid one: six whitespace-separated fields
/// (placement, side, castling rights, en-passant target, halfmove clock, fullmove number)
/// with exactly one king per side and rights and en-passant state consistent with the board.
pub open spec fn fen_spec(s: Seq<char>) -> Option<PositionModel> {
    let w = split_ws(s);
    if w.len() != 6 {
        None
    } else {
        match (
            board_field(w[0]),
            side_field(w[1]),
            castling_field(w[2]),
            ep_field(w[3]),
            parse_unsigned_spec(w[4], 65535),
            parse_unsigned_spec(w[5], 65535),
        ) {
            (Some(b), Some(side), Some(c), Some(ep), Some(half), Some(full)) => {
                if full != 0 && count_of(b, KING as int, 64) == 1 && count_of(b, -KING, 64) == 1
                    && rights_match_homes(b, c) && ep_state_ok(b, side, ep, half) {
                    let wk = last_square_of(b, KING as int, 64);
                    let bk = last_square_of(b, -KING, 64);
                    Some(
                        PositionModel {
                            board: b,
                            side: side,
                            castle: c as int,
                            ep: ep,
                            halfmove: half,
                            fullmove: full,
                            white_king: wk,
                            black_king: bk,
                            hash: hash_of(b, side, c as int, ep, if side == 1 {
                                wk
                            } else {
                                bk
                            }),
                            mg: mg_sum(b, 64),
                            eg: eg_sum(b, 64),
                            phase: phase_sum(b, 64),
                        },
                    )
                } else {
                    None
                }
            },
            _ => None,
        }
    }
}

/// The message of a FEN text that `fen_spec` rejects: the first check it fails, taken in
/// the order fields, placement, side, castling rights, en passant, clocks, kings, rights
/// against the board, en-passant state.
pub open spec fn fen_error(s: Seq<char>) -> Seq<char> {
    let w = split_ws(s);
    if w.len() != 6 {
        "FEN requires exactly six fields"@
    } else if board_field(w[0]) is None {
        board_error(w[0], 0, 7, 0)
    } else if side_field(w[1]) is None {
        "invalid side"@
    } else if castling_field(w[2]) is None {
        castle_error(w[2], w[2].len() as int)
    } else if ep_field(w[3]) is None {
        "invalid en passant"@
    } else if parse_unsigned_spec(w[4], 65535) is None {
        "invalid halfmove clock"@
    } else if parse_unsigned_spec(w[5], 65535) is None {
        "invalid fullmove number"@
    } else if parse_unsigned_spec(w[5], 65535)->0 == 0 {
        "fullmove number must be positive"@
    } else {
        let b = board_field(w[0])->0;
        if !(count_of(b, KING as int, 64) == 1 && count_of(b, -KING, 64) == 1) {
            "FEN must contain exactly one king per side"@
        } else if !rights_match_homes(b, castling_field(w[2])->0) {
            "castling right requires king and rook on home squares"@
        } else {
            "invalid en passant state"@
        }
    }
}

/// Reading a placement field only ever writes piece codes.
pub proof fn lemma_scan_board_ok(s: Seq<char>, i: int, r: int, f: int, b: Seq<i8>)
    requires
        board_ok(b),
        0 <= r <= 7,
        0 <= f <= 8,
    ensures
        scan_board(s, i, r, f, b) matches Some(out) ==> board_ok(out),
    decreases s.len() - i,
{
    if 0 <= i < s.len() {
        let c = s[i];
        if c == '/' {
            if !(f != 8 || r == 0) {
                lemma_scan_board_ok(s, i + 1, r - 1, 0, b);
            }
        } else if is_digit(c) {
            let n = c as int - 48;
            if !(n == 0 || n > 8 || f + n > 8) {
                lemma_scan_board_ok(s, i + 1, r, f + n, b);
            }
        } else if piece_letter(c) is Some {
            if !(f >= 8 || r < 0) {
                let b2 = b.update(r * 8 + f, piece_letter(c)->0 as i8);
                assert(board_ok(b2));
                lemma_scan_board_ok(s, i + 1, r, f + 1, b2);
            }
        }
    }
}

/// Castling letters only ever name the four rights.
pub proof fn lemma_castle_scan_bound(s: Seq<char>, n: int)
    ensures
        castle_scan(s, n) matches Some(c) ==> c < 16,
    decreases n,
{
    if n > 0 {
        lemma_castle_scan_bound(s, n - 1);
        if let Some(seen) = castle_scan(s, n - 1) {
            let bit = castle_letter(s[n - 1]);
            assert(seen < 16 && (bit == 1 || bit == 2 || bit == 4 || bit == 8) ==> seen | bit < 16)
                by (bit_vector);
        }
    }
}

proof fn lemma_castle_scan_none(s: Seq<char>, k: int, n: int)
    requires
        castle_scan(s, k) is None,
        k <= n,
    ensures
        castle_scan(s, n) is None,
        castle_error(s, n) == castle_error(s, k),
    decreases n - k,
{
    if k < n {
        lemma_castle_scan_none(s, k, n - 1);
    }
}

proof fn lemma_single_square(b: Seq<i8>, p: int, n: int)
    requires
        0 <= n <= b.len(),
        count_of(b, p, n) >= 1,
    ensures
        0 <= last_square_of(b, p, n) < n,
        b[last_square_of(b, p, n)] == p,
    decreases n,
{
    if n > 0 && b[n - 1] != p {
        lemma_single_square(b, p, n - 1);
    }
}

/// A piece counted once stands only on the last square that holds it.
proof fn lemma_counted_once(b: Seq<i8>, p: int, n: int, x: int)
    requires
        0 <= n <= b.len(),
        count_of(b, p, n) == 1,
        0 <= x < n,
        b[x] == p,
    ensures
        last_square_of(b, p, n) == x,
    decreases n,
{
    if b[n - 1] == p {
        if x < n - 1 {
            lemma_counted_positive(b, p, n - 1, x);
        }
    } else {
        lemma_counted_once(b, p, n - 1, x);
    }
}

proof fn lemma_counted_positive(b: Seq<i8>, p: int, n: int, x: int)
    requires
        0 <= n <= b.len(),
        0 <= x < n,
        b[x] == p,
    ensures
        count_of(b, p, n) >= 1,
    decreases n,
{
    if x < n - 1 {
        lemma_counted_positive(b, p, n - 1, x);
    } else {
        lemma_count_nonneg(b, p, n - 1);
    }
}

proof fn lemma_count_nonneg(b: Seq<i8>, p: int, n: int)
    ensures
        count_of(b, p, n) >= 0,
    decreases n,
{
    if n > 0 {
        lemma_count_nonneg(b, p, n - 1);
    }
}

/// A FEN text read as a position has exactly one king of each side, on the recorded king
/// squares; each castling right held has its king and rook on their home squares; rights below
/// 16; a fullmove number of at least 1; and an en-passant target only on the rank behind an
/// enemy pawn that just stepped two squares from an empty origin, with the halfmove clock at 0.
pub proof fn law_fen_rule_state(s: Seq<char>)
    requires
        fen_spec(s) is Some,
    ensures
        ({
            let p = fen_spec(s)->0;
            &&& count_of(p.board, KING as int, 64) == 1
            &&& count_of(p.board, -KING, 64) == 1
            &&& p.board[p.white_king] == KING
            &&& p.board[p.black_king] == -KING
            &&& p.side == 1 || p.side == -1
            &&& 0 <= p.castle < 16
            &&& rights_match_homes(p.board, p.castle as u8)
            &&& p.fullmove >= 1
            &&& ep_state_ok(p.board, p.side, p.ep, p.halfmove)
        }),
{
    let w = split_ws(s);
    let b = board_field(w[0])->0;
    lemma_scan_board_ok(w[0], 0, 7, 0, Seq::new(64, |i: int| 0i8));
    lemma_single_square(b, KING as int, 64);
    lemma_single_square(b, -KING, 64);
    lemma_parse_unsigned_range(w[5], 65535);
    if w[2] != seq!['-'] {
        lemma_castle_scan_bound(w[2], w[2].len() as int);
    }
}

/// Reads the castling-rights field.
fn parse_castling(s: &Vec<char>) -> (r: Result<u8, &'static str>)
    ensures
        r matches Ok(c) ==> castling_field(s@) == Some(c) && c < 16,
        r is Err <==> castling_field(s@) is None,
        r matches Err(e) ==> e@ == castle_error(s@, s@.len() as int),
{
    if s.len() == 1 && s[0] == '-' {
        assert(s@ =~= seq!['-']);
        return Ok(0);
    }
    assert(s@ != seq!['-']);
    let n = s.len();
    let mut seen: u8 = 0;
    for i in 0..n
        invariant
            n == s@.len(),
            castle_scan(s@, i as int) == Some(seen),
            seen < 16,
            s@ != seq!['-'],
    {
        let c = s[i];
        let bit: u8 = if c == 'K' {
            1
        } else if c == 'Q' {
            2
        } else if c == 'k' {
            4
        } else if c == 'q' {
            8
        } else {
            proof {
                lemma_castle_scan_none(s@, i + 1, n as int);
            }
            return Err("invalid castling rights");
        };
        if seen & bit != 0 {
            proof {
                lemma_castle_scan_none(s@, i + 1, n as int);
            }
            return Err("duplicate castling right");
        }
        proof {
            lemma_castle_scan_bound(s@, i + 1);
        }
        seen = seen | bit;
    }
    Ok(seen)
}

/// Whether a field is exactly the given single character.
fn is_single(s: &Vec<char>, c: char) -> (r: bool)
    ensures
        r == (s@ == seq![c]),
{
    if s.len() == 1 && s[0] == c {
        assert(s@ =~= seq![c]);
        true
    } else {
        false
    }
}

/// Parses a position in Forsyth-Edwards Notation.
pub fn from_fen(fen: &str) -> (r: Result<Position, String>)
    ensures
        r matches Ok(p) ==> fen_spec(fen@) == Some(p@) && p@.wf(),
        r is Err <==> fen_spec(fen@) is None,
        r matches Err(e) ==> e@ == fen_error(fen@),
{
    match parse_fen_fields(fen) {
        Ok(p) => Ok(p),
        Err(msg) => Err(String::from_str(msg)),
    }
}

fn parse_fen_fields(fen: &str) -> (r: Result<Position, &'static str>)
    ensures
        r matches Ok(p) ==> fen_spec(fen@) == Some(p@) && p@.wf(),
        r is Err <==> fen_spec(fen@) is None,
        r matches Err(e) ==> e@ == fen_error(fen@),
{
    let chars = chars_of(fen);
    let fields = split_whitespace(&chars);
    let ghost w = split_ws(fen@);
    if fields.len() != 6 {
        return Err("FEN requires exactly six fields");
    }
    let board = parse_board(&fields[0])?;
    let side: i8 = if is_single(&fields[1], 'w') {
        WHITE
    } else if is_single(&fields[1], 'b') {
        BLACK
    } else {
        return Err("invalid side");
    };
    let castle = parse_castling(&fields[2])?;
    let ep: i8 = if is_single(&fields[3], '-') {
        -1
    } else {
        let f = &fields[3];
        if f.len() != 2 {
            return Err("invalid en passant");
        }
        match square_from_pair(f[0], f[1]) {
            Some(sq) => sq as i8,
            None => {
                return Err("invalid en passant");
            },
        }
    };
    let halfmove = match parse_unsigned(&fields[4], 65535) {
        Some(v) => v as u16,
        None => {
            return Err("invalid halfmove clock");
        },
    };
    let fullmove = match parse_unsigned(&fields[5], 65535) {
        Some(v) => v as u16,
        None => {
            return Err("invalid fullmove number");
        },
    };
    if fullmove == 0 {
        return Err("fullmove number must be positive");
    }
    let ghost b = board@;
    proof {
        lemma_scan_board_ok(fields@[0]@, 0, 7, 0, Seq::new(64, |i: int| 0i8));
    }
    let mut king_sq: [u8; 2] = [255, 255];
    let mut white_kings: u32 = 0;
    let mut black_kings: u32 = 0;
    for sq in 0..64usize
        invariant
            b == board@,
            b.len() == 64,
            white_kings == count_of(b, KING as int, sq as int),
            black_kings == count_of(b, -KING, sq as int),
            king_sq[0] == last_square_of(b, KING as int, sq as int),
            king_sq[1] == last_square_of(b, -KING, sq as int),
            white_kings <= sq,
            black_kings <= sq,
    {
        if board[sq] == KING {
            king_sq[0] = sq as u8;
            white_kings = white_kings + 1;
        } else if board[sq] == -KING {
            king_sq[1] = sq as u8;
            black_kings = black_kings + 1;
        }
    }
    if white_kings != 1 || black_kings != 1 {
        return Err("FEN must contain exactly one king per side");
    }
    if (castle & 1 != 0 && (board[4] != KING || board[7] != ROOK)) || (castle & 2 != 0 && (
    board[4] != KING || board[0] != ROOK)) || (castle & 4 != 0 && (board[60] != -KING || board[63]
        != -ROOK)) || (castle & 8 != 0 && (board[60] != -KING || board[56] != -ROOK)) {
        return Err("castling right requires king and rook on home squares");
    }
    if ep >= 0 {
        let target = ep as u8;
        let required_rank: i8 = if side == WHITE {
            5
        } else {
            2
        };
        if rank(target) != required_rank {
            return Err("invalid en passant state");
        }
        let captured_sq = (target as i16 - side as i16 * 8) as usize;
        let origin_sq = (target as i16 + side as i16 * 8) as usize;
        if board[target as usize] != EMPTY || board[captured_sq] != -side * PAWN
            || board[origin_sq] != EMPTY || halfmove != 0 {
            return Err("invalid en passant state");
        }
    }
    proof {
        lemma_single_square(b, KING as int, 64);
        lemma_single_square(b, -KING, 64);
        reveal(kings_unique);
        assert forall|sq: int| 0 <= sq < 64 implies (b[sq] == KING ==> sq == last_square_of(b, KING as int, 64))
            && (b[sq] == -KING ==> sq == last_square_of(b, -KING, 64)) by {
            if b[sq] == KING {
                lemma_counted_once(b, KING as int, 64, sq);
            }
            if b[sq] == -KING {
                lemma_counted_once(b, -KING, 64, sq);
            }
        }
    }
    let mut pos = Position {
        board,
        side,
        castle,
        ep,
        halfmove,
        fullmove,
        king_sq,
        hash: 0,
        mg: 0,
        eg: 0,
        phase: 0,
    };
    pos.recompute_state();
    proof {
        assert(fields@[0]@ == w[0]);
        assert(pos@ =~= fen_spec(fen@)->0);
    }
    Ok(pos)
}


/// The FEN letter of a piece: upper case for white, lower case for black.
pub open spec fn fen_letter(p: int) -> char {
    if p == 1 {
        'P'
    } else if p == 2 {
        'N'
    } else if p == 3 {
        'B'
    } else if p == 4 {
        'R'
    } else if p == 5 {
        'Q'
    } else if p == 6 {
        'K'
    } else if p == -1 {
        'p'
    } else if p == -2 {
        'n'
    } else if p == -3 {
        'b'
    } else if p == -4 {
        'r'
    } else if p == -5 {
        'q'
    } else {
        'k'
    }
}

/// The digit character for `0 <= n <= 9`.
pub open spec fn digit_char(n: int) -> char {
    (48 + n) as char
}

/// The digits written for a run of empty squares, if any.
pub open spec fn run_text(empty: int) -> Seq<char> {
    if empty > 0 {
        seq![digit_char(empty)]
    } else {
        seq![]
    }
}

/// The text of rank `r` from file `f` on, after a run of `empty` empty squares.
pub open spec fn row_text(b: Seq<i8>, r: int, f: int, empty: int) -> Seq<char>
    decreases 8 - f,
{
    if f >= 8 {
        run_text(empty)
    } else if b[r * 8 + f] == 0 {
        row_text(b, r, f + 1, empty + 1)
    } else {
        run_text(empty) + seq![fen_letter(b[r * 8 + f] as int)] + row_text(b, r, f + 1, 0)
    }
}

/// The piece-placement text of ranks `r` down to the first, separated by `/`.
pub open spec fn ranks_text(b: Seq<i8>, r: int) -> Seq<char>
    decreases r + 1,
{
    if r < 0 {
        seq![]
    } else if r == 0 {
        row_text(b, 0, 0, 0)
    } else {
        row_text(b, r, 0, 0) + seq!['/'] + ranks_text(b, r - 1)
    }
}

/// The castling field: the letters of the rights held, or `-`.
pub open spec fn rights_text(c: int) -> Seq<char> {
    let k = if c % 2 == 1 {
        seq!['K']
    } else {
        seq![]
    };
    let q = if (c / 2) % 2 == 1 {
        seq!['Q']
    } else {
        seq![]
    };
    let bk = if (c / 4) % 2 == 1 {
        seq!['k']
    } else {
        seq![]
    };
    let bq = if (c / 8) % 2 == 1 {
        seq!['q']
    } else {
        seq![]
    };
    let all = k + q + bk + bq;
    if all.len() == 0 {
        seq!['-']
    } else {
        all
    }
}

/// The decimal digits of a natural number, without leading zeros.
pub open spec fn decimal(n: nat) -> Seq<char>
    decreases n,
{
    if n < 10 {
        seq![digit_char(n as int)]
    } else {
        decimal(n / 10).push(digit_char((n % 10) as int))
    }
}

/// The FEN text of a position: six fields separated by single spaces.
pub open spec fn fen_text(p: PositionModel) -> Seq<char> {
    let side = if p.side == 1 {
        seq!['w']
    } else {
        seq!['b']
    };
    let ep = if p.ep >= 0 {
        square_name_spec(p.ep)
    } else {
        seq!['-']
    };
    ranks_text(p.board, 7) + seq![' '] + side + seq![' '] + rights_text(p.castle) + seq![' ']
        + ep + seq![' '] + decimal(p.halfmove as nat) + seq![' '] + decimal(p.fullmove as nat)
}

fn fen_letter_of(p: i8) -> (c: char)
    ensures
        c == fen_letter(p as int),
{
    match p {
        1 => 'P',
        2 => 'N',
        3 => 'B',
        4 => 'R',
        5 => 'Q',
        6 => 'K',
        -1 => 'p',
        -2 => 'n',
        -3 => 'b',
        -4 => 'r',
        -5 => 'q',
        _ => 'k',
    }
}

fn push_digit(v: &mut Vec<char>, n: u64)
    requires
        n < 10,
    ensures
        final(v)@ == old(v)@.push(digit_char(n as int)),
{
    v.push(((48 + n) as u8) as char);
}

/// Appends the decimal digits of `n`.
pub fn push_decimal(v: &mut Vec<char>, n: u64)
    ensures
        final(v)@ == old(v)@ + decimal(n as nat),
    decreases n,
{
    if n >= 10 {
        push_decimal(v, n / 10);
        push_digit(v, n % 10);
        assert(final(v)@ =~= old(v)@ + decimal(n as nat));
    } else {
        push_digit(v, n);
        assert(final(v)@ =~= old(v)@ + decimal(n as nat));
    }
}

/// Appends the text of rank `r`.
fn push_row(v: &mut Vec<char>, board: &[i8; 64], r: usize)
    requires
        r < 8,
        board_ok(board@),
    ensures
        final(v)@ == old(v)@ + row_text(board@, r as int, 0, 0),
{
    let ghost v0 = v@;
    let mut empty: u16 = 0;
    for f in 0..8usize
        invariant
            r < 8,
            board_ok(board@),
            empty <= f,
            v0 + row_text(board@, r as int, 0, 0) == v@ + row_text(board@, r as int, f as int,
                empty as int),
    {
        let p = board[r * 8 + f];
        if p == EMPTY {
            empty = empty + 1;
        } else {
            let ghost before = v@;
            let ghost run = run_text(empty as int);
            if empty > 0 {
                push_digit(v, empty as u64);
            }
            v.push(fen_letter_of(p));
            assert(v@ =~= before + run + seq![fen_letter(p as int)]);
            assert(row_text(board@, r as int, f as int, empty as int) == run + seq![fen_letter(
                p as int)] + row_text(board@, r as int, f + 1, 0));
            assert(before + (run + seq![fen_letter(p as int)] + row_text(board@, r as int, f + 1,
                0)) =~= v@ + row_text(board@, r as int, f + 1, 0));
            empty = 0;
        }
    }
    if empty > 0 {
        push_digit(v, empty as u64);
    }
    assert(v0 + row_text(board@, r as int, 0, 0) =~= v@);
}

/// Appends the piece-placement field.
fn push_board(v: &mut Vec<char>, board: &[i8; 64])
    requires
        board_ok(board@),
    ensures
        final(v)@ == old(v)@ + ranks_text(board@, 7),
{
    let ghost v0 = v@;
    let mut i: usize = 0;
    assert(v@ + ranks_text(board@, 7) =~= v0 + ranks_text(board@, 7));
    while i < 8
        invariant
            i <= 8,
            board_ok(board@),
            v0 + ranks_text(board@, 7) == v@ + ranks_text(board@, 7 - i as int),
        decreases 8 - i,
    {
        let r = 7 - i;
        let ghost before = v@;
        push_row(v, board, r);
        if r > 0 {
            v.push('/');
            assert(v@ + ranks_text(board@, r - 1) =~= before + ranks_text(board@, r as int));
        } else {
            assert(v@ + ranks_text(board@, -1) =~= before + ranks_text(board@, r as int));
        }
        i = i + 1;
    }
    assert(v@ =~= v0 + ranks_text(board@, 7));
}

/// Appends the castling field.
fn push_rights(v: &mut Vec<char>, c: u8)
    ensures
        final(v)@ == old(v)@ + rights_text(c as int),
{
    let mut rights: Vec<char> = Vec::new();
    if c % 2 == 1 {
        rights.push('K');
    }
    if (c / 2) % 2 == 1 {
        rights.push('Q');
    }
    if (c / 4) % 2 == 1 {
        rights.push('k');
    }
    if (c / 8) % 2 == 1 {
        rights.push('q');
    }
    if rights.len() == 0 {
        rights.push('-');
    }
    assert(rights@ =~= rights_text(c as int));
    v.append(&mut rights);
}

/// Appends the en-passant field.
fn push_ep(v: &mut Vec<char>, ep: i8)
    requires
        ep < 64,
    ensures
        final(v)@ == old(v)@ + (if ep >= 0 {
            square_name_spec(ep as int)
        } else {
            seq!['-']
        }),
{
    if ep >= 0 {
        let mut name = square_name_chars(ep as u8);
        v.append(&mut name);
    } else {
        v.push('-');
        assert(final(v)@ =~= old(v)@ + seq!['-']) by {}
    }
}

impl Position {
    /// The position in Forsyth-Edwards Notation.
    pub fn to_fen(&self) -> (s: String)
        requires
            self@.layout_ok(),
        ensures
            s@ == fen_text(self@),
    {
        let mut v: Vec<char> = Vec::new();
        push_board(&mut v, &self.board);
        let ghost v1 = v@;
        v.push(' ');
        v.push(if self.side == WHITE {
            'w'
        } else {
            'b'
        });
        v.push(' ');
        let ghost v2 = v@;
        push_rights(&mut v, self.castle);
        v.push(' ');
        let ghost v3 = v@;
        push_ep(&mut v, self.ep);
        v.push(' ');
        let ghost v4 = v@;
        push_decimal(&mut v, self.halfmove as u64);
        v.push(' ');
        let ghost v5 = v@;
        push_decimal(&mut v, self.fullmove as u64);
        assert(v@ =~= fen_text(self@));
        string_of(&v)
    }
}

} // verus!
