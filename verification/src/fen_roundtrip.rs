//! Writing a position as FEN and reading the text back gives the same position.

use vstd::prelude::*;
use crate::fen::{
    lemma_castle_scan_bound, lemma_scan_board_ok, board_field, castle_scan, castling_field, decimal, digit_char, ep_field, fen_letter, fen_spec,
    fen_text, piece_letter, ranks_text, rights_text, row_text, run_text, scan_board, side_field,
};
use crate::position::{board_ok, PositionModel};
use crate::text::{
    all_digits, digits_value, is_digit, is_ws, lemma_split_word, parse_square_spec,
    parse_unsigned_spec, split_ws, square_name_spec,
};

verus! {

broadcast use vstd::seq_lib::group_seq_properties;

/// The digits of `n` read back as `n`.
proof fn lemma_decimal_reads_back(n: nat)
    ensures
        decimal(n).len() > 0,
        all_digits(decimal(n)),
        digits_value(decimal(n)) == n,
        decimal(n)[0] != '+',
        forall|i: int| 0 <= i < decimal(n).len() ==> !is_ws(#[trigger] decimal(n)[i]),
    decreases n,
{
    if n < 10 {
        assert(digit_char(n as int) as int == 48 + n);
        assert(decimal(n).drop_last() =~= Seq::<char>::empty());
        assert(digits_value(decimal(n)) == digits_value(decimal(n).drop_last()) * 10 + (
        decimal(n).last() as int - 48));
    } else {
        lemma_decimal_reads_back(n / 10);
        let d = decimal(n);
        assert(d.drop_last() =~= decimal(n / 10));
        assert(digit_char((n % 10) as int) as int == 48 + n % 10);
        assert(d.last() == digit_char((n % 10) as int));
        assert(digits_value(d) == digits_value(d.drop_last()) * 10 + (d.last() as int - 48));
        assert((n / 10) * 10 + n % 10 == n);
        assert(d[0] == decimal(n / 10)[0]);
    }
}

/// A clock field written in decimal parses back to its value.
proof fn lemma_clock_reads_back(n: nat)
    requires
        n <= 65535,
    ensures
        parse_unsigned_spec(decimal(n), 65535) == Some(n as int),
        decimal(n).len() > 0,
        forall|i: int| 0 <= i < decimal(n).len() ==> !is_ws(#[trigger] decimal(n)[i]),
{
    lemma_decimal_reads_back(n);
}

/// A square's name reads back as the square.
proof fn lemma_square_reads_back(sq: int)
    requires
        0 <= sq < 64,
    ensures
        parse_square_spec(square_name_spec(sq)) == Some(sq),
        square_name_spec(sq).len() == 2,
        !is_ws(square_name_spec(sq)[0]),
        !is_ws(square_name_spec(sq)[1]),
{
    let s = square_name_spec(sq);
    assert((97 + sq % 8) as char as int == 97 + sq % 8);
    assert((49 + sq / 8) as char as int == 49 + sq / 8);
}

/// Adding a higher single bit to a smaller value.
proof fn lemma_or_bit(seen: u8, bit: u8)
    by (bit_vector)
    requires
        bit == 1 || bit == 2 || bit == 4 || bit == 8,
        seen < bit,
    ensures
        seen & bit == 0,
        seen | bit == seen + bit,
{
}

/// The castling field written for rights `c` reads back as `c`.
proof fn lemma_rights_read_back(c: int)
    requires
        0 <= c < 16,
    ensures
        castling_field(rights_text(c)) == Some(c as u8),
        rights_text(c).len() > 0,
        forall|i: int| 0 <= i < rights_text(c).len() ==> !is_ws(#[trigger] rights_text(c)[i]),
{
    if c == 0 {
        assert(rights_text(0) =~= seq!['-']);
    } else if c == 1 {
        let t = seq!['K'];
        assert(rights_text(1) =~= t);
        assert(t != seq!['-']) by { assert(t[0] != '-'); }
        assert(castle_scan(t, 0) == Some(0u8));
        lemma_or_bit(0u8, 1u8);
        assert(castle_scan(t, 1) == Some(1u8));
    } else if c == 2 {
        let t = seq!['Q'];
        assert(rights_text(2) =~= t);
        assert(t != seq!['-']) by { assert(t[0] != '-'); }
        assert(castle_scan(t, 0) == Some(0u8));
        lemma_or_bit(0u8, 2u8);
        assert(castle_scan(t, 1) == Some(2u8));
    } else if c == 3 {
        let t = seq!['K', 'Q'];
        assert(rights_text(3) =~= t);
        assert(t != seq!['-']) by { assert(t[0] != '-'); }
        assert(castle_scan(t, 0) == Some(0u8));
        lemma_or_bit(0u8, 1u8);
        assert(castle_scan(t, 1) == Some(1u8));
        lemma_or_bit(1u8, 2u8);
        assert(castle_scan(t, 2) == Some(3u8));
    } else if c == 4 {
        let t = seq!['k'];
        assert(rights_text(4) =~= t);
        assert(t != seq!['-']) by { assert(t[0] != '-'); }
        assert(castle_scan(t, 0) == Some(0u8));
        lemma_or_bit(0u8, 4u8);
        assert(castle_scan(t, 1) == Some(4u8));
    } else if c == 5 {
        let t = seq!['K', 'k'];
        assert(rights_text(5) =~= t);
        assert(t != seq!['-']) by { assert(t[0] != '-'); }
        assert(castle_scan(t, 0) == Some(0u8));
        lemma_or_bit(0u8, 1u8);
        assert(castle_scan(t, 1) == Some(1u8));
        lemma_or_bit(1u8, 4u8);
        assert(castle_scan(t, 2) == Some(5u8));
    } else if c == 6 {
        let t = seq!['Q', 'k'];
        assert(rights_text(6) =~= t);
        assert(t != seq!['-']) by { assert(t[0] != '-'); }
        assert(castle_scan(t, 0) == Some(0u8));
        lemma_or_bit(0u8, 2u8);
        assert(castle_scan(t, 1) == Some(2u8));
        lemma_or_bit(2u8, 4u8);
        assert(castle_scan(t, 2) == Some(6u8));
    } else if c == 7 {
        let t = seq!['K', 'Q', 'k'];
        assert(rights_text(7) =~= t);
        assert(t != seq!['-']) by { assert(t[0] != '-'); }
        assert(castle_scan(t, 0) == Some(0u8));
        lemma_or_bit(0u8, 1u8);
        assert(castle_scan(t, 1) == Some(1u8));
        lemma_or_bit(1u8, 2u8);
        assert(castle_scan(t, 2) == Some(3u8));
        lemma_or_bit(3u8, 4u8);
        assert(castle_scan(t, 3) == Some(7u8));
    } else if c == 8 {
        let t = seq!['q'];
        assert(rights_text(8) =~= t);
        assert(t != seq!['-']) by { assert(t[0] != '-'); }
        assert(castle_scan(t, 0) == Some(0u8));
        lemma_or_bit(0u8, 8u8);
        assert(castle_scan(t, 1) == Some(8u8));
    } else if c == 9 {
        let t = seq!['K', 'q'];
        assert(rights_text(9) =~= t);
        assert(t != seq!['-']) by { assert(t[0] != '-'); }
        assert(castle_scan(t, 0) == Some(0u8));
        lemma_or_bit(0u8, 1u8);
        assert(castle_scan(t, 1) == Some(1u8));
        lemma_or_bit(1u8, 8u8);
        assert(castle_scan(t, 2) == Some(9u8));
    } else if c == 10 {
        let t = seq!['Q', 'q'];
        assert(rights_text(10) =~= t);
        assert(t != seq!['-']) by { assert(t[0] != '-'); }
        assert(castle_scan(t, 0) == Some(0u8));
        lemma_or_bit(0u8, 2u8);
        assert(castle_scan(t, 1) == Some(2u8));
        lemma_or_bit(2u8, 8u8);
        assert(castle_scan(t, 2) == Some(10u8));
    } else if c == 11 {
        let t = seq!['K', 'Q', 'q'];
        assert(rights_text(11) =~= t);
        assert(t != seq!['-']) by { assert(t[0] != '-'); }
        assert(castle_scan(t, 0) == Some(0u8));
        lemma_or_bit(0u8, 1u8);
        assert(castle_scan(t, 1) == Some(1u8));
        lemma_or_bit(1u8, 2u8);
        assert(castle_scan(t, 2) == Some(3u8));
        lemma_or_bit(3u8, 8u8);
        assert(castle_scan(t, 3) == Some(11u8));
    } else if c == 12 {
        let t = seq!['k', 'q'];
        assert(rights_text(12) =~= t);
        assert(t != seq!['-']) by { assert(t[0] != '-'); }
        assert(castle_scan(t, 0) == Some(0u8));
        lemma_or_bit(0u8, 4u8);
        assert(castle_scan(t, 1) == Some(4u8));
        lemma_or_bit(4u8, 8u8);
        assert(castle_scan(t, 2) == Some(12u8));
    } else if c == 13 {
        let t = seq!['K', 'k', 'q'];
        assert(rights_text(13) =~= t);
        assert(t != seq!['-']) by { assert(t[0] != '-'); }
        assert(castle_scan(t, 0) == Some(0u8));
        lemma_or_bit(0u8, 1u8);
        assert(castle_scan(t, 1) == Some(1u8));
        lemma_or_bit(1u8, 4u8);
        assert(castle_scan(t, 2) == Some(5u8));
        lemma_or_bit(5u8, 8u8);
        assert(castle_scan(t, 3) == Some(13u8));
    } else if c == 14 {
        let t = seq!['Q', 'k', 'q'];
        assert(rights_text(14) =~= t);
        assert(t != seq!['-']) by { assert(t[0] != '-'); }
        assert(castle_scan(t, 0) == Some(0u8));
        lemma_or_bit(0u8, 2u8);
        assert(castle_scan(t, 1) == Some(2u8));
        lemma_or_bit(2u8, 4u8);
        assert(castle_scan(t, 2) == Some(6u8));
        lemma_or_bit(6u8, 8u8);
        assert(castle_scan(t, 3) == Some(14u8));
    } else {
        let t = seq!['K', 'Q', 'k', 'q'];
        assert(rights_text(15) =~= t);
        assert(t != seq!['-']) by { assert(t[0] != '-'); }
        assert(castle_scan(t, 0) == Some(0u8));
        lemma_or_bit(0u8, 1u8);
        assert(castle_scan(t, 1) == Some(1u8));
        lemma_or_bit(1u8, 2u8);
        assert(castle_scan(t, 2) == Some(3u8));
        lemma_or_bit(3u8, 4u8);
        assert(castle_scan(t, 3) == Some(7u8));
        lemma_or_bit(7u8, 8u8);
        assert(castle_scan(t, 4) == Some(15u8));
    }
}

/// The letter written for a piece reads back as that piece, and is neither a digit, a
/// slash nor whitespace.
proof fn lemma_letter_reads_back(p: int)
    requires
        -6 <= p <= 6,
        p != 0,
    ensures
        piece_letter(fen_letter(p)) == Some(p),
        !is_digit(fen_letter(p)),
        fen_letter(p) != '/',
        !is_ws(fen_letter(p)),
{
}

/// `acc` with the squares of rank `r` from file `f` on taken from `b`.
spec fn with_rank_from(acc: Seq<i8>, b: Seq<i8>, r: int, f: int) -> Seq<i8> {
    Seq::new(64, |k: int| if k / 8 == r && k % 8 >= f { b[k] } else { acc[k] })
}

/// The board `b` on the ranks above `r`, empty elsewhere.
spec fn upper_ranks(b: Seq<i8>, r: int) -> Seq<i8> {
    Seq::new(64, |k: int| if k / 8 > r { b[k] } else { 0i8 })
}

/// Scanning the text of rank `r` from file `f` on, with `e` empty squares pending, moves
/// the cursor to the end of the rank and copies the rank of `b` into the board read so far.
proof fn lemma_row_scan(s: Seq<char>, i: int, b: Seq<i8>, acc: Seq<i8>, r: int, f: int, e: int)
    requires
        board_ok(b),
        acc.len() == 64,
        0 <= r <= 7,
        0 <= e <= f <= 8,
        forall|k: int| r * 8 + f - e <= k < r * 8 + f ==> #[trigger] b[k] == 0,
        forall|k: int| 0 <= k < 64 && k / 8 == r && k % 8 >= f - e ==> acc[k] == 0,
        0 <= i,
        i + row_text(b, r, f, e).len() <= s.len(),
        s.subrange(i, i + row_text(b, r, f, e).len()) == row_text(b, r, f, e),
    ensures
        scan_board(s, i, r, f - e, acc) == scan_board(
            s,
            i + row_text(b, r, f, e).len(),
            r,
            8,
            with_rank_from(acc, b, r, f - e),
        ),
        forall|k: int|
            0 <= k < row_text(b, r, f, e).len() ==> !is_ws(#[trigger] row_text(b, r, f, e)[k]),
    decreases 8 - f,
{
    let t = row_text(b, r, f, e);
    assert forall|m: int| 0 <= m < t.len() implies s[i + m] == t[m] by {
        assert(s.subrange(i, i + t.len())[m] == s[i + m]);
    }
    if f >= 8 {
        if e > 0 {
            let c = digit_char(e);
            assert(c as int == 48 + e);
            assert(t =~= seq![c]);
            assert(t[0] == c);
            assert(s[i] == c);
        }
        assert(with_rank_from(acc, b, r, f - e) =~= acc) by {
            assert forall|k: int| 0 <= k < 64 implies #[trigger] with_rank_from(acc, b, r, f - e)[k]
                == acc[k] by {
                if k / 8 == r && k % 8 >= f - e {
                    assert(r * 8 + f - e <= k < r * 8 + f);
                    assert(b[k] == 0);
                }
            }
        }
    } else if b[r * 8 + f] == 0 {
        lemma_row_scan(s, i, b, acc, r, f + 1, e + 1);
    } else {
        let sq = r * 8 + f;
        let run = run_text(e);
        let rest = row_text(b, r, f + 1, 0);
        assert(t == run + seq![fen_letter(b[sq] as int)] + rest);
        lemma_letter_reads_back(b[sq] as int);
        let j = i + run.len();
        if e > 0 {
            let c = digit_char(e);
            assert(c as int == 48 + e);
            assert(t[0] == c);
            assert(s[i] == c);
            assert(scan_board(s, i, r, f - e, acc) == scan_board(s, i + 1, r, f, acc));
        }
        assert(scan_board(s, i, r, f - e, acc) == scan_board(s, j, r, f, acc));
        assert(t[run.len() as int] == fen_letter(b[sq] as int));
        assert(s[j] == fen_letter(b[sq] as int));
        let acc2 = acc.update(sq, b[sq]);
        assert(scan_board(s, j, r, f, acc) == scan_board(s, j + 1, r, f + 1, acc2));
        assert(s.subrange(j + 1, j + 1 + rest.len()) =~= rest) by {
            assert forall|m: int| 0 <= m < rest.len() implies s.subrange(j + 1, j + 1 + rest.len())[m]
                == rest[m] by {
                assert(t[run.len() + 1 + m] == rest[m]);
                assert(s[i + run.len() + 1 + m] == t[run.len() + 1 + m]);
            }
        }
        lemma_row_scan(s, j + 1, b, acc2, r, f + 1, 0);
        assert(with_rank_from(acc2, b, r, f + 1) =~= with_rank_from(acc, b, r, f - e)) by {
            assert forall|k: int| 0 <= k < 64 implies #[trigger] with_rank_from(acc2, b, r, f + 1)[k]
                == with_rank_from(acc, b, r, f - e)[k] by {
                if k / 8 == r && f - e <= k % 8 < f {
                    assert(r * 8 + f - e <= k < r * 8 + f);
                    assert(b[k] == 0);
                }
            }
        }
        assert forall|k: int| 0 <= k < t.len() implies !is_ws(#[trigger] t[k]) by {
            if k < run.len() {
                assert(t[k] == digit_char(e));
                assert(digit_char(e) as int == 48 + e);
            } else if k > run.len() {
                assert(t[k] == rest[k - run.len() - 1]);
            }
        }
    }
}

/// Scanning the text of ranks `r` down to the first, placed at the end of `s` from `i` on,
/// with the ranks above `r` already read, yields the whole board.
proof fn lemma_ranks_scan(s: Seq<char>, i: int, b: Seq<i8>, r: int)
    requires
        board_ok(b),
        0 <= r <= 7,
        0 <= i <= s.len(),
        s.subrange(i, s.len() as int) == ranks_text(b, r),
    ensures
        scan_board(s, i, r, 0, upper_ranks(b, r)) == Some(b),
        forall|k: int| 0 <= k < ranks_text(b, r).len() ==> !is_ws(#[trigger] ranks_text(b, r)[k]),
    decreases r,
{
    let t = row_text(b, r, 0, 0);
    let all = ranks_text(b, r);
    assert forall|m: int| 0 <= m < all.len() implies s[i + m] == all[m] by {
        assert(s.subrange(i, s.len() as int)[m] == s[i + m]);
    }
    assert(all.subrange(0, t.len() as int) =~= t);
    assert(s.subrange(i, i + t.len()) =~= t) by {
        assert forall|m: int| 0 <= m < t.len() implies s.subrange(i, i + t.len())[m] == t[m] by {
            assert(all[m] == t[m]);
        }
    }
    lemma_row_scan(s, i, b, upper_ranks(b, r), r, 0, 0);
    let w = with_rank_from(upper_ranks(b, r), b, r, 0);
    assert(w =~= upper_ranks(b, r - 1));
    if r == 0 {
        assert(all == t);
        assert(upper_ranks(b, -1) =~= b);
    } else {
        let rest = ranks_text(b, r - 1);
        assert(all == t + seq!['/'] + rest);
        assert(all[t.len() as int] == '/');
        assert(s[i + t.len()] == '/');
        assert(s.subrange(i + t.len() + 1, s.len() as int) =~= rest) by {
            assert forall|m: int| 0 <= m < rest.len() implies s.subrange(
                i + t.len() + 1,
                s.len() as int,
            )[m] == rest[m] by {
                assert(all[t.len() + 1 + m] == rest[m]);
            }
        }
        lemma_ranks_scan(s, i + t.len() + 1, b, r - 1);
        assert forall|k: int| 0 <= k < all.len() implies !is_ws(#[trigger] all[k]) by {
            if k > t.len() {
                assert(all[k] == rest[k - t.len() - 1]);
            } else if k < t.len() {
                assert(all[k] == t[k]);
            }
        }
    }
}

/// The placement text of a board reads back as the board.
proof fn lemma_board_reads_back(b: Seq<i8>)
    requires
        board_ok(b),
    ensures
        board_field(ranks_text(b, 7)) == Some(b),
        ranks_text(b, 7).len() > 0,
        forall|k: int| 0 <= k < ranks_text(b, 7).len() ==> !is_ws(#[trigger] ranks_text(b, 7)[k]),
{
    let s = ranks_text(b, 7);
    assert(s.subrange(0, s.len() as int) =~= s);
    lemma_ranks_scan(s, 0, b, 7);
    assert(upper_ranks(b, 7) =~= Seq::new(64, |i: int| 0i8));
    assert(s == row_text(b, 7, 0, 0) + seq!['/'] + ranks_text(b, 6));
}

/// Decimal digits never spell a negative value.
proof fn lemma_digits_nonneg(d: Seq<char>)
    requires
        all_digits(d),
    ensures
        digits_value(d) >= 0,
    decreases d.len(),
{
    if d.len() > 0 {
        assert(all_digits(d.drop_last()));
        lemma_digits_nonneg(d.drop_last());
        assert(is_digit(d[d.len() - 1]));
    }
}

/// A parsed clock value is a natural number.
proof fn lemma_clock_nonneg(t: Seq<char>)
    requires
        parse_unsigned_spec(t, 65535) is Some,
    ensures
        0 <= parse_unsigned_spec(t, 65535)->0 <= 65535,
{
    let d = if t.len() > 0 && t[0] == '+' {
        t.drop_first()
    } else {
        t
    };
    lemma_digits_nonneg(d);
}

/// The six fields of the FEN text of `p`.
spec fn fen_fields(p: PositionModel) -> Seq<Seq<char>> {
    seq![
        ranks_text(p.board, 7),
        if p.side == 1 {
            seq!['w']
        } else {
            seq!['b']
        },
        rights_text(p.castle),
        if p.ep >= 0 {
            square_name_spec(p.ep)
        } else {
            seq!['-']
        },
        decimal(p.halfmove as nat),
        decimal(p.fullmove as nat),
    ]
}

/// What a position needs for its FEN fields to read back: a board of piece codes, rights
/// among the four, an en-passant square or none, and clocks that fit the fields.
spec fn writable(p: PositionModel) -> bool {
    &&& board_ok(p.board)
    &&& p.side == 1 || p.side == -1
    &&& 0 <= p.castle < 16
    &&& -1 <= p.ep < 64
    &&& 0 <= p.halfmove <= 65535
    &&& 0 <= p.fullmove <= 65535
}

/// Each field reads back as what it was written from, and none is empty or holds
/// whitespace.
proof fn lemma_fields_read_back(p: PositionModel)
    requires
        writable(p),
    ensures
        board_field(fen_fields(p)[0]) == Some(p.board),
        side_field(fen_fields(p)[1]) == Some(p.side),
        castling_field(fen_fields(p)[2]) == Some(p.castle as u8),
        ep_field(fen_fields(p)[3]) == Some(p.ep),
        parse_unsigned_spec(fen_fields(p)[4], 65535) == Some(p.halfmove),
        parse_unsigned_spec(fen_fields(p)[5], 65535) == Some(p.fullmove),
        forall|j: int| 0 <= j < 6 ==> (#[trigger] fen_fields(p)[j]).len() > 0,
        forall|j: int, k: int|
            0 <= j < 6 && 0 <= k < fen_fields(p)[j].len() ==> !is_ws(
                #[trigger] fen_fields(p)[j][k],
            ),
{
    let f = fen_fields(p);
    if p.side == 1 {
        assert(f[1] == seq!['w']);
    } else {
        assert(f[1] == seq!['b']);
        assert(f[1] != seq!['w']) by {
            assert(f[1][0] != seq!['w'][0]);
        }
    }
    lemma_board_reads_back(p.board);
    lemma_rights_read_back(p.castle);
    lemma_clock_reads_back(p.halfmove as nat);
    lemma_clock_reads_back(p.fullmove as nat);
    if p.ep >= 0 {
        lemma_square_reads_back(p.ep);
        assert(f[3] != seq!['-']);
    }
    assert forall|j: int, k: int| 0 <= j < 6 && 0 <= k < f[j].len() implies !is_ws(
        #[trigger] f[j][k],
    ) by {
        if j == 3 && p.ep >= 0 {
            assert(k == 0 || k == 1);
        }
    }
}

/// The FEN text of a writable position splits into its six fields.
#[verifier::spinoff_prover]
#[verifier::rlimit(50)]
proof fn lemma_fen_text_splits(p: PositionModel)
    requires
        writable(p),
    ensures
        split_ws(fen_text(p)) == fen_fields(p),
{
    let f = fen_fields(p);
    let (f0, f1, f2, f3, f4, f5) = (f[0], f[1], f[2], f[3], f[4], f[5]);
    assert(f0.len() > 0 && f1.len() > 0 && f2.len() > 0 && f3.len() > 0 && f4.len() > 0
        && f5.len() > 0 && (forall|k: int| 0 <= k < f0.len() ==> !is_ws(#[trigger] f0[k])) && (
    forall|k: int| 0 <= k < f1.len() ==> !is_ws(#[trigger] f1[k])) && (forall|k: int|
        0 <= k < f2.len() ==> !is_ws(#[trigger] f2[k])) && (forall|k: int|
        0 <= k < f3.len() ==> !is_ws(#[trigger] f3[k])) && (forall|k: int|
        0 <= k < f4.len() ==> !is_ws(#[trigger] f4[k])) && (forall|k: int|
        0 <= k < f5.len() ==> !is_ws(#[trigger] f5[k]))) by {
        lemma_fields_read_back(p);
        assert forall|k: int| 0 <= k < f0.len() implies !is_ws(#[trigger] f0[k]) by {
            assert(!is_ws(fen_fields(p)[0][k]));
        }
        assert forall|k: int| 0 <= k < f1.len() implies !is_ws(#[trigger] f1[k]) by {
            assert(!is_ws(fen_fields(p)[1][k]));
        }
        assert forall|k: int| 0 <= k < f2.len() implies !is_ws(#[trigger] f2[k]) by {
            assert(!is_ws(fen_fields(p)[2][k]));
        }
        assert forall|k: int| 0 <= k < f3.len() implies !is_ws(#[trigger] f3[k]) by {
            assert(!is_ws(fen_fields(p)[3][k]));
        }
        assert forall|k: int| 0 <= k < f4.len() implies !is_ws(#[trigger] f4[k]) by {
            assert(!is_ws(fen_fields(p)[4][k]));
        }
        assert forall|k: int| 0 <= k < f5.len() implies !is_ws(#[trigger] f5[k]) by {
            assert(!is_ws(fen_fields(p)[5][k]));
        }
        assert(fen_fields(p)[0].len() > 0);
        assert(fen_fields(p)[1].len() > 0);
        assert(fen_fields(p)[2].len() > 0);
        assert(fen_fields(p)[3].len() > 0);
        assert(fen_fields(p)[4].len() > 0);
        assert(fen_fields(p)[5].len() > 0);
    }
    let sp = seq![' '];
    let r4 = f5;
    let r3 = f4 + sp + r4;
    let r2 = f3 + sp + r3;
    let r1 = f2 + sp + r2;
    let r0 = f1 + sp + r1;
    assert(fen_text(p) =~= f0 + sp + r0);
    lemma_split_word(f5, seq![]);
    lemma_split_word(f4, r4);
    assert(split_ws(r3) == seq![f4, f5]);
    lemma_split_word(f3, r3);
    assert(split_ws(r2) == seq![f3, f4, f5]);
    lemma_split_word(f2, r2);
    assert(split_ws(r1) == seq![f2, f3, f4, f5]);
    lemma_split_word(f1, r1);
    assert(split_ws(r0) == seq![f1, f2, f3, f4, f5]);
    lemma_split_word(f0, r0);
    assert(split_ws(fen_text(p)) =~= seq![f0, f1, f2, f3, f4, f5]);
    assert(f =~= seq![f0, f1, f2, f3, f4, f5]);
}

/// Writing a position that a FEN text describes and reading the text back gives the same
/// position.
pub proof fn lemma_fen_read_back(s: Seq<char>)
    requires
        fen_spec(s) is Some,
    ensures
        fen_spec(fen_text(fen_spec(s)->0)) == fen_spec(s),
{
    let p = fen_spec(s)->0;
    let w = split_ws(s);
    let c = castling_field(w[2])->0;
    lemma_scan_board_ok(w[0], 0, 7, 0, Seq::new(64, |i: int| 0i8));
    if w[2] != seq!['-'] {
        lemma_castle_scan_bound(w[2], w[2].len() as int);
    }
    lemma_clock_nonneg(w[4]);
    lemma_clock_nonneg(w[5]);
    assert(p.castle == c as int);
    assert(writable(p));
    lemma_fields_read_back(p);
    lemma_fen_text_splits(p);
}

} // verus!
