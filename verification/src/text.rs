//! Text helpers: characters, square names and UCI move notation.

use vstd::prelude::*;
use crate::board::{
    move_from, move_from_spec, move_promo, move_promo_spec, move_to, move_to_spec, FLAG_PROMO,
    BISHOP, KNIGHT, ROOK,
};

verus! {

/// Appends one character to a string (`String::push`).
#[verifier::external_body]
fn push_char(s: &mut String, c: char)
    ensures
        final(s)@ == old(s)@.push(c),
{
    s.push(c);
}

/// The characters of a string slice.
pub fn chars_of(s: &str) -> (v: Vec<char>)
    ensures
        v@ == s@,
{
    let n = s.unicode_len();
    let mut v: Vec<char> = Vec::new();
    for i in 0..n
        invariant
            n == s@.len(),
            v@ == s@.subrange(0, i as int),
    {
        v.push(s.get_char(i));
        assert(v@ =~= s@.subrange(0, i + 1));
    }
    assert(v@ =~= s@);
    v
}

/// A string holding the characters of `v[from..to]`.
pub fn string_of_range(v: &Vec<char>, from: usize, to: usize) -> (s: String)
    requires
        from <= to <= v@.len(),
    ensures
        s@ == v@.subrange(from as int, to as int),
{
    let mut s = String::new();
    for i in from..to
        invariant
            from <= to <= v@.len(),
            s@ == v@.subrange(from as int, i as int),
    {
        push_char(&mut s, v[i]);
        assert(s@ =~= v@.subrange(from as int, i + 1));
    }
    s
}

/// A string holding the characters of `v`.
pub fn string_of(v: &Vec<char>) -> (s: String)
    ensures
        s@ == v@,
{
    let s = string_of_range(v, 0, v.len());
    assert(v@.subrange(0, v@.len() as int) =~= v@);
    s
}

/// The algebraic name of a square, such as "e4".
pub open spec fn square_name_spec(sq: int) -> Seq<char> {
    seq![(97 + sq % 8) as char, (49 + sq / 8) as char]
}

/// The square named by two characters, if they name one.
pub open spec fn square_from_chars(c0: char, c1: char) -> Option<int> {
    if 'a' <= c0 <= 'h' && '1' <= c1 <= '8' {
        Some((c1 as int - 49) * 8 + (c0 as int - 97))
    } else {
        None
    }
}

/// The square a text names: exactly two characters, a file letter and a rank digit.
pub open spec fn parse_square_spec(s: Seq<char>) -> Option<int> {
    if s.len() == 2 {
        square_from_chars(s[0], s[1])
    } else {
        None
    }
}

pub fn square_from_pair(c0: char, c1: char) -> (r: Option<u8>)
    ensures
        r matches Some(sq) ==> square_from_chars(c0, c1) == Some(sq as int) && sq < 64,
        r is None <==> square_from_chars(c0, c1) is None,
{
    if 'a' <= c0 && c0 <= 'h' && '1' <= c1 && c1 <= '8' {
        let f = (c0 as u32 - 97) as u8;
        let r = (c1 as u32 - 49) as u8;
        Some(r * 8 + f)
    } else {
        None
    }
}

/// Parses a square name such as "e4".
pub fn parse_square(s: &str) -> (r: Option<u8>)
    ensures
        r matches Some(sq) ==> parse_square_spec(s@) == Some(sq as int) && sq < 64,
        r is None <==> parse_square_spec(s@) is None,
{
    if s.unicode_len() != 2 {
        return None;
    }
    square_from_pair(s.get_char(0), s.get_char(1))
}

pub fn square_name_chars(sq: u8) -> (v: Vec<char>)
    requires
        sq < 64,
    ensures
        v@ == square_name_spec(sq as int),
{
    let mut v: Vec<char> = Vec::new();
    v.push(((97 + sq % 8) as u8) as char);
    v.push(((49 + sq / 8) as u8) as char);
    assert(v@ =~= square_name_spec(sq as int));
    v
}

/// The name of a square, such as "e4".
pub fn square_name(sq: u8) -> (s: String)
    requires
        sq < 64,
    ensures
        s@ == square_name_spec(sq as int),
{
    string_of(&square_name_chars(sq))
}

/// The letter of a promotion kind in UCI notation (queen for anything unexpected).
pub open spec fn promo_letter(k: int) -> char {
    if k == KNIGHT {
        'n'
    } else if k == BISHOP {
        'b'
    } else if k == ROOK {
        'r'
    } else {
        'q'
    }
}

/// UCI notation of a move: origin, destination and, for promotions, the new piece's letter.
pub open spec fn uci_spec(mv: u32) -> Seq<char> {
    let base = square_name_spec(move_from_spec(mv)) + square_name_spec(move_to_spec(mv));
    if mv & FLAG_PROMO != 0 {
        base.push(promo_letter(move_promo_spec(mv)))
    } else {
        base
    }
}

pub fn uci_chars(mv: u32) -> (v: Vec<char>)
    ensures
        v@ == uci_spec(mv),
{
    let mut v = square_name_chars(move_from(mv));
    let mut t = square_name_chars(move_to(mv));
    v.append(&mut t);
    if mv & FLAG_PROMO != 0 {
        let p = move_promo(mv);
        v.push(
            if p == KNIGHT {
                'n'
            } else if p == BISHOP {
                'b'
            } else if p == ROOK {
                'r'
            } else {
                'q'
            },
        );
    }
    assert(v@ =~= uci_spec(mv));
    v
}

/// The UCI notation of a move, such as "e2e4" or "b7b8n".
pub fn move_to_uci(mv: u32) -> (s: String)
    ensures
        s@ == uci_spec(mv),
{
    string_of(&uci_chars(mv))
}

/// Unicode White_Space characters (what `char::is_whitespace` recognises).
pub open spec fn is_ws(c: char) -> bool {
    ||| '\u{9}' <= c <= '\u{d}'
    ||| c == ' '
    ||| c == '\u{85}'
    ||| c == '\u{a0}'
    ||| c == '\u{1680}'
    ||| '\u{2000}' <= c <= '\u{200a}'
    ||| c == '\u{2028}'
    ||| c == '\u{2029}'
    ||| c == '\u{202f}'
    ||| c == '\u{205f}'
    ||| c == '\u{3000}'
}

pub fn is_whitespace(c: char) -> (r: bool)
    ensures
        r == is_ws(c),
{
    ('\u{9}' <= c && c <= '\u{d}') || c == ' ' || c == '\u{85}' || c == '\u{a0}' || c
        == '\u{1680}' || ('\u{2000}' <= c && c <= '\u{200a}') || c == '\u{2028}' || c
        == '\u{2029}' || c == '\u{202f}' || c == '\u{205f}' || c == '\u{3000}'
}

/// Number of leading characters of `s` that are not whitespace.
pub open spec fn word_len(s: Seq<char>) -> nat
    decreases s.len(),
{
    if s.len() == 0 || is_ws(s[0]) {
        0
    } else {
        1 + word_len(s.drop_first())
    }
}

/// The maximal runs of non-whitespace characters of `s`, in order.
pub open spec fn split_ws(s: Seq<char>) -> Seq<Seq<char>>
    decreases s.len(),
{
    if s.len() == 0 {
        seq![]
    } else if is_ws(s[0]) {
        split_ws(s.drop_first())
    } else {
        let n = word_len(s);
        proof {
            lemma_word_len_bound(s);
        }
        seq![s.take(n as int)] + split_ws(s.skip(n as int))
    }
}

pub proof fn lemma_word_len_bound(s: Seq<char>)
    ensures
        word_len(s) <= s.len(),
        word_len(s) > 0 ==> !is_ws(s[0]),
        forall|i: int| 0 <= i < word_len(s) ==> !is_ws(#[trigger] s[i]),
        word_len(s) < s.len() ==> is_ws(s[word_len(s) as int]),
    decreases s.len(),
{
    if s.len() > 0 && !is_ws(s[0]) {
        lemma_word_len_bound(s.drop_first());
        assert forall|i: int| 0 <= i < word_len(s) implies !is_ws(#[trigger] s[i]) by {
            if i > 0 {
                assert(s[i] == s.drop_first()[i - 1]);
            }
        }
    }
}

/// A word ending at the first whitespace (or the end) has exactly that length.
proof fn lemma_word_len_exact(s: Seq<char>, n: int)
    requires
        0 <= n <= s.len(),
        forall|i: int| 0 <= i < n ==> !is_ws(#[trigger] s[i]),
        n == s.len() || is_ws(s[n]),
    ensures
        word_len(s) == n,
    decreases n,
{
    if n > 0 {
        let t = s.drop_first();
        assert forall|i: int| 0 <= i < n - 1 implies !is_ws(#[trigger] t[i]) by {
            assert(t[i] == s[i + 1]);
        }
        if n < s.len() {
            assert(t[n - 1] == s[n]);
        }
        lemma_word_len_exact(t, n - 1);
    }
}

/// A nonempty word without whitespace, then a space and the rest, splits into that word
/// followed by the words of the rest; alone it is one word.
pub proof fn lemma_split_word(a: Seq<char>, rest: Seq<char>)
    requires
        a.len() > 0,
        forall|i: int| 0 <= i < a.len() ==> !is_ws(#[trigger] a[i]),
    ensures
        split_ws(a + seq![' '] + rest) == seq![a] + split_ws(rest),
        split_ws(a) == seq![a],
{
    let s = a + seq![' '] + rest;
    assert(s[a.len() as int] == ' ');
    assert forall|i: int| 0 <= i < a.len() implies !is_ws(#[trigger] s[i]) by {
        assert(s[i] == a[i]);
    }
    lemma_word_len_exact(s, a.len() as int);
    assert(s.take(a.len() as int) =~= a);
    let t = s.skip(a.len() as int);
    assert(t =~= seq![' '] + rest);
    assert(t.drop_first() =~= rest);
    assert(s[0] == a[0]);
    assert(split_ws(s) == seq![s.take(a.len() as int)] + split_ws(t));
    assert(is_ws(t[0]));
    assert(split_ws(t) == split_ws(t.drop_first()));
    lemma_word_len_exact(a, a.len() as int);
    assert(a.take(a.len() as int) =~= a);
    assert(a.skip(a.len() as int) =~= Seq::<char>::empty());
    assert(split_ws(a) == seq![a.take(a.len() as int)] + split_ws(a.skip(a.len() as int)));
    assert(split_ws(Seq::<char>::empty()) =~= Seq::<Seq<char>>::empty());
    assert(seq![a] + Seq::<Seq<char>>::empty() =~= seq![a]);
}

/// Splits characters into the maximal runs of non-whitespace (like `str::split_whitespace`).
pub fn split_whitespace(s: &Vec<char>) -> (words: Vec<Vec<char>>)
    ensures
        words@.len() == split_ws(s@).len(),
        forall|i: int| 0 <= i < words@.len() ==> #[trigger] words@[i]@ == split_ws(s@)[i],
{
    let n = s.len();
    let mut words: Vec<Vec<char>> = Vec::new();
    let mut i: usize = 0;
    let ghost mut done: Seq<Seq<char>> = seq![];
    assert(s@.skip(0) =~= s@);
    while i < n
        invariant
            n == s@.len(),
            i <= n,
            words@.len() == done.len(),
            forall|j: int| 0 <= j < words@.len() ==> #[trigger] words@[j]@ == done[j],
            done + split_ws(s@.skip(i as int)) == split_ws(s@),
        decreases n - i,
    {
        let ghost rest = s@.skip(i as int);
        if is_whitespace(s[i]) {
            assert(rest.drop_first() =~= s@.skip(i + 1));
            i = i + 1;
        } else {
            let start = i;
            let mut w: Vec<char> = Vec::new();
            while i < n && !is_whitespace(s[i])
                invariant
                    n == s@.len(),
                    start <= i <= n,
                    w@ == s@.subrange(start as int, i as int),
                    forall|j: int| start <= j < i ==> !is_ws(#[trigger] s@[j]),
                decreases n - i,
            {
                w.push(s[i]);
                i = i + 1;
                assert(w@ =~= s@.subrange(start as int, i as int));
            }
            proof {
                let k = (i - start) as int;
                assert forall|j: int| 0 <= j < k implies !is_ws(#[trigger] rest[j]) by {
                    assert(rest[j] == s@[start + j]);
                }
                if i < n {
                    assert(rest[k] == s@[i as int]);
                }
                lemma_word_len_exact(rest, k);
                assert(rest.take(k) =~= w@);
                assert(rest.skip(k) =~= s@.skip(i as int));
                assert(done.push(w@) + split_ws(s@.skip(i as int)) =~= done + split_ws(rest));
                done = done.push(w@);
            }
            words.push(w);
        }
    }
    proof {
        assert(s@.skip(n as int) =~= seq![]);
        assert(done =~= split_ws(s@));
    }
    words
}

pub open spec fn is_digit(c: char) -> bool {
    '0' <= c <= '9'
}

pub open spec fn all_digits(d: Seq<char>) -> bool {
    forall|i: int| 0 <= i < d.len() ==> is_digit(#[trigger] d[i])
}

/// The value of a sequence of decimal digits.
pub open spec fn digits_value(d: Seq<char>) -> int
    decreases d.len(),
{
    if d.len() == 0 {
        0
    } else {
        digits_value(d.drop_last()) * 10 + (d.last() as int - 48)
    }
}

/// What `str::parse` gives for an unsigned type whose largest value is `max`: an optional
/// `+` followed by one or more decimal digits whose value does not exceed `max`.
pub open spec fn parse_unsigned_spec(s: Seq<char>, max: int) -> Option<int> {
    let d = if s.len() > 0 && s[0] == '+' {
        s.drop_first()
    } else {
        s
    };
    if d.len() > 0 && all_digits(d) && digits_value(d) <= max {
        Some(digits_value(d))
    } else {
        None
    }
}

proof fn lemma_digits_value_mono(d: Seq<char>, k: int)
    requires
        0 <= k <= d.len(),
        all_digits(d),
    ensures
        0 <= digits_value(d.take(k)) <= digits_value(d),
    decreases d.len(),
{
    if d.len() > 0 {
        if k == d.len() {
            assert(d.take(k) =~= d);
            lemma_digits_value_nonneg(d);
        } else {
            assert(d.drop_last().take(k) =~= d.take(k));
            lemma_digits_value_mono(d.drop_last(), k);
        }
    }
}

/// A number read from text lies between 0 and the limit it was read against.
pub proof fn lemma_parse_unsigned_range(s: Seq<char>, max: int)
    ensures
        parse_unsigned_spec(s, max) matches Some(v) ==> 0 <= v <= max,
{
    let d = if s.len() > 0 && s[0] == '+' {
        s.drop_first()
    } else {
        s
    };
    if d.len() > 0 && all_digits(d) && digits_value(d) <= max {
        lemma_digits_value_nonneg(d);
    }
}

proof fn lemma_digits_value_nonneg(d: Seq<char>)
    requires
        all_digits(d),
    ensures
        digits_value(d) >= 0,
    decreases d.len(),
{
    if d.len() > 0 {
        lemma_digits_value_nonneg(d.drop_last());
    }
}

/// Parses an unsigned decimal number no larger than `max` (like `str::parse::<u16>` or
/// `str::parse::<u64>` for the matching `max`).
pub fn parse_unsigned(s: &Vec<char>, max: u64) -> (r: Option<u64>)
    ensures
        r matches Some(v) ==> parse_unsigned_spec(s@, max as int) == Some(v as int),
        r is None <==> parse_unsigned_spec(s@, max as int) is None,
{
    let n = s.len();
    let start: usize = if n > 0 && s[0] == '+' {
        1
    } else {
        0
    };
    let ghost d = if s@.len() > 0 && s@[0] == '+' {
        s@.drop_first()
    } else {
        s@
    };
    assert(d =~= s@.skip(start as int));
    if start == n {
        return None;
    }
    let mut v: u64 = 0;
    for i in start..n
        invariant
            n == s@.len(),
            start < n,
            d =~= s@.skip(start as int),
            d == (if s@.len() > 0 && s@[0] == '+' {
                s@.drop_first()
            } else {
                s@
            }),
            all_digits(d.take(i - start)),
            v as int == digits_value(d.take(i - start)),
            v <= max,
    {
        let c = s[i];
        proof {
            assert(d[i - start] == c);
        }
        if !('0' <= c && c <= '9') {
            proof {
                assert(!is_digit(d[i - start]));
            }
            return None;
        }
        let digit = (c as u32 - 48) as u64;
        let nv: u128 = v as u128 * 10 + digit as u128;
        proof {
            assert(d.take(i - start + 1).drop_last() =~= d.take(i - start));
            assert(all_digits(d.take(i - start + 1)));
            assert(nv == digits_value(d.take(i - start + 1)));
        }
        if nv > max as u128 {
            proof {
                if all_digits(d) {
                    lemma_digits_value_mono(d, i - start + 1);
                }
            }
            return None;
        }
        v = nv as u64;
    }
    proof {
        assert(d.take(n - start) =~= d);
    }
    Some(v)
}

} // verus!
