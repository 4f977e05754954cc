//! A small opening book: replies to a few common first moves.

use vstd::prelude::*;
use crate::fen::{fen_spec, from_fen, START_FEN};
use crate::movegen::{legal_move, lemma_pseudo_move_ok};
use crate::notation::{parse_uci_move, uci_move};
use crate::position::{Position, PositionModel};
use crate::text::{chars_of, split_whitespace, split_ws, string_of};

verus! {

/// How many lines the book holds.
pub const BOOK_SIZE: usize = 13;

/// The text of line `i` of the book: the moves played from the start, and the book's reply.
pub open spec fn book_line(i: int) -> (Seq<char>, Seq<char>) {
    if i == 0 {
        (""@, "e2e4"@)
    } else if i == 1 {
        ("e2e4"@, "c7c5"@)
    } else if i == 2 {
        ("e2e4 c7c5"@, "g1f3"@)
    } else if i == 3 {
        ("e2e4 c7c5 g1f3"@, "d7d6"@)
    } else if i == 4 {
        ("e2e4 c7c5 g1f3 d7d6"@, "d2d4"@)
    } else if i == 5 {
        ("e2e4 c7c5 g1f3 d7d6 d2d4"@, "c5d4"@)
    } else if i == 6 {
        ("e2e4 c7c5 g1f3 d7d6 d2d4 c5d4"@, "f3d4"@)
    } else if i == 7 {
        ("e2e4 c7c5 g1f3 d7d6 d2d4 c5d4 f3d4"@, "g8f6"@)
    } else if i == 8 {
        ("e2e4 c7c5 g1f3 d7d6 d2d4 c5d4 f3d4 g8f6"@, "b1c3"@)
    } else if i == 9 {
        ("d2d4"@, "g8f6"@)
    } else if i == 10 {
        ("d2d4 g8f6 c2c4"@, "e7e6"@)
    } else if i == 11 {
        ("d2d4 g8f6 c2c4 e7e6 b1c3"@, "f8b4"@)
    } else {
        ("g1f3"@, "d7d5"@)
    }
}

/// The position reached by playing the first `n` of `words` from `p`, if each names a
/// legal move.
pub open spec fn replay(p: PositionModel, words: Seq<Seq<char>>, n: int) -> Option<PositionModel>
    decreases n,
{
    if n <= 0 {
        Some(p)
    } else {
        match replay(p, words, n - 1) {
            None => None,
            Some(q) => match uci_move(q, words[n - 1]) {
                None => None,
                Some(mv) => Some(q.after_make(mv)),
            },
        }
    }
}

/// The position a book line leads to from the start.
pub open spec fn line_position(line: Seq<char>) -> Option<PositionModel> {
    match fen_spec(START_FEN@) {
        None => None,
        Some(start) => replay(start, split_ws(line), split_ws(line).len() as int),
    }
}

/// The reply of the first line from `i` on whose position has the hash of `p`.
pub open spec fn book_reply_from(p: PositionModel, i: int) -> Option<u32>
    decreases BOOK_SIZE - i,
{
    if i >= BOOK_SIZE || i < 0 {
        None
    } else {
        match line_position(book_line(i).0) {
            Some(q) => if q.hash == p.hash {
                uci_move(p, book_line(i).1)
            } else {
                book_reply_from(p, i + 1)
            },
            None => if fen_spec(START_FEN@) is None {
                None
            } else {
                book_reply_from(p, i + 1)
            },
        }
    }
}

/// Whatever the book answers from line `i` on is a legal move.
proof fn lemma_book_reply_from_legal(p: PositionModel, i: int)
    ensures
        book_reply_from(p, i) matches Some(m) ==> legal_move(p, m, false),
    decreases BOOK_SIZE - i,
{
    if 0 <= i < BOOK_SIZE {
        lemma_book_reply_from_legal(p, i + 1);
    }
}

/// The book only answers legal moves.
pub proof fn lemma_book_reply_legal(p: PositionModel)
    ensures
        book_reply(p) matches Some(m) ==> legal_move(p, m, false),
{
    lemma_book_reply_from_legal(p, 0);
}

/// What the book answers in `p`.
pub open spec fn book_reply(p: PositionModel) -> Option<u32> {
    if p.fullmove > 5 {
        None
    } else {
        book_reply_from(p, 0)
    }
}

/// Line `i` of the book: the moves played from the start, and the book's reply.
pub fn book_entry(i: usize) -> (entry: (&'static str, &'static str))
    requires
        i < BOOK_SIZE,
    ensures
        entry.0@ == book_line(i as int).0,
        entry.1@ == book_line(i as int).1,
{
    match i {
        0 => ("", "e2e4"),
        1 => ("e2e4", "c7c5"),
        2 => ("e2e4 c7c5", "g1f3"),
        3 => ("e2e4 c7c5 g1f3", "d7d6"),
        4 => ("e2e4 c7c5 g1f3 d7d6", "d2d4"),
        5 => ("e2e4 c7c5 g1f3 d7d6 d2d4", "c5d4"),
        6 => ("e2e4 c7c5 g1f3 d7d6 d2d4 c5d4", "f3d4"),
        7 => ("e2e4 c7c5 g1f3 d7d6 d2d4 c5d4 f3d4", "g8f6"),
        8 => ("e2e4 c7c5 g1f3 d7d6 d2d4 c5d4 f3d4 g8f6", "b1c3"),
        9 => ("d2d4", "g8f6"),
        10 => ("d2d4 g8f6 c2c4", "e7e6"),
        11 => ("d2d4 g8f6 c2c4 e7e6 b1c3", "f8b4"),
        _ => ("g1f3", "d7d5"),
    }
}

/// The position reached by playing the moves of a book line from the start, if they are all
/// legal; `Err` when the start position cannot be read.
fn replay_line(line: &str) -> (r: Result<Option<Position>, ()>)
    ensures
        r is Err <==> fen_spec(START_FEN@) is None,
        r matches Ok(Some(p)) ==> p@.wf() && line_position(line@) == Some(p@),
        r matches Ok(None) ==> line_position(line@) is None,
{
    let mut expected = match from_fen(START_FEN) {
        Ok(p) => p,
        Err(_) => {
            return Err(());
        },
    };
    let ghost start = expected@;
    let words = split_whitespace(&chars_of(line));
    let ghost ws = split_ws(line@);
    let n = words.len();
    let mut j: usize = 0;
    while j < n
        invariant
            expected@.wf(),
            n == words@.len(),
            n == ws.len(),
            forall|i: int| 0 <= i < words@.len() ==> #[trigger] words@[i]@ == ws[i],
            j <= n,
            replay(start, ws, j as int) == Some(expected@),
            fen_spec(START_FEN@) == Some(start),
            ws == split_ws(line@),
        decreases n - j,
    {
        let text = string_of(&words[j]);
        match parse_uci_move(&expected, text.as_str()) {
            Some(mv) => {
                proof {
                    lemma_pseudo_move_ok(expected@, mv, false);
                }
                expected.make_move(mv);
            },
            None => {
                proof {
                    lemma_replay_stuck(start, ws, j as int, n as int);
                }
                return Ok(None);
            },
        }
        j = j + 1;
    }
    Ok(Some(expected))
}

proof fn lemma_replay_stuck(p: PositionModel, words: Seq<Seq<char>>, j: int, n: int)
    requires
        0 <= j < n,
        replay(p, words, j + 1) is None,
    ensures
        replay(p, words, n) is None,
    decreases n - j,
{
    if j + 1 < n {
        lemma_replay_stuck(p, words, j + 1, n);
    }
}

/// The book's reply in this position, during the first five moves: the reply of the first
/// line whose moves lead to a position with the same hash.
pub fn opening_move(pos: &Position) -> (r: Option<u32>)
    requires
        pos@.layout_ok(),
    ensures
        r == book_reply(pos@),
        r matches Some(mv) ==> legal_move(pos@, mv, false),
{
    if pos.fullmove > 5 {
        return None;
    }
    for i in 0..BOOK_SIZE
        invariant
            pos@.layout_ok(),
            pos.fullmove <= 5,
            book_reply(pos@) == book_reply_from(pos@, i as int),
    {
        let (line, choice) = book_entry(i);
        match replay_line(line) {
            Ok(Some(expected)) => {
                if expected.hash == pos.hash {
                    return parse_uci_move(pos, choice);
                }
            },
            Ok(None) => {},
            Err(_) => {
                return None;
            },
        }
    }
    None
}

} // verus!
