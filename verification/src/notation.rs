//! Reading moves written in UCI notation.

use vstd::prelude::*;
use vstd::utf8::is_ascii_chars;
use crate::board::{
    move_from, move_from_spec, move_promo, move_promo_spec, move_to, move_to_spec, BISHOP,
    FLAG_PROMO, KNIGHT, QUEEN, ROOK,
};
use crate::movegen::{generate_legal, legal_move, lemma_promo_field, lemma_pseudo_unique, MoveList};
use crate::position::PositionModel;
use crate::position::Position;
use crate::text::{chars_of, promo_letter, square_from_chars, square_from_pair, square_name_spec, uci_spec};

verus! {

/// The promotion kind a UCI letter names.
pub open spec fn promo_from_letter(c: char) -> Option<int> {
    if c == 'q' {
        Some(QUEEN as int)
    } else if c == 'r' {
        Some(ROOK as int)
    } else if c == 'b' {
        Some(BISHOP as int)
    } else if c == 'n' {
        Some(KNIGHT as int)
    } else {
        None
    }
}

/// The origin, destination and promotion kind (0 for none) a UCI text names, when it is an
/// ASCII text of four or five characters made of two square names and a promotion letter.
pub open spec fn uci_parts(t: Seq<char>) -> Option<(int, int, int)> {
    if is_ascii_chars(t) && (t.len() == 4 || t.len() == 5) && square_from_chars(t[0], t[1]) is Some
        && square_from_chars(t[2], t[3]) is Some && (t.len() == 4 || promo_from_letter(t[4]) is Some) {
        Some(
            (
                square_from_chars(t[0], t[1])->0,
                square_from_chars(t[2], t[3])->0,
                if t.len() == 5 {
                    promo_from_letter(t[4])->0
                } else {
                    0
                },
            ),
        )
    } else {
        None
    }
}

/// `mv` goes from `from` to `to`, promoting to `promo` (0 when it does not promote).
pub open spec fn move_matches(mv: u32, from: int, to: int, promo: int) -> bool {
    move_from_spec(mv) == from && move_to_spec(mv) == to && if mv & FLAG_PROMO != 0 {
        promo == move_promo_spec(mv)
    } else {
        promo == 0
    }
}

pub open spec fn parts_match(mv: u32, parts: (int, int, int)) -> bool {
    move_matches(mv, parts.0, parts.1, parts.2)
}

/// The legal move a UCI text names, if it names one (there is at most one).
pub open spec fn uci_move(p: PositionModel, t: Seq<char>) -> Option<u32> {
    match uci_parts(t) {
        None => None,
        Some(parts) => if exists|mv: u32| #[trigger] legal_move(p, mv, false) && parts_match(mv, parts) {
            Some(choose|mv: u32| #[trigger] legal_move(p, mv, false) && parts_match(mv, parts))
        } else {
            None
        },
    }
}

/// Two legal moves named by the same squares and promotion are the same move.
pub proof fn lemma_uci_unique(p: PositionModel, m1: u32, m2: u32, parts: (int, int, int))
    requires
        p.layout_ok(),
        legal_move(p, m1, false),
        legal_move(p, m2, false),
        parts_match(m1, parts),
        parts_match(m2, parts),
    ensures
        m1 == m2,
{
    lemma_promo_field(p, m1);
    lemma_promo_field(p, m2);
    lemma_pseudo_unique(p, m1, m2);
}

proof fn lemma_square_name_parts(sq: int)
    requires
        0 <= sq < 64,
    ensures
        square_from_chars(square_name_spec(sq)[0], square_name_spec(sq)[1]) == Some(sq),
        '\0' <= square_name_spec(sq)[0] <= '\u{7f}',
        '\0' <= square_name_spec(sq)[1] <= '\u{7f}',
{
}

/// Writing a legal move in UCI notation and reading it back gives the same move.
pub proof fn lemma_uci_roundtrip(p: PositionModel, mv: u32)
    requires
        p.layout_ok(),
        legal_move(p, mv, false),
    ensures
        uci_move(p, uci_spec(mv)) == Some(mv),
{
    lemma_promo_field(p, mv);
    crate::movegen::lemma_pseudo_move_ok(p, mv, false);
    let from = move_from_spec(mv);
    let to = move_to_spec(mv);
    assert(0 <= from < 64 && 0 <= to < 64) by {
        assert(mv & 63u32 < 64) by (bit_vector);
        assert((mv >> 6u32) & 63u32 < 64) by (bit_vector);
    }
    lemma_square_name_parts(from);
    lemma_square_name_parts(to);
    let t = uci_spec(mv);
    let promo = if mv & FLAG_PROMO != 0 {
        move_promo_spec(mv)
    } else {
        0
    };
    assert(t[0] == square_name_spec(from)[0]);
    assert(t[1] == square_name_spec(from)[1]);
    assert(t[2] == square_name_spec(to)[0]);
    assert(t[3] == square_name_spec(to)[1]);
    if mv & FLAG_PROMO != 0 {
        assert(t[4] == promo_letter(move_promo_spec(mv)));
        assert(promo_from_letter(t[4]) == Some(move_promo_spec(mv)));
    }
    assert forall|i: int| 0 <= i < t.len() implies '\0' <= #[trigger] t[i] <= '\u{7f}' by {
        if i == 4 {
            assert(t[4] == promo_letter(move_promo_spec(mv)));
        }
    }
    assert(is_ascii_chars(t));
    let parts = (from, to, promo);
    assert(uci_parts(t) == Some(parts));
    assert(legal_move(p, mv, false) && parts_match(mv, parts));
    let c = choose|m: u32| #[trigger] legal_move(p, m, false) && parts_match(m, parts);
    lemma_uci_unique(p, mv, c, parts);
}

proof fn lemma_square_chars_named(c0: char, c1: char)
    requires
        square_from_chars(c0, c1) is Some,
    ensures
        square_name_spec(square_from_chars(c0, c1)->0) =~= seq![c0, c1],
{
    let f = c0 as int - 97;
    let r = c1 as int - 49;
    let sq = r * 8 + f;
    assert(sq % 8 == f && sq / 8 == r) by (nonlinear_arith)
        requires
            0 <= f < 8,
            0 <= r < 8,
            sq == r * 8 + f,
    ;
    assert((97 + f) as char == c0);
    assert((49 + r) as char == c1);
}

/// A text read as a legal move is that move's own UCI text: the squares are written as the
/// move writes them, a promotion carries its letter and any other move has none.
pub proof fn law_uci_read_is_canonical(p: PositionModel, t: Seq<char>)
    requires
        p.layout_ok(),
        uci_move(p, t) is Some,
    ensures
        legal_move(p, uci_move(p, t)->0, false),
        uci_spec(uci_move(p, t)->0) == t,
{
    let parts = uci_parts(t)->0;
    let m = uci_move(p, t)->0;
    assert(legal_move(p, m, false) && parts_match(m, parts));
    lemma_promo_field(p, m);
    lemma_square_chars_named(t[0], t[1]);
    lemma_square_chars_named(t[2], t[3]);
    let base = square_name_spec(move_from_spec(m)) + square_name_spec(move_to_spec(m));
    if m & FLAG_PROMO != 0 {
        assert(t.len() == 5);
        assert(promo_letter(move_promo_spec(m)) == t[4]);
        assert(uci_spec(m) =~= t);
    } else {
        assert(t.len() == 4);
        assert(uci_spec(m) =~= t);
    }
}

/// Finds the legal move that a UCI text names.
pub fn parse_uci_move(pos: &Position, text: &str) -> (r: Option<u32>)
    requires
        pos@.layout_ok(),
    ensures
        r == uci_move(pos@, text@),
        r matches Some(mv) ==> uci_parts(text@) matches Some((f, t, pr)) && legal_move(
            pos@,
            mv,
            false,
        ) && move_matches(mv, f, t, pr),
        r is None <==> match uci_parts(text@) {
            None => true,
            Some(parts) => forall|mv: u32|
                !(#[trigger] legal_move(pos@, mv, false) && parts_match(mv, parts)),
        },
{
    let ghost t = text@;
    if !text.is_ascii() {
        return None;
    }
    let c = chars_of(text);
    let n = c.len();
    if n != 4 && n != 5 {
        return None;
    }
    let from = match square_from_pair(c[0], c[1]) {
        Some(s) => s,
        None => {
            return None;
        },
    };
    let to = match square_from_pair(c[2], c[3]) {
        Some(s) => s,
        None => {
            return None;
        },
    };
    let promotion: i8 = if n == 5 {
        let l = c[4];
        if l == 'q' {
            QUEEN
        } else if l == 'r' {
            ROOK
        } else if l == 'b' {
            BISHOP
        } else if l == 'n' {
            KNIGHT
        } else {
            return None;
        }
    } else {
        0
    };
    let ghost parts = uci_parts(t);
    assert(parts == Some((from as int, to as int, promotion as int)));
    let mut list = MoveList::new();
    generate_legal(pos, &mut list, false);
    let len = list.moves.len();
    for i in 0..len
        invariant
            len == list.moves@.len(),
            pos@.layout_ok(),
            t == text@,
            uci_parts(t) == Some((from as int, to as int, promotion as int)),
            forall|m: u32| #[trigger] list.moves@.contains(m) <==> legal_move(pos@, m, false),
            forall|j: int|
                0 <= j < i ==> !move_matches(
                    #[trigger] list.moves@[j],
                    from as int,
                    to as int,
                    promotion as int,
                ),
    {
        let mv = list.moves[i];
        let matches = move_from(mv) == from && move_to(mv) == to && if mv & FLAG_PROMO != 0 {
            promotion == move_promo(mv)
        } else {
            promotion == 0
        };
        if matches {
            proof {
                assert(list.moves@.contains(mv));
                let parts = (from as int, to as int, promotion as int);
                assert(parts_match(mv, parts));
                assert(legal_move(pos@, mv, false) && parts_match(mv, parts));
                let c = choose|m: u32| #[trigger] legal_move(pos@, m, false) && parts_match(m, parts);
                lemma_uci_unique(pos@, mv, c, parts);
            }
            return Some(mv);
        }
    }
    proof {
        assert forall|mv: u32|
            !(#[trigger] legal_move(pos@, mv, false) && move_matches(
                mv,
                from as int,
                to as int,
                promotion as int,
            )) by {
            if legal_move(pos@, mv, false) {
                assert(list.moves@.contains(mv));
            }
        }
    }
    None
}

} // verus!
