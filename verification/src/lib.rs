//! Warhorse: a chess engine library with verified move generation,
//! position updates, evaluation and search bookkeeping.

pub mod board;
pub mod attacks;
pub mod zobrist;
pub mod position;
pub mod movegen;
pub mod perft;
pub mod safety;
pub mod text;
pub mod notation;
pub mod fen;
pub mod fen_roundtrip;
pub mod material;
pub mod eval;
pub mod clock;
pub mod tt;
pub mod search;
pub mod book;
pub mod protocol;
pub mod web;
pub mod uci;

use vstd::prelude::*;

verus! {

} // verus!
