//! Zobrist hashing keys.
//!
//! The keys are the outputs of a splitmix64 generator started from a fixed
//! seed: piece-square keys first (12 pieces by 64 squares), then the
//! side-to-move key, the 16 castling-rights keys and the 8 en-passant file
//! keys. The `n`-th output (counting from 1) of splitmix64 depends only on
//! `seed + n * GOLDEN`, so each key is computed directly from its index.

use vstd::prelude::*;
use vstd::wrapping::u64_specs;

verus! {

pub const ZOBRIST_SEED: u64 = 0xC0FFEE1234567890;
pub const ZOBRIST_GOLDEN: u64 = 0x9E3779B97F4A7C15;

/// Index of the side-to-move key.
pub const SIDE_KEY_INDEX: u64 = 769;
/// Index of the first castling-rights key.
pub const CASTLE_KEY_BASE: u64 = 770;
/// Index of the first en-passant file key.
pub const EP_KEY_BASE: u64 = 786;

/// The splitmix64 output mixer.
pub open spec fn mix(x: u64) -> u64 {
    let z1 = u64_specs::wrapping_mul(x ^ (x >> 30u64), 0xBF58476D1CE4E5B9u64);
    let z2 = u64_specs::wrapping_mul(z1 ^ (z1 >> 27u64), 0x94D049BB133111EBu64);
    z2 ^ (z2 >> 31u64)
}

/// The `n`-th output (counting from 1) of the key generator.
pub open spec fn zkey(n: u64) -> u64 {
    mix(u64_specs::wrapping_add(ZOBRIST_SEED, u64_specs::wrapping_mul(n, ZOBRIST_GOLDEN)))
}

/// Computes the `n`-th key of the generator.
pub fn zobrist_key(n: u64) -> (k: u64)
    ensures
        k == zkey(n),
{
    let x = ZOBRIST_SEED.wrapping_add(n.wrapping_mul(ZOBRIST_GOLDEN));
    let z1 = (x ^ (x >> 30)).wrapping_mul(0xBF58476D1CE4E5B9);
    let z2 = (z1 ^ (z1 >> 27)).wrapping_mul(0x94D049BB133111EB);
    z2 ^ (z2 >> 31)
}

/// Key of piece slot `index` (0..12) on square `sq`.
pub open spec fn piece_key(index: int, sq: int) -> u64 {
    zkey((index * 64 + sq + 1) as u64)
}

pub open spec fn side_key() -> u64 {
    zkey(SIDE_KEY_INDEX)
}

pub open spec fn castle_key(rights: int) -> u64 {
    zkey((CASTLE_KEY_BASE + rights) as u64)
}

pub open spec fn ep_key(f: int) -> u64 {
    zkey((EP_KEY_BASE + f) as u64)
}

pub fn piece_square_key(index: usize, sq: u8) -> (k: u64)
    requires
        index < 12,
        sq < 64,
    ensures
        k == piece_key(index as int, sq as int),
{
    zobrist_key((index as u64) * 64 + (sq as u64) + 1)
}

pub fn side_to_move_key() -> (k: u64)
    ensures
        k == side_key(),
{
    zobrist_key(SIDE_KEY_INDEX)
}

pub fn castling_key(rights: u8) -> (k: u64)
    requires
        rights < 16,
    ensures
        k == castle_key(rights as int),
{
    zobrist_key(CASTLE_KEY_BASE + rights as u64)
}

pub fn en_passant_key(f: usize) -> (k: u64)
    requires
        f < 8,
    ensures
        k == ep_key(f as int),
{
    zobrist_key(EP_KEY_BASE + f as u64)
}

} // verus!
