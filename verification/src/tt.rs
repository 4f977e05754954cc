//! The transposition table: search results remembered by position hash.

use vstd::prelude::*;
use crate::board::{MATE, MAX_PLY};

verus! {

/// One remembered search result.
#[derive(Clone, Copy, Debug, PartialEq, Eq)]
pub struct TTEntry {
    pub key: u64,
    pub best: u32,
    pub score: i16,
    pub depth: i8,
    pub flag: u8,
    pub age: u8,
    pub rule50: u8,
}

/// The score is exact.
pub const TT_EXACT: u8 = 1;
/// The score is a lower bound (the search failed high).
pub const TT_LOWER: u8 = 2;
/// The score is an upper bound (the search failed low).
pub const TT_UPPER: u8 = 3;

/// Bytes one entry occupies in memory.
pub const TT_ENTRY_BYTES: usize = 24;

/// The entry of an empty slot.
pub open spec fn empty_entry() -> TTEntry {
    TTEntry { key: 0, best: 0, score: 0, depth: 0, flag: 0, age: 0, rule50: 0 }
}

pub open spec fn is_pow2(n: int) -> bool
    decreases n,
{
    if n <= 0 {
        false
    } else if n == 1 {
        true
    } else {
        n % 2 == 0 && is_pow2(n / 2)
    }
}

/// The number of slots for a table of `mb` mebibytes: the largest power of two that fits.
pub open spec fn slot_count_for(mb: int, count: int) -> bool {
    let bytes = (if mb < 1 {
        1
    } else {
        mb
    }) * 1024 * 1024;
    let requested = bytes / TT_ENTRY_BYTES as int;
    is_pow2(count) && count <= requested < 2 * count
}

/// A score as stored: mate scores are made relative to the node that stores them.
pub open spec fn stored_score(score: int, ply: int) -> int {
    if score > MATE - MAX_PLY {
        score + ply
    } else if score < -MATE + MAX_PLY {
        score - ply
    } else {
        score
    }
}

pub open spec fn clamp(x: int, lo: int, hi: int) -> int {
    if x < lo {
        lo
    } else if x > hi {
        hi
    } else {
        x
    }
}

/// The entry `put` writes.
pub open spec fn entry_for(
    key: u64,
    depth: int,
    score: int,
    flag: u8,
    best: u32,
    ply: int,
    halfmove: int,
    age: u8,
) -> TTEntry {
    TTEntry {
        key,
        best,
        score: clamp(stored_score(score, ply), -32767, 32767) as i16,
        depth: clamp(depth, -1, 127) as i8,
        flag,
        age,
        rule50: (if halfmove < 100 {
            halfmove
        } else {
            100
        }) as u8,
    }
}

/// Whether `put` replaces the entry `old`: always for another position or an older search,
/// and for the same position unless the stored search was more than two plies deeper.
pub open spec fn replaces(old: TTEntry, key: u64, depth: int, age: u8) -> bool {
    old.key != key || depth >= old.depth - 2 || old.age != age
}

pub struct TransTable {
    pub entries: Vec<TTEntry>,
    pub age: u8,
}

impl TransTable {
    pub open spec fn wf(&self) -> bool {
        is_pow2(self.entries@.len() as int) && self.entries@.len() <= usize::MAX
    }

    /// The slot a position hash maps to.
    pub open spec fn slot(&self, key: u64) -> int {
        key as int % self.entries@.len() as int
    }

    /// The slots after `put`: the slot of `key` takes the new entry if it `replaces` the old.
    pub open spec fn entries_after_put(
        &self,
        key: u64,
        depth: int,
        score: int,
        flag: u8,
        best: u32,
        ply: int,
        halfmove: int,
    ) -> Seq<TTEntry> {
        if replaces(self.entries@[self.slot(key)], key, depth, self.age) {
            self.entries@.update(
                self.slot(key),
                entry_for(key, depth, score, flag, best, ply, halfmove, self.age),
            )
        } else {
            self.entries@
        }
    }

    /// An empty table of `mb` mebibytes (at least one).
    pub fn new(mb: usize) -> (t: TransTable)
        requires
            mb <= 4095,
        ensures
            t.wf(),
            slot_count_for(mb as int, t.entries@.len() as int),
            forall|i: int| 0 <= i < t.entries@.len() ==> #[trigger] t.entries@[i] == empty_entry(),
            t.age == 0,
    {
        let m: usize = if mb < 1 {
            1
        } else {
            mb
        };
        let bytes: usize = m * 1024 * 1024;
        let requested: usize = bytes / TT_ENTRY_BYTES;
        let mut count: usize = 1;
        while count * 2 <= requested
            invariant
                is_pow2(count as int),
                1 <= count <= requested,
                requested as int == bytes as int / TT_ENTRY_BYTES as int,
                bytes as int == m as int * 1024 * 1024,
                m as int == (if mb < 1 { 1 } else { mb as int }),
                requested <= 4095 * 1024 * 1024 / 24,
                mb <= 4095,
            decreases requested - count,
        {
            proof {
                assert(is_pow2(count * 2));
            }
            count = count * 2;
        }
        let mut entries: Vec<TTEntry> = Vec::new();
        for i in 0..count
            invariant
                entries@.len() == i,
                forall|j: int| 0 <= j < i ==> #[trigger] entries@[j] == empty_entry(),
        {
            entries.push(TTEntry { key: 0, best: 0, score: 0, depth: 0, flag: 0, age: 0, rule50: 0 });
        }
        TransTable { entries, age: 0 }
    }

    fn index(&self, key: u64) -> (i: usize)
        requires
            self.wf(),
        ensures
            i == self.slot(key),
            i < self.entries@.len(),
    {
        (key % (self.entries.len() as u64)) as usize
    }

    /// The entry in the slot of `key` (which may belong to another position).
    pub fn get(&self, key: u64) -> (e: TTEntry)
        requires
            self.wf(),
        ensures
            e == self.entries@[self.slot(key)],
    {
        self.entries[self.index(key)]
    }

    /// Remembers a search result in the slot of `key`, unless the slot holds a deeper result
    /// for the same position from this search.
    pub fn put(
        &mut self,
        key: u64,
        depth: i32,
        score: i32,
        flag: u8,
        best: u32,
        ply: usize,
        halfmove: u16,
    )
        requires
            old(self).wf(),
            score > MATE - 128 ==> score + (ply as i32) <= i32::MAX,
            score < -MATE + 128 ==> score - (ply as i32) >= i32::MIN,
        ensures
            final(self).wf(),
            final(self).age == old(self).age,
            final(self).entries@ == old(self).entries_after_put(
                key,
                depth as int,
                score as int,
                flag,
                best,
                (ply as i32) as int,
                halfmove as int,
            ),
    {
        let idx = self.index(key);
        let old_entry = self.entries[idx];
        if old_entry.key != key || depth >= old_entry.depth as i32 - 2 || old_entry.age != self.age {
            let p = ply as i32;
            let stored = if score > MATE - 128 {
                score + p
            } else if score < -MATE + 128 {
                score - p
            } else {
                score
            };
            let s = if stored < -32767 {
                -32767
            } else if stored > 32767 {
                32767
            } else {
                stored
            };
            let d = if depth < -1 {
                -1
            } else if depth > 127 {
                127
            } else {
                depth
            };
            let r50 = if halfmove < 100 {
                halfmove
            } else {
                100
            };
            let e = TTEntry {
                key,
                best,
                score: s as i16,
                depth: d as i8,
                flag,
                age: self.age,
                rule50: r50 as u8,
            };
            self.entries.set(idx, e);
        }
    }
}

/// Reading a position's slot right after storing for it gives back what was stored, when the
/// store replaced the slot; a slot of another position is never disturbed by a store that
/// maps elsewhere.
pub proof fn lemma_get_after_put(
    t: TransTable,
    key: u64,
    other: u64,
    depth: int,
    score: int,
    flag: u8,
    best: u32,
    ply: int,
    halfmove: int,
)
    requires
        t.wf(),
    ensures
        ({
            let after = t.entries_after_put(key, depth, score, flag, best, ply, halfmove);
            &&& after.len() == t.entries@.len()
            &&& replaces(t.entries@[t.slot(key)], key, depth, t.age) ==> after[t.slot(key)]
                == entry_for(key, depth, score, flag, best, ply, halfmove, t.age)
            &&& t.slot(other) != t.slot(key) ==> after[t.slot(other)] == t.entries@[t.slot(other)]
        }),
{
    assert(t.entries@.len() > 0) by {
        reveal_with_fuel(is_pow2, 1);
    }
}

} // verus!
