//! Compact description of wanted or owned chunks, as ranges of indices.

use vstd::prelude::*;

verus! {

/// A range of chunk indices. Only a from-bound at or above the to-bound is
/// accepted.
#[derive(Debug, Clone, Copy, PartialEq, Eq, Structural)]
pub struct ChunkRange {
    pub from: u32,
    pub to: u32,
}

impl ChunkRange {
    /// Build a range; a from-bound below the to-bound is refused.
    pub fn new(from: u32, to: u32) -> (r: Result<Self, ()>)
        ensures
            match r {
                Ok(c) => from >= to && c.from == from && c.to == to,
                Err(_) => from < to,
            },
    {
        if from < to {
            Err(())
        } else {
            Ok(ChunkRange { from, to })
        }
    }

    /// The two bounds of the range.
    pub fn get(&self) -> (r: (u32, u32))
        ensures
            r.0 == self.from,
            r.1 == self.to,
    {
        (self.from, self.to)
    }
}

/// Chunks wanted or already owned, as a list of ranges.
pub struct ChunkPieces {
    pub ranges: Vec<ChunkRange>,
}

impl ChunkPieces {
    /// No pieces at all.
    pub fn new() -> (r: Self)
        ensures
            r.ranges@.len() == 0,
    {
        ChunkPieces { ranges: Vec::new() }
    }

    /// Record one more range.
    pub fn add(&mut self, range: ChunkRange)
        ensures
            final(self).ranges@ == old(self).ranges@.push(range),
    {
        self.ranges.push(range);
    }

    /// All recorded ranges, in insertion order.
    pub fn iter(&self) -> (r: Vec<ChunkRange>)
        ensures
            r@ == self.ranges@,
    {
        let mut res: Vec<ChunkRange> = Vec::new();
        let mut i: usize = 0;
        while i < self.ranges.len()
            invariant
                i <= self.ranges@.len(),
                res@ == self.ranges@.take(i as int),
            decreases self.ranges@.len() - i,
        {
            res.push(self.ranges[i]);
            proof {
                assert(self.ranges@.take(i + 1) =~= self.ranges@.take(i as int).push(
                    self.ranges@[i as int],
                ));
            }
            i = i + 1;
        }
        proof {
            assert(self.ranges@.take(self.ranges@.len() as int) =~= self.ranges@);
        }
        res
    }
}

} // verus!
