//! Splitting a byte range into per-block ranges.

use vstd::prelude::*;
use crate::structs::{BlockId, BLKSIZE};

verus! {

/// Given a range and iterate sub-range for each block
pub struct BlockIter {
    pub begin: usize,
    pub end: usize,
}

/// A byte range `begin..end` inside block `block`
#[derive(Debug, PartialEq, Eq, Structural)]
pub struct BlockRange {
    pub block: BlockId,
    pub begin: usize,
    pub end: usize,
}

impl BlockRange {
    pub fn len(&self) -> (n: usize)
        requires
            self.begin <= self.end,
        ensures
            n == self.end - self.begin,
    {
        self.end - self.begin
    }
}

impl BlockIter {
    /// The next sub-range: from `begin` up to the end of its block or to `end`,
    /// whichever comes first. The ranges returned one after the other are
    /// adjacent, non-empty, lie inside one block each, and together cover
    /// `begin..end` exactly.
    pub fn next(&mut self) -> (r: Option<BlockRange>)
        ensures
            final(self).end == old(self).end,
            old(self).begin >= old(self).end ==> r is None && final(self).begin == old(self).begin,
            old(self).begin < old(self).end ==> (r matches Some(range) && {
                &&& range.block == old(self).begin / BLKSIZE
                &&& range.begin == old(self).begin % BLKSIZE
                &&& range.end == if range.block == old(self).end / BLKSIZE {
                    old(self).end % BLKSIZE
                } else {
                    BLKSIZE
                }
                &&& range.begin < range.end <= BLKSIZE
                &&& range.block * BLKSIZE + range.begin == old(self).begin
                &&& range.block * BLKSIZE + range.end == final(self).begin
                &&& final(self).begin <= old(self).end
            }),
    {
        if self.begin >= self.end {
            return None;
        }
        let block = self.begin / BLKSIZE;
        let begin = self.begin % BLKSIZE;
        let end = if block == self.end / BLKSIZE {
            self.end % BLKSIZE
        } else {
            BLKSIZE
        };
        self.begin = self.begin + (end - begin);
        Some(BlockRange { block, begin, end })
    }
}

} // verus!
