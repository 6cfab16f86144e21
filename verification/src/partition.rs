//! Top-down adaptive partitioning of the cell hierarchy.
//!
//! The work set is seeded with the coarse cells present in staging; a
//! popped cell is discarded when empty, split into its children when it
//! holds too many nodes and can still be refined, and otherwise accepted
//! for tile emission.

use vstd::prelude::*;
use crate::h3cell::{cell_valid, resolution_of, children_of, cell_is_valid, cell_resolution,
    cell_children_next};

verus! {

/// A cell holding more nodes than this is split, if it can be.
pub const MAX_NODES_PER_CELL: u64 = 100_000;

/// A cell at this resolution is never split, whatever it holds.
pub const MIN_RESOLUTION: u8 = 12;

/// What the partitioner does with a popped cell.
#[derive(Debug, Clone, Copy, PartialEq, Eq, Structural)]
pub enum SplitDecision {
    /// The cell holds no nodes: drop it.
    Discard,
    /// The cell holds too many nodes: recurse into its children.
    Split,
    /// The cell is accepted: emit a tile for it.
    Emit,
}

/// The decision for a cell at the given resolution holding the given
/// number of nodes.
pub open spec fn spec_partition_step(resolution: u8, node_count: u64) -> SplitDecision {
    if node_count == 0 {
        SplitDecision::Discard
    } else if node_count > MAX_NODES_PER_CELL && resolution < MIN_RESOLUTION {
        SplitDecision::Split
    } else {
        SplitDecision::Emit
    }
}

/// Decide a cell's fate from its resolution and node count.
pub fn partition_step(resolution: u8, node_count: u64) -> (d: SplitDecision)
    ensures
        d == spec_partition_step(resolution, node_count),
{
    if node_count == 0 {
        SplitDecision::Discard
    } else if node_count > MAX_NODES_PER_CELL && resolution < MIN_RESOLUTION {
        SplitDecision::Split
    } else {
        SplitDecision::Emit
    }
}

/// A cell holding exactly the budget is not split.
pub proof fn lemma_full_cell_not_split(resolution: u8)
    ensures
        spec_partition_step(resolution, MAX_NODES_PER_CELL) != SplitDecision::Split,
{
}

/// A cell at the finest partitioning resolution is never split, whatever
/// its count.
pub proof fn lemma_min_resolution_never_split(node_count: u64)
    ensures
        spec_partition_step(MIN_RESOLUTION, node_count) != SplitDecision::Split,
{
}

/// The partitioner's work set of cells still to be examined.
pub struct Partitioner {
    work: Vec<u64>,
}

impl Partitioner {
    /// The cells waiting to be examined, oldest first.
    pub closed spec fn pending(&self) -> Seq<u64> {
        self.work@
    }

    /// Seed the work set.
    pub fn new(seeds: Vec<u64>) -> (r: Self)
        ensures
            r.pending() == seeds@,
    {
        Partitioner { work: seeds }
    }

    /// How many cells are waiting.
    pub fn remaining(&self) -> (n: usize)
        ensures
            n == self.pending().len(),
    {
        self.work.len()
    }

    /// Pop the next cell to examine, newest first.
    pub fn next_cell(&mut self) -> (r: Option<u64>)
        ensures
            match r {
                Some(c) => {
                    &&& old(self).pending().len() > 0
                    &&& c == old(self).pending().last()
                    &&& final(self).pending() == old(self).pending().drop_last()
                },
                None => {
                    &&& old(self).pending().len() == 0
                    &&& final(self).pending() == old(self).pending()
                },
            },
    {
        self.work.pop()
    }

    /// Decide a popped cell's fate and, on a split, enqueue its children
    /// at the next finer resolution.  A number that is no valid cell is
    /// discarded.
    pub fn decide(&mut self, cell: u64, node_count: u64) -> (d: SplitDecision)
        ensures
            !cell_valid(cell) ==> d == SplitDecision::Discard && final(self).pending() == old(
                self,
            ).pending(),
            cell_valid(cell) ==> {
                &&& d == spec_partition_step(resolution_of(cell), node_count)
                &&& (d == SplitDecision::Split ==> final(self).pending() == old(self).pending()
                    + children_of(cell))
                &&& (d != SplitDecision::Split ==> final(self).pending() == old(self).pending())
            },
    {
        if !cell_is_valid(cell) {
            return SplitDecision::Discard;
        }
        let res = cell_resolution(cell);
        let d = partition_step(res, node_count);
        if matches!(d, SplitDecision::Split) {
            assert(res < MIN_RESOLUTION);
            let children = cell_children_next(cell);
            let ghost before = self.work@;
            let mut i: usize = 0;
            while i < children.len()
                invariant
                    i <= children.len(),
                    self.work@ == before + children@.take(i as int),
                decreases children.len() - i,
            {
                self.work.push(children[i]);
                proof {
                    assert(before + children@.take(i as int + 1) =~= (before + children@.take(
                        i as int,
                    )).push(children@[i as int]));
                }
                i = i + 1;
            }
            proof {
                assert(children@.take(children@.len() as int) =~= children@);
            }
        }
        d
    }
}

} // verus!
