//! The effort counters that every search fills in.
use vstd::prelude::*;

verus! {

/// Effort spent by one search run. Each count stops at `usize::MAX`.
#[derive(Debug, Clone, Copy, PartialEq, Eq, Structural)]
pub struct PerformanceCounter {
    pub nodes_explored: usize,
    pub nodes_in_frontier: usize,
    pub comparisons: usize,
    pub memory_allocations: usize,
}

/// One more, stopping at the largest value.
pub open spec fn bump(n: usize) -> usize {
    if n < usize::MAX { (n + 1) as usize } else { n }
}

impl PerformanceCounter {
    /// All counts zero.
    pub fn new() -> (c: PerformanceCounter)
        ensures
            c.nodes_explored == 0,
            c.nodes_in_frontier == 0,
            c.comparisons == 0,
            c.memory_allocations == 0,
    {
        PerformanceCounter { nodes_explored: 0, nodes_in_frontier: 0, comparisons: 0, memory_allocations: 0 }
    }

    /// A node was committed to the explored set.
    pub fn explore_node(&mut self)
        ensures
            *final(self) == (PerformanceCounter { nodes_explored: bump(old(self).nodes_explored), ..*old(self) }),
    {
        self.nodes_explored = self.nodes_explored.saturating_add(1);
    }

    /// A candidate was admitted to the frontier.
    pub fn add_to_frontier(&mut self)
        ensures
            *final(self) == (PerformanceCounter { nodes_in_frontier: bump(old(self).nodes_in_frontier), ..*old(self) }),
    {
        self.nodes_in_frontier = self.nodes_in_frontier.saturating_add(1);
    }

    /// A neighbour was examined.
    pub fn compare(&mut self)
        ensures
            *final(self) == (PerformanceCounter { comparisons: bump(old(self).comparisons), ..*old(self) }),
    {
        self.comparisons = self.comparisons.saturating_add(1);
    }

    /// An entry was allocated; the size is not recorded.
    pub fn allocate_memory(&mut self, _size: usize)
        ensures
            *final(self) == (PerformanceCounter { memory_allocations: bump(old(self).memory_allocations), ..*old(self) }),
    {
        self.memory_allocations = self.memory_allocations.saturating_add(1);
    }

    /// Records a first admission to the frontier: one frontier entry and one allocation.
    pub fn record_admission(&mut self)
        ensures
            final(self).nodes_explored == old(self).nodes_explored,
            final(self).comparisons == old(self).comparisons,
            final(self).nodes_in_frontier == bump(old(self).nodes_in_frontier),
            final(self).memory_allocations == bump(old(self).memory_allocations),
    {
        self.add_to_frontier();
        self.allocate_memory(1);
    }
}

} // verus!
