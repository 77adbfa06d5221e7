//! The five searches. Each takes a well-formed grid, returns the cells of a walk
//! from start to end (empty when it finds none) and the effort it spent.
use vstd::prelude::*;
use crate::counter::PerformanceCounter;
use crate::grid::{Grid, Position};

pub mod astar;
pub mod breadth_first;
pub mod depth_first;
pub mod dijkstra;
pub mod greedy_best_first;

verus! {

/// An empty result or a walk over open cells from start to end.
pub open spec fn valid_result(g: Grid, path: Seq<Position>) -> bool {
    path.len() > 0 ==> g.is_path_between(path, g.start, g.end)
}

/// No walk from start to end has fewer cells than `path`.
pub open spec fn shortest(g: Grid, path: Seq<Position>) -> bool {
    forall|other: Seq<Position>| #[trigger] g.is_path_between(other, g.start, g.end) ==> path.len() <= other.len()
}

/// Two shortest walks from start to end have the same number of cells. Since
/// breadth-first search, Dijkstra's search and A* (on grids where its keys do
/// not overflow) each promise a shortest walk whenever start reaches end, they
/// return walks of one length on the same connected grid.
pub proof fn lemma_shortest_walks_agree(g: Grid, p: Seq<Position>, q: Seq<Position>)
    requires
        g.is_path_between(p, g.start, g.end),
        g.is_path_between(q, g.start, g.end),
        shortest(g, p),
        shortest(g, q),
    ensures
        p.len() == q.len(),
{
}

/// The counters of a finished search: every admission to the frontier is one
/// allocation, no more cells were explored than admitted, each explored cell was
/// an open cell counted once, at least the start was explored, and at most its
/// four neighbours were examined per explored cell.
pub open spec fn counts_ok(g: Grid, c: PerformanceCounter) -> bool {
    &&& c.nodes_in_frontier == c.memory_allocations
    &&& c.nodes_explored <= c.nodes_in_frontier
    &&& c.nodes_explored + g.blocked_count() <= g.width * g.height
    &&& c.nodes_explored > 0
    &&& c.comparisons <= 4 * c.nodes_explored
}

} // verus!
