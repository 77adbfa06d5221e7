//! Running the searches by name or key, timing trials, and gathering one
//! metrics row per algorithm and grid.
use vstd::prelude::*;
use crate::counter::PerformanceCounter;
use crate::error::Error;
use crate::generator::{corner_grid, create_empty_grid, create_maze_like_grid, create_random_obstacles_grid, maze_blocked, obstacle_free, protected_seq, target_count};
use crate::grid::{count_blocked_cells, count_blocked_rows, CellType, Grid, Position};
use crate::menu_choice::{pathfinder_display, PathfinderAlgorithm};
use crate::pathfinder::{astar, breadth_first, counts_ok, depth_first, dijkstra, greedy_best_first, shortest, valid_result};
use std::time::{Duration, Instant};

verus! {

#[verifier::external_type_specification]
#[verifier::external_body]
pub struct ExInstant(Instant);

/// Relies on `Instant::now`: a reading of the monotonic clock; nothing is known of its value.
pub assume_specification[ Instant::now ]() -> Instant;

/// Relies on `Instant::elapsed`: the time since the reading; nothing is known of its value.
pub assume_specification[ Instant::elapsed ](t: &Instant) -> Duration;

/// Relies on `Duration::as_nanos`: the whole nanoseconds of a duration; nothing more is used.
pub assume_specification[ Duration::as_nanos ](d: &Duration) -> u128;

/// The metrics of one algorithm on one grid.
#[derive(Debug)]
pub struct PathfindingMetrics {
    pub algorithm_name: String,
    pub path_found: bool,
    pub path_length: usize,
    pub nodes_explored: usize,
    pub nodes_in_frontier: usize,
    /// Mean wall-clock time of the successful trials, in nanoseconds.
    pub duration_nanos: u128,
    pub theoretical_complexity: String,
    pub grid_size: (usize, usize),
    pub obstacle_count: usize,
    pub path: Vec<Position>,
}

/// The five single algorithms, in the order the benchmark runs them.
pub open spec fn single_algorithm(a: PathfinderAlgorithm) -> bool {
    a != PathfinderAlgorithm::All
}

/// The growth rate quoted for an algorithm.
pub open spec fn complexity_of(a: PathfinderAlgorithm) -> Seq<char> {
    match a {
        PathfinderAlgorithm::AStar => "O(b^d)"@,
        PathfinderAlgorithm::Dijkstra => "O((V + E) log V)"@,
        PathfinderAlgorithm::BreadthFirst => "O(V + E)"@,
        PathfinderAlgorithm::DepthFirst => "O(V + E)"@,
        PathfinderAlgorithm::GreedyBestFirst => "O(b^m)"@,
        PathfinderAlgorithm::All => "Unknown"@,
    }
}

/// A metrics row of `a` on `g`: a walk from start to end, with the grid's size
/// and obstacle count.
pub open spec fn metric_ok(m: PathfindingMetrics, g: Grid, a: PathfinderAlgorithm) -> bool {
    &&& m.algorithm_name@ == pathfinder_display(a)
    &&& m.theoretical_complexity@ == complexity_of(a)
    &&& m.path_found
    &&& m.path_length == m.path@.len()
    &&& g.is_path_between(m.path@, g.start, g.end)
    &&& m.nodes_explored > 0
    &&& m.nodes_explored <= m.nodes_in_frontier
    &&& m.grid_size == (g.width, g.height)
    &&& m.obstacle_count == g.blocked_count()
}

/// `m` is a metrics row of `a` on one of `grids`.
pub open spec fn row_of(m: PathfindingMetrics, grids: Seq<Grid>, a: PathfinderAlgorithm) -> bool {
    exists|i: int| 0 <= i < grids.len() && #[trigger] metric_ok(m, grids[i], a)
}

/// `m` is a metrics row of one of the five algorithms on one of `grids`.
pub open spec fn row_of_any(m: PathfindingMetrics, grids: Seq<Grid>) -> bool {
    exists|a: PathfinderAlgorithm| single_algorithm(a) && #[trigger] row_of(m, grids, a)
}

/// The growth rate quoted for an algorithm.
pub fn get_theoretical_complexity(a: PathfinderAlgorithm) -> (s: String)
    ensures
        s@ == complexity_of(a),
{
    let r: &str = match a {
        PathfinderAlgorithm::AStar => "O(b^d)",
        PathfinderAlgorithm::Dijkstra => "O((V + E) log V)",
        PathfinderAlgorithm::BreadthFirst => "O(V + E)",
        PathfinderAlgorithm::DepthFirst => "O(V + E)",
        PathfinderAlgorithm::GreedyBestFirst => "O(b^m)",
        PathfinderAlgorithm::All => "Unknown",
    };
    r.to_owned()
}

/// Runs one algorithm on a grid; `All` names no single algorithm and is refused.
pub fn run_algorithm(a: PathfinderAlgorithm, grid: &Grid) -> (r: Result<(Vec<Position>, PerformanceCounter), Error>)
    requires
        grid.wf(),
    ensures
        r is Err <==> a == PathfinderAlgorithm::All,
        r is Ok ==> valid_result(*grid, r->Ok_0.0@) && counts_ok(*grid, r->Ok_0.1),
        r is Ok ==> (r->Ok_0.0@.len() > 0 <==> grid.connected()),
        r is Ok && r->Ok_0.0@.len() > 0 && (a == PathfinderAlgorithm::BreadthFirst || a == PathfinderAlgorithm::Dijkstra
            || (a == PathfinderAlgorithm::AStar && astar::no_overflow(*grid))) ==> shortest(*grid, r->Ok_0.0@),
{
    let found = match a {
        PathfinderAlgorithm::AStar => astar::find_path(grid),
        PathfinderAlgorithm::Dijkstra => dijkstra::find_path(grid),
        PathfinderAlgorithm::BreadthFirst => breadth_first::find_path(grid),
        PathfinderAlgorithm::DepthFirst => depth_first::find_path(grid),
        PathfinderAlgorithm::GreedyBestFirst => greedy_best_first::find_path(grid),
        PathfinderAlgorithm::All => {
            return Err(Error::not_found("All"));
        },
    };
    match found {
        Ok(v) => Ok(v),
        Err(_) => Err(Error::generic("search failed")),
    }
}

/// Runs the algorithm that a key names (`astar`, `dijkstra`, `bfs`, `dfs`,
/// `greedy`, or its number, in any case); any other key is an unknown algorithm.
pub fn find_path_by_key(key: &str, grid: &Grid) -> (r: Result<(Vec<Position>, PerformanceCounter), Error>)
    requires
        grid.wf(),
    ensures
        r is Err <==> !(crate::menu_choice::pathfinder_of_key(crate::menu_choice::lowercase_of(key@)) matches Some(a) && single_algorithm(a)),
        r matches Err(e) ==> e matches Error::NotFound(m) && m@ == key@,
        r is Ok ==> valid_result(*grid, r->Ok_0.0@) && counts_ok(*grid, r->Ok_0.1),
        r is Ok ==> (r->Ok_0.0@.len() > 0 <==> grid.connected()),
{
    match PathfinderAlgorithm::from_str(key) {
        Some(a) => {
            if a == PathfinderAlgorithm::All {
                Err(Error::not_found(key))
            } else {
                run_algorithm(a, grid)
            }
        },
        None => Err(Error::not_found(key)),
    }
}

/// Number of blocked cells of a grid.
pub fn count_obstacles(grid: &Grid) -> (n: usize)
    requires
        grid.wf(),
    ensures
        n == grid.blocked_count(),
{
    let mut n: usize = 0;
    let mut r: usize = 0;
    while r < grid.height
        invariant
            grid.wf(),
            r <= grid.height,
            n == count_blocked_rows(grid.cells@, r as int),
            n <= r * grid.width,
        decreases grid.height - r,
    {
        let mut c: usize = 0;
        let ghost base = n;
        while c < grid.width
            invariant
                grid.wf(),
                r < grid.height,
                c <= grid.width,
                base == count_blocked_rows(grid.cells@, r as int),
                base <= r * grid.width,
                n == base + count_blocked_cells(grid.cells@[r as int]@, c as int),
                n <= base + c,
            decreases grid.width - c,
        {
            proof {
                assert((r + 1) * grid.width <= grid.height * grid.width) by (nonlinear_arith)
                    requires
                        r < grid.height,
                ;
                assert(r * grid.width + grid.width == (r + 1) * grid.width) by (nonlinear_arith);
                assert(grid.height * grid.width == grid.width * grid.height) by (nonlinear_arith);
            }
            if grid.cells[r][c] == CellType::Blocked {
                n = n + 1;
            }
            c = c + 1;
        }
        proof {
            assert(r * grid.width + grid.width == (r + 1) * grid.width) by (nonlinear_arith);
        }
        r = r + 1;
    }
    n
}

/// Mean of `total` over `runs`.
pub fn average_nanos(total: u128, runs: usize) -> (r: u128)
    requires
        runs > 0,
    ensures
        r == total / (runs as u128),
{
    total / (runs as u128)
}

/// Sum that stops at the largest `u128`.
fn add_nanos(total: u128, d: u128) -> (r: u128)
    ensures
        r == if total + d <= u128::MAX { total + d } else { u128::MAX as int },
{
    if total <= u128::MAX - d {
        total + d
    } else {
        u128::MAX
    }
}

/// The single algorithms in benchmark order: A*, Dijkstra, breadth-first,
/// depth-first, greedy best-first.
fn benchmark_order(i: usize) -> (a: PathfinderAlgorithm)
    requires
        i < 5,
    ensures
        single_algorithm(a),
        a == order_at(i as int),
{
    if i == 0 {
        PathfinderAlgorithm::AStar
    } else if i == 1 {
        PathfinderAlgorithm::Dijkstra
    } else if i == 2 {
        PathfinderAlgorithm::BreadthFirst
    } else if i == 3 {
        PathfinderAlgorithm::DepthFirst
    } else {
        PathfinderAlgorithm::GreedyBestFirst
    }
}

/// The three test grids of the given `(width, height)`: one without obstacles;
/// one with random obstacles, connected, with at most the rounded share
/// `percent` of its cells blocked and its protected cells open; and the
/// maze-like one, connected when at least two cells wide and high.
pub open spec fn test_grids(gs: Seq<Grid>, grid_size: (usize, usize), percent: u64) -> bool {
    &&& gs.len() == 3
    &&& forall|i: int| 0 <= i < 3 ==> corner_grid(#[trigger] gs[i], grid_size.0, grid_size.1)
    &&& obstacle_free(gs[0])
    &&& gs[0].connected()
    &&& gs[1].connected()
    &&& gs[1].blocked_count() <= target_count((grid_size.0 * grid_size.1) as nat, percent as nat)
    &&& forall|k: int| 0 <= k < protected_seq(gs[1]).len() ==> gs[1].open_pos(#[trigger] protected_seq(gs[1])[k])
    &&& forall|r: int, c: int| 0 <= r < grid_size.1 && 0 <= c < grid_size.0 ==> (#[trigger] gs[2].cell(r, c) == CellType::Blocked
        <==> maze_blocked(r, c, grid_size.0 as int, grid_size.1 as int))
    &&& grid_size.0 >= 2 && grid_size.1 >= 2 ==> gs[2].connected()
}

/// The positions, in order, of the connected grids among the first `k`.
pub open spec fn connected_indices(gs: Seq<Grid>, k: int) -> Seq<int>
    decreases k,
{
    if k <= 0 {
        Seq::empty()
    } else if gs[k - 1].connected() {
        connected_indices(gs, k - 1).push(k - 1)
    } else {
        connected_indices(gs, k - 1)
    }
}

proof fn lemma_connected_indices(gs: Seq<Grid>, k: int)
    requires
        0 <= k <= gs.len(),
    ensures
        connected_indices(gs, k).len() <= k,
        forall|m: int| 0 <= m < connected_indices(gs, k).len() ==> 0 <= #[trigger] connected_indices(gs, k)[m] < k,
    decreases k,
{
    if k > 0 {
        lemma_connected_indices(gs, k - 1);
    }
}

/// The rows that `benchmark_algorithm` yields for `a` on `gs`: none without
/// trials; otherwise one per connected grid, in grid order.
pub open spec fn algorithm_rows(rows: Seq<PathfindingMetrics>, gs: Seq<Grid>, a: PathfinderAlgorithm, iterations: usize) -> bool {
    &&& iterations == 0 ==> rows.len() == 0
    &&& iterations > 0 ==> {
        let ci = connected_indices(gs, gs.len() as int);
        &&& rows.len() == ci.len()
        &&& forall|k: int| 0 <= k < rows.len() ==> metric_ok(#[trigger] rows[k], gs[ci[k]], a)
    }
}

/// Row lists joined in order.
pub open spec fn joined(parts: Seq<Seq<PathfindingMetrics>>) -> Seq<PathfindingMetrics>
    decreases parts.len(),
{
    if parts.len() == 0 {
        Seq::empty()
    } else {
        joined(parts.drop_last()) + parts.last()
    }
}

/// The algorithm run in place `i` of the benchmark order.
pub open spec fn order_at(i: int) -> PathfinderAlgorithm {
    if i == 0 {
        PathfinderAlgorithm::AStar
    } else if i == 1 {
        PathfinderAlgorithm::Dijkstra
    } else if i == 2 {
        PathfinderAlgorithm::BreadthFirst
    } else if i == 3 {
        PathfinderAlgorithm::DepthFirst
    } else {
        PathfinderAlgorithm::GreedyBestFirst
    }
}

/// A trial: the walk found, the counters, and the elapsed nanoseconds.
pub type Trial = (Vec<Position>, PerformanceCounter, u128);

/// Trials among the first `k` that found a walk.
pub open spec fn success_count(t: Seq<Trial>, k: int) -> nat
    decreases k,
{
    if k <= 0 {
        0
    } else {
        success_count(t, k - 1) + if t[k - 1].0@.len() > 0 { 1nat } else { 0nat }
    }
}

/// Elapsed time summed over the successful trials among the first `k`,
/// stopping at the largest `u128`.
pub open spec fn success_total(t: Seq<Trial>, k: int) -> int
    decreases k,
{
    if k <= 0 {
        0
    } else {
        let prev = success_total(t, k - 1);
        if t[k - 1].0@.len() > 0 {
            if prev + t[k - 1].2 <= u128::MAX { prev + t[k - 1].2 } else { u128::MAX as int }
        } else {
            prev
        }
    }
}

/// The last successful trial among the first `k`, or -1.
pub open spec fn last_success(t: Seq<Trial>, k: int) -> int
    decreases k,
{
    if k <= 0 {
        -1
    } else if t[k - 1].0@.len() > 0 {
        k - 1
    } else {
        last_success(t, k - 1)
    }
}

proof fn lemma_last_success(t: Seq<Trial>, k: int)
    requires
        0 <= k <= t.len(),
    ensures
        success_count(t, k) <= k,
        (success_count(t, k) == 0) == (last_success(t, k) == -1),
        last_success(t, k) != -1 ==> 0 <= last_success(t, k) < k && t[last_success(t, k)].0@.len() > 0,
        0 <= success_total(t, k) <= u128::MAX,
    decreases k,
{
    if k > 0 {
        lemma_last_success(t, k - 1);
    }
}

/// Counts over a prefix depend on that prefix only.
proof fn lemma_success_prefix(t: Seq<Trial>, u: Seq<Trial>, k: int)
    requires
        0 <= k <= t.len(),
        k <= u.len(),
        forall|j: int| 0 <= j < k ==> #[trigger] u[j] == t[j],
    ensures
        success_count(u, k) == success_count(t, k),
        success_total(u, k) == success_total(t, k),
        last_success(u, k) == last_success(t, k),
    decreases k,
{
    if k > 0 {
        lemma_success_prefix(t, u, k - 1);
    }
}

/// The metrics row of the trials of `a` on `grid`: none when no trial found a
/// walk; otherwise the walk and counters of the last successful trial and the
/// mean elapsed time of the successful trials.
pub fn aggregate_trials(a: PathfinderAlgorithm, grid: &Grid, trials: Vec<Trial>) -> (m: Option<PathfindingMetrics>)
    requires
        grid.wf(),
    ensures
        m is None <==> success_count(trials@, trials@.len() as int) == 0,
        m matches Some(row) ==> {
            let i = last_success(trials@, trials@.len() as int);
            &&& row.path@ == trials@[i].0@
            &&& row.path_found
            &&& row.path_length == trials@[i].0@.len()
            &&& row.nodes_explored == trials@[i].1.nodes_explored
            &&& row.nodes_in_frontier == trials@[i].1.nodes_in_frontier
            &&& row.duration_nanos == success_total(trials@, trials@.len() as int) / (success_count(trials@, trials@.len() as int) as int)
            &&& row.algorithm_name@ == pathfinder_display(a)
            &&& row.theoretical_complexity@ == complexity_of(a)
            &&& row.grid_size == (grid.width, grid.height)
            &&& row.obstacle_count == grid.blocked_count()
        },
{
    let mut trials = trials;
    let mut total: u128 = 0;
    let mut runs: usize = 0;
    let mut last: usize = 0;
    let mut k: usize = 0;
    while k < trials.len()
        invariant
            k <= trials@.len(),
            runs == success_count(trials@, k as int),
            total == success_total(trials@, k as int),
            runs > 0 ==> last == last_success(trials@, k as int),
        decreases trials@.len() - k,
    {
        proof {
            lemma_last_success(trials@, k as int);
        }
        if trials[k].0.len() > 0 {
            runs = runs + 1;
            total = add_nanos(total, trials[k].2);
            last = k;
        }
        k = k + 1;
    }
    proof {
        lemma_last_success(trials@, trials@.len() as int);
    }
    if runs == 0 {
        return None;
    }
    let ghost all = trials@;
    let (path, counter, _elapsed) = trials.remove(last);
    proof {
        assert(path@ == all[last as int].0@);
    }
    Some(PathfindingMetrics {
        algorithm_name: a.display_name().to_owned(),
        path_found: path.len() > 0,
        path_length: path.len(),
        nodes_explored: counter.nodes_explored,
        nodes_in_frontier: counter.nodes_in_frontier,
        duration_nanos: average_nanos(total, runs),
        theoretical_complexity: get_theoretical_complexity(a),
        grid_size: (grid.width, grid.height),
        obstacle_count: count_obstacles(grid),
        path,
    })
}

/// Runs every algorithm on a set of generated grids and compares them.
pub struct PathfinderCoordinator {
    pub grids: Vec<Grid>,
}

impl PathfinderCoordinator {
    /// The grids held for benchmarking.
    pub open spec fn grids_view(&self) -> Seq<Grid> {
        self.grids@
    }

    /// A coordinator without grids.
    pub fn new() -> (c: PathfinderCoordinator)
        ensures
            c.grids_view().len() == 0,
    {
        PathfinderCoordinator { grids: Vec::new() }
    }

    /// The grids held for benchmarking.
    pub fn grids(&self) -> (g: &Vec<Grid>)
        ensures
            g@ == self.grids_view(),
    {
        &self.grids
    }

    /// Replaces the held grids with three of the given `(width, height)`: one
    /// without obstacles, one with random obstacles at `obstacle_percent`
    /// percent, and one maze-like grid.
    pub fn generate_test_grids(&mut self, grid_size: (usize, usize), obstacle_percent: u64) -> (r: Result<(), Error>)
        requires
            grid_size.0 >= 1,
            grid_size.1 >= 1,
            grid_size.0 * grid_size.1 <= usize::MAX,
            obstacle_percent <= 100,
        ensures
            r is Ok,
            final(self).grids_view().len() == 3,
            test_grids(final(self).grids_view(), grid_size, obstacle_percent),
    {
        let (width, height) = grid_size;
        self.grids.clear();
        self.grids.push(create_empty_grid(width, height));
        self.grids.push(create_random_obstacles_grid(width, height, obstacle_percent));
        self.grids.push(create_maze_like_grid(width, height));
        Ok(())
    }

    /// Runs `iterations` trials of one algorithm on each held grid. A grid where
    /// no trial finds a walk gets no row; otherwise its row holds the mean time
    /// of the successful trials and the walk and counts of the last of them.
    pub fn benchmark_algorithm(&self, a: PathfinderAlgorithm, iterations: usize) -> (r: Result<Vec<PathfindingMetrics>, Error>)
        requires
            forall|i: int| 0 <= i < self.grids_view().len() ==> (#[trigger] self.grids_view()[i]).wf(),
        ensures
            r is Err <==> (a == PathfinderAlgorithm::All && iterations > 0 && self.grids_view().len() > 0),
            iterations == 0 ==> r is Ok && r->Ok_0@.len() == 0,
            r is Ok ==> r->Ok_0@.len() <= self.grids_view().len(),
            r is Ok ==> forall|k: int| 0 <= k < r->Ok_0@.len() ==> row_of(#[trigger] r->Ok_0@[k], self.grids_view(), a),
            r is Ok && single_algorithm(a) ==> algorithm_rows(r->Ok_0@, self.grids_view(), a, iterations),
    {
        let mut results: Vec<PathfindingMetrics> = Vec::new();
        assert(self.grids@ == self.grids_view());
        let mut gi: usize = 0;
        while gi < self.grids.len()
            invariant
                gi <= self.grids_view().len(),
                forall|i: int| 0 <= i < self.grids_view().len() ==> (#[trigger] self.grids_view()[i]).wf(),
                !(a == PathfinderAlgorithm::All && iterations > 0 && gi > 0),
                results@.len() <= gi,
                iterations == 0 ==> results@.len() == 0,
                iterations > 0 && single_algorithm(a) ==> results@.len() == connected_indices(self.grids_view(), gi as int).len()
                    && forall|k: int| 0 <= k < results@.len() ==> metric_ok(#[trigger] results@[k], self.grids_view()[connected_indices(self.grids_view(), gi as int)[k]], a),
                forall|k: int| 0 <= k < results@.len() ==> row_of(#[trigger] results@[k], self.grids_view(), a),
            decreases self.grids_view().len() - gi,
        {
            let grid = &self.grids[gi];
            assert(*grid == self.grids_view()[gi as int]);
            let mut trials: Vec<Trial> = Vec::new();
            let mut t: usize = 0;
            while t < iterations
                invariant
                    grid.wf(),
                    gi < self.grids_view().len(),
                    t <= iterations,
                    trials@.len() == t,
                    a == PathfinderAlgorithm::All ==> t == 0,
                    t > 0 && grid.connected() ==> success_count(trials@, t as int) > 0,
                    forall|j: int| 0 <= j < t && (#[trigger] trials@[j]).0@.len() > 0 ==> valid_result(*grid, trials@[j].0@)
                        && counts_ok(*grid, trials@[j].1),
                decreases iterations - t,
            {
                let clock = Instant::now();
                let result = run_algorithm(a, grid);
                let elapsed = clock.elapsed().as_nanos();
                match result {
                    Ok((path, counter)) => {
                        let ghost before = trials@;
                        trials.push((path, counter, elapsed));
                        proof {
                            lemma_success_prefix(before, trials@, t as int);
                            assert forall|j: int| 0 <= j < t + 1 && (#[trigger] trials@[j]).0@.len() > 0 implies valid_result(*grid, trials@[j].0@)
                                && counts_ok(*grid, trials@[j].1) by {
                                if j < t {
                                    assert(trials@[j] == before[j]);
                                }
                            }
                        }
                    },
                    Err(e) => {
                        return Err(e);
                    },
                }
                t = t + 1;
            }
            let ghost ts = trials@;
            match aggregate_trials(a, grid, trials) {
                Some(m) => {
                    proof {
                        lemma_last_success(ts, ts.len() as int);
                    }
                    assert(metric_ok(m, self.grids_view()[gi as int], a));
                    let ghost before = results@;
                    results.push(m);
                    proof {
                        assert forall|k: int| 0 <= k < results@.len() implies row_of(#[trigger] results@[k], self.grids_view(), a) by {
                            if k < before.len() {
                                assert(results@[k] == before[k]);
                            } else {
                                assert(metric_ok(results@[k], self.grids_view()[gi as int], a));
                            }
                        }
                        if iterations > 0 && single_algorithm(a) {
                            let gsv = self.grids_view();
                            assert(gsv[gi as int].connected());
                            assert(connected_indices(gsv, gi + 1) == connected_indices(gsv, gi as int).push(gi as int));
                            assert forall|k: int| 0 <= k < results@.len() implies metric_ok(#[trigger] results@[k], gsv[connected_indices(gsv, gi + 1)[k]], a) by {
                                if k < before.len() {
                                    assert(results@[k] == before[k]);
                                }
                            }
                        }
                    }
                },
                None => {
                    proof {
                        if iterations > 0 && single_algorithm(a) {
                            let gsv = self.grids_view();
                            assert(!gsv[gi as int].connected());
                            assert(connected_indices(gsv, gi + 1) == connected_indices(gsv, gi as int));
                        }
                    }
                },
            }
            gi = gi + 1;
        }
        Ok(results)
    }

    /// Generates the three test grids at thirty percent obstacles and runs the
    /// five algorithms on them, `iterations` trials each, in the order A*,
    /// Dijkstra, breadth-first, depth-first, greedy best-first; the rows are
    /// those of `benchmark_algorithm` for each algorithm in turn, joined.
    pub fn run_benchmarks(&mut self, grid_size: (usize, usize), iterations: usize) -> (r: Result<Vec<PathfindingMetrics>, Error>)
        requires
            grid_size.0 >= 1,
            grid_size.1 >= 1,
            grid_size.0 * grid_size.1 <= usize::MAX,
        ensures
            r is Ok,
            test_grids(final(self).grids_view(), grid_size, 30),
            r is Ok ==> r->Ok_0@.len() <= 15,
            iterations == 0 ==> r is Ok && r->Ok_0@.len() == 0,
            r is Ok ==> exists|parts: Seq<Seq<PathfindingMetrics>>| #![trigger joined(parts)]
                parts.len() == 5 && r->Ok_0@ == joined(parts)
                && forall|i: int| 0 <= i < 5 ==> algorithm_rows(#[trigger] parts[i], final(self).grids_view(), order_at(i), iterations),
    {
        let _ = self.generate_test_grids(grid_size, 30);
        let ghost gs = self.grids_view();
        let ghost mut parts: Seq<Seq<PathfindingMetrics>> = Seq::empty();
        let mut all_metrics: Vec<PathfindingMetrics> = Vec::new();
        proof {
            lemma_connected_indices(gs, 3);
        }
        let mut i: usize = 0;
        while i < 5
            invariant
                i <= 5,
                self.grids_view() == gs,
                test_grids(gs, grid_size, 30),
                connected_indices(gs, 3).len() <= 3,
                parts.len() == i,
                all_metrics@ == joined(parts),
                all_metrics@.len() <= 3 * i,
                iterations == 0 ==> all_metrics@.len() == 0,
                forall|j: int| 0 <= j < i ==> algorithm_rows(#[trigger] parts[j], gs, order_at(j), iterations),
            decreases 5 - i,
        {
            let a = benchmark_order(i);
            proof {
                assert forall|j: int| 0 <= j < self.grids_view().len() implies (#[trigger] self.grids_view()[j]).wf() by {
                    assert(corner_grid(gs[j], grid_size.0, grid_size.1));
                }
            }
            let mut metrics = match self.benchmark_algorithm(a, iterations) {
                Ok(m) => m,
                Err(e) => {
                    return Err(e);
                },
            };
            let ghost added = metrics@;
            let ghost before = parts;
            all_metrics.append(&mut metrics);
            proof {
                parts = parts.push(added);
                assert(parts.drop_last() == before);
                assert(all_metrics@ == joined(parts));
                assert forall|j: int| 0 <= j < i + 1 implies algorithm_rows(#[trigger] parts[j], gs, order_at(j), iterations) by {
                    if j < i {
                        assert(parts[j] == before[j]);
                    }
                }
            }
            i = i + 1;
        }
        proof {
            assert(parts.len() == 5 && all_metrics@ == joined(parts));
        }
        Ok(all_metrics)
    }
}

} // verus!
