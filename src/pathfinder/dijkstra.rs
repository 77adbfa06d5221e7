use vstd::prelude::*;
use crate::counter::PerformanceCounter;
use crate::frontier::{frontier_closed, in_queue, lemma_exhausted, lemma_in_queue_push, lemma_pop_closed, lemma_pop_pending, lemma_push_closed, pending_queued, pop_min};
use crate::grid::{adjacent, Grid, Position};
use crate::paths::{exact_ranks, lemma_neighbors_sound, lemma_tree_add, reconstruct_path, tree_ok};
use crate::pathfinder::{counts_ok, shortest, valid_result};
use crate::pathfinder::breadth_first::distances_minimal;
use crate::table::{at, count_true, lemma_count_open, lemma_count_set_any, lemma_count_subset, lemma_count_bound, lemma_count_set, lemma_count_zero, new_table, shaped, table_get, table_set};

verus! {

/// Dijkstra's search with unit steps: a min-queue on the distance from the start,
/// with stale entries skipped when they leave the queue. It finds a walk exactly
/// when one exists, and the walk it finds is a shortest one.
#[verifier::rlimit(60)]
#[verifier::spinoff_prover]
pub fn find_path(grid: &Grid) -> (r: Result<(Vec<Position>, PerformanceCounter), String>)
    requires
        grid.wf(),
    ensures
        r is Ok,
        r is Ok ==> {
            let (path, counter) = r->Ok_0;
            &&& valid_result(*grid, path@)
            &&& (path@.len() > 0 <==> grid.connected())
            &&& (path@.len() > 0 ==> shortest(*grid, path@))
            &&& counts_ok(*grid, counter)
        },
{
    let w = grid.width;
    let h = grid.height;
    let mut counter = PerformanceCounter::new();
    let mut visited: Vec<Vec<bool>> = new_table(w, h, false);
    let mut has: Vec<Vec<bool>> = new_table(w, h, false);
    let mut distances: Vec<Vec<usize>> = new_table(w, h, 0usize);
    let mut previous: Vec<Vec<Option<Position>>> = new_table(w, h, None);
    let mut queue: Vec<(usize, Position)> = Vec::new();
    proof {
        lemma_count_zero(visited@, w as int, h as int);
    }
    let ghost hz = has@;
    table_set(&mut has, grid.start, true);
    proof {
        lemma_count_zero(hz, w as int, h as int);
        lemma_count_set(hz, has@, grid.start);
        lemma_count_bound(has@, w as int, h as int);
    }
    queue.push((0, grid.start));
    counter.record_admission();
    proof {
        assert forall|p: Position| grid.in_bounds(p) && #[trigger] at(has@, p) implies p == grid.start by {}
        assert(at(previous@, grid.start) == at(previous@, grid.start));
        assert(queue@[0].1 == grid.start);
    }

    while queue.len() > 0
        invariant
            grid.wf(),
            w == grid.width,
            h == grid.height,
            shaped(visited@, w as int, h as int),
            shaped(has@, w as int, h as int),
            shaped(distances@, w as int, h as int),
            tree_ok(*grid, previous@, |p: Position| at(has@, p), |p: Position| at(distances@, p) as int),
            at(has@, grid.start),
            at(distances@, grid.start) == 0,
            count_true(visited@) == 0 ==> queue@ == seq![(0usize, grid.start)],
            counter.nodes_explored == count_true(visited@),
            counter.comparisons <= 4 * counter.nodes_explored,
            counter.nodes_in_frontier == counter.memory_allocations,
            counter.nodes_in_frontier >= count_true(has@),
            count_true(has@) <= w * h,
            count_true(visited@) > 0 ==> counter.nodes_explored > 0,
            forall|i: int| 0 <= i < queue@.len() ==> grid.in_bounds((#[trigger] queue@[i]).1) && at(has@, queue@[i].1),
            forall|p: Position| grid.in_bounds(p) && #[trigger] at(has@, p) ==> at(distances@, p) <= count_true(visited@),
            forall|p: Position| grid.in_bounds(p) && #[trigger] at(visited@, p) ==> at(has@, p) && at(distances@, p) < count_true(visited@),
            frontier_closed(*grid, visited@, queue@, None),
            pending_queued(*grid, has@, visited@, queue@),
            !at(visited@, grid.end),
            relaxed(*grid, visited@, has@, distances@, None),
            count_true(visited@) > 0 ==> at(visited@, grid.start),
            exact_ranks(*grid, previous@, |p: Position| at(has@, p), |p: Position| at(distances@, p) as int),
            forall|p: Position| grid.in_bounds(p) && at(has@, p) && #[trigger] at(previous@, p) is Some ==> at(visited@, at(previous@, p)->Some_0),
            distances_minimal(*grid, visited@, distances@),
            keyed_pending(*grid, has@, visited@, distances@, queue@),
            keys_cover(distances@, queue@),
        decreases 4 * (w * h - count_true(visited@)) + queue@.len(),
    {
        proof {
            lemma_count_bound(visited@, w as int, h as int);
        }
        let ghost q0 = queue@;
        let entry = pop_min(&mut queue);
        let current = entry.1;
        let ghost i0: int = choose|i: int| #![trigger q0[i]] 0 <= i < q0.len() && entry == q0[i] && queue@ == q0.remove(i)
            && (forall|j: int| 0 <= j < i ==> q0[j].0 > entry.0);
        proof {
            let i = choose|i: int| #![trigger q0[i]] 0 <= i < q0.len() && entry == q0[i] && queue@ == q0.remove(i)
                && (forall|j: int| 0 <= j < i ==> q0[j].0 > entry.0);
            assert(grid.in_bounds(q0[i].1));
            assert forall|k: int| 0 <= k < queue@.len() implies grid.in_bounds((#[trigger] queue@[k]).1) && at(has@, queue@[k].1) by {
                if k < i {
                    assert(queue@[k] == q0[k]);
                } else {
                    assert(queue@[k] == q0[k + 1]);
                }
            }
        }
        proof {
            assert forall|k: int| 0 <= k < queue@.len() implies (#[trigger] queue@[k]).0 >= at(distances@, queue@[k].1) by {
                if k < i0 {
                    assert(queue@[k] == q0[k]);
                } else {
                    assert(queue@[k] == q0[k + 1]);
                }
            }
            assert forall|p: Position| grid.in_bounds(p) && #[trigger] at(has@, p) && !at(visited@, p) && p != current
                implies queue@.contains((at(distances@, p), p)) by {
                let jj = choose|jj: int| 0 <= jj < q0.len() && q0[jj] == (at(distances@, p), p);
                if jj < i0 {
                    assert(queue@[jj] == q0[jj]);
                } else {
                    assert(jj != i0);
                    assert(queue@[jj - 1] == q0[jj]);
                }
            }
        }
        if table_get(&visited, current) {
            proof {
                lemma_pop_closed(*grid, visited@, visited@, q0, i0);
                lemma_pop_pending(*grid, has@, visited@, visited@, q0, i0);
            }
            continue;
        }
        proof {
            if at(visited@, grid.start) {
                lemma_least_key_minimal(*grid, visited@, has@, distances@, q0, entry.0 as int, current);
            } else {
                assert(current == grid.start);
            }
            let jj = choose|jj: int| 0 <= jj < q0.len() && q0[jj] == (at(distances@, current), current);
            assert(entry.0 <= q0[jj].0);
            assert(q0[i0].0 >= at(distances@, q0[i0].1));
        }
        let ghost vis0 = visited@;
        table_set(&mut visited, current, true);
        proof {
            assert forall|p: Position| grid.in_bounds(p) implies #[trigger] at(visited@, p) == (at(vis0, p) || p == current) by {}
            assert forall|p: Position, path: Seq<Position>| grid.in_bounds(p) && at(visited@, p) && #[trigger] grid.is_path_between(path, grid.start, p)
                implies path.len() >= at(distances@, p) + 1 by {
                if p != current {
                    assert(at(vis0, p));
                }
            }
            assert forall|x: Position, k: int| grid.in_bounds(x) && at(visited@, x) && Some(current) != Some(x) && 0 <= k < grid.open_neighbors(x).len()
                implies ({
                    let y = #[trigger] grid.open_neighbors(x)[k];
                    at(visited@, y) || (at(has@, y) && at(distances@, y) <= at(distances@, x) + 1)
                }) by {
                assert(at(vis0, x));
                lemma_neighbors_sound(*grid, x);
                assert(at(visited@, grid.open_neighbors(x)[k]) == (at(vis0, grid.open_neighbors(x)[k]) || grid.open_neighbors(x)[k] == current));
            }
            assert forall|p: Position| grid.in_bounds(p) && at(has@, p) && #[trigger] at(previous@, p) is Some implies at(visited@, at(previous@, p)->Some_0) by {
                assert(at(vis0, at(previous@, p)->Some_0));
                assert(at(previous@, at(previous@, p)->Some_0) == at(previous@, at(previous@, p)->Some_0));
            }
            lemma_pop_closed(*grid, vis0, visited@, q0, i0);
            lemma_pop_pending(*grid, has@, vis0, visited@, q0, i0);
            lemma_count_set(vis0, visited@, current);
            lemma_count_bound(visited@, w as int, h as int);
            assert forall|p: Position| grid.in_bounds(p) && #[trigger] at(visited@, p) implies at(has@, p) && at(distances@, p) < count_true(visited@) by {
                if p != current {
                    assert(at(vis0, p));
                }
            }
        }
        counter.explore_node();
        if current == grid.end {
            let ghost hs = has@;
            let ghost ds = distances@;
            let path = reconstruct_path(grid, &previous, current, Ghost(|p: Position| at(hs, p)), Ghost(|p: Position| at(ds, p) as int));
            proof {
                assert forall|other: Seq<Position>| #[trigger] grid.is_path_between(other, grid.start, grid.end) implies path@.len() <= other.len() by {
                    assert(grid.in_bounds(grid.end) && at(visited@, grid.end));
                }
            }
            proof {
                assert forall|p: Position| grid.in_bounds(p) && #[trigger] at(visited@, p) implies grid.open_pos(p) by {
                    assert(at(has@, p));
                    assert(at(previous@, p) == at(previous@, p));
                }
                lemma_count_open(visited@, *grid);
                lemma_count_subset(visited@, has@, w as int, h as int);
            }
            return Ok((path, counter));
        }
        proof {
            assert(at(visited@, grid.end) == (at(vis0, grid.end) || grid.end == current));
        }
        let current_distance = table_get(&distances, current);
        let neighbors = grid.get_neighbors(&current);
        proof {
            lemma_neighbors_sound(*grid, current);
        }
        let ghost qlen = queue@.len();
        let mut j: usize = 0;
        while j < neighbors.len()
            invariant
                grid.wf(),
                w == grid.width,
                h == grid.height,
                neighbors@ == grid.open_neighbors(current),
                neighbors@.len() <= 4,
                forall|k: int| 0 <= k < neighbors@.len() ==> {
                    let x = #[trigger] neighbors@[k];
                    grid.in_bounds(x) && grid.open_pos(x) && crate::grid::adjacent(current, x)
                },
                grid.in_bounds(current),
                at(visited@, current),
                at(has@, current),
                current_distance == at(distances@, current),
                current_distance < count_true(visited@),
                count_true(visited@) <= w * h,
                j <= neighbors@.len(),
                queue@.len() <= qlen + j,
                shaped(visited@, w as int, h as int),
                shaped(has@, w as int, h as int),
                shaped(distances@, w as int, h as int),
                tree_ok(*grid, previous@, |p: Position| at(has@, p), |p: Position| at(distances@, p) as int),
                at(has@, grid.start),
                at(distances@, grid.start) == 0,
                count_true(visited@) > 0,
                counter.comparisons <= 4 * (counter.nodes_explored - 1) + j,
                counter.nodes_explored == count_true(visited@),
                counter.nodes_in_frontier == counter.memory_allocations,
                counter.nodes_in_frontier >= count_true(has@),
                count_true(has@) <= w * h,
                counter.nodes_explored > 0,
                forall|i: int| 0 <= i < queue@.len() ==> grid.in_bounds((#[trigger] queue@[i]).1) && at(has@, queue@[i].1),
                forall|p: Position| grid.in_bounds(p) && #[trigger] at(has@, p) ==> at(distances@, p) <= count_true(visited@),
                forall|p: Position| grid.in_bounds(p) && #[trigger] at(visited@, p) ==> at(has@, p) && at(distances@, p) < count_true(visited@),
                frontier_closed(*grid, visited@, queue@, Some(current)),
                pending_queued(*grid, has@, visited@, queue@),
                !at(visited@, grid.end),
                forall|k: int| 0 <= k < j ==> at(visited@, #[trigger] neighbors@[k]) || in_queue(queue@, neighbors@[k]),
                relaxed(*grid, visited@, has@, distances@, Some(current)),
                at(visited@, grid.start),
                forall|k: int| 0 <= k < j ==> at(visited@, #[trigger] neighbors@[k])
                    || (at(has@, neighbors@[k]) && at(distances@, neighbors@[k]) <= current_distance + 1),
                exact_ranks(*grid, previous@, |p: Position| at(has@, p), |p: Position| at(distances@, p) as int),
                forall|p: Position| grid.in_bounds(p) && at(has@, p) && #[trigger] at(previous@, p) is Some ==> at(visited@, at(previous@, p)->Some_0),
                distances_minimal(*grid, visited@, distances@),
                keyed_pending(*grid, has@, visited@, distances@, queue@),
                keys_cover(distances@, queue@),

            decreases neighbors@.len() - j,
        {
            let n = neighbors[j];
            counter.compare();
            if !table_get(&visited, n) {
                let new_distance = current_distance + 1;
                if !table_get(&has, n) || new_distance < table_get(&distances, n) {
                    let ghost has0 = has@;
                    let ghost dist0 = distances@;
                    let ghost par0 = previous@;
                    proof {
                        assert(at(previous@, n) == at(previous@, n));
                        assert(at(previous@, current) == at(previous@, current));
                        if n == grid.start {
                            assert(at(distances@, n) == 0);
                        }
                    }
                    table_set(&mut has, n, true);
                    table_set(&mut distances, n, new_distance);
                    table_set(&mut previous, n, Some(current));
                    proof {
                        lemma_tree_add(*grid, par0, previous@, |p: Position| at(has0, p), |p: Position| at(has@, p),
                            |p: Position| at(dist0, p) as int, |p: Position| at(distances@, p) as int, n, current);
                    }
                    let ghost qb = queue@;
                    queue.push((new_distance, n));
                    counter.record_admission();
                    proof {
                        lemma_count_set_any(has0, has@, n);
                        lemma_count_bound(has@, w as int, h as int);
                    }
                    proof {
                        assert(queue@[qb.len() as int] == (new_distance, n));
                        assert forall|p: Position| grid.in_bounds(p) && #[trigger] at(has@, p) && !at(visited@, p)
                            implies queue@.contains((at(distances@, p), p)) by {
                            if p != n {
                                assert(at(has0, p));
                                let jj = choose|jj: int| 0 <= jj < qb.len() && qb[jj] == (at(dist0, p), p);
                                assert(queue@[jj] == qb[jj]);
                            }
                        }
                        assert forall|k: int| 0 <= k < queue@.len() implies (#[trigger] queue@[k]).0 >= at(distances@, queue@[k].1) by {
                            if k < qb.len() {
                                assert(queue@[k] == qb[k]);
                                assert(qb[k].0 >= at(dist0, qb[k].1));
                            }
                        }
                        assert forall|p: Position| #![trigger at(previous@, p)] at(has@, p) && grid.in_bounds(p) && at(previous@, p) is Some
                            implies at(distances@, at(previous@, p)->Some_0) + 1 == at(distances@, p) by {
                            if p != n {
                                assert(at(has0, p));
                                assert(at(previous@, p) == at(par0, p));
                                assert(at(visited@, at(par0, p)->Some_0));
                            }
                        }
                        assert forall|p: Position| grid.in_bounds(p) && at(has@, p) && #[trigger] at(previous@, p) is Some implies at(visited@, at(previous@, p)->Some_0) by {
                            if p != n {
                                assert(at(has0, p));
                                assert(at(previous@, p) == at(par0, p));
                            }
                        }
                        assert forall|p: Position, path: Seq<Position>| grid.in_bounds(p) && at(visited@, p) && #[trigger] grid.is_path_between(path, grid.start, p)
                            implies path.len() >= at(distances@, p) + 1 by {
                            assert(p != n);
                        }
                        assert forall|x: Position, k: int| grid.in_bounds(x) && at(visited@, x) && Some(current) != Some(x) && 0 <= k < grid.open_neighbors(x).len()
                            implies ({
                                let y = #[trigger] grid.open_neighbors(x)[k];
                                at(visited@, y) || (at(has@, y) && at(distances@, y) <= at(distances@, x) + 1)
                            }) by {
                            lemma_neighbors_sound(*grid, x);
                            let y = grid.open_neighbors(x)[k];
                            assert(x != n);
                            if y != n {
                                assert(at(has@, y) == at(has0, y));
                            }
                        }
                        assert forall|k: int| 0 <= k < j + 1 implies at(visited@, #[trigger] neighbors@[k])
                            || (at(has@, neighbors@[k]) && at(distances@, neighbors@[k]) <= current_distance + 1) by {
                            if k < j && neighbors@[k] != n {
                                assert(at(has@, neighbors@[k]) == at(has0, neighbors@[k]));
                            }
                        }
                        lemma_push_closed(*grid, visited@, qb, (new_distance, n), Some(current));
                        lemma_in_queue_push(qb, (new_distance, n), n);
                        assert forall|k: int| 0 <= k < j + 1 implies at(visited@, #[trigger] neighbors@[k]) || in_queue(queue@, neighbors@[k]) by {
                            if k < j && !at(visited@, neighbors@[k]) {
                                lemma_in_queue_push(qb, (new_distance, n), neighbors@[k]);
                            }
                        }
                        assert forall|p: Position| grid.in_bounds(p) && #[trigger] at(has@, p) && !at(visited@, p) implies in_queue(queue@, p) by {
                            if p != n {
                                assert(at(has0, p));
                                lemma_in_queue_push(qb, (new_distance, n), p);
                            }
                        }
                        assert forall|p: Position| grid.in_bounds(p) && #[trigger] at(has@, p) implies at(distances@, p) <= count_true(visited@) by {
                            if p != n {
                                assert(at(has0, p));
                            }
                        }
                        assert forall|p: Position| grid.in_bounds(p) && #[trigger] at(visited@, p) implies at(has@, p) && at(distances@, p) < count_true(visited@) by {
                            assert(p != n);
                        }
                    }
                }
            }
            proof {
                if !at(visited@, n) {
                    assert(at(has@, n));
                }
            }
            j = j + 1;
        }
        proof {
            assert forall|p: Position, k: int| grid.in_bounds(p) && at(visited@, p) && None::<Position> != Some(p) && 0 <= k < grid.open_neighbors(p).len()
                implies at(visited@, #[trigger] grid.open_neighbors(p)[k]) || in_queue(queue@, grid.open_neighbors(p)[k]) by {
                if p == current {
                    assert(neighbors@[k] == grid.open_neighbors(p)[k]);
                }
            }
            assert forall|x: Position, k: int| grid.in_bounds(x) && at(visited@, x) && None::<Position> != Some(x) && 0 <= k < grid.open_neighbors(x).len()
                implies ({
                    let y = #[trigger] grid.open_neighbors(x)[k];
                    at(visited@, y) || (at(has@, y) && at(distances@, y) <= at(distances@, x) + 1)
                }) by {
                if x == current {
                    assert(neighbors@[k] == grid.open_neighbors(x)[k]);
                }
            }
        }
    }
    proof {
        assert(at(has@, grid.start));
        if !at(visited@, grid.start) {
            assert(in_queue(queue@, grid.start));
        }
        if grid.connected() {
            lemma_exhausted(*grid, visited@, queue@);
        }
    }
    proof {
        assert forall|p: Position| grid.in_bounds(p) && #[trigger] at(visited@, p) implies grid.open_pos(p) by {
            assert(at(has@, p));
            assert(at(previous@, p) == at(previous@, p));
        }
        lemma_count_open(visited@, *grid);
        lemma_count_subset(visited@, has@, w as int, h as int);
    }
    Ok((Vec::new(), counter))
}

/// Every open neighbour of a visited cell (but `skip`) is visited, or discovered
/// at most one step further from the start.
pub open spec fn relaxed(g: Grid, vis: Seq<Vec<bool>>, has: Seq<Vec<bool>>, dist: Seq<Vec<usize>>, skip: Option<Position>) -> bool {
    forall|x: Position, k: int| g.in_bounds(x) && at(vis, x) && skip != Some(x) && 0 <= k < g.open_neighbors(x).len() ==> {
        let y = #[trigger] g.open_neighbors(x)[k];
        at(vis, y) || (at(has, y) && at(dist, y) <= at(dist, x) + 1)
    }
}

/// Every discovered, unvisited cell has an entry keyed by its distance.
pub open spec fn keyed_pending(g: Grid, has: Seq<Vec<bool>>, vis: Seq<Vec<bool>>, dist: Seq<Vec<usize>>, q: Seq<(usize, Position)>) -> bool {
    forall|p: Position| g.in_bounds(p) && #[trigger] at(has, p) && !at(vis, p) ==> q.contains((at(dist, p), p))
}

/// No entry's key is below its cell's distance.
pub open spec fn keys_cover(dist: Seq<Vec<usize>>, q: Seq<(usize, Position)>) -> bool {
    forall|i: int| 0 <= i < q.len() ==> (#[trigger] q[i]).0 >= at(dist, q[i].1)
}

/// A walk that starts on a visited cell and ends on an unvisited one steps
/// from a visited cell onto an unvisited one somewhere.
pub proof fn lemma_first_unvisited(path: Seq<Position>, vis: Seq<Vec<bool>>) -> (i: int)
    requires
        path.len() > 0,
        at(vis, path[0]),
        !at(vis, path[path.len() - 1]),
    ensures
        1 <= i < path.len(),
        at(vis, path[i - 1]),
        !at(vis, path[i]),
    decreases path.len(),
{
    if at(vis, path[path.len() - 2]) {
        (path.len() - 1) as int
    } else {
        let i = lemma_first_unvisited(path.drop_last(), vis);
        assert(path.drop_last()[i] == path[i] && path.drop_last()[i - 1] == path[i - 1]);
        i
    }
}

/// The first `i` cells of a walk form a walk to its `i`-th cell.
pub proof fn lemma_walk_prefix(g: Grid, path: Seq<Position>, a: Position, b: Position, i: int)
    requires
        g.is_path_between(path, a, b),
        1 <= i <= path.len(),
    ensures
        g.is_path_between(path.subrange(0, i), a, path[i - 1]),
{
    let q = path.subrange(0, i);
    assert forall|j: int| 0 <= j < q.len() implies g.open_pos(#[trigger] q[j]) by {
        assert(q[j] == path[j]);
    }
    assert forall|j: int| 0 <= j < q.len() - 1 implies adjacent(#[trigger] q[j], q[j + 1]) by {
        assert(q[j] == path[j] && q[j + 1] == path[j + 1]);
    }
}

/// When the least key is `k`, no unvisited cell is reachable in fewer than
/// `k + 1` cells.
proof fn lemma_least_key_minimal(
    g: Grid,
    vis: Seq<Vec<bool>>,
    has: Seq<Vec<bool>>,
    dist: Seq<Vec<usize>>,
    q: Seq<(usize, Position)>,
    k: int,
    u: Position,
)
    requires
        g.wf(),
        at(vis, g.start),
        !at(vis, u),
        distances_minimal(g, vis, dist),
        relaxed(g, vis, has, dist, None),
        keyed_pending(g, has, vis, dist, q),
        forall|j: int| 0 <= j < q.len() ==> k <= (#[trigger] q[j]).0,
    ensures
        forall|path: Seq<Position>| #[trigger] g.is_path_between(path, g.start, u) ==> path.len() >= k + 1,
{
    assert forall|path: Seq<Position>| #[trigger] g.is_path_between(path, g.start, u) implies path.len() >= k + 1 by {
        let i = lemma_first_unvisited(path, vis);
        let x = path[i - 1];
        let y = path[i];
        lemma_walk_prefix(g, path, g.start, u, i);
        assert(g.is_path_between(path.subrange(0, i), g.start, x));
        assert(g.in_bounds(x));
        assert(i >= at(dist, x) + 1);
        assert(adjacent(x, y) && g.open_pos(y));
        crate::paths::lemma_neighbors_complete(g, x, y);
        let kk = choose|kk: int| 0 <= kk < g.open_neighbors(x).len() && g.open_neighbors(x)[kk] == y;
        assert(at(vis, g.open_neighbors(x)[kk]) || (at(has, y) && at(dist, y) <= at(dist, x) + 1));
        assert(q.contains((at(dist, y), y)));
        let j = choose|j: int| 0 <= j < q.len() && q[j] == (at(dist, y), y);
        assert(k <= q[j].0);
    }
}

} // verus!
