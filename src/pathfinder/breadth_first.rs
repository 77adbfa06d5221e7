use vstd::prelude::*;
use crate::counter::PerformanceCounter;
use crate::grid::{adjacent, Grid, Position};
use crate::paths::{exact_ranks, lemma_tree_add, lemma_closed_set_reaches, lemma_neighbors_complete, lemma_neighbors_sound, lemma_path_extend, reconstruct_path, tree_ok};
use crate::pathfinder::{counts_ok, shortest, valid_result};
use crate::table::{at, count_true, lemma_count_open, lemma_count_bound, lemma_count_zero, lemma_count_set, new_table, shaped, table_get, table_set};

verus! {

/// Breadth-first search with a FIFO queue. It finds a walk exactly when one
/// exists, and the walk it finds is a shortest one.
#[verifier::rlimit(60)]
#[verifier::spinoff_prover]
pub fn find_path(grid: &Grid) -> (r: Result<(Vec<Position>, PerformanceCounter), String>)
    requires
        grid.wf(),
    ensures
        r is Ok,
        r is Ok ==> {
            let (path, counter) = r->Ok_0;
            &&& valid_result(*grid, path@)
            &&& (path@.len() > 0 <==> grid.connected())
            &&& (path@.len() > 0 ==> shortest(*grid, path@))
            &&& counts_ok(*grid, counter)
        },
{
    let w = grid.width;
    let h = grid.height;
    let mut counter = PerformanceCounter::new();
    let mut visited: Vec<Vec<bool>> = new_table(w, h, false);
    let mut parent: Vec<Vec<Option<Position>>> = new_table(w, h, None);
    let mut dist: Vec<Vec<usize>> = new_table(w, h, 0usize);
    let mut queue: Vec<Position> = Vec::new();
    let mut head: usize = 0;
    let ghost mut slot: Map<Position, int> = Map::empty();

    let ghost before = visited@;
    table_set(&mut visited, grid.start, true);
    proof {
        lemma_count_zero(before, w as int, h as int);
        lemma_count_set(before, visited@, grid.start);
        slot = slot.insert(grid.start, 0);
    }
    queue.push(grid.start);
    counter.record_admission();
    proof {
        assert(grid.is_path_between(seq![grid.start], grid.start, grid.start));
        assert forall|p: Position| grid.in_bounds(p) && #[trigger] at(visited@, p) implies p == grid.start by {}
        assert(queue@[0] == grid.start);
        assert(slot[grid.start] == 0);
        assert forall|p: Position, path: Seq<Position>| grid.in_bounds(p) && at(visited@, p) && #[trigger] grid.is_path_between(path, grid.start, p)
            implies path.len() >= at(dist@, p) + 1 by {}
    }

    while head < queue.len()
        invariant
            grid.wf(),
            w == grid.width,
            h == grid.height,
            shaped(visited@, w as int, h as int),
            shaped(dist@, w as int, h as int),
            tree_ok(*grid, parent@, |p: Position| at(visited@, p), |p: Position| at(dist@, p) as int),
            head <= queue@.len(),
            queue@.len() == count_true(visited@),
            at(visited@, grid.start),
            forall|i: int| 0 <= i < queue@.len() ==> grid.in_bounds(#[trigger] queue@[i]) && at(visited@, queue@[i]),
            forall|i: int| 0 <= i < head ==> #[trigger] queue@[i] != grid.end,
            forall|i: int, k: int| 0 <= i < head && 0 <= k < grid.open_neighbors(queue@[i]).len()
                ==> at(visited@, #[trigger] grid.open_neighbors(queue@[i])[k]),
            forall|p: Position| grid.in_bounds(p) && #[trigger] at(visited@, p) ==> {
                &&& slot.contains_key(p)
                &&& 0 <= slot[p] < queue@.len()
                &&& queue@[slot[p]] == p
                &&& at(dist@, p) <= slot[p]
                &&& grid.reachable(grid.start, p)
            },
            exact_ranks(*grid, parent@, |p: Position| at(visited@, p), |p: Position| at(dist@, p) as int),
            near_cells_expanded(*grid, visited@, dist@, queue@, head as int, slot),
            distances_minimal(*grid, visited@, dist@),
            queue_layered(dist@, queue@, head as int),
            expanded_closed(*grid, visited@, queue@, head as int),
            slot.contains_key(grid.start) && slot[grid.start] == 0,
            counter.nodes_explored == head,
            counter.comparisons <= 4 * head,
            counter.nodes_in_frontier == queue@.len(),
            counter.memory_allocations == queue@.len(),
        decreases w * h - head,
    {
        proof {
            lemma_count_bound(visited@, w as int, h as int);
        }
        let current = queue[head];
        counter.explore_node();
        if current == grid.end {
            let ghost vis = visited@;
            let ghost dd = dist@;
            let path = reconstruct_path(grid, &parent, current, Ghost(|p: Position| at(vis, p)), Ghost(|p: Position| at(dd, p) as int));
            proof {
                assert forall|other: Seq<Position>| #[trigger] grid.is_path_between(other, grid.start, grid.end) implies path@.len() <= other.len() by {
                    assert(grid.in_bounds(grid.end) && at(vis, grid.end));
                }
            }
            proof {
                assert forall|p: Position| grid.in_bounds(p) && #[trigger] at(visited@, p) implies grid.open_pos(p) by {
                    let wp = choose|wp: Seq<Position>| grid.is_path_between(wp, grid.start, p);
                    assert(grid.open_pos(wp[wp.len() - 1]));
                }
                lemma_count_open(visited@, *grid);
            }
            return Ok((path, counter));
        }
        let neighbors = grid.get_neighbors(&current);
        proof {
            lemma_neighbors_sound(*grid, current);
        }
        let d = table_get(&dist, current);
        let mut j: usize = 0;
        while j < neighbors.len()
            invariant
                grid.wf(),
                w == grid.width,
                h == grid.height,
                neighbors@ == grid.open_neighbors(current),
                grid.in_bounds(current),
                at(visited@, current),
                current != grid.end,
                d == at(dist@, current),
                head < queue@.len(),
                queue@[head as int] == current,
                j <= neighbors@.len(),
                shaped(visited@, w as int, h as int),
                shaped(dist@, w as int, h as int),
                tree_ok(*grid, parent@, |p: Position| at(visited@, p), |p: Position| at(dist@, p) as int),
                queue@.len() == count_true(visited@),
                at(visited@, grid.start),
                forall|i: int| 0 <= i < queue@.len() ==> grid.in_bounds(#[trigger] queue@[i]) && at(visited@, queue@[i]),
                forall|i: int| 0 <= i < head ==> #[trigger] queue@[i] != grid.end,
                forall|i: int, k: int| 0 <= i < head && 0 <= k < grid.open_neighbors(queue@[i]).len()
                    ==> at(visited@, #[trigger] grid.open_neighbors(queue@[i])[k]),
                forall|k: int| 0 <= k < j ==> at(visited@, #[trigger] neighbors@[k]),
                forall|p: Position| grid.in_bounds(p) && #[trigger] at(visited@, p) ==> {
                    &&& slot.contains_key(p)
                    &&& 0 <= slot[p] < queue@.len()
                    &&& queue@[slot[p]] == p
                    &&& at(dist@, p) <= slot[p]
                    &&& grid.reachable(grid.start, p)
                },
                exact_ranks(*grid, parent@, |p: Position| at(visited@, p), |p: Position| at(dist@, p) as int),
                near_cells_expanded(*grid, visited@, dist@, queue@, head as int, slot),
                distances_minimal(*grid, visited@, dist@),
                queue_layered(dist@, queue@, head as int),
                expanded_closed(*grid, visited@, queue@, head as int),
                slot.contains_key(grid.start) && slot[grid.start] == 0,
                counter.nodes_explored == head + 1,
                counter.comparisons <= 4 * head + j,
                neighbors@.len() <= 4,
                counter.nodes_in_frontier == queue@.len(),
                counter.memory_allocations == queue@.len(),
            decreases neighbors@.len() - j,
        {
            let n = neighbors[j];
            counter.compare();
            if !table_get(&visited, n) {
                proof {
                    lemma_unvisited_far(*grid, visited@, dist@, queue@, head as int, slot, n);
                    lemma_count_bound(visited@, w as int, h as int);
                    let wp = choose|wp: Seq<Position>| grid.is_path_between(wp, grid.start, current);
                    lemma_path_extend(*grid, wp, grid.start, current, n);
                }
                let ghost before = visited@;
                let ghost slot0 = slot;
                let ghost q_before = queue@;
                let ghost par0 = parent@;
                let ghost dist0 = dist@;
                let ghost qlen = queue@.len();
                table_set(&mut visited, n, true);
                proof {
                    lemma_count_set(before, visited@, n);
                    lemma_count_bound(visited@, w as int, h as int);
                    slot = slot.insert(n, qlen as int);
                }
                table_set(&mut parent, n, Some(current));
                table_set(&mut dist, n, d + 1);
                queue.push(n);
                counter.record_admission();
                proof {
                    lemma_tree_add(*grid, par0, parent@, |p: Position| at(before, p), |p: Position| at(visited@, p),
                        |p: Position| at(dist0, p) as int, |p: Position| at(dist@, p) as int, n, current);
                    assert(at(dist@, current) == d);
                    assert forall|p: Position| #![trigger at(parent@, p)] at(visited@, p) && grid.in_bounds(p) && at(parent@, p) is Some
                        implies at(dist@, at(parent@, p)->Some_0) + 1 == at(dist@, p) by {
                        if p != n {
                            assert(at(before, p));
                            assert(at(parent@, p) == at(par0, p));
                            assert(at(before, at(par0, p)->Some_0)) by {
                                assert(at(par0, p) == at(par0, p));
                            }
                        }
                    }
                    assert(at(dist@, grid.start) == 0);
                    assert forall|p: Position| grid.in_bounds(p) implies #[trigger] at(visited@, p) == (at(before, p) || p == n) by {}
                    assert forall|p: Position| grid.in_bounds(p) implies #[trigger] at(dist@, p) == if p == n { at(dist0, current) + 1 } else { at(dist0, p) as int } by {}
                    lemma_bfs_push(*grid, before, visited@, dist0, dist@, q_before, queue@, slot0, slot, head as int, current, n);
                    assert forall|p: Position| grid.in_bounds(p) && #[trigger] at(visited@, p) implies {
                        &&& slot.contains_key(p)
                        &&& 0 <= slot[p] < queue@.len()
                        &&& queue@[slot[p]] == p
                        &&& at(dist@, p) <= slot[p]
                        &&& grid.reachable(grid.start, p)
                    } by {
                        if p != n {
                            assert(at(before, p));
                        } else {
                            assert(grid.is_path_between(choose|wp: Seq<Position>| grid.is_path_between(wp, grid.start, current), grid.start, current));
                        }
                    }
                }
            }
            j = j + 1;
        }
        proof {
            assert forall|i: int, k: int| 0 <= i < head + 1 && 0 <= k < grid.open_neighbors(queue@[i]).len() implies at(visited@, #[trigger] grid.open_neighbors(queue@[i])[k]) by {
                if i == head {
                    assert(neighbors@[k] == grid.open_neighbors(queue@[i])[k]);
                }
            }
            if head + 1 < queue@.len() {
                lemma_advance_head(*grid, visited@, dist@, queue@, head as int, slot);
            }
        }
        head = head + 1;
    }
    proof {
        let vis = visited@;
        let s = |p: Position| grid.in_bounds(p) && at(vis, p);
        assert forall|v: Position, x: Position| grid.in_bounds(v) && #[trigger] s(v) && grid.open_pos(x) && #[trigger] crate::grid::adjacent(v, x) implies s(x) by {
            lemma_neighbors_complete(*grid, v, x);
            let i = slot[v];
            let k = choose|k: int| 0 <= k < grid.open_neighbors(v).len() && grid.open_neighbors(v)[k] == x;
            assert(queue@[i] == v);
            assert(at(visited@, grid.open_neighbors(queue@[i])[k]));
        }
        if grid.connected() {
            let wp = choose|wp: Seq<Position>| grid.is_path_between(wp, grid.start, grid.end);
            lemma_closed_set_reaches(*grid, s, wp, grid.start, grid.end);
            assert(queue@[slot[grid.end]] == grid.end);
        }
    }
    proof {
        assert forall|p: Position| grid.in_bounds(p) && #[trigger] at(visited@, p) implies grid.open_pos(p) by {
            let wp = choose|wp: Seq<Position>| grid.is_path_between(wp, grid.start, p);
            assert(grid.open_pos(wp[wp.len() - 1]));
        }
        lemma_count_open(visited@, *grid);
        assert(head > 0);
    }
    Ok((Vec::new(), counter))
}

/// Every cell within `dist(q[head]) - 1` steps of the start has been taken off the queue.
pub open spec fn near_cells_expanded(g: Grid, vis: Seq<Vec<bool>>, dist: Seq<Vec<usize>>, q: Seq<Position>, head: int, slot: Map<Position, int>) -> bool {
    head < q.len() ==> forall|x: Position, path: Seq<Position>| #[trigger] g.is_path_between(path, g.start, x) && path.len() <= at(dist, q[head])
        ==> at(vis, x) && slot.contains_key(x) && slot[x] < head
}

/// No walk from the start to a visited cell is shorter than its distance.
pub open spec fn distances_minimal(g: Grid, vis: Seq<Vec<bool>>, dist: Seq<Vec<usize>>) -> bool {
    forall|p: Position, path: Seq<Position>| g.in_bounds(p) && at(vis, p) && #[trigger] g.is_path_between(path, g.start, p)
        ==> path.len() >= at(dist, p) + 1
}

/// Distances along the queue never fall, and from `head` on rise by at most one.
pub open spec fn queue_layered(dist: Seq<Vec<usize>>, q: Seq<Position>, head: int) -> bool {
    &&& forall|i: int, j: int| #![trigger q[i], q[j]] 0 <= i <= j < q.len() ==> at(dist, q[i]) <= at(dist, q[j])
    &&& head < q.len() ==> forall|i: int| head <= i < q.len() ==> at(dist, #[trigger] q[i]) <= at(dist, q[head]) + 1
}

/// The open neighbours of every cell before `head` in the queue are visited.
pub open spec fn expanded_closed(g: Grid, vis: Seq<Vec<bool>>, q: Seq<Position>, head: int) -> bool {
    forall|i: int, k: int| 0 <= i < head && 0 <= k < g.open_neighbors(q[i]).len() ==> at(vis, #[trigger] g.open_neighbors(q[i])[k])
}

/// Dropping the last cell of a walk of two or more cells leaves a walk to a
/// neighbour of that cell.
proof fn lemma_walk_pred(g: Grid, path: Seq<Position>, a: Position, x: Position)
    requires
        g.is_path_between(path, a, x),
        path.len() >= 2,
    ensures
        g.is_path_between(path.drop_last(), a, path[path.len() - 2]),
        adjacent(path[path.len() - 2], x),
        g.open_pos(x),
{
    let q = path.drop_last();
    assert forall|i: int| 0 <= i < q.len() implies g.open_pos(#[trigger] q[i]) by {
        assert(q[i] == path[i]);
    }
    assert forall|i: int| 0 <= i < q.len() - 1 implies adjacent(#[trigger] q[i], q[i + 1]) by {
        assert(q[i] == path[i] && q[i + 1] == path[i + 1]);
    }
    assert(path[path.len() - 1] == x);
}

/// A cell that is not visited lies more than `dist(q[head])` steps from the start.
proof fn lemma_unvisited_far(g: Grid, vis: Seq<Vec<bool>>, dist: Seq<Vec<usize>>, q: Seq<Position>, head: int, slot: Map<Position, int>, n: Position)
    requires
        g.wf(),
        0 <= head < q.len(),
        at(vis, g.start),
        !at(vis, n),
        near_cells_expanded(g, vis, dist, q, head, slot),
        expanded_closed(g, vis, q, head),
        forall|p: Position| g.in_bounds(p) && #[trigger] at(vis, p) ==> slot.contains_key(p) && 0 <= slot[p] < q.len() && q[slot[p]] == p,
        forall|i: int| 0 <= i < q.len() ==> g.in_bounds(#[trigger] q[i]),
    ensures
        forall|path: Seq<Position>| #[trigger] g.is_path_between(path, g.start, n) ==> path.len() >= at(dist, q[head]) + 2,
{
    assert forall|path: Seq<Position>| #[trigger] g.is_path_between(path, g.start, n) implies path.len() >= at(dist, q[head]) + 2 by {
        if path.len() < at(dist, q[head]) + 2 {
            if path.len() == 1 {
                assert(path[0] == g.start);
            } else {
                lemma_walk_pred(g, path, g.start, n);
                let wp = path.drop_last();
                let w = path[path.len() - 2];
                assert(g.is_path_between(wp, g.start, w));
                assert(at(vis, w) && slot[w] < head);
                assert(g.in_bounds(w));
                lemma_neighbors_complete(g, w, n);
                let i = slot[w];
                assert(q[i] == w);
                let k = choose|k: int| 0 <= k < g.open_neighbors(w).len() && g.open_neighbors(w)[k] == n;
                assert(at(vis, g.open_neighbors(q[i])[k]));
            }
        }
    }
}

/// Moving the head one place on keeps every near cell expanded.
proof fn lemma_advance_head(g: Grid, vis: Seq<Vec<bool>>, dist: Seq<Vec<usize>>, q: Seq<Position>, head: int, slot: Map<Position, int>)
    requires
        g.wf(),
        0 <= head,
        head + 1 < q.len(),
        at(vis, g.start),
        near_cells_expanded(g, vis, dist, q, head, slot),
        expanded_closed(g, vis, q, head + 1),
        distances_minimal(g, vis, dist),
        queue_layered(dist, q, head),
        forall|p: Position| g.in_bounds(p) && #[trigger] at(vis, p) ==> slot.contains_key(p) && 0 <= slot[p] < q.len() && q[slot[p]] == p,
        forall|i: int| 0 <= i < q.len() ==> g.in_bounds(#[trigger] q[i]),
        slot.contains_key(g.start) && slot[g.start] == 0,
    ensures
        near_cells_expanded(g, vis, dist, q, head + 1, slot),
{
    let d = at(dist, q[head]);
    assert(at(dist, q[head]) <= at(dist, q[head + 1]));
    assert forall|x: Position, path: Seq<Position>| #[trigger] g.is_path_between(path, g.start, x) && path.len() <= at(dist, q[head + 1])
        implies at(vis, x) && slot.contains_key(x) && slot[x] < head + 1 by {
        if path.len() <= d {
        } else if path.len() == 1 {
            assert(x == g.start);
        } else {
            lemma_walk_pred(g, path, g.start, x);
            let w = path[path.len() - 2];
            assert(g.is_path_between(path.drop_last(), g.start, w));
            assert(at(vis, w) && slot[w] < head);
            lemma_neighbors_complete(g, w, x);
            let i = slot[w];
            assert(q[i] == w);
            let k = choose|k: int| 0 <= k < g.open_neighbors(w).len() && g.open_neighbors(w)[k] == x;
            assert(at(vis, g.open_neighbors(q[i])[k]));
            assert(g.in_bounds(x));
            assert(path.len() >= at(dist, x) + 1);
            if slot[x] >= head + 1 {
                assert(at(dist, q[head + 1]) <= at(dist, q[slot[x]]));
            }
        }
    }
}

/// Visiting `n`, one step further than the head `cur`, and queueing it keeps
/// the distance and queue facts of breadth-first search.
proof fn lemma_bfs_push(
    g: Grid,
    vis0: Seq<Vec<bool>>,
    vis1: Seq<Vec<bool>>,
    dist0: Seq<Vec<usize>>,
    dist1: Seq<Vec<usize>>,
    q0: Seq<Position>,
    q1: Seq<Position>,
    slot0: Map<Position, int>,
    slot1: Map<Position, int>,
    head: int,
    cur: Position,
    n: Position,
)
    requires
        g.wf(),
        g.in_bounds(n),
        !at(vis0, n),
        0 <= head < q0.len(),
        q0[head] == cur,
        forall|i: int| 0 <= i < q0.len() ==> g.in_bounds(#[trigger] q0[i]) && at(vis0, q0[i]),
        forall|p: Position| g.in_bounds(p) ==> #[trigger] at(vis1, p) == (at(vis0, p) || p == n),
        forall|p: Position| g.in_bounds(p) ==> #[trigger] at(dist1, p) == if p == n { at(dist0, cur) + 1 } else { at(dist0, p) as int },
        q1 == q0.push(n),
        slot1 == slot0.insert(n, q0.len() as int),
        forall|path: Seq<Position>| #[trigger] g.is_path_between(path, g.start, n) ==> path.len() >= at(dist0, cur) + 2,
        distances_minimal(g, vis0, dist0),
        queue_layered(dist0, q0, head),
        near_cells_expanded(g, vis0, dist0, q0, head, slot0),
        expanded_closed(g, vis0, q0, head),
    ensures
        distances_minimal(g, vis1, dist1),
        queue_layered(dist1, q1, head),
        near_cells_expanded(g, vis1, dist1, q1, head, slot1),
        expanded_closed(g, vis1, q1, head),
{
    assert forall|p: Position, path: Seq<Position>| g.in_bounds(p) && at(vis1, p) && #[trigger] g.is_path_between(path, g.start, p)
        implies path.len() >= at(dist1, p) + 1 by {
        if p != n {
            assert(at(vis0, p));
        }
    }
    assert forall|i: int| 0 <= i < q0.len() implies #[trigger] q1[i] == q0[i] && at(dist1, q1[i]) == at(dist0, q0[i]) by {
        assert(at(vis0, q0[i]));
        assert(q0[i] != n);
    }
    assert(q1[q0.len() as int] == n);
    assert forall|i: int, k: int| #![trigger q1[i], q1[k]] 0 <= i <= k < q1.len() implies at(dist1, q1[i]) <= at(dist1, q1[k]) by {
        if k < q0.len() {
            assert(at(dist0, q0[i]) <= at(dist0, q0[k]));
        } else if i < q0.len() {
            assert(at(dist0, q0[i]) <= at(dist0, q0[head]) + 1);
        }
    }
    assert forall|i: int| head <= i < q1.len() implies at(dist1, #[trigger] q1[i]) <= at(dist1, q1[head]) + 1 by {
        if i < q0.len() {
            assert(at(dist0, q0[i]) <= at(dist0, q0[head]) + 1);
        }
    }
    assert forall|x: Position, path: Seq<Position>| #[trigger] g.is_path_between(path, g.start, x) && path.len() <= at(dist1, q1[head])
        implies at(vis1, x) && slot1.contains_key(x) && slot1[x] < head by {
        assert(at(vis0, x) && slot0[x] < head);
        assert(g.open_pos(path[path.len() - 1]));
        assert(x != n);
    }
    assert forall|i: int, k: int| 0 <= i < head && 0 <= k < g.open_neighbors(q1[i]).len() implies at(vis1, #[trigger] g.open_neighbors(q1[i])[k]) by {
        assert(q1[i] == q0[i]);
        crate::paths::lemma_neighbors_sound(g, q0[i]);
        assert(at(vis0, g.open_neighbors(q0[i])[k]));
    }
}

} // verus!
