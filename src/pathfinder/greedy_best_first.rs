use vstd::prelude::*;
use crate::counter::PerformanceCounter;
use crate::frontier::{frontier_closed, in_queue, lemma_exhausted, lemma_in_queue_push, lemma_pop_closed, lemma_pop_pending, lemma_push_closed, pending_queued, pop_min};
use crate::grid::{lemma_manhattan_fits, Grid, Position};
use crate::paths::{lemma_neighbors_sound, lemma_tree_add_leaf, reconstruct_path, tree_ok};
use crate::pathfinder::{counts_ok, valid_result};
use crate::table::{at, count_true, lemma_count_open, lemma_count_set_any, lemma_count_subset, lemma_count_bound, lemma_count_set, lemma_count_zero, new_table, shaped, table_get, table_set};

verus! {

/// Greedy best-first search: a min-queue on the Manhattan distance to the end
/// alone. Cells leave the queue once; stale entries are skipped.
#[verifier::rlimit(60)]
#[verifier::spinoff_prover]
pub fn find_path(grid: &Grid) -> (r: Result<(Vec<Position>, PerformanceCounter), String>)
    requires
        grid.wf(),
    ensures
        r is Ok,
        r is Ok ==> {
            let (path, counter) = r->Ok_0;
            &&& valid_result(*grid, path@)
            &&& (path@.len() > 0 <==> grid.connected())
            &&& counts_ok(*grid, counter)
        },
{
    let w = grid.width;
    let h = grid.height;
    let mut counter = PerformanceCounter::new();
    let mut visited: Vec<Vec<bool>> = new_table(w, h, false);
    let mut has: Vec<Vec<bool>> = new_table(w, h, false);
    let mut depth: Vec<Vec<usize>> = new_table(w, h, 0usize);
    let mut previous: Vec<Vec<Option<Position>>> = new_table(w, h, None);
    let mut queue: Vec<(usize, Position)> = Vec::new();
    proof {
        lemma_count_zero(visited@, w as int, h as int);
    }
    let ghost hz = has@;
    table_set(&mut has, grid.start, true);
    proof {
        lemma_count_zero(hz, w as int, h as int);
        lemma_count_set(hz, has@, grid.start);
        lemma_count_bound(has@, w as int, h as int);
    }
    proof {
        lemma_manhattan_fits(*grid, grid.start, grid.end);
    }
    queue.push((heuristic(&grid.start, &grid.end), grid.start));
    counter.record_admission();
    proof {
        assert forall|p: Position| grid.in_bounds(p) && #[trigger] at(has@, p) implies p == grid.start by {}
        assert(at(previous@, grid.start) == at(previous@, grid.start));
        assert(queue@[0].1 == grid.start);
    }

    while queue.len() > 0
        invariant
            grid.wf(),
            w == grid.width,
            h == grid.height,
            shaped(visited@, w as int, h as int),
            shaped(has@, w as int, h as int),
            shaped(depth@, w as int, h as int),
            tree_ok(*grid, previous@, |p: Position| at(has@, p), |p: Position| at(depth@, p) as int),
            at(has@, grid.start),
            at(depth@, grid.start) == 0,
            count_true(visited@) == 0 ==> queue@.len() == 1 && queue@[0].1 == grid.start,
            count_true(visited@) > 0 ==> at(visited@, grid.start),
            forall|p: Position| grid.in_bounds(p) && at(has@, p) && #[trigger] at(previous@, p) is Some ==> at(visited@, at(previous@, p)->Some_0),
            counter.nodes_explored == count_true(visited@),
            counter.comparisons <= 4 * counter.nodes_explored,
            counter.nodes_in_frontier == counter.memory_allocations,
            counter.nodes_in_frontier >= count_true(has@),
            count_true(has@) <= w * h,
            count_true(visited@) > 0 ==> counter.nodes_explored > 0,
            forall|i: int| 0 <= i < queue@.len() ==> grid.in_bounds((#[trigger] queue@[i]).1) && at(has@, queue@[i].1),
            forall|p: Position| grid.in_bounds(p) && #[trigger] at(has@, p) ==> at(depth@, p) <= count_true(visited@),
            forall|p: Position| grid.in_bounds(p) && #[trigger] at(visited@, p) ==> at(has@, p) && at(depth@, p) < count_true(visited@),
            frontier_closed(*grid, visited@, queue@, None),
            pending_queued(*grid, has@, visited@, queue@),
            !at(visited@, grid.end),
        decreases 4 * (w * h - count_true(visited@)) + queue@.len(),
    {
        proof {
            lemma_count_bound(visited@, w as int, h as int);
        }
        let ghost q0 = queue@;
        let entry = pop_min(&mut queue);
        let current = entry.1;
        let ghost i0: int = choose|i: int| #![trigger q0[i]] 0 <= i < q0.len() && entry == q0[i] && queue@ == q0.remove(i)
            && (forall|j: int| 0 <= j < i ==> q0[j].0 > entry.0);
        proof {
            let i = choose|i: int| #![trigger q0[i]] 0 <= i < q0.len() && entry == q0[i] && queue@ == q0.remove(i)
                && (forall|j: int| 0 <= j < i ==> q0[j].0 > entry.0);
            assert(grid.in_bounds(q0[i].1));
            assert forall|k: int| 0 <= k < queue@.len() implies grid.in_bounds((#[trigger] queue@[k]).1) && at(has@, queue@[k].1) by {
                if k < i {
                    assert(queue@[k] == q0[k]);
                } else {
                    assert(queue@[k] == q0[k + 1]);
                }
            }
        }
        if table_get(&visited, current) {
            proof {
                lemma_pop_closed(*grid, visited@, visited@, q0, i0);
                lemma_pop_pending(*grid, has@, visited@, visited@, q0, i0);
            }
            continue;
        }
        let ghost vis0 = visited@;
        table_set(&mut visited, current, true);
        proof {
            lemma_pop_closed(*grid, vis0, visited@, q0, i0);
            lemma_pop_pending(*grid, has@, vis0, visited@, q0, i0);
            lemma_count_set(vis0, visited@, current);
            lemma_count_bound(visited@, w as int, h as int);
            assert forall|p: Position| grid.in_bounds(p) && #[trigger] at(visited@, p) implies at(has@, p) && at(depth@, p) < count_true(visited@) by {
                if p != current {
                    assert(at(vis0, p));
                }
            }
        }
        counter.explore_node();
        if current == grid.end {
            let ghost hs = has@;
            let ghost ds = depth@;
            let path = reconstruct_path(grid, &previous, current, Ghost(|p: Position| at(hs, p)), Ghost(|p: Position| at(ds, p) as int));
            proof {
                assert forall|p: Position| grid.in_bounds(p) && #[trigger] at(visited@, p) implies grid.open_pos(p) by {
                    assert(at(has@, p));
                    assert(at(previous@, p) == at(previous@, p));
                }
                lemma_count_open(visited@, *grid);
                lemma_count_subset(visited@, has@, w as int, h as int);
            }
            return Ok((path, counter));
        }
        proof {
            assert(at(visited@, grid.end) == (at(vis0, grid.end) || grid.end == current));
        }
        let current_depth = table_get(&depth, current);
        let neighbors = grid.get_neighbors(&current);
        proof {
            lemma_neighbors_sound(*grid, current);
        }
        let ghost qlen = queue@.len();
        let mut j: usize = 0;
        while j < neighbors.len()
            invariant
                grid.wf(),
                w == grid.width,
                h == grid.height,
                neighbors@ == grid.open_neighbors(current),
                neighbors@.len() <= 4,
                forall|k: int| 0 <= k < neighbors@.len() ==> {
                    let x = #[trigger] neighbors@[k];
                    grid.in_bounds(x) && grid.open_pos(x) && crate::grid::adjacent(current, x)
                },
                grid.in_bounds(current),
                at(visited@, current),
                at(has@, current),
                current_depth == at(depth@, current),
                current_depth < count_true(visited@),
                count_true(visited@) <= w * h,
                j <= neighbors@.len(),
                queue@.len() <= qlen + j,
                shaped(visited@, w as int, h as int),
                shaped(has@, w as int, h as int),
                shaped(depth@, w as int, h as int),
                tree_ok(*grid, previous@, |p: Position| at(has@, p), |p: Position| at(depth@, p) as int),
                at(has@, grid.start),
                at(depth@, grid.start) == 0,
                count_true(visited@) > 0,
                at(visited@, grid.start),
                forall|p: Position| grid.in_bounds(p) && at(has@, p) && #[trigger] at(previous@, p) is Some ==> at(visited@, at(previous@, p)->Some_0),
                counter.comparisons <= 4 * (counter.nodes_explored - 1) + j,
                counter.nodes_explored == count_true(visited@),
                counter.nodes_in_frontier == counter.memory_allocations,
                counter.nodes_in_frontier >= count_true(has@),
                count_true(has@) <= w * h,
                counter.nodes_explored > 0,
                forall|i: int| 0 <= i < queue@.len() ==> grid.in_bounds((#[trigger] queue@[i]).1) && at(has@, queue@[i].1),
                forall|p: Position| grid.in_bounds(p) && #[trigger] at(has@, p) ==> at(depth@, p) <= count_true(visited@),
                forall|p: Position| grid.in_bounds(p) && #[trigger] at(visited@, p) ==> at(has@, p) && at(depth@, p) < count_true(visited@),
                frontier_closed(*grid, visited@, queue@, Some(current)),
                pending_queued(*grid, has@, visited@, queue@),
                !at(visited@, grid.end),
                forall|k: int| 0 <= k < j ==> at(visited@, #[trigger] neighbors@[k]) || in_queue(queue@, neighbors@[k]),
            decreases neighbors@.len() - j,
        {
            let n = neighbors[j];
            counter.compare();
            if !table_get(&visited, n) {
                let new_depth = current_depth + 1;
                {
                    let ghost has0 = has@;
                    let ghost dist0 = depth@;
                    let ghost par0 = previous@;
                    proof {
                        assert(at(previous@, n) == at(previous@, n));
                        assert(at(previous@, current) == at(previous@, current));
                        assert forall|p: Position| grid.in_bounds(p) && at(has@, p) implies #[trigger] at(previous@, p) != Some(n) by {
                            if at(previous@, p) is Some {
                                assert(at(visited@, at(previous@, p)->Some_0));
                            }
                        }
                    }
                    table_set(&mut has, n, true);
                    table_set(&mut depth, n, new_depth);
                    table_set(&mut previous, n, Some(current));
                    proof {
                        lemma_tree_add_leaf(*grid, par0, previous@, |p: Position| at(has0, p), |p: Position| at(has@, p),
                            |p: Position| at(dist0, p) as int, |p: Position| at(depth@, p) as int, n, current);
                    }
                    proof {
                        lemma_manhattan_fits(*grid, n, grid.end);
                        assert forall|p: Position| grid.in_bounds(p) && at(has@, p) && #[trigger] at(previous@, p) is Some implies at(visited@, at(previous@, p)->Some_0) by {
                            if p != n {
                                assert(at(has0, p));
                                assert(at(previous@, p) == at(par0, p));
                            }
                        }
                    }
                    let ghost qb = queue@;
                    let key = heuristic(&n, &grid.end);
                    queue.push((key, n));
                    counter.record_admission();
                    proof {
                        lemma_count_set_any(has0, has@, n);
                        lemma_count_bound(has@, w as int, h as int);
                    }
                    proof {
                        lemma_push_closed(*grid, visited@, qb, (key, n), Some(current));
                        lemma_in_queue_push(qb, (key, n), n);
                        assert forall|k: int| 0 <= k < j + 1 implies at(visited@, #[trigger] neighbors@[k]) || in_queue(queue@, neighbors@[k]) by {
                            if k < j && !at(visited@, neighbors@[k]) {
                                lemma_in_queue_push(qb, (key, n), neighbors@[k]);
                            }
                        }
                        assert forall|p: Position| grid.in_bounds(p) && #[trigger] at(has@, p) && !at(visited@, p) implies in_queue(queue@, p) by {
                            if p != n {
                                assert(at(has0, p));
                                lemma_in_queue_push(qb, (key, n), p);
                            }
                        }
                    }
                    proof {
                        assert forall|p: Position| grid.in_bounds(p) && #[trigger] at(has@, p) implies at(depth@, p) <= count_true(visited@) by {
                            if p != n {
                                assert(at(has0, p));
                            }
                        }
                        assert forall|p: Position| grid.in_bounds(p) && #[trigger] at(visited@, p) implies at(has@, p) && at(depth@, p) < count_true(visited@) by {
                            assert(p != n);
                        }
                    }
                }
            }
            j = j + 1;
        }
        proof {
            assert forall|p: Position, k: int| grid.in_bounds(p) && at(visited@, p) && None::<Position> != Some(p) && 0 <= k < grid.open_neighbors(p).len()
                implies at(visited@, #[trigger] grid.open_neighbors(p)[k]) || in_queue(queue@, grid.open_neighbors(p)[k]) by {
                if p == current {
                    assert(neighbors@[k] == grid.open_neighbors(p)[k]);
                }
            }
        }
    }
    proof {
        assert(at(has@, grid.start));
        if !at(visited@, grid.start) {
            assert(in_queue(queue@, grid.start));
        }
        if grid.connected() {
            lemma_exhausted(*grid, visited@, queue@);
        }
    }
    proof {
        assert forall|p: Position| grid.in_bounds(p) && #[trigger] at(visited@, p) implies grid.open_pos(p) by {
            assert(at(has@, p));
            assert(at(previous@, p) == at(previous@, p));
        }
        lemma_count_open(visited@, *grid);
        lemma_count_subset(visited@, has@, w as int, h as int);
    }
    Ok((Vec::new(), counter))
}

/// Manhattan distance between two cells: `|dc| + |dr|`.
pub fn heuristic(from: &Position, to: &Position) -> (d: usize)
    requires
        from.manhattan(*to) <= usize::MAX,
    ensures
        d as nat == from.manhattan(*to),
{
    from.manhattan_distance_to(to)
}

} // verus!
