use vstd::prelude::*;
use crate::counter::PerformanceCounter;
use crate::grid::{adjacent, Grid, Position};
use crate::paths::{lemma_closed_set_reaches, lemma_neighbors_complete, lemma_neighbors_sound, lemma_path_extend, lemma_tree_add_leaf, reconstruct_path, tree_ok};
use crate::pathfinder::{counts_ok, valid_result};
use crate::frontier::{in_stack, lemma_in_stack_push, lemma_stack_exhausted, lemma_stack_pop_closed, lemma_stack_pop_pending, lemma_stack_push_closed, pending_stacked, stack_closed};
use crate::table::{at, count_true, lemma_count_open, lemma_count_set_any, lemma_count_subset, lemma_count_bound, lemma_count_set, lemma_count_zero, new_table, shaped, table_get, table_set};

verus! {

/// Depth-first search by recursion: neighbours are tried in the order right, left,
/// down, up, and the walk found is the current branch of the recursion.
pub fn find_path(grid: &Grid) -> (r: Result<(Vec<Position>, PerformanceCounter), String>)
    requires
        grid.wf(),
    ensures
        r is Ok,
        r is Ok ==> {
            let (path, counter) = r->Ok_0;
            &&& valid_result(*grid, path@)
            &&& (path@.len() > 0 <==> grid.connected())
            &&& counts_ok(*grid, counter)
        },
{
    let mut counter = PerformanceCounter::new();
    let mut visited: Vec<Vec<bool>> = new_table(grid.width, grid.height, false);
    let mut path: Vec<Position> = Vec::new();
    proof {
        assert(path@.push(grid.start) == seq![grid.start]);
    }
    let ghost vis0 = visited@;
    proof {
        lemma_count_zero(vis0, grid.width as int, grid.height as int);
    }
    counter.record_admission();
    let found = dfs_recursive(grid, grid.start, grid.end, &mut visited, &mut path, &mut counter);
    proof {
        assert forall|p: Position| grid.in_bounds(p) && #[trigger] at(visited@, p) implies grid.open_pos(p) by {
            assert(!at(vis0, p));
        }
        lemma_count_open(visited@, *grid);
    }
    if found {
        Ok((path, counter))
    } else {
        proof {
            let vis = visited@;
            let s = |p: Position| grid.in_bounds(p) && at(vis, p);
            assert forall|v: Position, x: Position| grid.in_bounds(v) && #[trigger] s(v) && grid.open_pos(x) && #[trigger] adjacent(v, x) implies s(x) by {
                lemma_neighbors_complete(*grid, v, x);
                let k = choose|k: int| 0 <= k < grid.open_neighbors(v).len() && grid.open_neighbors(v)[k] == x;
                assert(!at(vis0, v));
                assert(at(vis, grid.open_neighbors(v)[k]));
            }
            if grid.connected() {
                let wp = choose|wp: Seq<Position>| grid.is_path_between(wp, grid.start, grid.end);
                lemma_closed_set_reaches(*grid, s, wp, grid.start, grid.end);
            }
        }
        Ok((Vec::new(), counter))
    }
}

/// Explores from `current`, which is unvisited and ends the walk `path` from the
/// start. On success `path` is a walk from the start to `target`; otherwise it
/// is as before.
fn dfs_recursive(
    grid: &Grid,
    current: Position,
    target: Position,
    visited: &mut Vec<Vec<bool>>,
    path: &mut Vec<Position>,
    counter: &mut PerformanceCounter,
) -> (found: bool)
    requires
        grid.wf(),
        grid.in_bounds(current),
        shaped(old(visited)@, grid.width as int, grid.height as int),
        !at(old(visited)@, current),
        grid.is_path_between(old(path)@.push(current), grid.start, current),
        grid.in_bounds(target),
        grid.open_pos(current),
        old(counter).nodes_explored == count_true(old(visited)@),
        old(counter).nodes_in_frontier == (if count_true(old(visited)@) < usize::MAX { count_true(old(visited)@) + 1 } else { usize::MAX as nat }),
        old(counter).memory_allocations == old(counter).nodes_in_frontier,
    ensures
        shaped(final(visited)@, grid.width as int, grid.height as int),
        at(final(visited)@, current),
        forall|p: Position| grid.in_bounds(p) && #[trigger] at(old(visited)@, p) ==> at(final(visited)@, p),
        !found ==> forall|p: Position, k: int| grid.in_bounds(p) && at(final(visited)@, p) && !at(old(visited)@, p)
            && 0 <= k < grid.open_neighbors(p).len() ==> at(final(visited)@, #[trigger] grid.open_neighbors(p)[k]),
        !found && !at(old(visited)@, target) ==> !at(final(visited)@, target),
        count_true(final(visited)@) > count_true(old(visited)@),
        final(counter).nodes_explored > 0,
        final(counter).nodes_explored == count_true(final(visited)@),
        final(counter).comparisons - old(counter).comparisons <= 4 * (final(counter).nodes_explored - old(counter).nodes_explored),
        final(counter).nodes_in_frontier == count_true(final(visited)@),
        final(counter).memory_allocations == count_true(final(visited)@),
        forall|p: Position| grid.in_bounds(p) && #[trigger] at(final(visited)@, p) ==> at(old(visited)@, p) || grid.open_pos(p),
        found ==> grid.is_path_between(final(path)@, grid.start, target),
        !found ==> final(path)@ == old(path)@,
    decreases grid.width * grid.height - count_true(old(visited)@),
{
    let ghost vis0 = visited@;
    proof {
        lemma_count_bound(vis0, grid.width as int, grid.height as int);
    }
    counter.explore_node();
    table_set(visited, current, true);
    proof {
        lemma_count_set(vis0, visited@, current);
        lemma_count_bound(visited@, grid.width as int, grid.height as int);
    }
    path.push(current);
    if current == target {
        proof {
            assert forall|p: Position| grid.in_bounds(p) && #[trigger] at(visited@, p) implies at(vis0, p) || grid.open_pos(p) by {
                assert(at(visited@, p) == (at(vis0, p) || p == current));
            }
        }
        return true;
    }
    proof {
        assert forall|p: Position| grid.in_bounds(p) && #[trigger] at(vis0, p) implies at(visited@, p) by {}
        assert(at(visited@, target) == (at(vis0, target) || target == current));
        assert forall|p: Position| grid.in_bounds(p) && #[trigger] at(visited@, p) implies at(vis0, p) || grid.open_pos(p) by {
            assert(at(visited@, p) == (at(vis0, p) || p == current));
        }
    }
    let ghost base = path@;
    let neighbors = grid.get_neighbors(&current);
    proof {
        lemma_neighbors_sound(*grid, current);
    }
    let mut j: usize = 0;
    while j < neighbors.len()
        invariant
            grid.wf(),
            neighbors@ == grid.open_neighbors(current),
            forall|k: int| 0 <= k < neighbors@.len() ==> {
                let x = #[trigger] neighbors@[k];
                grid.in_bounds(x) && grid.open_pos(x) && crate::grid::adjacent(current, x)
            },
            j <= neighbors@.len(),
            shaped(visited@, grid.width as int, grid.height as int),
            count_true(visited@) > count_true(vis0),
            vis0 == old(visited)@,
            base == old(path)@.push(current),
            path@ == base,
            grid.in_bounds(current),
            grid.in_bounds(target),
            current != target,
            at(visited@, current),
            forall|p: Position| grid.in_bounds(p) && #[trigger] at(vis0, p) ==> at(visited@, p),
            forall|p: Position, k: int| grid.in_bounds(p) && at(visited@, p) && !at(vis0, p) && p != current
                && 0 <= k < grid.open_neighbors(p).len() ==> at(visited@, #[trigger] grid.open_neighbors(p)[k]),
            forall|k: int| 0 <= k < j ==> at(visited@, #[trigger] neighbors@[k]),
            !at(vis0, target) ==> !at(visited@, target),
            grid.is_path_between(base, grid.start, current),
            counter.nodes_explored > 0,
            counter.nodes_explored == count_true(visited@),
            counter.nodes_in_frontier == count_true(visited@),
            counter.memory_allocations == count_true(visited@),
            neighbors@.len() <= 4,
            counter.comparisons - old(counter).comparisons + 4 - j <= 4 * (counter.nodes_explored - old(counter).nodes_explored),
            forall|p: Position| grid.in_bounds(p) && #[trigger] at(visited@, p) ==> at(vis0, p) || grid.open_pos(p),
        decreases neighbors@.len() - j,
    {
        let n = neighbors[j];
        counter.compare();
        if !table_get(visited, n) {
            counter.record_admission();
            proof {
                lemma_path_extend(*grid, base, grid.start, current, n);
                lemma_count_bound(visited@, grid.width as int, grid.height as int);
            }
            let ghost vis1 = visited@;
            if dfs_recursive(grid, n, target, visited, path, counter) {
                proof {
                    assert forall|p: Position| grid.in_bounds(p) && #[trigger] at(visited@, p) implies at(vis0, p) || grid.open_pos(p) by {
                        if at(vis1, p) {
                        }
                    }
                }
                return true;
            }
            proof {
                assert forall|p: Position| grid.in_bounds(p) && #[trigger] at(visited@, p) implies at(vis0, p) || grid.open_pos(p) by {
                    if at(vis1, p) {
                    }
                }
                assert forall|p: Position, k: int| grid.in_bounds(p) && at(visited@, p) && !at(vis0, p) && p != current
                    && 0 <= k < grid.open_neighbors(p).len() implies at(visited@, #[trigger] grid.open_neighbors(p)[k]) by {
                    if at(vis1, p) {
                        crate::paths::lemma_neighbors_sound(*grid, p);
                        assert(at(vis1, grid.open_neighbors(p)[k]));
                    }
                }
                assert forall|k: int| 0 <= k < j + 1 implies at(visited@, #[trigger] neighbors@[k]) by {
                    if k < j {
                        assert(at(vis1, neighbors@[k]));
                    }
                }
            }
        }
        j = j + 1;
    }
    path.pop();
    proof {
        assert(path@ =~= old(path)@);
        assert forall|p: Position, k: int| grid.in_bounds(p) && at(visited@, p) && !at(vis0, p)
            && 0 <= k < grid.open_neighbors(p).len() implies at(visited@, #[trigger] grid.open_neighbors(p)[k]) by {
            if p == current {
                assert(neighbors@[k] == grid.open_neighbors(p)[k]);
            }
        }
    }
    false
}

#[verifier::rlimit(60)]
pub fn find_path_iterative(grid: &Grid) -> (r: Result<(Vec<Position>, PerformanceCounter), String>)
    requires
        grid.wf(),
    ensures
        r is Ok,
        r is Ok ==> {
            let (path, counter) = r->Ok_0;
            &&& valid_result(*grid, path@)
            &&& (path@.len() > 0 <==> grid.connected())
            &&& counts_ok(*grid, counter)
        },
{
    let w = grid.width;
    let h = grid.height;
    let mut counter = PerformanceCounter::new();
    let mut visited: Vec<Vec<bool>> = new_table(w, h, false);
    let mut has: Vec<Vec<bool>> = new_table(w, h, false);
    let mut depth: Vec<Vec<usize>> = new_table(w, h, 0usize);
    let mut previous: Vec<Vec<Option<Position>>> = new_table(w, h, None);
    let mut stack: Vec<Position> = Vec::new();
    proof {
        lemma_count_zero(visited@, w as int, h as int);
    }
    let ghost hz = has@;
    table_set(&mut has, grid.start, true);
    proof {
        lemma_count_zero(hz, w as int, h as int);
        lemma_count_set(hz, has@, grid.start);
        lemma_count_bound(has@, w as int, h as int);
    }
    stack.push(grid.start);
    counter.record_admission();
    proof {
        assert forall|p: Position| grid.in_bounds(p) && #[trigger] at(has@, p) implies p == grid.start by {}
        assert(stack@[0] == grid.start);
        assert(at(previous@, grid.start) == at(previous@, grid.start));
    }

    while stack.len() > 0
        invariant
            grid.wf(),
            w == grid.width,
            h == grid.height,
            shaped(visited@, w as int, h as int),
            shaped(has@, w as int, h as int),
            shaped(depth@, w as int, h as int),
            tree_ok(*grid, previous@, |p: Position| at(has@, p), |p: Position| at(depth@, p) as int),
            at(has@, grid.start),
            at(depth@, grid.start) == 0,
            count_true(visited@) == 0 ==> stack@ == seq![grid.start],
            count_true(visited@) > 0 ==> at(visited@, grid.start),
            forall|p: Position| grid.in_bounds(p) && at(has@, p) && #[trigger] at(previous@, p) is Some ==> at(visited@, at(previous@, p)->Some_0),
            counter.nodes_explored == count_true(visited@),
            counter.comparisons <= 4 * counter.nodes_explored,
            counter.nodes_in_frontier == counter.memory_allocations,
            counter.nodes_in_frontier >= count_true(has@),
            count_true(has@) <= w * h,
            count_true(visited@) > 0 ==> counter.nodes_explored > 0,
            forall|i: int| 0 <= i < stack@.len() ==> grid.in_bounds(#[trigger] stack@[i]) && at(has@, stack@[i]),
            forall|p: Position| grid.in_bounds(p) && #[trigger] at(has@, p) ==> at(depth@, p) <= count_true(visited@),
            forall|p: Position| grid.in_bounds(p) && #[trigger] at(visited@, p) ==> at(has@, p) && at(depth@, p) < count_true(visited@),
            stack_closed(*grid, visited@, stack@, None),
            pending_stacked(*grid, has@, visited@, stack@),
            !at(visited@, grid.end),
        decreases 4 * (w * h - count_true(visited@)) + stack@.len(),
    {
        proof {
            lemma_count_bound(visited@, w as int, h as int);
        }
        let ghost q0 = stack@;
        let current = match stack.pop() {
            Some(p) => p,
            None => grid.start,
        };
        let ghost i0: int = q0.len() - 1;
        proof {
            assert(stack@ =~= q0.remove(i0));
            assert(current == q0[i0]);
        }
        if table_get(&visited, current) {
            proof {
                lemma_stack_pop_closed(*grid, visited@, visited@, q0, i0);
                lemma_stack_pop_pending(*grid, has@, visited@, visited@, q0, i0);
            }
            continue;
        }
        let ghost vis0 = visited@;
        table_set(&mut visited, current, true);
        proof {
            lemma_stack_pop_closed(*grid, vis0, visited@, q0, i0);
            lemma_stack_pop_pending(*grid, has@, vis0, visited@, q0, i0);
            lemma_count_set(vis0, visited@, current);
            lemma_count_bound(visited@, w as int, h as int);
            assert forall|p: Position| grid.in_bounds(p) && #[trigger] at(visited@, p) implies at(has@, p) && at(depth@, p) < count_true(visited@) by {
                if p != current {
                    assert(at(vis0, p));
                }
            }
        }
        counter.explore_node();
        if current == grid.end {
            let ghost hs = has@;
            let ghost ds = depth@;
            let path = reconstruct_path(grid, &previous, current, Ghost(|p: Position| at(hs, p)), Ghost(|p: Position| at(ds, p) as int));
            proof {
                assert forall|p: Position| grid.in_bounds(p) && #[trigger] at(visited@, p) implies grid.open_pos(p) by {
                    assert(at(has@, p));
                    assert(at(previous@, p) == at(previous@, p));
                }
                lemma_count_open(visited@, *grid);
                lemma_count_subset(visited@, has@, w as int, h as int);
            }
            return Ok((path, counter));
        }
        proof {
            assert(at(visited@, grid.end) == (at(vis0, grid.end) || grid.end == current));
        }
        let current_depth = table_get(&depth, current);
        let neighbors = grid.get_neighbors(&current);
        proof {
            lemma_neighbors_sound(*grid, current);
        }
        let ghost qlen = stack@.len();
        let mut j: usize = neighbors.len();
        while j > 0
            invariant
                grid.wf(),
                w == grid.width,
                h == grid.height,
                neighbors@ == grid.open_neighbors(current),
                neighbors@.len() <= 4,
                forall|k: int| 0 <= k < neighbors@.len() ==> {
                    let x = #[trigger] neighbors@[k];
                    grid.in_bounds(x) && grid.open_pos(x) && crate::grid::adjacent(current, x)
                },
                grid.in_bounds(current),
                at(visited@, current),
                at(has@, current),
                current_depth == at(depth@, current),
                current_depth < count_true(visited@),
                count_true(visited@) <= w * h,
                j <= neighbors@.len(),
                stack@.len() <= qlen + (neighbors@.len() - j),
                shaped(visited@, w as int, h as int),
                shaped(has@, w as int, h as int),
                shaped(depth@, w as int, h as int),
                tree_ok(*grid, previous@, |p: Position| at(has@, p), |p: Position| at(depth@, p) as int),
                at(has@, grid.start),
                at(depth@, grid.start) == 0,
                count_true(visited@) > 0,
                at(visited@, grid.start),
                forall|p: Position| grid.in_bounds(p) && at(has@, p) && #[trigger] at(previous@, p) is Some ==> at(visited@, at(previous@, p)->Some_0),
                counter.comparisons <= 4 * (counter.nodes_explored - 1) + (neighbors@.len() - j),
                counter.nodes_explored == count_true(visited@),
                counter.nodes_in_frontier == counter.memory_allocations,
                counter.nodes_in_frontier >= count_true(has@),
                count_true(has@) <= w * h,
                counter.nodes_explored > 0,
                forall|i: int| 0 <= i < stack@.len() ==> grid.in_bounds(#[trigger] stack@[i]) && at(has@, stack@[i]),
                forall|p: Position| grid.in_bounds(p) && #[trigger] at(has@, p) ==> at(depth@, p) <= count_true(visited@),
                forall|p: Position| grid.in_bounds(p) && #[trigger] at(visited@, p) ==> at(has@, p) && at(depth@, p) < count_true(visited@),
                stack_closed(*grid, visited@, stack@, Some(current)),
                pending_stacked(*grid, has@, visited@, stack@),
                !at(visited@, grid.end),
                forall|k: int| j <= k < neighbors@.len() ==> at(visited@, #[trigger] neighbors@[k]) || in_stack(stack@, neighbors@[k]),
            decreases j,
        {
            j = j - 1;
            let n = neighbors[j];
            counter.compare();
            if !table_get(&visited, n) {
                let new_depth = current_depth + 1;
                {
                    let ghost has0 = has@;
                    let ghost dist0 = depth@;
                    let ghost par0 = previous@;
                    proof {
                        assert(at(previous@, n) == at(previous@, n));
                        assert(at(previous@, current) == at(previous@, current));
                        assert forall|p: Position| grid.in_bounds(p) && at(has@, p) implies #[trigger] at(previous@, p) != Some(n) by {
                            if at(previous@, p) is Some {
                                assert(at(visited@, at(previous@, p)->Some_0));
                            }
                        }
                    }
                    table_set(&mut has, n, true);
                    table_set(&mut depth, n, new_depth);
                    table_set(&mut previous, n, Some(current));
                    proof {
                        lemma_tree_add_leaf(*grid, par0, previous@, |p: Position| at(has0, p), |p: Position| at(has@, p),
                            |p: Position| at(dist0, p) as int, |p: Position| at(depth@, p) as int, n, current);
                    }
                    proof {
                        assert forall|p: Position| grid.in_bounds(p) && at(has@, p) && #[trigger] at(previous@, p) is Some implies at(visited@, at(previous@, p)->Some_0) by {
                            if p != n {
                                assert(at(has0, p));
                                assert(at(previous@, p) == at(par0, p));
                            }
                        }
                    }
                    let ghost qb = stack@;
                    stack.push(n);
                    counter.record_admission();
                    proof {
                        lemma_count_set_any(has0, has@, n);
                        lemma_count_bound(has@, w as int, h as int);
                    }
                    proof {
                        lemma_stack_push_closed(*grid, visited@, qb, n, Some(current));
                        lemma_in_stack_push(qb, n, n);
                        assert forall|k: int| j <= k < neighbors@.len() implies at(visited@, #[trigger] neighbors@[k]) || in_stack(stack@, neighbors@[k]) by {
                            if k > j && !at(visited@, neighbors@[k]) {
                                lemma_in_stack_push(qb, n, neighbors@[k]);
                            }
                        }
                        assert forall|p: Position| grid.in_bounds(p) && #[trigger] at(has@, p) && !at(visited@, p) implies in_stack(stack@, p) by {
                            if p != n {
                                assert(at(has0, p));
                                lemma_in_stack_push(qb, n, p);
                            }
                        }
                        assert forall|p: Position| grid.in_bounds(p) && #[trigger] at(has@, p) implies at(depth@, p) <= count_true(visited@) by {
                            if p != n {
                                assert(at(has0, p));
                            }
                        }
                        assert forall|p: Position| grid.in_bounds(p) && #[trigger] at(visited@, p) implies at(has@, p) && at(depth@, p) < count_true(visited@) by {
                            assert(p != n);
                        }
                    }
                }
            }
        }
        proof {
            assert forall|p: Position, k: int| grid.in_bounds(p) && at(visited@, p) && None::<Position> != Some(p) && 0 <= k < grid.open_neighbors(p).len()
                implies at(visited@, #[trigger] grid.open_neighbors(p)[k]) || in_stack(stack@, grid.open_neighbors(p)[k]) by {
                if p == current {
                    assert(neighbors@[k] == grid.open_neighbors(p)[k]);
                }
            }
        }
    }
    proof {
        assert(at(has@, grid.start));
        if !at(visited@, grid.start) {
            assert(in_stack(stack@, grid.start));
        }
        if grid.connected() {
            lemma_stack_exhausted(*grid, visited@, stack@);
        }
    }
    proof {
        assert forall|p: Position| grid.in_bounds(p) && #[trigger] at(visited@, p) implies grid.open_pos(p) by {
            assert(at(has@, p));
            assert(at(previous@, p) == at(previous@, p));
        }
        lemma_count_open(visited@, *grid);
        lemma_count_subset(visited@, has@, w as int, h as int);
    }
    Ok((Vec::new(), counter))
}

} // verus!
