//! The search frontier: a min-queue of keyed cells, and what it takes for a
//! search to have seen everything reachable once the frontier runs dry.
use vstd::prelude::*;
use crate::grid::{Grid, Position};
use crate::table::at;

verus! {

/// Removes and returns the first entry of least key: among equal keys the one
/// that entered first leaves first.
pub fn pop_min(q: &mut Vec<(usize, Position)>) -> (e: (usize, Position))
    requires
        old(q)@.len() > 0,
    ensures
        exists|i: int| #![trigger old(q)@[i]] 0 <= i < old(q)@.len() && e == old(q)@[i] && final(q)@ == old(q)@.remove(i)
            && (forall|j: int| 0 <= j < i ==> old(q)@[j].0 > e.0),
        forall|j: int| 0 <= j < old(q)@.len() ==> e.0 <= #[trigger] old(q)@[j].0,
{
    let mut best: usize = 0;
    let mut k: usize = 1;
    while k < q.len()
        invariant
            0 <= best < k <= q@.len(),
            q@ == old(q)@,
            forall|j: int| 0 <= j < k ==> q@[best as int].0 <= #[trigger] q@[j].0,
            forall|j: int| 0 <= j < best ==> #[trigger] q@[j].0 > q@[best as int].0,
        decreases q@.len() - k,
    {
        if q[k].0 < q[best].0 {
            best = k;
        }
        k = k + 1;
    }
    let e = q.remove(best);
    assert(e == old(q)@[best as int]);
    e
}

/// Some entry of the queue is for `x`.
pub open spec fn in_queue(q: Seq<(usize, Position)>, x: Position) -> bool {
    exists|i: int| 0 <= i < q.len() && (#[trigger] q[i]).1 == x
}

/// Removing an entry for another cell keeps `x` queued.
pub proof fn lemma_in_queue_remove(q: Seq<(usize, Position)>, i: int, x: Position)
    requires
        0 <= i < q.len(),
        in_queue(q, x),
        q[i].1 != x,
    ensures
        in_queue(q.remove(i), x),
{
    let j = choose|j: int| 0 <= j < q.len() && (#[trigger] q[j]).1 == x;
    let r = q.remove(i);
    if j < i {
        assert(r[j] == q[j]);
    } else {
        assert(r[j - 1] == q[j]);
    }
}

/// Pushing an entry keeps every queued cell queued and queues the new one.
pub proof fn lemma_in_queue_push(q: Seq<(usize, Position)>, e: (usize, Position), x: Position)
    requires
        in_queue(q, x) || e.1 == x,
    ensures
        in_queue(q.push(e), x),
{
    let r = q.push(e);
    if e.1 == x {
        assert(r[q.len() as int] == e);
    } else {
        let j = choose|j: int| 0 <= j < q.len() && (#[trigger] q[j]).1 == x;
        assert(r[j] == q[j]);
    }
}

/// Every open neighbour of every visited cell (but `skip`) is visited or queued.
pub open spec fn frontier_closed(g: Grid, vis: Seq<Vec<bool>>, q: Seq<(usize, Position)>, skip: Option<Position>) -> bool {
    forall|p: Position, k: int| g.in_bounds(p) && at(vis, p) && skip != Some(p) && 0 <= k < g.open_neighbors(p).len()
        ==> at(vis, #[trigger] g.open_neighbors(p)[k]) || in_queue(q, g.open_neighbors(p)[k])
}

/// Every discovered cell that is not visited is queued.
pub open spec fn pending_queued(g: Grid, has: Seq<Vec<bool>>, vis: Seq<Vec<bool>>, q: Seq<(usize, Position)>) -> bool {
    forall|p: Position| g.in_bounds(p) && #[trigger] at(has, p) && !at(vis, p) ==> in_queue(q, p)
}

/// Taking entry `i` off the queue and marking its cell visited keeps the
/// frontier closed for every other visited cell, and for that cell too when it
/// was visited before.
pub proof fn lemma_pop_closed(g: Grid, vis0: Seq<Vec<bool>>, vis1: Seq<Vec<bool>>, q0: Seq<(usize, Position)>, i: int)
    requires
        g.wf(),
        frontier_closed(g, vis0, q0, None),
        0 <= i < q0.len(),
        g.in_bounds(q0[i].1),
        forall|p: Position| g.in_bounds(p) ==> #[trigger] at(vis1, p) == (at(vis0, p) || p == q0[i].1),
    ensures
        frontier_closed(g, vis1, q0.remove(i), Some(q0[i].1)),
        at(vis0, q0[i].1) ==> frontier_closed(g, vis1, q0.remove(i), None),
{
    let cur = q0[i].1;
    assert forall|p: Position, k: int| g.in_bounds(p) && at(vis1, p) && (p != cur || at(vis0, cur)) && 0 <= k < g.open_neighbors(p).len()
        implies at(vis1, #[trigger] g.open_neighbors(p)[k]) || in_queue(q0.remove(i), g.open_neighbors(p)[k]) by {
        let x = g.open_neighbors(p)[k];
        crate::paths::lemma_neighbors_sound(g, p);
        assert(at(vis0, p));
        assert(at(vis0, x) || in_queue(q0, x));
        if x != cur && !at(vis0, x) {
            lemma_in_queue_remove(q0, i, x);
        }
        assert(at(vis1, x) == (at(vis0, x) || x == cur));
    }
}

/// Taking entry `i` off the queue and marking its cell visited keeps every
/// discovered, unvisited cell queued.
pub proof fn lemma_pop_pending(g: Grid, has: Seq<Vec<bool>>, vis0: Seq<Vec<bool>>, vis1: Seq<Vec<bool>>, q0: Seq<(usize, Position)>, i: int)
    requires
        pending_queued(g, has, vis0, q0),
        0 <= i < q0.len(),
        forall|p: Position| g.in_bounds(p) ==> #[trigger] at(vis1, p) == (at(vis0, p) || p == q0[i].1),
    ensures
        pending_queued(g, has, vis1, q0.remove(i)),
{
    assert forall|p: Position| g.in_bounds(p) && #[trigger] at(has, p) && !at(vis1, p) implies in_queue(q0.remove(i), p) by {
        assert(at(vis1, p) == (at(vis0, p) || p == q0[i].1));
        lemma_in_queue_remove(q0, i, p);
    }
}

/// Pushing an entry keeps the frontier closed.
pub proof fn lemma_push_closed(g: Grid, vis: Seq<Vec<bool>>, q: Seq<(usize, Position)>, e: (usize, Position), skip: Option<Position>)
    requires
        frontier_closed(g, vis, q, skip),
    ensures
        frontier_closed(g, vis, q.push(e), skip),
{
    assert forall|p: Position, k: int| g.in_bounds(p) && at(vis, p) && skip != Some(p) && 0 <= k < g.open_neighbors(p).len()
        implies at(vis, #[trigger] g.open_neighbors(p)[k]) || in_queue(q.push(e), g.open_neighbors(p)[k]) by {
        let x = g.open_neighbors(p)[k];
        if !at(vis, x) {
            lemma_in_queue_push(q, e, x);
        }
    }
}

/// With nothing queued, a closed frontier holding the start holds every cell
/// the start reaches.
pub proof fn lemma_exhausted(g: Grid, vis: Seq<Vec<bool>>, q: Seq<(usize, Position)>)
    requires
        g.wf(),
        q.len() == 0,
        frontier_closed(g, vis, q, None),
        at(vis, g.start),
        g.connected(),
    ensures
        at(vis, g.end),
{
    let s = |p: Position| g.in_bounds(p) && at(vis, p);
    assert forall|v: Position, x: Position| g.in_bounds(v) && #[trigger] s(v) && g.open_pos(x) && #[trigger] crate::grid::adjacent(v, x) implies s(x) by {
        crate::paths::lemma_neighbors_complete(g, v, x);
        let k = choose|k: int| 0 <= k < g.open_neighbors(v).len() && g.open_neighbors(v)[k] == x;
        assert(at(vis, g.open_neighbors(v)[k]) || in_queue(q, g.open_neighbors(v)[k]));
    }
    let wp = choose|wp: Seq<Position>| g.is_path_between(wp, g.start, g.end);
    crate::paths::lemma_closed_set_reaches(g, s, wp, g.start, g.end);
}

/// Some entry of the stack is `x`.
pub open spec fn in_stack(q: Seq<Position>, x: Position) -> bool {
    exists|i: int| 0 <= i < q.len() && #[trigger] q[i] == x
}

/// Removing an entry for another cell keeps `x` queued.
pub proof fn lemma_in_stack_remove(q: Seq<Position>, i: int, x: Position)
    requires
        0 <= i < q.len(),
        in_stack(q, x),
        q[i] != x,
    ensures
        in_stack(q.remove(i), x),
{
    let j = choose|j: int| 0 <= j < q.len() && #[trigger] q[j] == x;
    let r = q.remove(i);
    if j < i {
        assert(r[j] == q[j]);
    } else {
        assert(r[j - 1] == q[j]);
    }
}

/// Pushing an entry keeps every queued cell queued and queues the new one.
pub proof fn lemma_in_stack_push(q: Seq<Position>, e: Position, x: Position)
    requires
        in_stack(q, x) || e == x,
    ensures
        in_stack(q.push(e), x),
{
    let r = q.push(e);
    if e == x {
        assert(r[q.len() as int] == e);
    } else {
        let j = choose|j: int| 0 <= j < q.len() && #[trigger] q[j] == x;
        assert(r[j] == q[j]);
    }
}

/// Every open neighbour of every visited cell (but `skip`) is visited or queued.
pub open spec fn stack_closed(g: Grid, vis: Seq<Vec<bool>>, q: Seq<Position>, skip: Option<Position>) -> bool {
    forall|p: Position, k: int| g.in_bounds(p) && at(vis, p) && skip != Some(p) && 0 <= k < g.open_neighbors(p).len()
        ==> at(vis, #[trigger] g.open_neighbors(p)[k]) || in_stack(q, g.open_neighbors(p)[k])
}

/// Every discovered cell that is not visited is queued.
pub open spec fn pending_stacked(g: Grid, has: Seq<Vec<bool>>, vis: Seq<Vec<bool>>, q: Seq<Position>) -> bool {
    forall|p: Position| g.in_bounds(p) && #[trigger] at(has, p) && !at(vis, p) ==> in_stack(q, p)
}

/// Taking entry `i` off the queue and marking its cell visited keeps the
/// frontier closed for every other visited cell, and for that cell too when it
/// was visited before.
pub proof fn lemma_stack_pop_closed(g: Grid, vis0: Seq<Vec<bool>>, vis1: Seq<Vec<bool>>, q0: Seq<Position>, i: int)
    requires
        g.wf(),
        stack_closed(g, vis0, q0, None),
        0 <= i < q0.len(),
        g.in_bounds(q0[i]),
        forall|p: Position| g.in_bounds(p) ==> #[trigger] at(vis1, p) == (at(vis0, p) || p == q0[i]),
    ensures
        stack_closed(g, vis1, q0.remove(i), Some(q0[i])),
        at(vis0, q0[i]) ==> stack_closed(g, vis1, q0.remove(i), None),
{
    let cur = q0[i];
    assert forall|p: Position, k: int| g.in_bounds(p) && at(vis1, p) && (p != cur || at(vis0, cur)) && 0 <= k < g.open_neighbors(p).len()
        implies at(vis1, #[trigger] g.open_neighbors(p)[k]) || in_stack(q0.remove(i), g.open_neighbors(p)[k]) by {
        let x = g.open_neighbors(p)[k];
        crate::paths::lemma_neighbors_sound(g, p);
        assert(at(vis0, p));
        assert(at(vis0, x) || in_stack(q0, x));
        if x != cur && !at(vis0, x) {
            lemma_in_stack_remove(q0, i, x);
        }
        assert(at(vis1, x) == (at(vis0, x) || x == cur));
    }
}

/// Taking entry `i` off the queue and marking its cell visited keeps every
/// discovered, unvisited cell queued.
pub proof fn lemma_stack_pop_pending(g: Grid, has: Seq<Vec<bool>>, vis0: Seq<Vec<bool>>, vis1: Seq<Vec<bool>>, q0: Seq<Position>, i: int)
    requires
        pending_stacked(g, has, vis0, q0),
        0 <= i < q0.len(),
        forall|p: Position| g.in_bounds(p) ==> #[trigger] at(vis1, p) == (at(vis0, p) || p == q0[i]),
    ensures
        pending_stacked(g, has, vis1, q0.remove(i)),
{
    assert forall|p: Position| g.in_bounds(p) && #[trigger] at(has, p) && !at(vis1, p) implies in_stack(q0.remove(i), p) by {
        assert(at(vis1, p) == (at(vis0, p) || p == q0[i]));
        lemma_in_stack_remove(q0, i, p);
    }
}

/// Pushing an entry keeps the frontier closed.
pub proof fn lemma_stack_push_closed(g: Grid, vis: Seq<Vec<bool>>, q: Seq<Position>, e: Position, skip: Option<Position>)
    requires
        stack_closed(g, vis, q, skip),
    ensures
        stack_closed(g, vis, q.push(e), skip),
{
    assert forall|p: Position, k: int| g.in_bounds(p) && at(vis, p) && skip != Some(p) && 0 <= k < g.open_neighbors(p).len()
        implies at(vis, #[trigger] g.open_neighbors(p)[k]) || in_stack(q.push(e), g.open_neighbors(p)[k]) by {
        let x = g.open_neighbors(p)[k];
        if !at(vis, x) {
            lemma_in_stack_push(q, e, x);
        }
    }
}

/// With nothing queued, a closed frontier holding the start holds every cell
/// the start reaches.
pub proof fn lemma_stack_exhausted(g: Grid, vis: Seq<Vec<bool>>, q: Seq<Position>)
    requires
        g.wf(),
        q.len() == 0,
        stack_closed(g, vis, q, None),
        at(vis, g.start),
        g.connected(),
    ensures
        at(vis, g.end),
{
    let s = |p: Position| g.in_bounds(p) && at(vis, p);
    assert forall|v: Position, x: Position| g.in_bounds(v) && #[trigger] s(v) && g.open_pos(x) && #[trigger] crate::grid::adjacent(v, x) implies s(x) by {
        crate::paths::lemma_neighbors_complete(g, v, x);
        let k = choose|k: int| 0 <= k < g.open_neighbors(v).len() && g.open_neighbors(v)[k] == x;
        assert(at(vis, g.open_neighbors(v)[k]) || in_stack(q, g.open_neighbors(v)[k]));
    }
    let wp = choose|wp: Seq<Position>| g.is_path_between(wp, g.start, g.end);
    crate::paths::lemma_closed_set_reaches(g, s, wp, g.start, g.end);
}

} // verus!
