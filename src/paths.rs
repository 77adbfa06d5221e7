//! Facts about walks and neighbours, and rebuilding a walk from parent links.
use vstd::prelude::*;
use crate::grid::{adjacent, Grid, Position};
use crate::table::{at, shaped, table_get};

verus! {

/// Every neighbour that `get_neighbors` yields is an open cell one step away.
pub proof fn lemma_neighbors_sound(g: Grid, p: Position)
    requires
        g.wf(),
        g.in_bounds(p),
    ensures
        g.open_neighbors(p).len() <= 4,
        forall|i: int| 0 <= i < g.open_neighbors(p).len() ==> {
            let x = #[trigger] g.open_neighbors(p)[i];
            g.in_bounds(x) && g.open_pos(x) && adjacent(p, x)
        },
{
}

/// Every open cell one step away is among the neighbours.
pub proof fn lemma_neighbors_complete(g: Grid, p: Position, x: Position)
    requires
        g.wf(),
        g.in_bounds(p),
        g.open_pos(x),
        adjacent(p, x),
    ensures
        g.open_neighbors(p).contains(x),
{
    let ns = g.open_neighbors(p);
    let r = p.row as int;
    let c = p.col as int;
    let right = if g.open_at(r, c + 1) { seq![Position { row: p.row, col: (c + 1) as usize }] } else { seq![] };
    let left = if g.open_at(r, c - 1) { seq![Position { row: p.row, col: (c - 1) as usize }] } else { seq![] };
    let down = if g.open_at(r + 1, c) { seq![Position { row: (r + 1) as usize, col: p.col }] } else { seq![] };
    let up = if g.open_at(r - 1, c) { seq![Position { row: (r - 1) as usize, col: p.col }] } else { seq![] };
    assert(ns == right + left + down + up);
    if x.row == p.row && x.col == p.col + 1 {
        assert(ns[0] == x);
    } else if x.row == p.row && x.col + 1 == p.col {
        assert(ns[right.len() as int] == x);
    } else if x.row == p.row + 1 && x.col == p.col {
        assert(ns[(right.len() + left.len()) as int] == x);
    } else {
        assert(x.row + 1 == p.row && x.col == p.col);
        assert(ns[(right.len() + left.len() + down.len()) as int] == x);
    }
}

/// A walk to `b` extends by one step to an open neighbour of `b`.
pub proof fn lemma_path_extend(g: Grid, path: Seq<Position>, a: Position, b: Position, n: Position)
    requires
        g.is_path_between(path, a, b),
        g.open_pos(n),
        adjacent(b, n),
    ensures
        g.is_path_between(path.push(n), a, n),
{
    let q = path.push(n);
    assert forall|i: int| 0 <= i < q.len() - 1 implies adjacent(#[trigger] q[i], q[i + 1]) by {
        if i < path.len() - 1 {
            assert(q[i] == path[i] && q[i + 1] == path[i + 1]);
        }
    }
    assert forall|i: int| 0 <= i < q.len() implies g.open_pos(#[trigger] q[i]) by {
        if i < path.len() {
            assert(q[i] == path[i]);
        }
    }
}

/// A walk from `a` extends backwards by one step to an open neighbour of `a`.
pub proof fn lemma_path_prepend(g: Grid, path: Seq<Position>, a: Position, b: Position, u: Position)
    requires
        g.is_path_between(path, a, b),
        g.open_pos(u),
        adjacent(u, a),
    ensures
        g.is_path_between(seq![u] + path, u, b),
{
    let q = seq![u] + path;
    assert forall|i: int| 0 <= i < q.len() - 1 implies adjacent(#[trigger] q[i], q[i + 1]) by {
        if i > 0 {
            assert(q[i] == path[i - 1] && q[i + 1] == path[i]);
        }
    }
    assert forall|i: int| 0 <= i < q.len() implies g.open_pos(#[trigger] q[i]) by {
        if i > 0 {
            assert(q[i] == path[i - 1]);
        }
    }
}

/// A set of cells that holds `a` and every open neighbour of each of its cells
/// holds every cell that a walk from `a` reaches.
pub proof fn lemma_closed_set_reaches(g: Grid, s: spec_fn(Position) -> bool, path: Seq<Position>, a: Position, b: Position)
    requires
        g.wf(),
        g.is_path_between(path, a, b),
        s(a),
        forall|v: Position, x: Position| g.in_bounds(v) && #[trigger] s(v) && g.open_pos(x) && #[trigger] adjacent(v, x) ==> s(x),
    ensures
        s(b),
{
    lemma_closed_set_prefix(g, s, path, a, b, path.len() - 1);
}

proof fn lemma_closed_set_prefix(g: Grid, s: spec_fn(Position) -> bool, path: Seq<Position>, a: Position, b: Position, k: int)
    requires
        g.wf(),
        g.is_path_between(path, a, b),
        0 <= k < path.len(),
        s(a),
        forall|v: Position, x: Position| g.in_bounds(v) && #[trigger] s(v) && g.open_pos(x) && #[trigger] adjacent(v, x) ==> s(x),
    ensures
        s(path[k]),
    decreases k,
{
    if k > 0 {
        lemma_closed_set_prefix(g, s, path, a, b, k - 1);
        assert(g.open_pos(path[k - 1]));
        assert(g.open_pos(path[k]));
        assert(adjacent(path[k - 1], path[k]));
    }
}

/// A parent table that leads every member back to the start: members are open,
/// the start has no parent, every other member has a member one step away as
/// parent, and ranks fall along parents.
pub open spec fn tree_ok(
    g: Grid,
    parent: Seq<Vec<Option<Position>>>,
    member: spec_fn(Position) -> bool,
    rank: spec_fn(Position) -> int,
) -> bool {
    &&& shaped(parent, g.width as int, g.height as int)
    &&& forall|p: Position| #![trigger at(parent, p)] member(p) && g.in_bounds(p) ==> {
        &&& g.open_pos(p)
        &&& rank(p) >= 0
        &&& match at(parent, p) {
            None => p == g.start,
            Some(u) => g.in_bounds(u) && member(u) && adjacent(u, p) && rank(u) < rank(p),
        }
    }
}

/// Each parent ranks exactly one below its child, and the start ranks zero.
pub open spec fn exact_ranks(
    g: Grid,
    parent: Seq<Vec<Option<Position>>>,
    member: spec_fn(Position) -> bool,
    rank: spec_fn(Position) -> int,
) -> bool {
    &&& rank(g.start) == 0
    &&& forall|p: Position| #![trigger at(parent, p)] member(p) && g.in_bounds(p) && at(parent, p) is Some
        ==> rank(at(parent, p)->Some_0) + 1 == rank(p)
}

/// Walks parents back from `end` to the start and returns the cells from start to `end`.
pub fn reconstruct_path(
    g: &Grid,
    parent: &Vec<Vec<Option<Position>>>,
    end: Position,
    member: Ghost<spec_fn(Position) -> bool>,
    rank: Ghost<spec_fn(Position) -> int>,
) -> (path: Vec<Position>)
    requires
        g.wf(),
        tree_ok(*g, parent@, member@, rank@),
        g.in_bounds(end),
        member@(end),
    ensures
        g.is_path_between(path@, g.start, end),
        exact_ranks(*g, parent@, member@, rank@) ==> path@.len() == rank@(end) + 1,
{
    let mut path: Vec<Position> = Vec::new();
    path.push(end);
    let mut cur = end;
    assert(at(parent@, end) == at(parent@, end));
    assert(path@ == seq![end]);
    loop
        invariant
            g.wf(),
            tree_ok(*g, parent@, member@, rank@),
            g.in_bounds(cur),
            member@(cur),
            g.is_path_between(path@, cur, end),
            exact_ranks(*g, parent@, member@, rank@) ==> path@.len() == rank@(end) - rank@(cur) + 1,
        ensures
            g.is_path_between(path@, cur, end),
            exact_ranks(*g, parent@, member@, rank@) ==> path@.len() == rank@(end) - rank@(cur) + 1,
            cur == g.start,
        decreases rank@(cur),
    {
        match table_get(parent, cur) {
            None => {
                assert(member@(cur) && g.in_bounds(cur) && at(parent@, cur) is None);
                break;
            },
            Some(u) => {
                proof {
                    assert(at(parent@, u) == at(parent@, u));
                    lemma_path_prepend(*g, path@, cur, end, u);
                }
                path.insert(0, u);
                assert(path@ == seq![u] + path@.subrange(1, path@.len() as int));
                cur = u;
            },
        }
    }
    path
}

/// Making the member `u` the parent of `n`, with a rank of `n` above that of `u`
/// and not above its rank before, keeps a parent table well formed.
pub proof fn lemma_tree_add(
    g: Grid,
    par0: Seq<Vec<Option<Position>>>,
    par1: Seq<Vec<Option<Position>>>,
    m0: spec_fn(Position) -> bool,
    m1: spec_fn(Position) -> bool,
    r0: spec_fn(Position) -> int,
    r1: spec_fn(Position) -> int,
    n: Position,
    u: Position,
)
    requires
        g.wf(),
        tree_ok(g, par0, m0, r0),
        shaped(par1, g.width as int, g.height as int),
        g.in_bounds(n),
        g.in_bounds(u),
        g.open_pos(n),
        n != g.start,
        m0(u),
        u != n,
        m0(n) ==> r1(n) <= r0(n),
        adjacent(u, n),
        r0(u) < r1(n),
        at(par1, n) == Some(u),
        forall|p: Position| g.in_bounds(p) && p != n ==> #[trigger] at(par1, p) == at(par0, p),
        forall|p: Position| g.in_bounds(p) ==> #[trigger] m1(p) == (m0(p) || p == n),
        forall|p: Position| g.in_bounds(p) && p != n ==> #[trigger] r1(p) == r0(p),
    ensures
        tree_ok(g, par1, m1, r1),
{
    assert forall|p: Position| #![trigger at(par1, p)] m1(p) && g.in_bounds(p) implies {
        &&& g.open_pos(p)
        &&& r1(p) >= 0
        &&& match at(par1, p) {
            None => p == g.start,
            Some(v) => g.in_bounds(v) && m1(v) && adjacent(v, p) && r1(v) < r1(p),
        }
    } by {
        if p != n {
            assert(m0(p));
            assert(at(par1, p) == at(par0, p));
            match at(par0, p) {
                None => {},
                Some(v) => {
                    assert(m0(v));
                    assert(m1(v));
                    if v != n {
                        assert(r1(v) == r0(v));
                    }
                    assert(r1(p) == r0(p));
                },
            }
        } else {
            assert(m1(u));
            assert(at(par0, u) == at(par0, u));
            assert(r0(u) >= 0);
            if u != n {
                assert(r1(u) == r0(u));
            }
        }
    }
}

/// Making the member `u` the parent of `n`, which is no member's parent, with a
/// rank of `n` above that of `u`, keeps a parent table well formed.
pub proof fn lemma_tree_add_leaf(
    g: Grid,
    par0: Seq<Vec<Option<Position>>>,
    par1: Seq<Vec<Option<Position>>>,
    m0: spec_fn(Position) -> bool,
    m1: spec_fn(Position) -> bool,
    r0: spec_fn(Position) -> int,
    r1: spec_fn(Position) -> int,
    n: Position,
    u: Position,
)
    requires
        g.wf(),
        tree_ok(g, par0, m0, r0),
        shaped(par1, g.width as int, g.height as int),
        g.in_bounds(n),
        g.in_bounds(u),
        g.open_pos(n),
        n != g.start,
        m0(u),
        u != n,
        forall|p: Position| g.in_bounds(p) && m0(p) ==> #[trigger] at(par0, p) != Some(n),
        adjacent(u, n),
        r0(u) < r1(n),
        at(par1, n) == Some(u),
        forall|p: Position| g.in_bounds(p) && p != n ==> #[trigger] at(par1, p) == at(par0, p),
        forall|p: Position| g.in_bounds(p) ==> #[trigger] m1(p) == (m0(p) || p == n),
        forall|p: Position| g.in_bounds(p) && p != n ==> #[trigger] r1(p) == r0(p),
    ensures
        tree_ok(g, par1, m1, r1),
{
    assert forall|p: Position| #![trigger at(par1, p)] m1(p) && g.in_bounds(p) implies {
        &&& g.open_pos(p)
        &&& r1(p) >= 0
        &&& match at(par1, p) {
            None => p == g.start,
            Some(v) => g.in_bounds(v) && m1(v) && adjacent(v, p) && r1(v) < r1(p),
        }
    } by {
        if p != n {
            assert(m0(p));
            assert(at(par1, p) == at(par0, p));
            match at(par0, p) {
                None => {},
                Some(v) => {
                    assert(m0(v));
                    assert(m1(v));
                    if v != n {
                        assert(r1(v) == r0(v));
                    }
                    assert(r1(p) == r0(p));
                },
            }
        } else {
            assert(m1(u));
            assert(at(par0, u) == at(par0, u));
            assert(r0(u) >= 0);
            if u != n {
                assert(r1(u) == r0(u));
            }
        }
    }
}

} // verus!
