//! Grid construction that keeps a walk from start to end: random obstacles
//! checked one by one, a staircase fallback, and the fixed test layouts.
use vstd::prelude::*;
use crate::grid::{adjacent, lemma_blocked_count_set, lemma_blocked_count_zero, CellType, Grid, Position};
use crate::pathfinder::breadth_first;

verus! {

/// Relies on `rand::Rng::random_range` over `0..bound`, drawn from the thread-local
/// generator of `rand::rng`: the value lies in the range, which must not be empty.
#[verifier::external_body]
fn random_index(bound: usize) -> (r: usize)
    requires
        bound > 0,
    ensures
        r < bound,
{
    rand::Rng::random_range(&mut rand::rng(), 0..bound)
}

/// A one-cell sequence when `ok` holds, else the empty one.
pub open spec fn cand(ok: bool, r: int, c: int) -> Seq<Position> {
    if ok { seq![Position { row: r as usize, col: c as usize }] } else { seq![] }
}

/// The cells around `p` inside a `w` by `h` grid, row by row, left to right.
pub open spec fn around_seq(p: Position, w: int, h: int) -> Seq<Position> {
    let r = p.row as int;
    let c = p.col as int;
    cand(r >= 1 && c >= 1, r - 1, c - 1) + cand(r >= 1, r - 1, c) + cand(r >= 1 && c + 1 < w, r - 1, c + 1)
        + cand(c >= 1, r, c - 1) + cand(c + 1 < w, r, c + 1)
        + cand(r + 1 < h && c >= 1, r + 1, c - 1) + cand(r + 1 < h, r + 1, c) + cand(r + 1 < h && c + 1 < w, r + 1, c + 1)
}

/// Start and the cells around it, then end and the cells around it.
pub open spec fn protected_seq(g: Grid) -> Seq<Position> {
    seq![g.start] + around_seq(g.start, g.width as int, g.height as int) + seq![g.end]
        + around_seq(g.end, g.width as int, g.height as int)
}

/// A well-formed grid of the given size whose start is the top-left cell and
/// whose end is the bottom-right cell.
pub open spec fn corner_grid(g: Grid, width: usize, height: usize) -> bool {
    &&& g.wf()
    &&& g.width == width
    &&& g.height == height
    &&& g.start == Position { row: 0, col: 0 }
    &&& g.end == Position { row: (height - 1) as usize, col: (width - 1) as usize }
}

/// No cell is blocked.
pub open spec fn obstacle_free(g: Grid) -> bool {
    forall|r: int, c: int| 0 <= r < g.height && 0 <= c < g.width ==> #[trigger] g.cell(r, c) != CellType::Blocked
}

/// The walk that goes right along the row of `a` to the column of `b`, then down.
pub open spec fn staircase_seq(a: Position, b: Position) -> Seq<Position> {
    Seq::new((b.col - a.col + 1) as nat, |i: int| Position { row: a.row, col: (a.col + i) as usize })
        + Seq::new((b.row - a.row) as nat, |i: int| Position { row: (a.row + 1 + i) as usize, col: b.col })
}

/// The cells of the staircase from `a` to `b`: right along the row of `a` to the
/// column of `b`, then down that column.
pub open spec fn on_staircase(a: Position, b: Position, q: Position) -> bool {
    (q.row == a.row && a.col <= q.col <= b.col) || (q.col == b.col && a.row <= q.row <= b.row)
}

/// Obstacle percentage of `cells` cells, rounded to the nearest whole cell.
pub open spec fn target_count(cells: nat, percent: nat) -> nat {
    (cells * percent + 50) / 100
}

/// The cells around `pos` that lie inside a `width` by `height` grid, row by row.
pub fn get_eight_directional_neighbors(pos: Position, width: usize, height: usize) -> (n: Vec<Position>)
    requires
        pos.row < height,
        pos.col < width,
    ensures
        n@ == around_seq(pos, width as int, height as int),
{
    let r = pos.row;
    let c = pos.col;
    let mut n: Vec<Position> = Vec::new();
    if r >= 1 && c >= 1 {
        n.push(Position::new(r - 1, c - 1));
    }
    let ghost s1 = n@;
    if r >= 1 {
        n.push(Position::new(r - 1, c));
    }
    let ghost s2 = n@;
    if r >= 1 && c + 1 < width {
        n.push(Position::new(r - 1, c + 1));
    }
    let ghost s3 = n@;
    if c >= 1 {
        n.push(Position::new(r, c - 1));
    }
    let ghost s4 = n@;
    if c + 1 < width {
        n.push(Position::new(r, c + 1));
    }
    let ghost s5 = n@;
    if r + 1 < height && c >= 1 {
        n.push(Position::new(r + 1, c - 1));
    }
    let ghost s6 = n@;
    if r + 1 < height {
        n.push(Position::new(r + 1, c));
    }
    let ghost s7 = n@;
    if r + 1 < height && c + 1 < width {
        n.push(Position::new(r + 1, c + 1));
    }
    proof {
        let ri = r as int;
        let ci = c as int;
        let w = width as int;
        let h = height as int;
        assert(s1 =~= cand(ri >= 1 && ci >= 1, ri - 1, ci - 1));
        assert(s2 =~= s1 + cand(ri >= 1, ri - 1, ci));
        assert(s3 =~= s2 + cand(ri >= 1 && ci + 1 < w, ri - 1, ci + 1));
        assert(s4 =~= s3 + cand(ci >= 1, ri, ci - 1));
        assert(s5 =~= s4 + cand(ci + 1 < w, ri, ci + 1));
        assert(s6 =~= s5 + cand(ri + 1 < h && ci >= 1, ri + 1, ci - 1));
        assert(s7 =~= s6 + cand(ri + 1 < h, ri + 1, ci));
        assert(n@ =~= s7 + cand(ri + 1 < h && ci + 1 < w, ri + 1, ci + 1));
    }
    n
}

/// Where every cell of the staircase from start to end is open, start and end are connected.
pub proof fn lemma_staircase_connected(g: Grid)
    requires
        g.wf(),
        g.start.row <= g.end.row,
        g.start.col <= g.end.col,
        forall|q: Position| #[trigger] on_staircase(g.start, g.end, q) ==> g.open_pos(q),
    ensures
        g.connected(),
{
    lemma_staircase_path(g, g.start, g.end);
}

/// Where every cell of the staircase from `a` to `b` is open, it is a walk from `a` to `b`.
pub proof fn lemma_staircase_path(g: Grid, a: Position, b: Position)
    requires
        a.row <= b.row,
        a.col <= b.col,
        forall|q: Position| #[trigger] on_staircase(a, b, q) ==> g.open_pos(q),
    ensures
        g.is_path_between(staircase_seq(a, b), a, b),
{
    let path = staircase_seq(a, b);
    let n1 = b.col - a.col + 1;
    assert forall|i: int| 0 <= i < path.len() implies g.open_pos(#[trigger] path[i]) by {
        assert(on_staircase(a, b, path[i]));
    }
    assert forall|i: int| 0 <= i < path.len() - 1 implies adjacent(#[trigger] path[i], path[i + 1]) by {
        if i + 1 < n1 {
        } else if i + 1 == n1 {
        } else {
        }
    }
    assert(path.last() == b);
}

/// The cells that the maze-like layout blocks: both coordinates even, apart
/// from start and end.
pub open spec fn maze_blocked(r: int, c: int, width: int, height: int) -> bool {
    r % 2 == 0 && c % 2 == 0 && !(r == 0 && c == 0) && !(r == height - 1 && c == width - 1)
}

/// A maze-like grid at least two cells wide and high is connected: down from the
/// start into row one, along it to the last odd column, down that column, and
/// one step right to the end where that column is not the last.
proof fn lemma_maze_connected(g: Grid)
    requires
        g.wf(),
        g.width >= 2,
        g.height >= 2,
        g.start == (Position { row: 0, col: 0 }),
        g.end == (Position { row: (g.height - 1) as usize, col: (g.width - 1) as usize }),
        forall|r: int, c: int| 0 <= r < g.height && 0 <= c < g.width ==> (#[trigger] g.cell(r, c) == CellType::Blocked <==> maze_blocked(r, c, g.width as int, g.height as int)),
    ensures
        g.connected(),
{
    let w = g.width as int;
    let h = g.height as int;
    let cs: int = if (w - 1) % 2 == 1 { w - 1 } else { w - 2 };
    let a = Position { row: 1, col: 0 };
    let b = Position { row: (h - 1) as usize, col: cs as usize };
    assert forall|q: Position| #[trigger] on_staircase(a, b, q) implies g.open_pos(q) by {
        assert(g.cell(q.row as int, q.col as int) != CellType::Blocked);
    }
    lemma_staircase_path(g, a, b);
    assert(g.open_pos(g.start));
    crate::paths::lemma_path_prepend(g, staircase_seq(a, b), a, b, g.start);
    let p = seq![g.start] + staircase_seq(a, b);
    if cs != w - 1 {
        crate::paths::lemma_path_extend(g, p, g.start, b, g.end);
    }
}

/// Whether `g` has a walk from start to end.
pub fn is_grid_connected(g: &Grid) -> (r: bool)
    requires
        g.wf(),
    ensures
        r == g.connected(),
{
    match breadth_first::find_path(g) {
        Ok((path, _counter)) => path.len() > 0,
        Err(_) => false,
    }
}

/// Start, end, and the cells around either, in that order.
pub fn get_protected_positions(g: &Grid) -> (p: Vec<Position>)
    requires
        g.wf(),
    ensures
        p@ == protected_seq(*g),
{
    let mut p: Vec<Position> = Vec::new();
    p.push(g.start);
    let mut a = get_eight_directional_neighbors(g.start, g.width, g.height);
    p.append(&mut a);
    p.push(g.end);
    let mut b = get_eight_directional_neighbors(g.end, g.width, g.height);
    p.append(&mut b);
    assert(p@ =~= protected_seq(*g));
    p
}

/// Whether `v` holds `q`.
pub fn contains_position(v: &Vec<Position>, q: Position) -> (r: bool)
    ensures
        r == v@.contains(q),
{
    let mut i: usize = 0;
    while i < v.len()
        invariant
            i <= v@.len(),
            forall|j: int| 0 <= j < i ==> v@[j] != q,
        decreases v@.len() - i,
    {
        if v[i] == q {
            return true;
        }
        i = i + 1;
    }
    false
}

/// A grid without obstacles, start at the top-left and end at the bottom-right cell.
pub fn create_empty_grid(width: usize, height: usize) -> (g: Grid)
    requires
        width >= 1,
        height >= 1,
        width * height <= usize::MAX,
    ensures
        corner_grid(g, width, height),
        obstacle_free(g),
        g.connected(),
{
    let g = Grid::new(width, height, Position::new(0, 0), Position::new(height - 1, width - 1));
    proof {
        lemma_staircase_connected(g);
    }
    g
}

/// Blocks every cell whose row and column are both even, apart from start and
/// end. A grid one cell wide or high may be cut in two by that.
pub fn create_maze_like_grid(width: usize, height: usize) -> (g: Grid)
    requires
        width >= 1,
        height >= 1,
        width * height <= usize::MAX,
    ensures
        corner_grid(g, width, height),
        forall|r: int, c: int| 0 <= r < height && 0 <= c < width ==> (#[trigger] g.cell(r, c) == CellType::Blocked <==> maze_blocked(
            r, c, width as int, height as int)),
        width >= 2 && height >= 2 ==> g.connected(),
{
    let start = Position::new(0, 0);
    let end = Position::new(height - 1, width - 1);
    let mut g = Grid::new(width, height, start, end);
    let mut row: usize = 0;
    while row < height
        invariant
            row <= height,
            corner_grid(g, width, height),
            forall|r: int, c: int| 0 <= r < height && 0 <= c < width ==> (#[trigger] g.cell(r, c) == CellType::Blocked <==> (
                maze_blocked(r, c, width as int, height as int) && r < row)),
        decreases height - row,
    {
        let mut col: usize = 0;
        while col < width
            invariant
                row < height,
                col <= width,
                corner_grid(g, width, height),
                forall|r: int, c: int| 0 <= r < height && 0 <= c < width ==> (#[trigger] g.cell(r, c) == CellType::Blocked <==> (
                    maze_blocked(r, c, width as int, height as int) && (r < row || (r == row && c < col)))),
            decreases width - col,
        {
            let ghost g0 = g;
            if row % 2 == 0 && col % 2 == 0 && !(row == 0 && col == 0) && !(row == height - 1 && col == width - 1) {
                let pos = Position::new(row, col);
                assert(pos != g.start && pos != g.end);
                g.add_obstacle(pos);
            }
            proof {
                assert forall|r: int, c: int| 0 <= r < height && 0 <= c < width implies (#[trigger] g.cell(r, c) == CellType::Blocked <==> (
                    maze_blocked(r, c, width as int, height as int) && (r < row || (r == row && c < col + 1)))) by {
                    assert(g0.cell(r, c) == CellType::Blocked <==> (
                        maze_blocked(r, c, width as int, height as int) && (r < row || (r == row && c < col))));
                    if r == row && c == col {
                        if maze_blocked(r, c, width as int, height as int) {
                            assert(g.cell(r, c) == CellType::Blocked);
                        } else {
                            assert(g == g0);
                        }
                    } else {
                        assert(g.cell(r, c) == g0.cell(r, c));
                    }
                }
            }
            col = col + 1;
        }
        row = row + 1;
    }
    proof {
        if width >= 2 && height >= 2 {
            lemma_maze_connected(g);
        }
    }
    g
}

/// Two grids with the same frame and the same cells are connected alike.
pub proof fn lemma_same_cells_connected(g0: Grid, g1: Grid)
    requires
        g0.wf(),
        g1.wf(),
        g1.same_frame(g0),
        forall|r: int, c: int| 0 <= r < g0.height && 0 <= c < g0.width ==> #[trigger] g1.cell(r, c) == g0.cell(r, c),
        g0.connected(),
    ensures
        g1.connected(),
{
    let path = choose|path: Seq<Position>| g0.is_path_between(path, g0.start, g0.end);
    assert forall|i: int| 0 <= i < path.len() implies g1.open_pos(#[trigger] path[i]) by {
        assert(g0.open_pos(path[i]));
    }
    assert(g1.is_path_between(path, g1.start, g1.end));
}

/// Whether `q` lies on the staircase from `a` to `b`.
pub fn on_staircase_exec(a: Position, b: Position, q: Position) -> (r: bool)
    ensures
        r == on_staircase(a, b, q),
{
    (q.row == a.row && a.col <= q.col && q.col <= b.col) || (q.col == b.col && a.row <= q.row && q.row <= b.row)
}

/// Neither `q` nor a cell around it lies on the staircase from `a` to `b`.
pub open spec fn clear_of_staircase(a: Position, b: Position, q: Position, w: int, h: int) -> bool {
    &&& !on_staircase(a, b, q)
    &&& forall|k: int| 0 <= k < around_seq(q, w, h).len() ==> !on_staircase(a, b, #[trigger] around_seq(q, w, h)[k])
}

/// Whether neither `q` nor a cell around it lies on the staircase from start to end.
fn clear_of_staircase_exec(g: &Grid, q: Position) -> (r: bool)
    requires
        g.wf(),
        g.in_bounds(q),
    ensures
        r == clear_of_staircase(g.start, g.end, q, g.width as int, g.height as int),
{
    if on_staircase_exec(g.start, g.end, q) {
        return false;
    }
    let n = get_eight_directional_neighbors(q, g.width, g.height);
    let mut k: usize = 0;
    while k < n.len()
        invariant
            k <= n@.len(),
            n@ == around_seq(q, g.width as int, g.height as int),
            forall|j: int| 0 <= j < k ==> !on_staircase(g.start, g.end, #[trigger] n@[j]),
        decreases n@.len() - k,
    {
        if on_staircase_exec(g.start, g.end, n[k]) {
            return false;
        }
        k = k + 1;
    }
    true
}

/// A walk from start to end that never enters `pos`.
pub open spec fn connected_avoiding(g: Grid, pos: Position) -> bool {
    exists|path: Seq<Position>| #[trigger] g.is_path_between(path, g.start, g.end) && !path.contains(pos)
}

/// `g1` is `g0` with `pos` set to `v` and every other cell kept.
pub open spec fn one_cell_changed(g0: Grid, g1: Grid, pos: Position, v: CellType) -> bool {
    &&& g1.wf()
    &&& g1.same_frame(g0)
    &&& forall|r: int, c: int| 0 <= r < g0.height && 0 <= c < g0.width ==> #[trigger] g1.cell(r, c) == if r == pos.row && c == pos.col {
        v
    } else {
        g0.cell(r, c)
    }
}

/// Blocking an open cell leaves the grid connected exactly when a walk avoids it.
proof fn lemma_block_connected(g0: Grid, g1: Grid, pos: Position)
    requires
        g0.wf(),
        g0.in_bounds(pos),
        one_cell_changed(g0, g1, pos, CellType::Blocked),
    ensures
        g1.connected() == connected_avoiding(g0, pos),
{
    if g1.connected() {
        let path = choose|path: Seq<Position>| g1.is_path_between(path, g1.start, g1.end);
        assert forall|i: int| 0 <= i < path.len() implies g0.open_pos(#[trigger] path[i]) && path[i] != pos by {
            assert(g1.open_pos(path[i]));
        }
        assert(g0.is_path_between(path, g0.start, g0.end));
        assert(!path.contains(pos));
    }
    if connected_avoiding(g0, pos) {
        let path = choose|path: Seq<Position>| #[trigger] g0.is_path_between(path, g0.start, g0.end) && !path.contains(pos);
        assert forall|i: int| 0 <= i < path.len() implies g1.open_pos(#[trigger] path[i]) by {
            assert(g0.open_pos(path[i]));
            assert(path[i] != pos);
        }
        assert(g1.is_path_between(path, g1.start, g1.end));
    }
}

/// One step of random placement: blocks the drawn cell `pos` when it is not
/// protected, is open, and blocking it keeps the grid connected; otherwise the
/// grid stays as it was.
pub fn place_drawn(grid: &mut Grid, protected: &Vec<Position>, pos: Position) -> (placed: bool)
    requires
        old(grid).wf(),
        old(grid).in_bounds(pos),
        old(grid).open_pos(old(grid).start),
        protected@.contains(old(grid).start),
        protected@.contains(old(grid).end),
    ensures
        placed == (!protected@.contains(pos) && old(grid).cell(pos.row as int, pos.col as int) == CellType::Open
            && connected_avoiding(*old(grid), pos)),
        one_cell_changed(*old(grid), *final(grid), pos, if placed { CellType::Blocked } else { old(grid).cell(pos.row as int, pos.col as int) }),
{
    let ghost g0 = *grid;
    if contains_position(protected, pos) || grid.cell_at(&pos) != CellType::Open {
        return false;
    }
    grid.add_obstacle(pos);
    proof {
        lemma_block_connected(g0, *grid, pos);
    }
    if is_grid_connected(grid) {
        true
    } else {
        grid.set_cell(pos, CellType::Open);
        false
    }
}

/// One step of the fallback: blocks `pos` when it is not protected, lies neither
/// on the staircase from start to end nor next to it, and is open; otherwise the
/// grid stays as it was.
pub fn place_off_staircase(g: &mut Grid, protected: &Vec<Position>, pos: Position) -> (placed: bool)
    requires
        old(g).wf(),
        old(g).in_bounds(pos),
        protected@.contains(old(g).start),
        protected@.contains(old(g).end),
    ensures
        placed == (!protected@.contains(pos) && clear_of_staircase(old(g).start, old(g).end, pos, old(g).width as int, old(g).height as int)
            && old(g).cell(pos.row as int, pos.col as int) == CellType::Open),
        one_cell_changed(*old(g), *final(g), pos, if placed { CellType::Blocked } else { old(g).cell(pos.row as int, pos.col as int) }),
{
    if contains_position(protected, pos) || !clear_of_staircase_exec(g, pos) || g.cell_at(&pos) != CellType::Open {
        return false;
    }
    g.add_obstacle(pos);
    true
}

/// The cells around a cell of a grid lie in the grid.
proof fn lemma_around_in_bounds(p: Position, w: int, h: int)
    requires
        p.row < h,
        p.col < w,
    ensures
        forall|k: int| 0 <= k < around_seq(p, w, h).len() ==> (#[trigger] around_seq(p, w, h)[k]).row < h && around_seq(p, w, h)[k].col < w,
{
    let r = p.row as int;
    let c = p.col as int;
    let s1 = cand(r >= 1 && c >= 1, r - 1, c - 1);
    let s2 = cand(r >= 1, r - 1, c);
    let s3 = cand(r >= 1 && c + 1 < w, r - 1, c + 1);
    let s4 = cand(c >= 1, r, c - 1);
    let s5 = cand(c + 1 < w, r, c + 1);
    let s6 = cand(r + 1 < h && c >= 1, r + 1, c - 1);
    let s7 = cand(r + 1 < h, r + 1, c);
    let s8 = cand(r + 1 < h && c + 1 < w, r + 1, c + 1);
    let all = s1 + s2 + s3 + s4 + s5 + s6 + s7 + s8;
    assert(around_seq(p, w, h) == all);
    assert forall|k: int| 0 <= k < all.len() implies (#[trigger] all[k]).row < h && all[k].col < w by {
        assert(all[k] == (s1 + s2 + s3 + s4 + s5 + s6 + s7 + s8)[k]);
    }
}

/// Every protected cell lies in the grid.
proof fn lemma_protected_in_bounds(g: Grid)
    requires
        g.wf(),
    ensures
        forall|k: int| 0 <= k < protected_seq(g).len() ==> g.in_bounds(#[trigger] protected_seq(g)[k]),
{
    lemma_around_in_bounds(g.start, g.width as int, g.height as int);
    lemma_around_in_bounds(g.end, g.width as int, g.height as int);
    let a = around_seq(g.start, g.width as int, g.height as int);
    let b = around_seq(g.end, g.width as int, g.height as int);
    assert forall|k: int| 0 <= k < protected_seq(g).len() implies g.in_bounds(#[trigger] protected_seq(g)[k]) by {
        let n = a.len() as int;
        if k == 0 {
        } else if k <= n {
            assert(protected_seq(g)[k] == a[k - 1]);
        } else if k == n + 1 {
        } else {
            assert(protected_seq(g)[k] == b[k - n - 2]);
        }
    }
}

/// A cell of a `w` by `h` grid, with start at the top-left and end at the
/// bottom-right, that the fallback may block: outside `protected`, and neither on
/// the staircase from start to end nor next to it.
pub open spec fn eligible(w: int, h: int, protected: Seq<Position>, q: Position) -> bool {
    &&& q.row < h
    &&& q.col < w
    &&& !protected.contains(q)
    &&& clear_of_staircase(Position { row: 0, col: 0 }, Position { row: (h - 1) as usize, col: (w - 1) as usize }, q, w, h)
}

/// Eligible cells among the first `c` of row `r`.
pub open spec fn eligible_in_row(w: int, h: int, protected: Seq<Position>, r: int, c: int) -> nat
    decreases c,
{
    if c <= 0 {
        0
    } else {
        eligible_in_row(w, h, protected, r, c - 1)
            + if eligible(w, h, protected, Position { row: r as usize, col: (c - 1) as usize }) { 1nat } else { 0nat }
    }
}

/// Eligible cells among the first `r` rows.
pub open spec fn eligible_in_rows(w: int, h: int, protected: Seq<Position>, r: int) -> nat
    decreases r,
{
    if r <= 0 {
        0
    } else {
        eligible_in_rows(w, h, protected, r - 1) + eligible_in_row(w, h, protected, r - 1, w)
    }
}

/// Eligible cells of the whole grid.
pub open spec fn eligible_count(w: int, h: int, protected: Seq<Position>) -> nat {
    eligible_in_rows(w, h, protected, h)
}

/// The eligible cells of a grid with start at the top-left and end at the
/// bottom-right, each once, row by row.
pub fn eligible_cells(g: &Grid, protected: &Vec<Position>) -> (v: Vec<Position>)
    requires
        g.wf(),
        g.start == (Position { row: 0, col: 0 }),
        g.end == (Position { row: (g.height - 1) as usize, col: (g.width - 1) as usize }),
    ensures
        v@.len() == eligible_count(g.width as int, g.height as int, protected@),
        forall|i: int| 0 <= i < v@.len() ==> eligible(g.width as int, g.height as int, protected@, #[trigger] v@[i]),
        forall|i: int, j: int| 0 <= i < j < v@.len() ==> #[trigger] v@[i] != #[trigger] v@[j],
{
    let w = g.width;
    let h = g.height;
    let mut v: Vec<Position> = Vec::new();
    let mut r: usize = 0;
    while r < h
        invariant
            g.wf(),
            w == g.width,
            h == g.height,
            g.start == (Position { row: 0, col: 0 }),
            g.end == (Position { row: (h - 1) as usize, col: (w - 1) as usize }),
            r <= h,
            v@.len() == eligible_in_rows(w as int, h as int, protected@, r as int),
            forall|i: int| 0 <= i < v@.len() ==> eligible(w as int, h as int, protected@, #[trigger] v@[i]) && v@[i].row < r,
            forall|i: int, j: int| 0 <= i < j < v@.len() ==> #[trigger] v@[i] != #[trigger] v@[j],
        decreases h - r,
    {
        let mut c: usize = 0;
        while c < w
            invariant
                g.wf(),
                w == g.width,
                h == g.height,
                g.start == (Position { row: 0, col: 0 }),
                g.end == (Position { row: (h - 1) as usize, col: (w - 1) as usize }),
                r < h,
                c <= w,
                v@.len() == eligible_in_rows(w as int, h as int, protected@, r as int) + eligible_in_row(w as int, h as int, protected@, r as int, c as int),
                forall|i: int| 0 <= i < v@.len() ==> eligible(w as int, h as int, protected@, #[trigger] v@[i])
                    && (v@[i].row < r || (v@[i].row == r && v@[i].col < c)),
                forall|i: int, j: int| 0 <= i < j < v@.len() ==> #[trigger] v@[i] != #[trigger] v@[j],
            decreases w - c,
        {
            let q = Position::new(r, c);
            if !contains_position(protected, q) && clear_of_staircase_exec(g, q) {
                let ghost before = v@;
                v.push(q);
                proof {
                    assert forall|i: int, j: int| 0 <= i < j < v@.len() implies #[trigger] v@[i] != #[trigger] v@[j] by {
                        if j == before.len() {
                            assert(v@[i] == before[i]);
                        } else {
                            assert(v@[i] == before[i] && v@[j] == before[j]);
                        }
                    }
                    assert forall|i: int| 0 <= i < v@.len() implies eligible(w as int, h as int, protected@, #[trigger] v@[i])
                        && (v@[i].row < r || (v@[i].row == r && v@[i].col < c + 1)) by {
                        if i < before.len() {
                            assert(v@[i] == before[i]);
                        }
                    }
                }
            }
            c = c + 1;
        }
        r = r + 1;
    }
    v
}

/// The fallback construction: keeps the staircase from start to end, and the
/// protected cells, open and blocks half the requested percentage of the cells
/// off the staircase, drawing each obstacle at random among the eligible cells
/// not yet blocked (open, unprotected, neither on the staircase nor next to it).
/// When fewer cells are eligible, all of them are blocked.
pub fn create_simple_connected_grid(width: usize, height: usize, obstacle_percent: u64) -> (g: Grid)
    requires
        width >= 1,
        height >= 1,
        width * height <= usize::MAX,
        obstacle_percent <= 100,
    ensures
        corner_grid(g, width, height),
        forall|q: Position| g.in_bounds(q) && #[trigger] on_staircase(g.start, g.end, q) ==> g.open_pos(q),
        forall|r: int, c: int| 0 <= r < height && 0 <= c < width && #[trigger] g.cell(r, c) == CellType::Blocked
            ==> clear_of_staircase(g.start, g.end, Position { row: r as usize, col: c as usize }, width as int, height as int),
        g.connected(),
        g.blocked_count() <= ((width * height - (width + height - 1)) * obstacle_percent) / 200,
        g.blocked_count() == min_nat((((width * height - (width + height - 1)) * obstacle_percent) / 200) as nat,
            eligible_count(width as int, height as int, protected_seq(g))),
        forall|k: int| 0 <= k < protected_seq(g).len() ==> g.open_pos(#[trigger] protected_seq(g)[k]),
{
    let start = Position::new(0, 0);
    let end = Position::new(height - 1, width - 1);
    let mut g = Grid::new(width, height, start, end);
    let protected = get_protected_positions(&g);
    proof {
        lemma_protected_in_bounds(g);
        assert(protected@[0] == g.start);
        let e = (1 + around_seq(g.start, g.width as int, g.height as int).len()) as int;
        assert(protected@[e] == g.end);
    }
    let total = width * height;
    proof {
        lemma_manhattan_sum(width as int, height as int);
    }
    let path_len = (width - 1) + height;
    let obstacle_count = half_percent_of(total - path_len, obstacle_percent);
    let mut cells = eligible_cells(&g, &protected);
    let ghost ecount = cells@.len();
    let mut placed: usize = 0;
    proof {
        lemma_blocked_count_zero(g);
    }
    while placed < obstacle_count && cells.len() > 0
        invariant
            corner_grid(g, width, height),
            g.blocked_count() == placed,
            placed <= obstacle_count,
            placed + cells@.len() == ecount,
            ecount == eligible_count(width as int, height as int, protected@),
            obstacle_count == ((width * height - (width + height - 1)) * obstacle_percent) / 200,
            forall|i: int| 0 <= i < cells@.len() ==> eligible(width as int, height as int, protected@, #[trigger] cells@[i])
                && g.cell(cells@[i].row as int, cells@[i].col as int) == CellType::Open,
            forall|i: int, j: int| 0 <= i < j < cells@.len() ==> #[trigger] cells@[i] != #[trigger] cells@[j],
            forall|q: Position| g.in_bounds(q) && #[trigger] on_staircase(g.start, g.end, q) ==> g.open_pos(q),
            forall|r: int, c: int| 0 <= r < height && 0 <= c < width && #[trigger] g.cell(r, c) == CellType::Blocked
                ==> clear_of_staircase(g.start, g.end, Position { row: r as usize, col: c as usize }, width as int, height as int),
            protected@ == protected_seq(g),
            protected@.contains(g.start),
            protected@.contains(g.end),
            forall|k: int| 0 <= k < protected@.len() ==> g.open_pos(#[trigger] protected@[k]),
        decreases cells@.len(),
    {
        let i = random_index(cells.len());
        let ghost before = cells@;
        let pos = cells.remove(i);
        let ghost g0 = g;
        let done = place_off_staircase(&mut g, &protected, pos);
        proof {
            assert(done);
            lemma_blocked_count_set(g0, g, pos, CellType::Blocked);
            assert forall|q: Position| g.in_bounds(q) && #[trigger] on_staircase(g.start, g.end, q) implies g.open_pos(q) by {
                assert(g0.open_pos(q));
            }
            assert forall|r: int, c: int| 0 <= r < height && 0 <= c < width && #[trigger] g.cell(r, c) == CellType::Blocked
                implies clear_of_staircase(g.start, g.end, Position { row: r as usize, col: c as usize }, width as int, height as int) by {
                if r != pos.row || c != pos.col {
                    assert(g0.cell(r, c) == CellType::Blocked);
                }
            }
            assert forall|k: int| 0 <= k < protected@.len() implies g.open_pos(#[trigger] protected@[k]) by {
                assert(g0.open_pos(protected@[k]));
                assert(protected@[k] != pos);
            }
            assert forall|k: int| 0 <= k < cells@.len() implies eligible(width as int, height as int, protected@, #[trigger] cells@[k])
                && g.cell(cells@[k].row as int, cells@[k].col as int) == CellType::Open by {
                let kk = if k < i { k } else { k + 1 };
                assert(cells@[k] == before[kk]);
                assert(before[kk] != before[i as int]);
            }
            assert forall|a: int, b: int| 0 <= a < b < cells@.len() implies #[trigger] cells@[a] != #[trigger] cells@[b] by {
                let aa = if a < i { a } else { a + 1 };
                let bb = if b < i { b } else { b + 1 };
                assert(cells@[a] == before[aa] && cells@[b] == before[bb]);
            }
        }
        placed = placed + 1;
    }
    proof {
        lemma_staircase_connected(g);
    }
    g
}

/// The smaller of two counts.
pub open spec fn min_nat(a: nat, b: nat) -> nat {
    if a <= b { a } else { b }
}

/// `w + h - 1` cells fit in a grid of `w * h` cells.
proof fn lemma_manhattan_sum(w: int, h: int)
    requires
        w >= 1,
        h >= 1,
    ensures
        w + h - 1 <= w * h,
{
    assert((w - 1) * (h - 1) >= 0) by (nonlinear_arith)
        requires
            w >= 1,
            h >= 1,
    ;
    assert(w + h - 1 <= w * h) by (nonlinear_arith)
        requires
            (w - 1) * (h - 1) >= 0,
    ;
}

/// Three draws per cell, stopping at the largest `usize`.
pub fn attempt_cap(cells: usize) -> (r: usize)
    ensures
        r == if 3 * cells <= usize::MAX { 3 * cells } else { usize::MAX as int },
{
    if cells <= usize::MAX / 3 {
        cells * 3
    } else {
        usize::MAX
    }
}

/// `percent` percent of `cells`, rounded to the nearest whole number.
pub fn percent_of(cells: usize, percent: u64) -> (r: usize)
    requires
        percent <= 100,
    ensures
        r as nat == target_count(cells as nat, percent as nat),
{
    let c = cells as u128;
    let p = percent as u128;
    assert(c * p <= 0xffff_ffff_ffff_ffffu128 * 100) by (nonlinear_arith)
        requires
            c <= 0xffff_ffff_ffff_ffffu128,
            p <= 100,
    ;
    assert((c * p + 50) / 100 <= c) by (nonlinear_arith)
        requires
            p <= 100,
    ;
    ((c * p + 50) / 100) as usize
}

/// Half of `percent` percent of `cells`, rounded down.
pub fn half_percent_of(cells: usize, percent: u64) -> (r: usize)
    requires
        percent <= 100,
    ensures
        r as nat == (cells as nat * percent as nat) / 200,
{
    let c = cells as u128;
    let p = percent as u128;
    assert(c * p <= 0xffff_ffff_ffff_ffffu128 * 100) by (nonlinear_arith)
        requires
            c <= 0xffff_ffff_ffff_ffffu128,
            p <= 100,
    ;
    assert((c * p) / 200 <= c) by (nonlinear_arith)
        requires
            p <= 100,
    ;
    ((c * p) / 200) as usize
}

/// Builds grids of a requested size and obstacle density that always keep a
/// walk from start to end.
pub struct GridGenerator;

impl GridGenerator {
    /// A grid with start at the top-left and end at the bottom-right cell and
    /// with randomly placed obstacles that never cut start off from end (see
    /// `create_random_obstacles_grid`).
    pub fn generate(width: usize, height: usize, obstacle_percent: u64) -> (g: Grid)
        requires
            width >= 1,
            height >= 1,
            width * height <= usize::MAX,
            obstacle_percent <= 100,
        ensures
            corner_grid(g, width, height),
            g.connected(),
            width < 3 || height < 3 ==> obstacle_free(g),
            g.blocked_count() <= target_count((width * height) as nat, obstacle_percent as nat),
            forall|k: int| 0 <= k < protected_seq(g).len() ==> g.open_pos(#[trigger] protected_seq(g)[k]),
    {
        create_random_obstacles_grid(width, height, obstacle_percent)
    }
}

/// Draws random open cells away from start and end and blocks each one that
/// keeps the grid connected, until the rounded share `obstacle_percent` of the
/// cells is blocked or three draws per cell are spent. A grid under three cells
/// wide or high gets no obstacles. Should the result be disconnected, the
/// staircase construction of `create_simple_connected_grid` is returned instead.
pub fn create_random_obstacles_grid(width: usize, height: usize, obstacle_percent: u64) -> (g: Grid)
    requires
        width >= 1,
        height >= 1,
        width * height <= usize::MAX,
        obstacle_percent <= 100,
    ensures
        corner_grid(g, width, height),
        g.connected(),
        width < 3 || height < 3 ==> obstacle_free(g),
        g.blocked_count() <= target_count((width * height) as nat, obstacle_percent as nat),
        forall|k: int| 0 <= k < protected_seq(g).len() ==> g.open_pos(#[trigger] protected_seq(g)[k]),
{
    let start = Position::new(0, 0);
    let end = Position::new(height - 1, width - 1);
    let mut grid = Grid::new(width, height, start, end);
    proof {
        lemma_blocked_count_zero(grid);
    }
    proof {
        lemma_staircase_connected(grid);
    }
    if width < 3 || height < 3 {
        return grid;
    }
    let total = width * height;
    let obstacle_count = percent_of(total, obstacle_percent);
    let protected = get_protected_positions(&grid);
    proof {
        lemma_protected_in_bounds(grid);
        assert(protected@[0] == grid.start);
        let e = (1 + around_seq(grid.start, grid.width as int, grid.height as int).len()) as int;
        assert(protected@[e] == grid.end);
    }
    let max_attempts = attempt_cap(total);
    let mut placed: usize = 0;
    let mut attempts: usize = 0;
    while placed < obstacle_count && attempts < max_attempts
        invariant
            corner_grid(grid, width, height),
            grid.connected(),
            protected@ == protected_seq(grid),
            grid.blocked_count() == placed,
            placed <= obstacle_count,
            obstacle_count == target_count((width * height) as nat, obstacle_percent as nat),
            protected@.contains(grid.start),
            protected@.contains(grid.end),
            forall|k: int| 0 <= k < protected@.len() ==> grid.open_pos(#[trigger] protected@[k]),
        decreases max_attempts - attempts,
    {
        attempts = attempts + 1;
        let row = random_index(height);
        let col = random_index(width);
        let pos = Position::new(row, col);
        let ghost g0 = grid;
        let ghost v0 = grid.cell(row as int, col as int);
        if place_drawn(&mut grid, &protected, pos) {
            placed = placed + 1;
            proof {
                lemma_blocked_count_set(g0, grid, pos, CellType::Blocked);
                lemma_block_connected(g0, grid, pos);
                assert forall|k: int| 0 <= k < protected@.len() implies grid.open_pos(#[trigger] protected@[k]) by {
                    assert(g0.open_pos(protected@[k]));
                    assert(protected@[k] != pos);
                }
            }
        } else {
            proof {
                lemma_blocked_count_set(g0, grid, pos, v0);
                lemma_same_cells_connected(g0, grid);
                assert forall|k: int| 0 <= k < protected@.len() implies grid.open_pos(#[trigger] protected@[k]) by {
                    assert(g0.open_pos(protected@[k]));
                }
            }
        }
    }
    if !is_grid_connected(&grid) {
        let g = create_simple_connected_grid(width, height, obstacle_percent);
        proof {
            let a = (width * height) as int;
            let b = (width + height - 1) as int;
            let p = obstacle_percent as int;
            assert(((a - b) * p) / 200 <= (a * p + 50) / 100) by (nonlinear_arith)
                requires
                    0 <= b <= a,
                    0 <= p,
            ;
        }
        return g;
    }
    grid
}

} // verus!
