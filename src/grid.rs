//! Cells, positions and grids, with what walks and connectivity mean.
use vstd::prelude::*;

verus! {

/// The role of one cell of a grid.
#[derive(Debug, Clone, Copy, PartialEq, Eq, Structural)]
pub enum CellType {
    Open,
    Blocked,
    Start,
    End,
}

/// A cell of a grid, by row and column.
#[derive(Debug, Clone, Copy, PartialEq, Eq, Structural, Hash)]
pub struct Position {
    pub row: usize,
    pub col: usize,
}

impl Position {
    pub fn new(row: usize, col: usize) -> (r: Position)
        ensures
            r.row == row,
            r.col == col,
    {
        Position { row, col }
    }

    /// Manhattan distance as a mathematical integer.
    pub open spec fn manhattan(self, other: Position) -> nat {
        (abs_diff(self.row as int, other.row as int) + abs_diff(self.col as int, other.col as int)) as nat
    }

    /// Number of orthogonal steps between two cells: `|dr| + |dc|`.
    pub fn manhattan_distance_to(&self, other: &Position) -> (r: usize)
        requires
            self.manhattan(*other) <= usize::MAX,
        ensures
            r as nat == self.manhattan(*other),
    {
        let dr: usize = if self.row >= other.row { self.row - other.row } else { other.row - self.row };
        let dc: usize = if self.col >= other.col { self.col - other.col } else { other.col - self.col };
        dr + dc
    }
}

pub open spec fn abs_diff(a: int, b: int) -> int {
    if a >= b { a - b } else { b - a }
}

/// Two cells one orthogonal step apart.
pub open spec fn adjacent(a: Position, b: Position) -> bool {
    a.manhattan(b) == 1
}

/// A rectangular matrix of cells with a start and an end cell.
#[derive(Debug, Clone)]
pub struct Grid {
    pub width: usize,
    pub height: usize,
    pub cells: Vec<Vec<CellType>>,
    pub start: Position,
    pub end: Position,
}

impl Grid {
    pub open spec fn in_bounds(&self, p: Position) -> bool {
        p.row < self.height && p.col < self.width
    }

    pub open spec fn cell(&self, r: int, c: int) -> CellType {
        self.cells@[r]@[c]
    }

    /// In bounds and not blocked.
    pub open spec fn open_at(&self, r: int, c: int) -> bool {
        0 <= r < self.height && 0 <= c < self.width && self.cell(r, c) != CellType::Blocked
    }

    pub open spec fn open_pos(&self, p: Position) -> bool {
        self.open_at(p.row as int, p.col as int)
    }

    /// The matrix has the stated shape, the area fits in memory, and start and
    /// end are cells of the grid that are never blocked.
    pub open spec fn wf(&self) -> bool {
        &&& self.cells@.len() == self.height
        &&& forall|r: int| 0 <= r < self.height ==> (#[trigger] self.cells@[r])@.len() == self.width
        &&& self.width * self.height <= usize::MAX
        &&& self.in_bounds(self.start)
        &&& self.in_bounds(self.end)
        &&& self.open_pos(self.start)
        &&& self.open_pos(self.end)
    }

    /// The shape, start and end of two grids agree.
    pub open spec fn same_frame(&self, other: Grid) -> bool {
        &&& self.width == other.width
        &&& self.height == other.height
        &&& self.start == other.start
        &&& self.end == other.end
    }

    /// The open neighbours of `p` in the order right, left, down, up.
    pub open spec fn open_neighbors(&self, p: Position) -> Seq<Position> {
        let r = p.row as int;
        let c = p.col as int;
        let right = if self.open_at(r, c + 1) { seq![Position { row: p.row, col: (c + 1) as usize }] } else { seq![] };
        let left = if self.open_at(r, c - 1) { seq![Position { row: p.row, col: (c - 1) as usize }] } else { seq![] };
        let down = if self.open_at(r + 1, c) { seq![Position { row: (r + 1) as usize, col: p.col }] } else { seq![] };
        let up = if self.open_at(r - 1, c) { seq![Position { row: (r - 1) as usize, col: p.col }] } else { seq![] };
        right + left + down + up
    }

    /// A walk of orthogonal steps over open cells.
    pub open spec fn is_path(&self, path: Seq<Position>) -> bool {
        &&& forall|i: int| 0 <= i < path.len() ==> self.open_pos(#[trigger] path[i])
        &&& forall|i: int| 0 <= i < path.len() - 1 ==> adjacent(#[trigger] path[i], path[i + 1])
    }

    /// A walk from `a` to `b`.
    pub open spec fn is_path_between(&self, path: Seq<Position>, a: Position, b: Position) -> bool {
        &&& path.len() > 0
        &&& self.is_path(path)
        &&& path[0] == a
        &&& path.last() == b
    }

    pub open spec fn reachable(&self, a: Position, b: Position) -> bool {
        exists|path: Seq<Position>| self.is_path_between(path, a, b)
    }

    /// A 4-directional path leads from start to end.
    pub open spec fn connected(&self) -> bool {
        self.reachable(self.start, self.end)
    }

    /// Number of blocked cells.
    pub open spec fn blocked_count(&self) -> nat {
        count_blocked_rows(self.cells@, self.cells@.len() as int)
    }

    /// A fresh grid of open cells with start and end marked.
    pub fn new(width: usize, height: usize, start: Position, end: Position) -> (g: Grid)
        requires
            width * height <= usize::MAX,
            start.row < height && start.col < width,
            end.row < height && end.col < width,
        ensures
            g.wf(),
            g.width == width,
            g.height == height,
            g.start == start,
            g.end == end,
            forall|r: int, c: int| 0 <= r < height && 0 <= c < width ==> #[trigger] g.cell(r, c) == if r == end.row && c == end.col {
                CellType::End
            } else if r == start.row && c == start.col {
                CellType::Start
            } else {
                CellType::Open
            },
    {
        let mut cells: Vec<Vec<CellType>> = Vec::new();
        let mut r: usize = 0;
        while r < height
            invariant
                r <= height,
                cells@.len() == r,
                forall|i: int| 0 <= i < r ==> (#[trigger] cells@[i])@.len() == width,
                forall|i: int, c: int| 0 <= i < r && 0 <= c < width ==> #[trigger] cells@[i]@[c] == if i == end.row && c == end.col {
                    CellType::End
                } else if i == start.row && c == start.col {
                    CellType::Start
                } else {
                    CellType::Open
                },
            decreases height - r,
        {
            let mut row: Vec<CellType> = Vec::new();
            let mut c: usize = 0;
            while c < width
                invariant
                    c <= width,
                    row@.len() == c,
                    forall|j: int| 0 <= j < c ==> #[trigger] row@[j] == if r == end.row && j == end.col {
                        CellType::End
                    } else if r == start.row && j == start.col {
                        CellType::Start
                    } else {
                        CellType::Open
                    },
                decreases width - c,
            {
                let cell = if r == end.row && c == end.col {
                    CellType::End
                } else if r == start.row && c == start.col {
                    CellType::Start
                } else {
                    CellType::Open
                };
                row.push(cell);
                c = c + 1;
            }
            cells.push(row);
            r = r + 1;
        }
        Grid { width, height, cells, start, end }
    }

    /// The cell at `p`.
    pub fn cell_at(&self, p: &Position) -> (c: CellType)
        requires
            self.wf(),
            self.in_bounds(*p),
        ensures
            c == self.cell(p.row as int, p.col as int),
    {
        self.cells[p.row][p.col]
    }

    /// Blocks `pos`; start, end and cells out of bounds are left as they are.
    pub fn add_obstacle(&mut self, pos: Position)
        requires
            old(self).wf(),
        ensures
            final(self).wf(),
            final(self).same_frame(*old(self)),
            forall|r: int, c: int| 0 <= r < old(self).height && 0 <= c < old(self).width ==> #[trigger] final(self).cell(r, c) == if r == pos.row && c == pos.col && old(self).in_bounds(pos)
                && pos != old(self).start && pos != old(self).end {
                CellType::Blocked
            } else {
                old(self).cell(r, c)
            },
    {
        if pos.row < self.height && pos.col < self.width {
            if pos != self.start && pos != self.end {
                self.set_cell(pos, CellType::Blocked);
            }
        }
    }

    /// Writes one cell; the frame and every other cell stay.
    pub(crate) fn set_cell(&mut self, pos: Position, value: CellType)
        requires
            old(self).wf(),
            old(self).in_bounds(pos),
            value == CellType::Blocked ==> pos != old(self).start && pos != old(self).end,
        ensures
            final(self).wf(),
            final(self).same_frame(*old(self)),
            forall|r: int, c: int| 0 <= r < old(self).height && 0 <= c < old(self).width ==> #[trigger] final(self).cell(r, c) == if r == pos.row && c == pos.col {
                value
            } else {
                old(self).cell(r, c)
            },
    {
        let ghost before = *self;
        let mut row: Vec<CellType> = Vec::new();
        std::mem::swap(&mut row, &mut self.cells[pos.row]);
        row.set(pos.col, value);
        std::mem::swap(&mut row, &mut self.cells[pos.row]);
        proof {
            assert forall|r: int| 0 <= r < self.height implies (#[trigger] self.cells@[r])@.len() == self.width by {
                if r != pos.row {
                    assert(self.cells@[r] == before.cells@[r]);
                }
            }
            assert forall|r: int, c: int| 0 <= r < self.height && 0 <= c < self.width implies #[trigger] self.cell(r, c) == if r == pos.row && c == pos.col {
                value
            } else {
                before.cell(r, c)
            } by {
                if r != pos.row {
                    assert(self.cells@[r] == before.cells@[r]);
                }
            }
        }
    }

    /// In bounds and not blocked.
    pub fn is_valid_position(&self, pos: &Position) -> (b: bool)
        requires
            self.wf(),
        ensures
            b == self.open_pos(*pos),
    {
        pos.row < self.height && pos.col < self.width && self.cells[pos.row][pos.col] != CellType::Blocked
    }

    /// The open orthogonal neighbours of `pos`: right, left, down, up.
    pub fn get_neighbors(&self, pos: &Position) -> (n: Vec<Position>)
        requires
            self.wf(),
            self.in_bounds(*pos),
        ensures
            n@ == self.open_neighbors(*pos),
    {
        let mut n: Vec<Position> = Vec::new();
        let r = pos.row;
        let c = pos.col;
        if c + 1 < self.width && self.cells[r][c + 1] != CellType::Blocked {
            n.push(Position::new(r, c + 1));
        }
        let ghost n1 = n@;
        if c >= 1 && self.cells[r][c - 1] != CellType::Blocked {
            n.push(Position::new(r, c - 1));
        }
        let ghost n2 = n@;
        if r + 1 < self.height && self.cells[r + 1][c] != CellType::Blocked {
            n.push(Position::new(r + 1, c));
        }
        let ghost n3 = n@;
        if r >= 1 && self.cells[r - 1][c] != CellType::Blocked {
            n.push(Position::new(r - 1, c));
        }
        proof {
            let p = *pos;
            let ri = r as int;
            let ci = c as int;
            let right = if self.open_at(ri, ci + 1) { seq![Position { row: p.row, col: (ci + 1) as usize }] } else { seq![] };
            let left = if self.open_at(ri, ci - 1) { seq![Position { row: p.row, col: (ci - 1) as usize }] } else { seq![] };
            let down = if self.open_at(ri + 1, ci) { seq![Position { row: (ri + 1) as usize, col: p.col }] } else { seq![] };
            let up = if self.open_at(ri - 1, ci) { seq![Position { row: (ri - 1) as usize, col: p.col }] } else { seq![] };
            assert(n1 =~= right);
            assert(n2 =~= right + left);
            assert(n3 =~= right + left + down);
            assert(n@ =~= right + left + down + up);
        }
        n
    }
}

/// Two cells of a well-formed grid lie at most `width + height` steps apart,
/// which fits in a `usize`.
pub proof fn lemma_manhattan_fits(g: Grid, a: Position, b: Position)
    requires
        g.wf(),
        g.in_bounds(a),
        g.in_bounds(b),
    ensures
        a.manhattan(b) <= g.width + g.height,
        a.manhattan(b) <= usize::MAX,
{
    let w = g.width as int;
    let h = g.height as int;
    assert((w - 1) * (h - 1) >= 0) by (nonlinear_arith)
        requires
            w >= 1,
            h >= 1,
    ;
    assert(w + h - 1 <= w * h) by (nonlinear_arith)
        requires
            (w - 1) * (h - 1) >= 0,
    ;
}

/// Blocked cells among the first `k` cells of one row.
pub open spec fn count_blocked_cells(row: Seq<CellType>, k: int) -> nat
    decreases k,
{
    if k <= 0 {
        0
    } else {
        count_blocked_cells(row, k - 1) + if row[k - 1] == CellType::Blocked { 1nat } else { 0nat }
    }
}

/// Blocked cells among the first `k` rows.
pub open spec fn count_blocked_rows(rows: Seq<Vec<CellType>>, k: int) -> nat
    decreases k,
{
    if k <= 0 {
        0
    } else {
        count_blocked_rows(rows, k - 1) + count_blocked_cells(rows[k - 1]@, rows[k - 1]@.len() as int)
    }
}

proof fn lemma_blocked_cells_set(row: Seq<CellType>, c: int, v: CellType, k: int)
    requires
        0 <= c < row.len(),
        0 <= k <= row.len(),
    ensures
        count_blocked_cells(row.update(c, v), k) + (if c < k && row[c] == CellType::Blocked { 1int } else { 0 })
            == count_blocked_cells(row, k) + (if c < k && v == CellType::Blocked { 1int } else { 0 }),
    decreases k,
{
    if k > 0 {
        lemma_blocked_cells_set(row, c, v, k - 1);
    }
}

proof fn lemma_blocked_rows_set(t: Seq<Vec<CellType>>, u: Seq<Vec<CellType>>, r: int, delta: int, k: int)
    requires
        0 <= r < t.len(),
        t.len() == u.len(),
        0 <= k <= t.len(),
        forall|i: int| 0 <= i < t.len() && i != r ==> (#[trigger] u[i])@ == t[i]@,
        count_blocked_cells(u[r]@, u[r]@.len() as int) == count_blocked_cells(t[r]@, t[r]@.len() as int) + delta,
    ensures
        count_blocked_rows(u, k) == count_blocked_rows(t, k) + if r < k { delta } else { 0 },
    decreases k,
{
    if k > 0 {
        lemma_blocked_rows_set(t, u, r, delta, k - 1);
        if k - 1 != r {
            assert(u[k - 1]@ == t[k - 1]@);
        }
    }
}

/// Writing one cell changes the number of blocked cells by what it was and
/// what it became.
pub proof fn lemma_blocked_count_set(g0: Grid, g1: Grid, pos: Position, v: CellType)
    requires
        g0.wf(),
        g1.wf(),
        g1.same_frame(g0),
        g0.in_bounds(pos),
        forall|r: int, c: int| 0 <= r < g0.height && 0 <= c < g0.width ==> #[trigger] g1.cell(r, c) == if r == pos.row && c == pos.col {
            v
        } else {
            g0.cell(r, c)
        },
    ensures
        g1.blocked_count() + (if g0.cell(pos.row as int, pos.col as int) == CellType::Blocked { 1int } else { 0 })
            == g0.blocked_count() + (if v == CellType::Blocked { 1int } else { 0 }),
{
    let r = pos.row as int;
    let row0 = g0.cells@[r]@;
    let row1 = g1.cells@[r]@;
    assert forall|c: int| 0 <= c < row1.len() implies row1[c] == row0.update(pos.col as int, v)[c] by {
        assert(g1.cell(r, c) == if c == pos.col { v } else { g0.cell(r, c) });
    }
    assert(row1 =~= row0.update(pos.col as int, v));
    lemma_blocked_cells_set(row0, pos.col as int, v, row0.len() as int);
    assert forall|i: int| 0 <= i < g0.cells@.len() && i != r implies (#[trigger] g1.cells@[i])@ == g0.cells@[i]@ by {
        assert forall|c: int| 0 <= c < g0.cells@[i]@.len() implies g1.cells@[i]@[c] == g0.cells@[i]@[c] by {
            assert(g1.cell(i, c) == g0.cell(i, c));
        }
        assert(g1.cells@[i]@ =~= g0.cells@[i]@);
    }
    let delta = (if v == CellType::Blocked { 1int } else { 0 }) - (if row0[pos.col as int] == CellType::Blocked { 1int } else { 0 });
    lemma_blocked_rows_set(g0.cells@, g1.cells@, r, delta, g0.cells@.len() as int);
}

proof fn lemma_blocked_cells_zero(row: Seq<CellType>, k: int)
    requires
        0 <= k <= row.len(),
        forall|c: int| 0 <= c < row.len() ==> #[trigger] row[c] != CellType::Blocked,
    ensures
        count_blocked_cells(row, k) == 0,
    decreases k,
{
    if k > 0 {
        lemma_blocked_cells_zero(row, k - 1);
    }
}

proof fn lemma_blocked_rows_zero(t: Seq<Vec<CellType>>, k: int)
    requires
        0 <= k <= t.len(),
        forall|r: int, c: int| 0 <= r < t.len() && 0 <= c < t[r]@.len() ==> #[trigger] t[r]@[c] != CellType::Blocked,
    ensures
        count_blocked_rows(t, k) == 0,
    decreases k,
{
    if k > 0 {
        lemma_blocked_rows_zero(t, k - 1);
        lemma_blocked_cells_zero(t[k - 1]@, t[k - 1]@.len() as int);
    }
}

/// A grid with no blocked cell counts none.
pub proof fn lemma_blocked_count_zero(g: Grid)
    requires
        g.wf(),
        forall|r: int, c: int| 0 <= r < g.height && 0 <= c < g.width ==> #[trigger] g.cell(r, c) != CellType::Blocked,
    ensures
        g.blocked_count() == 0,
{
    assert forall|r: int, c: int| 0 <= r < g.cells@.len() && 0 <= c < g.cells@[r]@.len() implies #[trigger] g.cells@[r]@[c] != CellType::Blocked by {
        assert(g.cell(r, c) != CellType::Blocked);
    }
    lemma_blocked_rows_zero(g.cells@, g.cells@.len() as int);
}

} // verus!
