//! Tables with one entry per cell, and counting their true entries.
use vstd::prelude::*;
use crate::grid::{count_blocked_cells, count_blocked_rows, CellType, Grid, Position};

verus! {

/// A table with one entry per cell, `h` rows of `w` entries.
pub open spec fn shaped<T>(t: Seq<Vec<T>>, w: int, h: int) -> bool {
    &&& t.len() == h
    &&& forall|r: int| 0 <= r < h ==> (#[trigger] t[r])@.len() == w
}

/// The entry of a table at a cell.
pub open spec fn at<T>(t: Seq<Vec<T>>, p: Position) -> T {
    t[p.row as int]@[p.col as int]
}

/// True entries among the first `k` of a row.
pub open spec fn count_row(row: Seq<bool>, k: int) -> nat
    decreases k,
{
    if k <= 0 {
        0
    } else {
        count_row(row, k - 1) + if row[k - 1] { 1nat } else { 0nat }
    }
}

/// True entries among the first `k` rows of a table.
pub open spec fn count_rows(t: Seq<Vec<bool>>, k: int) -> nat
    decreases k,
{
    if k <= 0 {
        0
    } else {
        count_rows(t, k - 1) + count_row(t[k - 1]@, t[k - 1]@.len() as int)
    }
}

/// True entries of a whole table.
pub open spec fn count_true(t: Seq<Vec<bool>>) -> nat {
    count_rows(t, t.len() as int)
}

/// A table of `h` rows of `w` copies of `v`.
pub fn new_table<T: Copy>(w: usize, h: usize, v: T) -> (t: Vec<Vec<T>>)
    ensures
        shaped(t@, w as int, h as int),
        forall|r: int, c: int| 0 <= r < h && 0 <= c < w ==> #[trigger] t@[r]@[c] == v,
{
    let mut t: Vec<Vec<T>> = Vec::new();
    let mut r: usize = 0;
    while r < h
        invariant
            r <= h,
            shaped(t@, w as int, r as int),
            forall|i: int, c: int| 0 <= i < r && 0 <= c < w ==> #[trigger] t@[i]@[c] == v,
        decreases h - r,
    {
        let mut row: Vec<T> = Vec::new();
        let mut c: usize = 0;
        while c < w
            invariant
                c <= w,
                row@.len() == c,
                forall|j: int| 0 <= j < c ==> #[trigger] row@[j] == v,
            decreases w - c,
        {
            row.push(v);
            c = c + 1;
        }
        t.push(row);
        r = r + 1;
    }
    t
}

/// Reads the entry at a cell.
pub fn table_get<T: Copy>(t: &Vec<Vec<T>>, p: Position) -> (v: T)
    requires
        p.row < t@.len(),
        p.col < t@[p.row as int]@.len(),
    ensures
        v == at(t@, p),
{
    t[p.row][p.col]
}

/// Writes the entry at a cell; every other entry and the shape stay.
pub fn table_set<T>(t: &mut Vec<Vec<T>>, p: Position, v: T)
    requires
        p.row < old(t)@.len(),
        p.col < old(t)@[p.row as int]@.len(),
    ensures
        final(t)@.len() == old(t)@.len(),
        forall|r: int| 0 <= r < old(t)@.len() && r != p.row ==> #[trigger] final(t)@[r] == old(t)@[r],
        final(t)@[p.row as int]@ == old(t)@[p.row as int]@.update(p.col as int, v),
        forall|r: int| 0 <= r < old(t)@.len() ==> (#[trigger] final(t)@[r])@.len() == old(t)@[r]@.len(),
        forall|r: int, c: int| 0 <= r < old(t)@.len() && 0 <= c < old(t)@[r]@.len() ==> #[trigger] final(t)@[r]@[c] == if r == p.row && c == p.col {
            v
        } else {
            old(t)@[r]@[c]
        },
{
    let ghost before = t@;
    let mut row: Vec<T> = Vec::new();
    std::mem::swap(&mut row, &mut t[p.row]);
    row.set(p.col, v);
    std::mem::swap(&mut row, &mut t[p.row]);
    proof {
        assert forall|r: int| 0 <= r < before.len() && r != p.row implies #[trigger] t@[r] == before[r] by {}
    }
}

proof fn lemma_count_row_bound(row: Seq<bool>, k: int)
    requires
        0 <= k,
    ensures
        count_row(row, k) <= k,
    decreases k,
{
    if k > 0 {
        lemma_count_row_bound(row, k - 1);
    }
}

proof fn lemma_count_rows_bound(t: Seq<Vec<bool>>, w: int, k: int)
    requires
        0 <= k <= t.len(),
        0 <= w,
        forall|r: int| 0 <= r < t.len() ==> (#[trigger] t[r])@.len() == w,
    ensures
        count_rows(t, k) <= k * w,
    decreases k,
{
    if k > 0 {
        lemma_count_rows_bound(t, w, k - 1);
        lemma_count_row_bound(t[k - 1]@, w);
        assert((k - 1) * w + w == k * w) by (nonlinear_arith);
    }
}

/// A table of `h` rows of `w` entries holds at most `w * h` true entries.
pub proof fn lemma_count_bound(t: Seq<Vec<bool>>, w: int, h: int)
    requires
        0 <= w,
        shaped(t, w, h),
    ensures
        count_true(t) <= w * h,
{
    lemma_count_rows_bound(t, w, h);
    assert(h * w == w * h) by (nonlinear_arith);
}

proof fn lemma_count_row_set(row: Seq<bool>, c: int, k: int)
    requires
        0 <= c < row.len(),
        0 <= k <= row.len(),
        !row[c],
    ensures
        count_row(row.update(c, true), k) == count_row(row, k) + if c < k { 1nat } else { 0nat },
    decreases k,
{
    if k > 0 {
        lemma_count_row_set(row, c, k - 1);
    }
}

proof fn lemma_count_rows_set(t: Seq<Vec<bool>>, u: Seq<Vec<bool>>, r: int, k: int)
    requires
        0 <= r < t.len(),
        t.len() == u.len(),
        0 <= k <= t.len(),
        forall|i: int| 0 <= i < t.len() && i != r ==> #[trigger] u[i] == t[i],
        count_row(u[r]@, u[r]@.len() as int) == count_row(t[r]@, t[r]@.len() as int) + 1,
    ensures
        count_rows(u, k) == count_rows(t, k) + if r < k { 1nat } else { 0nat },
    decreases k,
{
    if k > 0 {
        lemma_count_rows_set(t, u, r, k - 1);
        if k - 1 != r {
            assert(u[k - 1] == t[k - 1]);
        }
    }
}

/// Setting one false entry to true adds one to the count.
pub proof fn lemma_count_set(t: Seq<Vec<bool>>, u: Seq<Vec<bool>>, p: Position)
    requires
        p.row < t.len(),
        p.col < t[p.row as int]@.len(),
        !at(t, p),
        u.len() == t.len(),
        forall|r: int| 0 <= r < t.len() && r != p.row ==> #[trigger] u[r] == t[r],
        u[p.row as int]@ == t[p.row as int]@.update(p.col as int, true),
    ensures
        count_true(u) == count_true(t) + 1,
{
    let row = t[p.row as int]@;
    lemma_count_row_set(row, p.col as int, row.len() as int);
    lemma_count_rows_set(t, u, p.row as int, t.len() as int);
}

proof fn lemma_count_row_zero(row: Seq<bool>, k: int)
    requires
        0 <= k <= row.len(),
        forall|c: int| 0 <= c < row.len() ==> !#[trigger] row[c],
    ensures
        count_row(row, k) == 0,
    decreases k,
{
    if k > 0 {
        lemma_count_row_zero(row, k - 1);
    }
}

proof fn lemma_count_rows_zero(t: Seq<Vec<bool>>, k: int)
    requires
        0 <= k <= t.len(),
        forall|r: int, c: int| 0 <= r < t.len() && 0 <= c < t[r]@.len() ==> !#[trigger] t[r]@[c],
    ensures
        count_rows(t, k) == 0,
    decreases k,
{
    if k > 0 {
        lemma_count_rows_zero(t, k - 1);
        lemma_count_row_zero(t[k - 1]@, t[k - 1]@.len() as int);
    }
}

/// A table of false entries counts zero.
pub proof fn lemma_count_zero(t: Seq<Vec<bool>>, w: int, h: int)
    requires
        shaped(t, w, h),
        forall|r: int, c: int| 0 <= r < h && 0 <= c < w ==> !#[trigger] t[r]@[c],
    ensures
        count_true(t) == 0,
{
    lemma_count_rows_zero(t, t.len() as int);
}

proof fn lemma_count_row_subset(a: Seq<bool>, b: Seq<bool>, k: int)
    requires
        0 <= k <= a.len(),
        k <= b.len(),
        forall|c: int| 0 <= c < k && #[trigger] a[c] ==> b[c],
    ensures
        count_row(a, k) <= count_row(b, k),
    decreases k,
{
    if k > 0 {
        lemma_count_row_subset(a, b, k - 1);
    }
}

proof fn lemma_count_rows_subset(t: Seq<Vec<bool>>, u: Seq<Vec<bool>>, w: int, k: int)
    requires
        0 <= k <= t.len(),
        k <= u.len(),
        forall|r: int| 0 <= r < k ==> (#[trigger] t[r])@.len() == w && u[r]@.len() == w,
        forall|r: int, c: int| 0 <= r < k && 0 <= c < w && #[trigger] t[r]@[c] ==> u[r]@[c],
    ensures
        count_rows(t, k) <= count_rows(u, k),
    decreases k,
{
    if k > 0 {
        lemma_count_rows_subset(t, u, w, k - 1);
        let r = k - 1;
        assert(t[r]@.len() == w && u[r]@.len() == w);
        assert forall|c: int| 0 <= c < w && #[trigger] t[r]@[c] implies u[r]@[c] by {}
        lemma_count_row_subset(t[r]@, u[r]@, w);
    }
}

/// A table whose true entries are all true in another counts no more.
pub proof fn lemma_count_subset(t: Seq<Vec<bool>>, u: Seq<Vec<bool>>, w: int, h: int)
    requires
        0 <= w <= usize::MAX,
        0 <= h <= usize::MAX,
        shaped(t, w, h),
        shaped(u, w, h),
        forall|p: Position| p.row < h && p.col < w && #[trigger] at(t, p) ==> at(u, p),
    ensures
        count_true(t) <= count_true(u),
{
    assert forall|r: int, c: int| 0 <= r < h && 0 <= c < w && #[trigger] t[r]@[c] implies u[r]@[c] by {
        let p = Position { row: r as usize, col: c as usize };
        assert(at(t, p));
    }
    lemma_count_rows_subset(t, u, w, h);
}

proof fn lemma_count_row_open(a: Seq<bool>, cells: Seq<CellType>, k: int)
    requires
        0 <= k <= a.len(),
        k <= cells.len(),
        forall|c: int| 0 <= c < k && #[trigger] a[c] ==> cells[c] != CellType::Blocked,
    ensures
        count_row(a, k) + count_blocked_cells(cells, k) <= k,
    decreases k,
{
    if k > 0 {
        lemma_count_row_open(a, cells, k - 1);
    }
}

proof fn lemma_count_rows_open(t: Seq<Vec<bool>>, cells: Seq<Vec<CellType>>, w: int, k: int)
    requires
        0 <= k <= t.len(),
        k <= cells.len(),
        0 <= w,
        forall|r: int| 0 <= r < k ==> (#[trigger] t[r])@.len() == w && cells[r]@.len() == w,
        forall|r: int, c: int| 0 <= r < k && 0 <= c < w && #[trigger] t[r]@[c] ==> cells[r]@[c] != CellType::Blocked,
    ensures
        count_rows(t, k) + count_blocked_rows(cells, k) <= k * w,
    decreases k,
{
    if k > 0 {
        lemma_count_rows_open(t, cells, w, k - 1);
        let r = k - 1;
        assert(t[r]@.len() == w && cells[r]@.len() == w);
        assert forall|c: int| 0 <= c < w && #[trigger] t[r]@[c] implies cells[r]@[c] != CellType::Blocked by {}
        lemma_count_row_open(t[r]@, cells[r]@, w);
        assert((k - 1) * w + w == k * w) by (nonlinear_arith);
    }
}

/// A table that marks only open cells of a grid marks at most its open cells.
pub proof fn lemma_count_open(t: Seq<Vec<bool>>, g: Grid)
    requires
        g.wf(),
        shaped(t, g.width as int, g.height as int),
        forall|p: Position| g.in_bounds(p) && #[trigger] at(t, p) ==> g.open_pos(p),
    ensures
        count_true(t) + g.blocked_count() <= g.width * g.height,
{
    let w = g.width as int;
    let h = g.height as int;
    assert forall|r: int, c: int| 0 <= r < h && 0 <= c < w && #[trigger] t[r]@[c] implies g.cells@[r]@[c] != CellType::Blocked by {
        let p = Position { row: r as usize, col: c as usize };
        assert(at(t, p));
        assert(g.open_pos(p));
    }
    assert forall|r: int| 0 <= r < h implies (#[trigger] t[r])@.len() == w && g.cells@[r]@.len() == w by {
        assert(g.cells@[r]@.len() == w);
    }
    lemma_count_rows_open(t, g.cells@, w, h);
    assert(h * w == w * h) by (nonlinear_arith);
}

/// Setting an entry to true adds one to the count when it was false, else nothing.
pub proof fn lemma_count_set_any(t: Seq<Vec<bool>>, u: Seq<Vec<bool>>, p: Position)
    requires
        p.row < t.len(),
        p.col < t[p.row as int]@.len(),
        u.len() == t.len(),
        forall|r: int| 0 <= r < t.len() && r != p.row ==> #[trigger] u[r] == t[r],
        u[p.row as int]@ == t[p.row as int]@.update(p.col as int, true),
    ensures
        count_true(u) == count_true(t) + if at(t, p) { 0nat } else { 1nat },
{
    if at(t, p) {
        assert(u[p.row as int]@ =~= t[p.row as int]@);
        lemma_count_rows_same(t, u, t.len() as int);
    } else {
        lemma_count_set(t, u, p);
    }
}

proof fn lemma_count_rows_same(t: Seq<Vec<bool>>, u: Seq<Vec<bool>>, k: int)
    requires
        0 <= k <= t.len(),
        u.len() == t.len(),
        forall|r: int| 0 <= r < t.len() ==> (#[trigger] u[r])@ == t[r]@,
    ensures
        count_rows(u, k) == count_rows(t, k),
    decreases k,
{
    if k > 0 {
        lemma_count_rows_same(t, u, k - 1);
        assert(u[k - 1]@ == t[k - 1]@);
    }
}

} // verus!
