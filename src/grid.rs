use vstd::prelude::*;
use crate::heuristic::{adjacent, manhattan_dist};

verus! {

/// Index of cell `(r, c)` in a row-major table with `cols` columns.
pub open spec fn ix(cols: nat, r: int, c: int) -> int {
    r * cols + c
}

pub proof fn lemma_ix_bounds(rows: nat, cols: nat, r: int, c: int)
    requires
        0 <= r < rows,
        0 <= c < cols,
    ensures
        0 <= ix(cols, r, c) < rows * cols,
{
    assert(r * cols + c < rows * cols) by (nonlinear_arith)
        requires
            0 <= r < rows,
            0 <= c < cols,
    ;
    assert(0 <= r * cols) by (nonlinear_arith)
        requires
            0 <= r,
    ;
}

pub proof fn lemma_ix_injective(cols: nat, r1: int, c1: int, r2: int, c2: int)
    requires
        0 <= r1,
        0 <= r2,
        0 <= c1 < cols,
        0 <= c2 < cols,
        ix(cols, r1, c1) == ix(cols, r2, c2),
    ensures
        r1 == r2,
        c1 == c2,
{
    if r1 < r2 {
        assert(r1 * cols + cols <= r2 * cols) by (nonlinear_arith)
            requires
                r1 < r2,
        ;
    } else if r2 < r1 {
        assert(r2 * cols + cols <= r1 * cols) by (nonlinear_arith)
            requires
                r2 < r1,
        ;
    }
}

/// The mathematical content of a grid: its dimensions and, row by row,
/// whether each cell is free (`true`) or blocked (`false`).
pub struct GridView {
    pub rows: nat,
    pub cols: nat,
    pub cells: Seq<bool>,
}

impl GridView {
    pub open spec fn wf(self) -> bool {
        &&& self.cells.len() == self.rows * self.cols
        &&& self.rows * self.cols <= usize::MAX
    }

    pub open spec fn in_bounds(self, p: (usize, usize)) -> bool {
        p.0 < self.rows && p.1 < self.cols
    }

    pub open spec fn is_free(self, p: (usize, usize)) -> bool {
        self.in_bounds(p) && self.cells[ix(self.cols, p.0 as int, p.1 as int)]
    }
}

/// A rectangular occupancy grid, stored row by row.
pub struct Grid {
    rows: usize,
    cols: usize,
    cells: Vec<bool>,
}

impl View for Grid {
    type V = GridView;

    closed spec fn view(&self) -> GridView {
        GridView { rows: self.rows as nat, cols: self.cols as nat, cells: self.cells@ }
    }
}

impl Grid {
    pub open spec fn wf(&self) -> bool {
        self@.wf()
    }

    /// Builds a grid from its rows, `true` marking a free cell. Returns
    /// `None` when the rows do not all have the length of the first one.
    pub fn from_rows(rows: &Vec<Vec<bool>>) -> (r: Option<Grid>)
        ensures
            match r {
                Some(g) => {
                    &&& g.wf()
                    &&& g@.rows == rows@.len()
                    &&& rows@.len() > 0 ==> g@.cols == rows@[0]@.len()
                    &&& forall|i: int| 0 <= i < rows@.len() ==> #[trigger] rows@[i]@.len() == g@.cols
                    &&& forall|i: usize, j: usize|
                        i < g@.rows && j < g@.cols ==> #[trigger] g@.is_free((i, j))
                            == rows@[i as int]@[j as int]
                },
                None => exists|i: int|
                    0 <= i < rows@.len() && #[trigger] rows@[i]@.len() != rows@[0]@.len(),
            },
    {
        let n_rows = rows.len();
        let n_cols: usize = if n_rows == 0 {
            0
        } else {
            rows[0].len()
        };
        let mut cells: Vec<bool> = Vec::new();
        let mut i: usize = 0;
        while i < n_rows
            invariant
                i <= n_rows == rows@.len(),
                n_rows > 0 ==> n_cols == rows@[0]@.len(),
                forall|k: int| 0 <= k < i ==> #[trigger] rows@[k]@.len() == n_cols,
                cells@.len() == i * n_cols,
                forall|k: int, j: int|
                    0 <= k < i && 0 <= j < n_cols ==> cells@[#[trigger] ix(
                        n_cols as nat,
                        k,
                        j,
                    )] == rows@[k]@[j],
            decreases n_rows - i,
        {
            let row = &rows[i];
            if row.len() != n_cols {
                return None;
            }
            let mut j: usize = 0;
            while j < n_cols
                invariant
                    i < n_rows == rows@.len(),
                    row@ == rows@[i as int]@,
                    row@.len() == n_cols,
                    j <= n_cols,
                    cells@.len() == i * n_cols + j,
                    forall|k: int, l: int|
                        0 <= k < i && 0 <= l < n_cols ==> cells@[#[trigger] ix(
                            n_cols as nat,
                            k,
                            l,
                        )] == rows@[k]@[l],
                    forall|l: int|
                        0 <= l < j ==> cells@[#[trigger] ix(n_cols as nat, i as int, l)]
                            == rows@[i as int]@[l],
                decreases n_cols - j,
            {
                proof {
                    assert forall|k: int, l: int|
                        0 <= k < i && 0 <= l < n_cols implies ix(n_cols as nat, k, l) < i
                        * n_cols by {
                        lemma_ix_bounds(i as nat, n_cols as nat, k, l);
                    }
                }
                cells.push(row[j]);
                j = j + 1;
            }
            proof {
                assert((i + 1) * n_cols == i * n_cols + n_cols) by (nonlinear_arith);
            }
            i = i + 1;
        }
        let n = cells.len();
        proof {
            if n_rows == 0 {
                assert(n_rows * n_cols == 0);
            }
        }
        Some(Grid { rows: n_rows, cols: n_cols, cells })
    }
}

/// Cell `(row, col)` lies inside the grid.
pub fn is_valid(grid: &Grid, row: usize, col: usize) -> (r: bool)
    ensures
        r == grid@.in_bounds((row, col)),
{
    row < grid.rows && col < grid.cols
}

/// Cell `(row, col)`, which lies inside the grid, is free.
pub fn is_unblocked(grid: &Grid, row: usize, col: usize) -> (r: bool)
    requires
        grid.wf(),
        grid@.in_bounds((row, col)),
    ensures
        r == grid@.is_free((row, col)),
{
    proof {
        lemma_ix_bounds(grid.rows as nat, grid.cols as nat, row as int, col as int);
    }
    grid.cells[row * grid.cols + col]
}

/// Cell `(row, col)` is the destination `dest`.
pub fn is_destination(row: usize, col: usize, dest: (usize, usize)) -> (r: bool)
    ensures
        r == ((row, col) == dest),
{
    row == dest.0 && col == dest.1
}

/// The cell one move from `p` in direction `d` (right, left, down, up),
/// when it lies inside a grid of the given size.
pub open spec fn step(g: GridView, p: (usize, usize), d: int) -> Option<(usize, usize)> {
    if d == 0 {
        if p.1 + 1 < g.cols {
            Some((p.0, (p.1 + 1) as usize))
        } else {
            None
        }
    } else if d == 1 {
        if p.1 > 0 {
            Some((p.0, (p.1 - 1) as usize))
        } else {
            None
        }
    } else if d == 2 {
        if p.0 + 1 < g.rows {
            Some(((p.0 + 1) as usize, p.1))
        } else {
            None
        }
    } else {
        if p.0 > 0 {
            Some(((p.0 - 1) as usize, p.1))
        } else {
            None
        }
    }
}

/// Between two cells of a grid lie fewer moves than it has cells.
pub proof fn lemma_dist_fits(g: GridView, p: (usize, usize), q: (usize, usize))
    requires
        g.wf(),
        g.in_bounds(p),
        g.in_bounds(q),
    ensures
        manhattan_dist(p, q) < g.rows * g.cols,
        manhattan_dist(p, q) <= usize::MAX,
{
    assert(g.rows + g.cols - 1 <= g.rows * g.cols) by (nonlinear_arith)
        requires
            g.rows >= 1,
            g.cols >= 1,
    ;
}

/// The four steps are exactly the neighbours of a cell inside the grid.
pub proof fn lemma_step(g: GridView, p: (usize, usize), q: (usize, usize))
    requires
        g.wf(),
        g.in_bounds(p),
    ensures
        forall|d: int| 0 <= d < 4 && #[trigger] step(g, p, d) is Some ==> g.in_bounds(step(g, p, d)->Some_0) && adjacent(p, step(g, p, d)->Some_0),
        g.in_bounds(q) && adjacent(p, q) ==> exists|d: int| 0 <= d < 4 && #[trigger] step(g, p, d) == Some(q),
{
    assert(g.rows <= g.rows * g.cols && g.cols <= g.rows * g.cols) by (nonlinear_arith)
        requires
            g.rows >= 1,
            g.cols >= 1,
    ;
    assert forall|d: int| 0 <= d < 4 && #[trigger] step(g, p, d) is Some implies g.in_bounds(
        step(g, p, d)->Some_0,
    ) && adjacent(p, step(g, p, d)->Some_0) by {
        if d == 0 {
        } else if d == 1 {
        } else if d == 2 {
        } else {
        }
    }
    if g.in_bounds(q) && adjacent(p, q) {
        if q.1 == p.1 + 1 {
            assert(step(g, p, 0) == Some(q));
        } else if q.1 + 1 == p.1 {
            assert(step(g, p, 1) == Some(q));
        } else if q.0 == p.0 + 1 {
            assert(step(g, p, 2) == Some(q));
        } else {
            assert(step(g, p, 3) == Some(q));
        }
    }
}

impl Grid {
    pub fn rows(&self) -> (r: usize)
        ensures
            r == self@.rows,
    {
        self.rows
    }

    pub fn cols(&self) -> (r: usize)
        ensures
            r == self@.cols,
    {
        self.cols
    }

    /// The neighbour of `p` in direction `d`, as `step` describes it.
    pub fn neighbor(&self, p: (usize, usize), d: usize) -> (r: Option<(usize, usize)>)
        requires
            self@.in_bounds(p),
        ensures
            r == step(self@, p, d as int),
    {
        if d == 0 {
            if p.1 + 1 < self.cols {
                Some((p.0, p.1 + 1))
            } else {
                None
            }
        } else if d == 1 {
            if p.1 > 0 {
                Some((p.0, p.1 - 1))
            } else {
                None
            }
        } else if d == 2 {
            if p.0 + 1 < self.rows {
                Some((p.0 + 1, p.1))
            } else {
                None
            }
        } else {
            if p.0 > 0 {
                Some((p.0 - 1, p.1))
            } else {
                None
            }
        }
    }
}

} // verus!
