use vstd::prelude::*;

verus! {

/// A raster stored row-major: the cell at row `r`, column `c` is `cells[r * cols + c]`.
pub struct Grid<T> {
    pub rows: usize,
    pub cols: usize,
    pub cells: Vec<T>,
}

/// Flat index of the cell at row `r`, column `c` in a raster of `cols` columns.
pub open spec fn flat(cols: int, r: int, c: int) -> int {
    r * cols + c
}

/// Whether `(r, c)` lies on a raster of `rows` by `cols` cells.
pub open spec fn on_grid(rows: int, cols: int, r: int, c: int) -> bool {
    0 <= r < rows && 0 <= c < cols
}

impl<T> Grid<T> {
    /// The cell vector holds exactly one value per cell.
    pub open spec fn wf(&self) -> bool {
        self.cells@.len() == self.rows * self.cols
    }

    pub open spec fn contains(&self, r: int, c: int) -> bool {
        on_grid(self.rows as int, self.cols as int, r, c)
    }

    pub open spec fn at(&self, r: int, c: int) -> T {
        self.cells@[flat(self.cols as int, r, c)]
    }

    pub fn new(rows: usize, cols: usize, cells: Vec<T>) -> (g: Option<Grid<T>>)
        ensures
            g is Some <==> cells@.len() == rows * cols,
            g matches Some(g) ==> g.rows == rows && g.cols == cols && g.cells@ == cells@,
    {
        let len = cells.len();
        match rows.checked_mul(cols) {
            Some(n) => {
                if len == n {
                    Some(Grid { rows, cols, cells })
                } else {
                    None
                }
            },
            None => {
                proof {
                    lemma_len_bounded(len as nat, rows as int, cols as int);
                }
                None
            },
        }
    }
}

impl<T> Grid<T> {
    /// Whether the cell vector holds exactly one value per cell.
    pub fn is_wf(&self) -> (b: bool)
        ensures
            b == self.wf(),
    {
        let len = self.cells.len();
        match self.rows.checked_mul(self.cols) {
            Some(n) => len == n,
            None => {
                proof {
                    lemma_len_bounded(len as nat, self.rows as int, self.cols as int);
                }
                false
            },
        }
    }
}

impl<T: Copy> Grid<T> {
    /// The value at row `r`, column `c`.
    pub fn get(&self, r: usize, c: usize) -> (v: T)
        requires
            self.wf(),
            self.contains(r as int, c as int),
        ensures
            v == self.at(r as int, c as int),
    {
        let n = self.cells.len();
        proof {
            lemma_flat_in_range(self.rows as int, self.cols as int, r as int, c as int);
        }
        self.cells[r * self.cols + c]
    }
}

proof fn lemma_len_bounded(len: nat, rows: int, cols: int)
    requires
        len <= usize::MAX,
        rows * cols > usize::MAX,
    ensures
        len != rows * cols,
{
}

/// A cell on the raster has a flat index below the number of cells.
pub proof fn lemma_flat_in_range(rows: int, cols: int, r: int, c: int)
    requires
        on_grid(rows, cols, r, c),
    ensures
        0 <= flat(cols, r, c) < rows * cols,
        r * cols <= flat(cols, r, c),
{
    assert(0 <= r * cols) by (nonlinear_arith)
        requires
            0 <= r,
            0 <= cols,
    ;
    assert(r * cols + c < rows * cols) by (nonlinear_arith)
        requires
            0 <= r < rows,
            0 <= c < cols,
    ;
}

/// A raster with cells has columns, and no more rows than cells.
pub proof fn lemma_dims(rows: int, cols: int)
    requires
        rows >= 0,
        cols >= 0,
        rows * cols > 0,
    ensures
        cols > 0,
        rows <= rows * cols,
        cols <= rows * cols,
{
    assert(cols > 0 && rows > 0) by (nonlinear_arith)
        requires
            rows >= 0,
            cols >= 0,
            rows * cols > 0,
    ;
    assert(rows <= rows * cols && cols <= rows * cols) by (nonlinear_arith)
        requires
            rows > 0,
            cols > 0,
    ;
}

/// Row and column are recovered from a flat index.
pub proof fn lemma_flat_inverse(rows: int, cols: int, i: int)
    requires
        0 <= i < rows * cols,
        cols > 0,
    ensures
        on_grid(rows, cols, i / cols, i % cols),
        flat(cols, i / cols, i % cols) == i,
{
    assert(i == (i / cols) * cols + i % cols) by (nonlinear_arith)
        requires
            cols > 0,
    ;
    assert(i / cols < rows) by (nonlinear_arith)
        requires
            0 <= i < rows * cols,
            cols > 0,
    ;
    assert(0 <= i / cols) by (nonlinear_arith)
        requires
            0 <= i,
            cols > 0,
    ;
}

/// Distinct cells have distinct flat indices.
pub proof fn lemma_flat_injective(rows: int, cols: int, r1: int, c1: int, r2: int, c2: int)
    requires
        on_grid(rows, cols, r1, c1),
        on_grid(rows, cols, r2, c2),
        flat(cols, r1, c1) == flat(cols, r2, c2),
    ensures
        r1 == r2 && c1 == c2,
{
    if r1 < r2 {
        assert(r1 * cols + cols <= r2 * cols) by (nonlinear_arith)
            requires
                r1 < r2,
                cols >= 0,
        ;
    } else if r2 < r1 {
        assert(r2 * cols + cols <= r1 * cols) by (nonlinear_arith)
            requires
                r2 < r1,
                cols >= 0,
        ;
    }
}

} // verus!
