//! Density modes and the uniform spatial grid used for collision lookups.

use vstd::prelude::*;

verus! {

/// How the density map is derived from the image.
#[derive(Clone, Copy, Debug, PartialEq, Eq, Structural)]
pub enum DensityMode {
    /// Inverted luminance: density grows with darkness.
    Luma,
    /// Sobel filter: density grows along contours.
    Sobel,
    /// Weighted blend: alpha * sobel + (1 - alpha) * luma.
    Blend,
}


/// Flat index into a `width` x `height` per-pixel map of the pixel at
/// `(xi, yi)`, each coordinate clamped to the image.
pub open spec fn map_index_spec(xi: u32, yi: u32, width: u32, height: u32) -> int {
    let x: int = if xi < width - 1 { xi as int } else { width - 1 };
    let y: int = if yi < height - 1 { yi as int } else { height - 1 };
    y * width + x
}

/// Index of the radius-map entry for pixel `(xi, yi)` (the point's
/// coordinates truncated to whole pixels), clamped to the image. The index
/// is computed in `u32`, so it must fit there.
pub fn radius_index(xi: u32, yi: u32, width: u32, height: u32) -> (k: usize)
    requires
        width >= 1,
        height >= 1,
        map_index_spec(xi, yi, width, height) <= u32::MAX,
    ensures
        k == map_index_spec(xi, yi, width, height),
        k < width * height,
{
    let x: u32 = if xi < width - 1 { xi } else { width - 1 };
    let y: u32 = if yi < height - 1 { yi } else { height - 1 };
    proof {
        assert(y * width + x < width * height) by (nonlinear_arith)
            requires x < width, y < height;
        assert(0 <= y * width) by (nonlinear_arith)
            requires y >= 0, width >= 0;
    }
    (y * width + x) as usize
}

/// Marker of a grid cell that holds no point.
pub const EMPTY: u32 = 0xffff_ffffu32;

/// Uniform spatial grid for collision lookups of sampled points.
/// Cells are stored row-major, indexed `[y * cols + x]`; each holds the index
/// of the point placed in it, or `EMPTY`.
pub struct Grid {
    pub cols: usize,
    pub rows: usize,
    cells: Vec<u32>,
    pub width: u32,
    pub height: u32,
}

/// Column of flat cell index `k` in a grid with `cols` columns.
pub open spec fn col_of(k: int, cols: int) -> int {
    k % cols
}

/// Row of flat cell index `k` in a grid with `cols` columns.
pub open spec fn row_of(k: int, cols: int) -> int {
    k / cols
}

/// Whether flat cell `k` lies in the square window of half-width `search`
/// centred on cell `(cx, cy)`.
pub open spec fn in_window(k: int, cols: int, cx: int, cy: int, search: int) -> bool {
    &&& cx - search <= col_of(k, cols) <= cx + search
    &&& cy - search <= row_of(k, cols) <= cy + search
}

/// The occupied entries among the first `k` cells that lie in the window,
/// in row-major order.
pub open spec fn window_entries(
    cells: Seq<u32>,
    cols: int,
    k: int,
    cx: int,
    cy: int,
    search: int,
) -> Seq<u32>
    decreases k,
{
    if k <= 0 {
        seq![]
    } else {
        let prev = window_entries(cells, cols, k - 1, cx, cy, search);
        if in_window(k - 1, cols, cx, cy, search) && cells[k - 1] != EMPTY {
            prev.push(cells[k - 1])
        } else {
            prev
        }
    }
}

/// Flat index of the cell at `(gx, gy)`, each coordinate clamped to the grid.
pub open spec fn clamped_cell(cols: int, rows: int, gx: int, gy: int) -> int {
    let cx = if gx < cols - 1 { gx } else { cols - 1 };
    let cy = if gy < rows - 1 { gy } else { rows - 1 };
    cy * cols + cx
}

/// Cells between `a` and `b` that hold nothing in the window add nothing.
proof fn lemma_window_skip(cells: Seq<u32>, cols: int, a: int, b: int, cx: int, cy: int, s: int)
    requires
        0 <= a <= b,
        forall|j: int|
            a <= j < b ==> !(in_window(j, cols, cx, cy, s) && cells[j] != EMPTY),
    ensures
        window_entries(cells, cols, b, cx, cy, s) == window_entries(cells, cols, a, cx, cy, s),
    decreases b - a,
{
    if b > a {
        lemma_window_skip(cells, cols, a, b - 1, cx, cy, s);
    }
}

proof fn lemma_flat_index(y: int, x: int, cols: int)
    requires
        cols > 0,
        0 <= x < cols,
        y >= 0,
    ensures
        row_of(y * cols + x, cols) == y,
        col_of(y * cols + x, cols) == x,
        0 <= y * cols + x,
{
    vstd::arithmetic::div_mod::lemma_fundamental_div_mod_converse(y * cols + x, cols, y, x);
    assert(0 <= y * cols) by (nonlinear_arith)
        requires y >= 0, cols > 0;
}

proof fn lemma_flat_bound(y: int, x: int, cols: int, rows: int)
    requires
        0 <= x < cols,
        0 <= y < rows,
    ensures
        y * cols + x < cols * rows,
        0 <= y * cols + x,
{
    assert(y * cols + x < cols * rows) by (nonlinear_arith)
        requires 0 <= x < cols, 0 <= y < rows;
    assert(0 <= y * cols) by (nonlinear_arith)
        requires y >= 0, cols > 0;
}

/// Every flat index splits into a row and a column inside the grid.
proof fn lemma_flat_split(k: int, cols: int, rows: int)
    requires
        cols > 0,
        0 <= k < cols * rows,
    ensures
        0 <= row_of(k, cols) < rows,
        0 <= col_of(k, cols) < cols,
        k == row_of(k, cols) * cols + col_of(k, cols),
{
    vstd::arithmetic::div_mod::lemma_fundamental_div_mod(k, cols);
    let y = k / cols;
    let x = k % cols;
    assert(0 <= x < cols);
    assert(cols * y == y * cols) by (nonlinear_arith);
    assert(0 <= y < rows) by (nonlinear_arith)
        requires k == y * cols + x, 0 <= x < cols, 0 <= k < cols * rows, cols > 0;
}

/// Mathematical model of a grid: its dimensions and the cells' entries, row-major.
pub struct GridModel {
    pub cols: int,
    pub rows: int,
    pub width: int,
    pub height: int,
    pub cells: Seq<u32>,
}

impl GridModel {
    /// Well-formedness: at least one cell in each direction, and one entry per cell.
    pub open spec fn wf(self) -> bool {
        &&& self.cols >= 1
        &&& self.rows >= 1
        &&& self.cols * self.rows <= isize::MAX
        &&& self.cells.len() == self.cols * self.rows
    }

    /// The entry of the cell in column `x` and row `y`.
    pub open spec fn at(self, x: int, y: int) -> u32 {
        self.cells[y * self.cols + x]
    }

    /// Flat index of the cell at `(gx, gy)`, each coordinate clamped.
    pub open spec fn cell_at(self, gx: int, gy: int) -> int {
        clamped_cell(self.cols, self.rows, gx, gy)
    }
}

impl View for Grid {
    type V = GridModel;

    closed spec fn view(&self) -> GridModel {
        GridModel {
            cols: self.cols as int,
            rows: self.rows as int,
            width: self.width as int,
            height: self.height as int,
            cells: self.cells@,
        }
    }
}

/// A neighbourhood query reports exactly the registered points of its
/// window: every occupied cell of the window contributes its point, and every
/// reported point comes from an occupied cell of the window.
pub proof fn lemma_window_entries_exact(
    cells: Seq<u32>,
    cols: int,
    n: int,
    cx: int,
    cy: int,
    search: int,
)
    requires
        0 <= n <= cells.len(),
    ensures
        forall|k: int|
            0 <= k < n && in_window(k, cols, cx, cy, search) && #[trigger] cells[k] != EMPTY
                ==> window_entries(cells, cols, n, cx, cy, search).contains(cells[k]),
        forall|e: u32|
            #[trigger] window_entries(cells, cols, n, cx, cy, search).contains(e) ==> e != EMPTY
                && exists|k: int|
                0 <= k < n && in_window(k, cols, cx, cy, search) && cells[k] == e,
    decreases n,
{
    if n > 0 {
        lemma_window_entries_exact(cells, cols, n - 1, cx, cy, search);
        let prev = window_entries(cells, cols, n - 1, cx, cy, search);
        let cur = window_entries(cells, cols, n, cx, cy, search);
        assert forall|k: int|
            0 <= k < n && in_window(k, cols, cx, cy, search) && #[trigger] cells[k] != EMPTY
                implies cur.contains(cells[k]) by {
            if k < n - 1 {
                let j = choose|j: int| 0 <= j < prev.len() && prev[j] == cells[k];
                assert(cur[j] == prev[j]);
            } else {
                assert(cur[cur.len() - 1] == cells[k]);
            }
        }
        assert forall|e: u32| #[trigger] cur.contains(e) implies e != EMPTY && exists|k: int|
            0 <= k < n && in_window(k, cols, cx, cy, search) && cells[k] == e by {
            let j = choose|j: int| 0 <= j < cur.len() && cur[j] == e;
            if j < prev.len() {
                assert(prev[j] == e);
                assert(prev.contains(e));
            } else {
                assert(cells[n - 1] == e);
            }
        }
    }
}

/// A point registered in a cell is reported by every later query whose
/// window covers that cell.
pub proof fn lemma_inserted_point_visible(
    before: GridModel,
    after: GridModel,
    gx: int,
    gy: int,
    idx: usize,
    cx: int,
    cy: int,
    search: int,
)
    requires
        before.wf(),
        after == (GridModel {
            cells: before.cells.update(before.cell_at(gx, gy), idx as u32),
            ..before
        }),
        gx >= 0,
        gy >= 0,
        idx as u32 != EMPTY,
        in_window(before.cell_at(gx, gy), before.cols, cx, cy, search),
    ensures
        window_entries(after.cells, after.cols, after.cols * after.rows, cx, cy, search).contains(
            idx as u32,
        ),
{
    let k = before.cell_at(gx, gy);
    let x: int = if gx < before.cols - 1 { gx } else { before.cols - 1 };
    let y: int = if gy < before.rows - 1 { gy } else { before.rows - 1 };
    lemma_flat_bound(y, x, before.cols, before.rows);
    lemma_window_entries_exact(after.cells, after.cols, after.cols * after.rows, cx, cy, search);
    assert(after.cells[k] == idx as u32);
}

/// A neighbourhood query around cell `(cx, cy)` with half-width `search`
/// reports the point of every occupied cell whose column is within `search`
/// of `cx` and whose row is within `search` of `cy`, and nothing else.
pub proof fn lemma_query_covers_search_square(g: GridModel, cx: int, cy: int, search: int)
    requires
        g.wf(),
    ensures
        forall|x: int, y: int|
            0 <= x < g.cols && 0 <= y < g.rows && cx - search <= x <= cx + search && cy - search
                <= y <= cy + search && #[trigger] g.at(x, y) != EMPTY ==> window_entries(
                g.cells,
                g.cols,
                g.cols * g.rows,
                cx,
                cy,
                search,
            ).contains(g.at(x, y)),
        forall|e: u32|
            #[trigger] window_entries(g.cells, g.cols, g.cols * g.rows, cx, cy, search).contains(e)
                ==> e != EMPTY && exists|x: int, y: int|
                0 <= x < g.cols && 0 <= y < g.rows && cx - search <= x <= cx + search && cy
                    - search <= y <= cy + search && #[trigger] g.at(x, y) == e,
{
    let n = g.cols * g.rows;
    lemma_window_entries_exact(g.cells, g.cols, n, cx, cy, search);
    assert forall|x: int, y: int|
        0 <= x < g.cols && 0 <= y < g.rows && cx - search <= x <= cx + search && cy - search <= y
            <= cy + search && #[trigger] g.at(x, y) != EMPTY implies window_entries(
        g.cells,
        g.cols,
        n,
        cx,
        cy,
        search,
    ).contains(g.at(x, y)) by {
        lemma_flat_index(y, x, g.cols);
        lemma_flat_bound(y, x, g.cols, g.rows);
        let k = y * g.cols + x;
        assert(in_window(k, g.cols, cx, cy, search));
        assert(g.cells[k] != EMPTY);
    }
    assert forall|e: u32| #[trigger] window_entries(g.cells, g.cols, n, cx, cy, search).contains(e)
        implies e != EMPTY && exists|x: int, y: int|
        0 <= x < g.cols && 0 <= y < g.rows && cx - search <= x <= cx + search && cy - search <= y
            <= cy + search && #[trigger] g.at(x, y) == e by {
        let k = choose|k: int| 0 <= k < n && in_window(k, g.cols, cx, cy, search) && g.cells[k] == e;
        lemma_flat_split(k, g.cols, g.rows);
        let x = col_of(k, g.cols);
        let y = row_of(k, g.cols);
        assert(g.at(x, y) == e);
    }
}

impl Grid {

    /// A grid over a `width` x `height` image whose cells cover `span_cols`
    /// by `span_rows` cell widths; one extra column and row of cells guards
    /// the far edges. Every cell starts empty.
    pub fn new(width: u32, height: u32, span_cols: usize, span_rows: usize) -> (g: Grid)
        requires
            span_cols + 1 <= usize::MAX,
            span_rows + 1 <= usize::MAX,
            (span_cols + 1) * (span_rows + 1) * 4 <= isize::MAX,
        ensures
            g@.wf(),
            g@.cols == span_cols + 1,
            g@.rows == span_rows + 1,
            g@.width == width,
            g@.height == height,
            forall|k: int| 0 <= k < g@.cells.len() ==> g@.cells[k] == EMPTY,
    {
        let cols: usize = span_cols + 1;
        let rows: usize = span_rows + 1;
        assert(cols * rows <= (cols * rows) * 4) by (nonlinear_arith)
            requires cols >= 1, rows >= 1;
        let cells: Vec<u32> = vec![EMPTY; cols * rows];
        Grid { cols, rows, cells, width, height }
    }

    /// Convert grid coordinates (already floored) to a flat cell index,
    /// clamping each coordinate to the grid.
    fn cell_idx(&self, gx: usize, gy: usize) -> (ci: usize)
        requires
            self@.wf(),
        ensures
            ci == self@.cell_at(gx as int, gy as int),
            ci < self.cols * self.rows,
    {
        let cx: usize = if gx < self.cols - 1 { gx } else { self.cols - 1 };
        let cy: usize = if gy < self.rows - 1 { gy } else { self.rows - 1 };
        proof {
            lemma_flat_bound(cy as int, cx as int, self.cols as int, self.rows as int);
        }
        cy * self.cols + cx
    }

    /// The entry of the cell at grid coordinates `(gx, gy)` (clamped).
    pub fn cell_entry(&self, gx: usize, gy: usize) -> (e: u32)
        requires
            self@.wf(),
        ensures
            e == self@.cells[self@.cell_at(gx as int, gy as int)],
    {
        let ci = self.cell_idx(gx, gy);
        self.cells[ci]
    }

    /// Register point `idx` (narrowed to `u32`) in the cell at grid
    /// coordinates `(gx, gy)` (clamped), replacing what the cell held.
    pub fn insert(&mut self, gx: usize, gy: usize, idx: usize)
        requires
            old(self)@.wf(),
        ensures
            final(self)@ == (GridModel {
                cells: old(self)@.cells.update(old(self)@.cell_at(gx as int, gy as int), idx as u32),
                ..old(self)@
            }),
    {
        let ci = self.cell_idx(gx, gy);
        self.cells.set(ci, idx as u32);
    }

    /// Indices of the points registered in the square window of half-width
    /// `search` cells around cell `(cx, cy)`, cells outside the grid ignored,
    /// in row-major order.
    pub fn neighbors(&self, cx: isize, cy: isize, search: isize) -> (found: Vec<u32>)
        requires
            self@.wf(),
            search >= 0,
            isize::MIN <= cx - search,
            cx + search <= isize::MAX,
            isize::MIN <= cy - search,
            cy + search <= isize::MAX,
        ensures
            found@ == window_entries(
                self@.cells,
                self@.cols,
                self@.cols * self@.rows,
                cx as int,
                cy as int,
                search as int,
            ),
            forall|x: int, y: int|
                0 <= x < self@.cols && 0 <= y < self@.rows && cx - search <= x <= cx + search && cy
                    - search <= y <= cy + search && #[trigger] self@.at(x, y) != EMPTY
                    ==> found@.contains(self@.at(x, y)),
            forall|e: u32|
                #[trigger] found@.contains(e) ==> e != EMPTY && exists|x: int, y: int|
                    0 <= x < self@.cols && 0 <= y < self@.rows && cx - search <= x <= cx + search
                        && cy - search <= y <= cy + search && #[trigger] self@.at(x, y) == e,
    {
        proof {
            lemma_query_covers_search_square(self@, cx as int, cy as int, search as int);
        }
        let ghost cells = self.cells@;
        let ghost cols_i = self.cols as int;
        let ghost total = (self.cols * self.rows) as int;
        let mut found: Vec<u32> = Vec::new();
        assert(self.cols <= self.cols * self.rows && self.rows <= self.cols * self.rows)
            by (nonlinear_arith)
            requires self.cols >= 1, self.rows >= 1;
        let cols_s: isize = self.cols as isize;
        let rows_s: isize = self.rows as isize;
        let lo_x: isize = cx - search;
        let hi_x: isize = cx + search;
        let lo_y: isize = cy - search;
        let hi_y: isize = cy + search;
        if hi_x < 0 || hi_y < 0 || lo_x > cols_s - 1 || lo_y > rows_s - 1 {
            proof {
                assert forall|j: int| 0 <= j < total implies !(in_window(
                    j,
                    cols_i,
                    cx as int,
                    cy as int,
                    search as int,
                ) && cells[j] != EMPTY) by {
                    lemma_flat_split(j, cols_i, self.rows as int);
                }
                lemma_window_skip(cells, cols_i, 0, total, cx as int, cy as int, search as int);
            }
            return found;
        }
        let x_lo: usize = if lo_x < 0 { 0 } else { lo_x as usize };
        let x_hi: usize = if hi_x > cols_s - 1 { self.cols - 1 } else { hi_x as usize };
        let y_lo: usize = if lo_y < 0 { 0 } else { lo_y as usize };
        let y_hi: usize = if hi_y > rows_s - 1 { self.rows - 1 } else { hi_y as usize };
        proof {
            assert(y_lo * cols_i <= total) by (nonlinear_arith)
                requires y_lo < self.rows, total == cols_i * self.rows, cols_i > 0;
            assert forall|j: int| 0 <= j < y_lo * cols_i implies !(in_window(
                j,
                cols_i,
                cx as int,
                cy as int,
                search as int,
            ) && cells[j] != EMPTY) by {
                lemma_flat_split(j, cols_i, self.rows as int);
                let r = row_of(j, cols_i);
                assert(r < y_lo) by (nonlinear_arith)
                    requires j < y_lo * cols_i, j == r * cols_i + col_of(j, cols_i),
                        col_of(j, cols_i) >= 0, cols_i > 0;
            }
            lemma_window_skip(cells, cols_i, 0, y_lo * cols_i, cx as int, cy as int, search as int);
        }
        let mut y: usize = y_lo;
        while y <= y_hi
            invariant
                self@.wf(),
                cells == self@.cells,
                cols_i == self.cols,
                total == self.cols * self.rows,
                x_lo <= x_hi < self.cols,
                y_lo <= y <= y_hi + 1,
                y_hi < self.rows,
                x_lo as int == (if cx - search < 0 { 0 } else { cx - search }),
                x_hi as int == (if cx + search > cols_i - 1 { cols_i - 1 } else { cx + search }),
                y_lo as int == (if cy - search < 0 { 0 } else { cy - search }),
                y_hi as int == (if cy + search > self.rows - 1 { self.rows - 1 } else { cy + search }),
                found@ == window_entries(cells, cols_i, y * cols_i, cx as int, cy as int, search as int),
            decreases y_hi + 1 - y,
        {
            proof {
                assert forall|j: int| y * cols_i <= j < y * cols_i + x_lo implies !(in_window(
                    j,
                    cols_i,
                    cx as int,
                    cy as int,
                    search as int,
                ) && cells[j] != EMPTY) by {
                    lemma_flat_index(y as int, j - y * cols_i, cols_i);
                }
                lemma_window_skip(cells, cols_i, y * cols_i, y * cols_i + x_lo, cx as int, cy as int, search as int);
                lemma_flat_bound(y as int, x_hi as int, cols_i, self.rows as int);
            }
            let row_start: usize = y * self.cols;
            let mut x: usize = x_lo;
            while x <= x_hi
                invariant
                    self@.wf(),
                    cells == self@.cells,
                    cols_i == self.cols,
                    x_lo <= x <= x_hi + 1,
                    x_hi < self.cols,
                    y_lo <= y <= y_hi,
                    y_hi < self.rows,
                    row_start == y * cols_i,
                    row_start + x_hi < self.cols * self.rows,
                    x_lo as int == (if cx - search < 0 { 0 } else { cx - search }),
                    x_hi as int == (if cx + search > cols_i - 1 { cols_i - 1 } else { cx + search }),
                    y_lo as int == (if cy - search < 0 { 0 } else { cy - search }),
                    y_hi as int == (if cy + search > self.rows - 1 { self.rows - 1 } else { cy + search }),
                    found@ == window_entries(cells, cols_i, y * cols_i + x, cx as int, cy as int, search as int),
                decreases x_hi + 1 - x,
            {
                let k: usize = row_start + x;
                proof {
                    lemma_flat_index(y as int, x as int, cols_i);
                }
                let e = self.cells[k];
                if e != EMPTY {
                    found.push(e);
                }
                x += 1;
            }
            proof {
                assert forall|j: int| y * cols_i + x_hi + 1 <= j < (y + 1) * cols_i implies !(in_window(
                    j,
                    cols_i,
                    cx as int,
                    cy as int,
                    search as int,
                ) && cells[j] != EMPTY) by {
                    assert((y + 1) * cols_i == y * cols_i + cols_i) by (nonlinear_arith);
                    lemma_flat_index(y as int, j - y * cols_i, cols_i);
                }
                assert((y + 1) * cols_i == y * cols_i + cols_i) by (nonlinear_arith);
                lemma_window_skip(cells, cols_i, y * cols_i + x_hi + 1, (y + 1) * cols_i, cx as int, cy as int, search as int);
            }
            y += 1;
        }
        proof {
            assert((y_hi + 1) * cols_i <= total) by (nonlinear_arith)
                requires y_hi < self.rows, total == cols_i * self.rows, cols_i > 0;
            assert forall|j: int| (y_hi + 1) * cols_i <= j < total implies !(in_window(
                j,
                cols_i,
                cx as int,
                cy as int,
                search as int,
            ) && cells[j] != EMPTY) by {
                lemma_flat_split(j, cols_i, self.rows as int);
                let r = row_of(j, cols_i);
                assert(r > y_hi) by (nonlinear_arith)
                    requires j >= (y_hi + 1) * cols_i, j == r * cols_i + col_of(j, cols_i),
                        col_of(j, cols_i) < cols_i, cols_i > 0;
            }
            lemma_window_skip(cells, cols_i, (y_hi + 1) * cols_i, total, cx as int, cy as int, search as int);
        }
        found
    }
}

} // verus!
