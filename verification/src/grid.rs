//! The occupancy grid: one boolean per square cell, `true` where an agent may
//! walk. Shelving lanes block whole columns; nothing else is rasterized.

use vstd::prelude::*;

verus! {

/// `value` raised to `min` and then lowered to `max`, in that order.
pub open spec fn clamped(value: int, min: int, max: int) -> int {
    let raised = if value < min { min } else { value };
    if raised > max { max } else { raised }
}

/// Limits `value` to the range from `min` to `max`. Where the range is empty
/// the upper end wins.
pub fn clamp(value: i32, min: i32, max: i32) -> (out: i32)
    ensures
        out == clamped(value as int, min as int, max as int),
{
    let raised: i32 = if value < min { min } else { value };
    if raised > max { max } else { raised }
}

/// Whether the cell at (`col`, `row`) exists in `grid` and is walkable. A cell
/// outside the grid, or beyond the end of a short row, is not.
pub open spec fn walkable(grid: Seq<Vec<bool>>, col: int, row: int) -> bool {
    &&& 0 <= row < grid.len()
    &&& 0 <= col < grid[row]@.len()
    &&& grid[row]@[col]
}

/// Number of columns: the length of the first row, zero for an empty grid.
pub open spec fn grid_cols(grid: Seq<Vec<bool>>) -> int {
    if grid.len() == 0 { 0 } else { grid[0]@.len() as int }
}

/// Some cell of the grid is walkable.
pub open spec fn has_walkable(grid: Seq<Vec<bool>>) -> bool {
    exists|col: int, row: int| walkable(grid, col, row)
}

/// Both dimensions of the grid can be written as cell indices.
pub open spec fn indexable(grid: Seq<Vec<bool>>) -> bool {
    grid.len() <= i32::MAX && grid_cols(grid) <= i32::MAX
}

/// Every row has the width of the first, and both dimensions can be written
/// as cell indices.
pub open spec fn rectangular(grid: Seq<Vec<bool>>) -> bool {
    &&& indexable(grid)
    &&& forall|r: int| 0 <= r < grid.len() ==> (#[trigger] grid[r])@.len() == grid_cols(grid)
}

/// Whether `cell`, given as (column, row), is a walkable cell of `grid`.
pub open spec fn cell_walkable(grid: Seq<Vec<bool>>, cell: (i32, i32)) -> bool {
    walkable(grid, cell.0 as int, cell.1 as int)
}

/// Whether `cell`, given as (column, row), lies inside the grid.
pub open spec fn in_grid(grid: Seq<Vec<bool>>, cell: (i32, i32)) -> bool {
    0 <= cell.1 < grid.len() && 0 <= cell.0 < grid_cols(grid)
}

/// Looks up one cell; anything outside the grid counts as blocked.
pub fn is_walkable(grid: &Vec<Vec<bool>>, col: i32, row: i32) -> (out: bool)
    ensures
        out == walkable(grid@, col as int, row as int),
{
    if row < 0 || col < 0 {
        return false;
    }
    let r: usize = row as usize;
    let c: usize = col as usize;
    r < grid.len() && c < grid[r].len() && grid[r][c]
}

/// Column count of `grid` as the search sees it.
pub fn column_count(grid: &Vec<Vec<bool>>) -> (out: usize)
    ensures
        out == grid_cols(grid@),
{
    if grid.len() == 0 { 0 } else { grid[0].len() }
}

/// Whether the lane with raw column span `span` (first and last column, not
/// yet limited to the grid) blocks column `col` of a grid `cols` wide.
pub open spec fn span_covers(span: (i32, i32), cols: int, col: int) -> bool {
    clamped(span.0 as int, 0, cols - 1) <= col <= clamped(span.1 as int, 0, cols - 1)
}

/// Whether one of the first `upto` lanes blocks column `col`.
pub open spec fn lanes_cover(spans: Seq<(i32, i32)>, upto: int, cols: int, col: int) -> bool {
    exists|k: int| 0 <= k < upto && #[trigger] span_covers(spans[k], cols, col)
}

/// Whether any lane blocks column `col`.
pub open spec fn column_blocked(spans: Seq<(i32, i32)>, cols: int, col: int) -> bool {
    lanes_cover(spans, spans.len() as int, cols, col)
}

/// `grid` is the rasterization of the lanes `spans` into `rows` by `cols`
/// cells: rectangular, and a cell is walkable exactly when no lane covers its
/// column.
pub open spec fn is_nav_grid(grid: Seq<Vec<bool>>, rows: int, cols: int, spans: Seq<(i32, i32)>) -> bool {
    &&& grid.len() == rows
    &&& forall|r: int| 0 <= r < rows ==> (#[trigger] grid[r])@.len() == cols
    &&& forall|r: int, c: int|
        0 <= r < rows && 0 <= c < cols ==> (#[trigger] grid[r]@[c]) == !column_blocked(spans, cols, c)
}

/// A raw column index limited to the columns of a grid that has at least one.
fn clamp_column(col: i32, cols: usize) -> (out: usize)
    requires
        cols > 0,
    ensures
        out == clamped(col as int, 0, cols - 1),
        out < cols,
{
    if col < 0 {
        0
    } else if col as usize > cols - 1 {
        cols - 1
    } else {
        col as usize
    }
}

/// One row of the grid: every column walkable but those under a lane.
fn build_row(cols: usize, spans: &Vec<(i32, i32)>) -> (line: Vec<bool>)
    ensures
        line@.len() == cols,
        forall|c: int| 0 <= c < cols ==> (#[trigger] line@[c]) == !column_blocked(spans@, cols as int, c),
{
    let mut line: Vec<bool> = vec![true; cols];
    if cols == 0 {
        return line;
    }
    let mut k: usize = 0;
    while k < spans.len()
        invariant
            cols > 0,
            k <= spans.len(),
            line@.len() == cols,
            forall|c: int| 0 <= c < cols ==> (#[trigger] line@[c]) == !lanes_cover(spans@, k as int, cols as int, c),
        decreases spans.len() - k,
    {
        let first: usize = clamp_column(spans[k].0, cols);
        let last: usize = clamp_column(spans[k].1, cols);
        let ghost before = line@;
        let mut c: usize = first;
        while c <= last
            invariant
                first <= c,
                c <= last + 1 || c == first,
                last < cols,
                line@.len() == cols,
                before.len() == cols,
                forall|j: int| 0 <= j < cols ==> (#[trigger] line@[j]) == (before[j] && !(first <= j < c)),
            decreases last + 1 - c,
        {
            line[c] = false;
            c = c + 1;
        }
        proof {
            assert forall|j: int| 0 <= j < cols implies (#[trigger] line@[j]) == !lanes_cover(
                spans@,
                k + 1,
                cols as int,
                j,
            ) by {
                let covered_now = span_covers(spans@[k as int], cols as int, j);
                assert(covered_now == (first <= j <= last));
                if lanes_cover(spans@, k + 1, cols as int, j) {
                    let w = choose|w: int| 0 <= w < k + 1 && #[trigger] span_covers(spans@[w], cols as int, j);
                    if w < k {
                        assert(lanes_cover(spans@, k as int, cols as int, j));
                    }
                }
                if covered_now {
                    assert(lanes_cover(spans@, k + 1, cols as int, j));
                }
                if lanes_cover(spans@, k as int, cols as int, j) {
                    let w = choose|w: int| 0 <= w < k && #[trigger] span_covers(spans@[w], cols as int, j);
                    assert(0 <= w < k + 1 && span_covers(spans@[w], cols as int, j));
                }
            }
        }
        k = k + 1;
    }
    line
}

/// Rasterizes the lanes into a fresh grid of `rows` by `cols` cells. Each
/// entry of `spans` is the first and last column index of one lane as computed
/// from its position, before limiting to the grid; every row of every covered
/// column is blocked, since lanes run the full length of the store.
pub fn build_nav_grid(rows: usize, cols: usize, spans: &Vec<(i32, i32)>) -> (grid: Vec<Vec<bool>>)
    ensures
        is_nav_grid(grid@, rows as int, cols as int, spans@),
{
    let line: Vec<bool> = build_row(cols, spans);
    let mut grid: Vec<Vec<bool>> = Vec::new();
    let mut r: usize = 0;
    while r < rows
        invariant
            r <= rows,
            grid@.len() == r,
            line@.len() == cols,
            forall|i: int| 0 <= i < r ==> (#[trigger] grid@[i])@ == line@,
        decreases rows - r,
    {
        let copy: Vec<bool> = line.clone();
        assert(copy@ =~= line@);
        grid.push(copy);
        r = r + 1;
    }
    grid
}

} // verus!
