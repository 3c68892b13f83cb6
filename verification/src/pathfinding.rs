//! Routes over the cells of an occupancy grid: what a route is, snapping a
//! cell to the nearest walkable one, listing walkable neighbours, and finding
//! a shortest route between two cells.

use vstd::prelude::*;
use crate::astar::search;
use crate::grid::{
    cell_walkable, clamp, clamped, column_blocked, column_count, grid_cols, has_walkable, in_grid, indexable,
    is_nav_grid, is_walkable, rectangular, walkable,
};
use crate::scores::UNREACHED;

verus! {

/// An entry of the search frontier: a cell and the estimated length of the
/// best route through it.
#[derive(Copy, Clone, Debug, PartialEq, Eq, Structural)]
pub struct Node {
    pub col: i32,
    pub row: i32,
    pub f_score: i32,
}

impl Node {
    /// The cell of this entry as (column, row).
    pub open spec fn cell(self) -> (i32, i32) {
        (self.col, self.row)
    }
}

/// Number of unit steps between two cells when moving along the axes only.
pub open spec fn manhattan(a: (i32, i32), b: (i32, i32)) -> int {
    (if a.0 >= b.0 { a.0 - b.0 } else { b.0 - a.0 }) + (if a.1 >= b.1 { a.1 - b.1 } else { b.1 - a.1 })
}

/// Two cells share an edge.
pub open spec fn adjacent(a: (i32, i32), b: (i32, i32)) -> bool {
    manhattan(a, b) == 1
}

/// The search's estimate of the remaining distance: the Manhattan distance
/// between the two cells.
pub fn heuristic(a: (i32, i32), b: (i32, i32)) -> (out: i32)
    requires
        manhattan(a, b) <= i32::MAX,
    ensures
        out == manhattan(a, b),
{
    let dc: i64 = if a.0 >= b.0 { a.0 as i64 - b.0 as i64 } else { b.0 as i64 - a.0 as i64 };
    let dr: i64 = if a.1 >= b.1 { a.1 as i64 - b.1 as i64 } else { b.1 as i64 - a.1 as i64 };
    (dc + dr) as i32
}

/// The one-element sequence of `cell` where `keep` holds, the empty one
/// otherwise.
pub open spec fn cell_if(keep: bool, cell: (i32, i32)) -> Seq<(i32, i32)> {
    if keep { seq![cell] } else { Seq::empty() }
}

/// The walkable cells that share an edge with (`col`, `row`), in the order
/// left, right, up, down.
pub open spec fn neighbor_cells(grid: Seq<Vec<bool>>, col: i32, row: i32) -> Seq<(i32, i32)> {
    cell_if(col > 0 && walkable(grid, col - 1, row as int), ((col - 1) as i32, row))
        + cell_if(col < grid_cols(grid) - 1 && walkable(grid, col + 1, row as int), ((col + 1) as i32, row))
        + cell_if(row > 0 && walkable(grid, col as int, row - 1), (col, (row - 1) as i32))
        + cell_if(row < grid.len() - 1 && walkable(grid, col as int, row + 1), (col, (row + 1) as i32))
}

/// Lists the walkable neighbours of a cell. The cell itself may lie anywhere,
/// also outside the grid.
pub fn neighbors(col: i32, row: i32, grid: &Vec<Vec<bool>>) -> (list: Vec<(i32, i32)>)
    requires
        indexable(grid@),
    ensures
        list@ == neighbor_cells(grid@, col, row),
{
    let mut list: Vec<(i32, i32)> = Vec::new();
    let max_col: i32 = column_count(grid) as i32 - 1;
    let max_row: i32 = grid.len() as i32 - 1;
    if col > 0 && is_walkable(grid, col - 1, row) {
        list.push((col - 1, row));
    }
    if col < max_col && is_walkable(grid, col + 1, row) {
        list.push((col + 1, row));
    }
    if row > 0 && is_walkable(grid, col, row - 1) {
        list.push((col, row - 1));
    }
    if row < max_row && is_walkable(grid, col, row + 1) {
        list.push((col, row + 1));
    }
    assert(list@ =~= neighbor_cells(grid@, col, row));
    list
}

/// Every walkable cell next to `cell` is listed among its neighbours.
pub proof fn neighbor_cells_complete(grid: Seq<Vec<bool>>, cell: (i32, i32), next: (i32, i32))
    requires
        rectangular(grid),
        adjacent(cell, next),
        cell_walkable(grid, next),
    ensures
        neighbor_cells(grid, cell.0, cell.1).contains(next),
{
    let a = cell_if(cell.0 > 0 && walkable(grid, cell.0 - 1, cell.1 as int), ((cell.0 - 1) as i32, cell.1));
    let b = cell_if(
        cell.0 < grid_cols(grid) - 1 && walkable(grid, cell.0 + 1, cell.1 as int),
        ((cell.0 + 1) as i32, cell.1),
    );
    let c = cell_if(cell.1 > 0 && walkable(grid, cell.0 as int, cell.1 - 1), (cell.0, (cell.1 - 1) as i32));
    let d = cell_if(
        cell.1 < grid.len() - 1 && walkable(grid, cell.0 as int, cell.1 + 1),
        (cell.0, (cell.1 + 1) as i32),
    );
    let all = neighbor_cells(grid, cell.0, cell.1);
    assert(all == a + b + c + d);
    if next.0 == cell.0 - 1 {
        assert(a[0] == next);
        assert(all[0] == next);
    } else if next.0 == cell.0 + 1 {
        assert(b[0] == next);
        assert(all[a.len() as int] == next);
    } else if next.1 == cell.1 - 1 {
        assert(c[0] == next);
        assert(all[(a.len() + b.len()) as int] == next);
    } else {
        assert(next.1 == cell.1 + 1);
        assert(d[0] == next);
        assert(all[(a.len() + b.len() + c.len()) as int] == next);
    }
}

/// Every listed neighbour is a walkable cell that shares an edge with the
/// cell it was listed for.
pub proof fn neighbor_cells_sound(grid: Seq<Vec<bool>>, cell: (i32, i32), k: int)
    requires
        rectangular(grid),
        0 <= k < neighbor_cells(grid, cell.0, cell.1).len(),
    ensures
        adjacent(cell, neighbor_cells(grid, cell.0, cell.1)[k]),
        cell_walkable(grid, neighbor_cells(grid, cell.0, cell.1)[k]),
{
}

/// `a` is at least as good a snapping target for `from` as `b`: strictly
/// closer, or equally close and not later in row-major order.
pub open spec fn snaps_before(from: (i32, i32), a: (i32, i32), b: (i32, i32)) -> bool {
    manhattan(a, from) < manhattan(b, from) || (manhattan(a, from) == manhattan(b, from) && (a.1 < b.1 || (a.1
        == b.1 && a.0 <= b.0)))
}

/// `out` is the walkable cell nearest to `from` in Manhattan distance; among
/// equally near cells it is the first in row-major order.
pub open spec fn is_nearest(grid: Seq<Vec<bool>>, from: (i32, i32), out: (i32, i32)) -> bool {
    &&& cell_walkable(grid, out)
    &&& forall|other: (i32, i32)| #[trigger] cell_walkable(grid, other) ==> snaps_before(from, out, other)
}

/// The cell that `from` snaps to: the nearest walkable cell, or `from` itself
/// where the grid has no walkable cell at all.
pub open spec fn nearest_walkable(grid: Seq<Vec<bool>>, from: (i32, i32)) -> (i32, i32) {
    if exists|out: (i32, i32)| is_nearest(grid, from, out) {
        choose|out: (i32, i32)| is_nearest(grid, from, out)
    } else {
        from
    }
}

/// At most one cell is the nearest walkable cell.
pub proof fn nearest_is_unique(grid: Seq<Vec<bool>>, from: (i32, i32), a: (i32, i32), b: (i32, i32))
    requires
        is_nearest(grid, from, a),
        is_nearest(grid, from, b),
    ensures
        a == b,
{
    assert(snaps_before(from, a, b));
    assert(snaps_before(from, b, a));
}

/// Snaps a cell to the nearest walkable cell of the grid. A walkable cell
/// snaps to itself. Where no cell of the grid is walkable the whole grid has
/// been looked at in vain and the cell is handed back as it came.
pub fn find_nearest_walkable(col: i32, row: i32, grid: &Vec<Vec<bool>>) -> (out: (i32, i32))
    requires
        rectangular(grid@),
    ensures
        out == nearest_walkable(grid@, (col, row)),
        has_walkable(grid@) ==> is_nearest(grid@, (col, row), out),
        !has_walkable(grid@) ==> out == (col, row),
        cell_walkable(grid@, (col, row)) ==> out == (col, row),
        in_grid(grid@, (col, row)) ==> in_grid(grid@, out),
{
    if is_walkable(grid, col, row) {
        proof {
            assert forall|other: (i32, i32)| #[trigger] cell_walkable(grid@, other) implies snaps_before(
                (col, row),
                (col, row),
                other,
            ) by {}
            assert(is_nearest(grid@, (col, row), (col, row)));
            let pick = nearest_walkable(grid@, (col, row));
            nearest_is_unique(grid@, (col, row), pick, (col, row));
        }
        return (col, row);
    }
    let from: (i32, i32) = (col, row);
    let rows: usize = grid.len();
    let cols: usize = column_count(grid);
    let mut best: (i32, i32) = from;
    let mut best_distance: i64 = 0;
    let mut found: bool = false;
    let mut r: usize = 0;
    while r < rows
        invariant
            rectangular(grid@),
            rows == grid@.len(),
            cols == grid_cols(grid@),
            r <= rows,
            from == (col, row),
            !found ==> best == from,
            found ==> cell_walkable(grid@, best) && best_distance == manhattan(best, from) && best.1 < r,
            forall|other: (i32, i32)| #[trigger]
                cell_walkable(grid@, other) && other.1 < r ==> found && snaps_before(from, best, other),
        decreases rows - r,
    {
        let mut c: usize = 0;
        while c < cols
            invariant
                rectangular(grid@),
                rows == grid@.len(),
                cols == grid_cols(grid@),
                r < rows,
                c <= cols,
                from == (col, row),
                !found ==> best == from,
                found ==> cell_walkable(grid@, best) && best_distance == manhattan(best, from) && (best.1 < r
                    || (best.1 == r && best.0 < c)),
                forall|other: (i32, i32)| #[trigger]
                    cell_walkable(grid@, other) && (other.1 < r || (other.1 == r && other.0 < c)) ==> found
                        && snaps_before(from, best, other),
            decreases cols - c,
        {
            let ghost before = best;
            let ghost had = found;
            if grid[r][c] {
                let here: (i32, i32) = (c as i32, r as i32);
                let dc: i64 = if here.0 >= col { here.0 as i64 - col as i64 } else { col as i64 - here.0 as i64 };
                let dr: i64 = if here.1 >= row { here.1 as i64 - row as i64 } else { row as i64 - here.1 as i64 };
                let distance: i64 = dc + dr;
                if !found || distance < best_distance {
                    best = here;
                    best_distance = distance;
                    found = true;
                }
            }
            proof {
                assert(grid@[r as int]@.len() == cols);
                assert forall|other: (i32, i32)| #[trigger]
                    cell_walkable(grid@, other) && (other.1 < r || (other.1 == r && other.0 < c + 1)) implies found
                    && snaps_before(from, best, other) by {
                    if other.1 == r && other.0 == c {
                        assert(grid@[r as int]@[c as int]);
                        assert(other == (c as i32, r as i32));
                    } else {
                        assert(had && snaps_before(from, before, other));
                    }
                }
            }
            c = c + 1;
        }
        r = r + 1;
    }
    proof {
        if found {
            assert(is_nearest(grid@, from, best));
            assert(walkable(grid@, best.0 as int, best.1 as int));
            let pick = nearest_walkable(grid@, from);
            nearest_is_unique(grid@, from, pick, best);
        } else {
            assert forall|c: int, r: int| !walkable(grid@, c, r) by {
                if walkable(grid@, c, r) {
                    assert(cell_walkable(grid@, (c as i32, r as i32)));
                }
            }
            assert forall|out: (i32, i32)| !is_nearest(grid@, from, out) by {}
        }
    }
    best
}

/// `path` leads from `from` to `to` in unit steps, and every cell it steps
/// onto is walkable. Nothing is asked of the cell it starts on.
pub open spec fn is_route(grid: Seq<Vec<bool>>, path: Seq<(i32, i32)>, from: (i32, i32), to: (i32, i32)) -> bool {
    &&& path.len() >= 1
    &&& path[0] == from
    &&& path.last() == to
    &&& forall|i: int| 1 <= i < path.len() ==> adjacent(path[i - 1], #[trigger] path[i]) && cell_walkable(grid, path[i])
}

/// Some route leads from `from` to `to`.
pub open spec fn connected(grid: Seq<Vec<bool>>, from: (i32, i32), to: (i32, i32)) -> bool {
    exists|path: Seq<(i32, i32)>| is_route(grid, path, from, to)
}

/// Two cells of a route are no further apart than the steps between them.
pub proof fn route_distance(grid: Seq<Vec<bool>>, path: Seq<(i32, i32)>, i: int, j: int)
    requires
        forall|k: int| 1 <= k < path.len() ==> adjacent(path[k - 1], #[trigger] path[k]) && cell_walkable(grid, path[k]),
        0 <= i <= j < path.len(),
    ensures
        manhattan(path[i], path[j]) <= j - i,
    decreases j - i,
{
    if i < j {
        route_distance(grid, path, i, j - 1);
        assert(adjacent(path[j - 1], path[j]));
    }
}

/// No route has fewer steps than its two ends are apart.
pub proof fn route_covers_distance(grid: Seq<Vec<bool>>, path: Seq<(i32, i32)>, from: (i32, i32), to: (i32, i32))
    requires
        is_route(grid, path, from, to),
    ensures
        path.len() >= manhattan(from, to) + 1,
{
    route_distance(grid, path, 0, path.len() - 1);
}

/// The grid can be searched: its rows have one width, and it has fewer cells
/// than the largest path length the search can record.
pub open spec fn searchable(grid: Seq<Vec<bool>>) -> bool {
    rectangular(grid) && grid.len() * grid_cols(grid) < UNREACHED
}

/// Tests whether the grid can be searched.
pub fn is_searchable(grid: &Vec<Vec<bool>>) -> (out: bool)
    ensures
        out == searchable(grid@),
{
    let rows: usize = grid.len();
    let cols: usize = column_count(grid);
    if rows > i32::MAX as usize || cols > i32::MAX as usize {
        return false;
    }
    proof {
        assert(rows * cols <= 0x7fff_ffff * 0x7fff_ffff) by (nonlinear_arith)
            requires
                0 <= rows <= 0x7fff_ffff,
                0 <= cols <= 0x7fff_ffff,
        ;
    }
    let cells: u64 = rows as u64 * cols as u64;
    if cells >= UNREACHED as u64 {
        return false;
    }
    let mut r: usize = 0;
    while r < rows
        invariant
            r <= rows,
            rows == grid@.len(),
            cols == grid_cols(grid@),
            forall|i: int| 0 <= i < r ==> (#[trigger] grid@[i])@.len() == cols,
        decreases rows - r,
    {
        if grid[r].len() != cols {
            return false;
        }
        r = r + 1;
    }
    true
}

/// `cell` with each coordinate limited to the grid.
pub open spec fn clamp_cell(grid: Seq<Vec<bool>>, cell: (i32, i32)) -> (i32, i32) {
    (
        clamped(cell.0 as int, 0, grid_cols(grid) - 1) as i32,
        clamped(cell.1 as int, 0, grid.len() - 1) as i32,
    )
}

/// The cell from which, or to which, a route for the raw cell `cell` is
/// searched: limited to the grid, then snapped to the nearest walkable cell.
pub open spec fn snapped(grid: Seq<Vec<bool>>, cell: (i32, i32)) -> (i32, i32) {
    nearest_walkable(grid, clamp_cell(grid, cell))
}

/// Finds a shortest route between two points given by the cells they fall
/// into; the cells may lie outside the grid. Both are limited to the grid and
/// snapped to the nearest walkable cell, and the route runs between the
/// snapped cells. `None` stands for the two cases in which the caller falls back to
/// the straight line between its points: a grid without rows or columns, and
/// a goal that no route reaches.
pub fn find_path(start: (i32, i32), end: (i32, i32), grid: &Vec<Vec<bool>>) -> (out: Option<Vec<(i32, i32)>>)
    requires
        searchable(grid@),
    ensures
        grid@.len() == 0 || grid_cols(grid@) == 0 ==> out is None,
        grid@.len() > 0 && grid_cols(grid@) > 0 ==> (out.is_some() <==> connected(
            grid@,
            snapped(grid@, start),
            snapped(grid@, end),
        )),
        out matches Some(path) ==> is_route(grid@, path@, snapped(grid@, start), snapped(grid@, end)),
        out matches Some(path) ==> forall|other: Seq<(i32, i32)>| #[trigger]
            is_route(grid@, other, snapped(grid@, start), snapped(grid@, end)) ==> path@.len() <= other.len(),
        out matches Some(path) ==> has_walkable(grid@) ==> forall|i: int|
            0 <= i < path@.len() ==> cell_walkable(grid@, #[trigger] path@[i]),
        has_walkable(grid@) ==> cell_walkable(grid@, snapped(grid@, start)) && cell_walkable(
            grid@,
            snapped(grid@, end),
        ),
{
    let rows: usize = grid.len();
    let cols: usize = column_count(grid);
    if rows == 0 || cols == 0 {
        proof {
            assert forall|c: int, r: int| !walkable(grid@, c, r) by {
                if 0 <= r < grid@.len() {
                    assert(grid@[r]@.len() == cols);
                }
            }
        }
        return None;
    }
    let max_col: i32 = cols as i32 - 1;
    let max_row: i32 = rows as i32 - 1;
    let start_col: i32 = clamp(start.0, 0, max_col);
    let start_row: i32 = clamp(start.1, 0, max_row);
    let end_col: i32 = clamp(end.0, 0, max_col);
    let end_row: i32 = clamp(end.1, 0, max_row);
    let from: (i32, i32) = find_nearest_walkable(start_col, start_row, grid);
    let to: (i32, i32) = find_nearest_walkable(end_col, end_row, grid);
    let out = search(grid, from, to);
    proof {
        if out.is_some() && has_walkable(grid@) {
            route_on_walkable_cells(grid@, out.unwrap()@, from, to);
        }
    }
    out
}

/// A route that starts on a walkable cell visits walkable cells only.
pub proof fn route_on_walkable_cells(grid: Seq<Vec<bool>>, path: Seq<(i32, i32)>, from: (i32, i32), to: (i32, i32))
    requires
        is_route(grid, path, from, to),
        cell_walkable(grid, from),
    ensures
        forall|i: int| 0 <= i < path.len() ==> cell_walkable(grid, #[trigger] path[i]),
{
}

/// In a grid rasterized from lanes, no cell of a route that starts on a
/// walkable cell lies in a column that a lane covers. A route starts on a
/// walkable cell whenever the grid has one, since the start is snapped.
pub proof fn route_avoids_lanes(
    grid: Seq<Vec<bool>>,
    rows: int,
    cols: int,
    spans: Seq<(i32, i32)>,
    path: Seq<(i32, i32)>,
    from: (i32, i32),
    to: (i32, i32),
)
    requires
        is_nav_grid(grid, rows, cols, spans),
        is_route(grid, path, from, to),
        cell_walkable(grid, from),
    ensures
        forall|i: int| 0 <= i < path.len() ==> !column_blocked(spans, cols, (#[trigger] path[i]).0 as int),
{
    assert forall|i: int| 0 <= i < path.len() implies !column_blocked(spans, cols, (#[trigger] path[i]).0 as int) by {
        let cell = path[i];
        assert(cell_walkable(grid, cell));
        assert(grid[cell.1 as int]@.len() == cols);
        assert(grid[cell.1 as int]@[cell.0 as int]);
    }
}

} // verus!
