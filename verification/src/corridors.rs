//! Routes in a grid rasterized from lanes. Lanes block whole columns, so the
//! walkable cells fall into corridors between the lanes: two walkable cells
//! are joined by a route exactly when no blocked column lies between them.

use vstd::prelude::*;
use crate::grid::{cell_walkable, column_blocked, is_nav_grid};
use crate::pathfinding::{adjacent, connected, is_route, manhattan, route_covers_distance};

verus! {

/// `col` lies between the columns `a` and `b`, ends included.
pub open spec fn between(a: int, b: int, col: int) -> bool {
    (a <= col <= b) || (b <= col <= a)
}

/// No lane covers a column between the columns `a` and `b`.
pub open spec fn corridor_open(spans: Seq<(i32, i32)>, cols: int, a: int, b: int) -> bool {
    forall|col: int| #[trigger] between(a, b, col) ==> !column_blocked(spans, cols, col)
}

/// A walk visits every column between the column it starts in and the
/// column of any of its cells.
proof fn walk_visits_column(path: Seq<(i32, i32)>, upto: int, col: int) -> (at: int)
    requires
        forall|i: int| 1 <= i < path.len() ==> adjacent(path[i - 1], #[trigger] path[i]),
        0 <= upto < path.len(),
        between(path[0].0 as int, path[upto].0 as int, col),
    ensures
        0 <= at <= upto,
        path[at].0 == col,
    decreases upto,
{
    if path[upto].0 == col {
        upto
    } else {
        assert(upto > 0);
        assert(adjacent(path[upto - 1], path[upto]));
        walk_visits_column(path, upto - 1, col)
    }
}

/// The cells of row `row` from column `from` to column `to`, in walking
/// order.
pub open spec fn along_row(row: i32, from: i32, to: i32) -> Seq<(i32, i32)> {
    Seq::new(
        ((if from <= to { to - from } else { from - to }) + 1) as nat,
        |i: int| (if from <= to { (from + i) as i32 } else { (from - i) as i32 }, row),
    )
}

/// The cells of column `col` from row `from` to row `to`, in walking order.
pub open spec fn along_column(col: i32, from: i32, to: i32) -> Seq<(i32, i32)> {
    Seq::new(
        ((if from <= to { to - from } else { from - to }) + 1) as nat,
        |i: int| (col, if from <= to { (from + i) as i32 } else { (from - i) as i32 }),
    )
}

/// The route that first follows the row of `from` to the column of `to` and
/// then follows that column.
pub open spec fn elbow(from: (i32, i32), to: (i32, i32)) -> Seq<(i32, i32)> {
    along_row(from.1, from.0, to.0) + along_column(to.0, from.1, to.1).subrange(
        1,
        along_column(to.0, from.1, to.1).len() as int,
    )
}

/// Two routes, the second starting where the first ends, join into one.
pub proof fn routes_join(
    grid: Seq<Vec<bool>>,
    first: Seq<(i32, i32)>,
    second: Seq<(i32, i32)>,
    from: (i32, i32),
    via: (i32, i32),
    to: (i32, i32),
)
    requires
        is_route(grid, first, from, via),
        is_route(grid, second, via, to),
    ensures
        is_route(grid, first + second.subrange(1, second.len() as int), from, to),
{
    let rest = second.subrange(1, second.len() as int);
    let path = first + rest;
    assert(path[0] == first[0]);
    assert forall|i: int| 1 <= i < path.len() implies adjacent(path[i - 1], #[trigger] path[i]) && cell_walkable(
        grid,
        path[i],
    ) by {
        if i < first.len() {
            assert(path[i] == first[i]);
            assert(path[i - 1] == first[i - 1]);
        } else {
            let k = i - first.len() + 1;
            assert(path[i] == second[k]);
            if i == first.len() {
                assert(path[i - 1] == first[first.len() - 1]);
                assert(second[k - 1] == via);
            } else {
                assert(path[i - 1] == second[k - 1]);
            }
        }
    }
    if rest.len() == 0 {
        assert(path.last() == first.last());
        assert(second.last() == second[0]);
    } else {
        assert(path.last() == second.last());
    }
}

/// Along a row of a grid rasterized from lanes, the cells between two
/// columns form a route whenever no blocked column lies between them.
proof fn row_is_route(grid: Seq<Vec<bool>>, rows: int, cols: int, spans: Seq<(i32, i32)>, row: i32, from: i32, to: i32)
    requires
        is_nav_grid(grid, rows, cols, spans),
        0 <= row < rows,
        0 <= from < cols,
        0 <= to < cols,
        corridor_open(spans, cols, from as int, to as int),
    ensures
        is_route(grid, along_row(row, from, to), (from, row), (to, row)),
{
    let path = along_row(row, from, to);
    assert(grid[row as int]@.len() == cols);
    assert forall|i: int| 1 <= i < path.len() implies adjacent(path[i - 1], #[trigger] path[i]) && cell_walkable(
        grid,
        path[i],
    ) by {
        let cell = path[i];
        assert(between(from as int, to as int, cell.0 as int));
        assert(!column_blocked(spans, cols, cell.0 as int));
        assert(grid[row as int]@[cell.0 as int]);
    }
}

/// Along a column that no lane covers, the cells between two rows form a
/// route.
proof fn column_is_route(grid: Seq<Vec<bool>>, rows: int, cols: int, spans: Seq<(i32, i32)>, col: i32, from: i32, to: i32)
    requires
        is_nav_grid(grid, rows, cols, spans),
        0 <= col < cols,
        0 <= from < rows,
        0 <= to < rows,
        !column_blocked(spans, cols, col as int),
    ensures
        is_route(grid, along_column(col, from, to), (col, from), (col, to)),
{
    let path = along_column(col, from, to);
    assert forall|i: int| 1 <= i < path.len() implies adjacent(path[i - 1], #[trigger] path[i]) && cell_walkable(
        grid,
        path[i],
    ) by {
        let cell = path[i];
        assert(grid[cell.1 as int]@.len() == cols);
        assert(grid[cell.1 as int]@[col as int]);
    }
}

/// In a grid rasterized from lanes, the elbow between two walkable cells is a
/// route whenever no blocked column lies between them.
pub proof fn elbow_is_route(
    grid: Seq<Vec<bool>>,
    rows: int,
    cols: int,
    spans: Seq<(i32, i32)>,
    from: (i32, i32),
    to: (i32, i32),
)
    requires
        is_nav_grid(grid, rows, cols, spans),
        cell_walkable(grid, from),
        cell_walkable(grid, to),
        corridor_open(spans, cols, from.0 as int, to.0 as int),
    ensures
        is_route(grid, elbow(from, to), from, to),
{
    assert(grid[from.1 as int]@.len() == cols);
    assert(grid[to.1 as int]@.len() == cols);
    assert(between(from.0 as int, to.0 as int, to.0 as int));
    row_is_route(grid, rows, cols, spans, from.1, from.0, to.0);
    column_is_route(grid, rows, cols, spans, to.0, from.1, to.1);
    routes_join(
        grid,
        along_row(from.1, from.0, to.0),
        along_column(to.0, from.1, to.1),
        from,
        (to.0, from.1),
        to,
    );
}

/// In a grid rasterized from lanes, two walkable cells are joined by a route
/// exactly when no lane covers a column between them. A search between two
/// such cells therefore fails only where a lane parts them.
pub proof fn lanes_decide_connection(
    grid: Seq<Vec<bool>>,
    rows: int,
    cols: int,
    spans: Seq<(i32, i32)>,
    from: (i32, i32),
    to: (i32, i32),
)
    requires
        is_nav_grid(grid, rows, cols, spans),
        cell_walkable(grid, from),
        cell_walkable(grid, to),
    ensures
        connected(grid, from, to) <==> corridor_open(spans, cols, from.0 as int, to.0 as int),
{
    if corridor_open(spans, cols, from.0 as int, to.0 as int) {
        elbow_is_route(grid, rows, cols, spans, from, to);
    }
    if connected(grid, from, to) {
        let path = choose|path: Seq<(i32, i32)>| is_route(grid, path, from, to);
        assert forall|col: int| #[trigger] between(from.0 as int, to.0 as int, col) implies !column_blocked(
            spans,
            cols,
            col,
        ) by {
            let at = walk_visits_column(path, path.len() - 1, col);
            let cell = path[at];
            if at > 0 {
                assert(cell_walkable(grid, path[at]));
            }
            assert(cell_walkable(grid, cell));
            assert(grid[cell.1 as int]@.len() == cols);
            assert(grid[cell.1 as int]@[cell.0 as int]);
        }
    }
}

/// Within a corridor a shortest route is as long as the Manhattan distance
/// between its ends: lanes never force a detour on two cells they do not
/// part.
pub proof fn shortest_route_in_corridor(
    grid: Seq<Vec<bool>>,
    rows: int,
    cols: int,
    spans: Seq<(i32, i32)>,
    path: Seq<(i32, i32)>,
    from: (i32, i32),
    to: (i32, i32),
)
    requires
        is_nav_grid(grid, rows, cols, spans),
        cell_walkable(grid, from),
        cell_walkable(grid, to),
        corridor_open(spans, cols, from.0 as int, to.0 as int),
        is_route(grid, path, from, to),
        forall|other: Seq<(i32, i32)>| #[trigger] is_route(grid, other, from, to) ==> path.len() <= other.len(),
    ensures
        path.len() == manhattan(from, to) + 1,
{
    elbow_is_route(grid, rows, cols, spans, from, to);
    route_covers_distance(grid, path, from, to);
    assert(elbow(from, to).len() == manhattan(from, to) + 1);
}

} // verus!
