//! A* over the walkable cells of an occupancy grid, with unit steps along the
//! two axes and the Manhattan distance as estimate, together with the
//! invariants that show that it finds a route whenever one exists and that
//! the route it finds is a shortest one.

use vstd::prelude::*;
use crate::grid::{cell_walkable, column_count, grid_cols, in_grid, rectangular};
use crate::pathfinding::{
    adjacent, connected, heuristic, is_route, manhattan, neighbor_cells, neighbor_cells_complete,
    neighbor_cells_sound, neighbors, route_distance, Node,
};
use crate::scores::{
    entry, filled, get, in_box, put, reached, replaced, shaped, table_weight_bounds, table_weight_update, total,
    UNREACHED,
};

verus! {

/// What the search keeps true of its two tables: the start has length zero;
/// every reached cell but the start has a neighbouring parent with a smaller
/// length and is walkable; no length exceeds the number of cells reached.
#[verifier::opaque]
spec fn tree_ok(grid: Seq<Vec<bool>>, lengths: Seq<Vec<i32>>, parents: Seq<Vec<(i32, i32)>>, start: (i32, i32)) -> bool {
    let rows = grid.len() as int;
    let cols = grid_cols(grid);
    &&& shaped(lengths, rows, cols)
    &&& shaped(parents, rows, cols)
    &&& in_box(start, rows, cols)
    &&& entry(lengths, start) == 0
    &&& forall|cell: (i32, i32)|
        in_box(cell, rows, cols) ==> {
            &&& 0 <= #[trigger] entry(lengths, cell) <= UNREACHED
            &&& entry(lengths, cell) < UNREACHED ==> entry(lengths, cell) < reached(lengths)
            &&& entry(lengths, cell) < UNREACHED && cell != start ==> {
                let parent = entry(parents, cell);
                &&& in_box(parent, rows, cols)
                &&& entry(lengths, parent) < entry(lengths, cell)
                &&& adjacent(parent, cell)
                &&& cell_walkable(grid, cell)
            }
        }
}

/// The frontier holds an entry for `cell` whose estimate is up to date: the
/// recorded length of the cell plus its distance to the goal.
spec fn waits(frontier: Seq<Node>, lengths: Seq<Vec<i32>>, goal: (i32, i32), cell: (i32, i32)) -> bool {
    exists|i: int|
        0 <= i < frontier.len() && (#[trigger] frontier[i]).cell() == cell && frontier[i].f_score == entry(
            lengths,
            cell,
        ) + manhattan(cell, goal)
}

/// What the search keeps true of its frontier. No entry underestimates its
/// cell. Every reached cell is expanded, or waits in the frontier with an
/// estimate that is up to date, or is the one `pending` cell being expanded.
/// A cell counts as expanded as long as its length is the one it was last
/// expanded with; every walkable neighbour of such a cell is reached, with a
/// length at most one more.
#[verifier::opaque]
spec fn frontier_ok(
    grid: Seq<Vec<bool>>,
    lengths: Seq<Vec<i32>>,
    frontier: Seq<Node>,
    expanded: Set<(i32, i32)>,
    goal: (i32, i32),
    pending: Option<(i32, i32)>,
) -> bool {
    let rows = grid.len() as int;
    let cols = grid_cols(grid);
    &&& forall|i: int|
        0 <= i < frontier.len() ==> {
            &&& in_box((#[trigger] frontier[i]).cell(), rows, cols)
            &&& entry(lengths, frontier[i].cell()) < UNREACHED
            &&& frontier[i].f_score >= entry(lengths, frontier[i].cell()) + manhattan(frontier[i].cell(), goal)
        }
    &&& forall|cell: (i32, i32)|
        in_box(cell, rows, cols) && #[trigger] entry(lengths, cell) < UNREACHED ==> expanded.contains(cell)
            || pending == Some(cell) || waits(frontier, lengths, goal, cell)
    &&& forall|u: (i32, i32), v: (i32, i32)|
        #[trigger] expanded.contains(u) && adjacent(u, v) && #[trigger] cell_walkable(grid, v) ==> entry(lengths, v)
            < UNREACHED && entry(lengths, v) <= entry(lengths, u) + 1
    &&& forall|u: (i32, i32)| #[trigger] expanded.contains(u) ==> in_box(u, rows, cols)
    &&& !expanded.contains(goal)
}

/// How a table reads after one entry was replaced.
proof fn entry_after_replace<T>(before: Seq<Vec<T>>, after: Seq<Vec<T>>, cell: (i32, i32), value: T, rows: int, cols: int)
    requires
        shaped(before, rows, cols),
        in_box(cell, rows, cols),
        replaced(before, after, cell, value),
    ensures
        shaped(after, rows, cols),
        entry(after, cell) == value,
        forall|other: (i32, i32)|
            in_box(other, rows, cols) && other != cell ==> #[trigger] entry(after, other) == entry(before, other),
{
    assert forall|r: int| 0 <= r < rows implies (#[trigger] after[r])@.len() == cols by {
        assert(before[r]@.len() == cols);
    }
    assert forall|other: (i32, i32)| in_box(other, rows, cols) && other != cell implies #[trigger] entry(after, other)
        == entry(before, other) by {
        if other.1 != cell.1 {
            assert(after[other.1 as int]@ == before[other.1 as int]@);
        }
    }
}

/// A table whose entries are all unreached or reached lengths holds at most
/// as many reached cells as the grid has cells, and its sum is not negative.
proof fn lengths_bounds(grid: Seq<Vec<bool>>, lengths: Seq<Vec<i32>>, parents: Seq<Vec<(i32, i32)>>, start: (i32, i32))
    requires
        rectangular(grid),
        tree_ok(grid, lengths, parents, start),
    ensures
        0 <= total(lengths),
        0 <= reached(lengths) <= grid.len() * grid_cols(grid),
{
    reveal(tree_ok);
    let rows = grid.len() as int;
    let cols = grid_cols(grid);
    assert forall|r: int, c: int| 0 <= r < lengths.len() && 0 <= c < cols implies 0 <= #[trigger] lengths[r]@[c] by {
        let cell = (c as i32, r as i32);
        assert(in_box(cell, rows, cols));
        assert(0 <= entry(lengths, cell));
    }
    table_weight_bounds(lengths, cols, false);
    table_weight_bounds(lengths, cols, true);
}

/// Two cells of a grid are fewer steps apart than the grid has cells.
proof fn manhattan_in_box(a: (i32, i32), b: (i32, i32), rows: int, cols: int)
    requires
        in_box(a, rows, cols),
        in_box(b, rows, cols),
    ensures
        manhattan(a, b) < rows * cols,
{
    assert(manhattan(a, b) <= (rows - 1) + (cols - 1));
    assert((rows - 1) + (cols - 1) < rows * cols) by (nonlinear_arith)
        requires
            rows >= 1,
            cols >= 1,
    ;
}

/// Takes the entry with the lowest estimate out of the frontier. Among equal
/// estimates any one may leave.
fn pop_lowest(frontier: &mut Vec<Node>) -> (node: Node)
    requires
        old(frontier)@.len() > 0,
    ensures
        final(frontier)@.len() == old(frontier)@.len() - 1,
        old(frontier)@.contains(node),
        forall|i: int| 0 <= i < old(frontier)@.len() ==> node.f_score <= (#[trigger] old(frontier)@[i]).f_score,
        forall|i: int| 0 <= i < final(frontier)@.len() ==> old(frontier)@.contains(#[trigger] final(frontier)@[i]),
        forall|i: int|
            0 <= i < old(frontier)@.len() ==> (#[trigger] old(frontier)@[i]) == node || final(frontier)@.contains(
                old(frontier)@[i],
            ),
{
    let mut lowest: usize = 0;
    let mut i: usize = 1;
    while i < frontier.len()
        invariant
            frontier@ == old(frontier)@,
            lowest < frontier@.len(),
            1 <= i,
            forall|j: int| 0 <= j < i && j < frontier@.len() ==> frontier@[lowest as int].f_score <= (
            #[trigger] frontier@[j]).f_score,
        decreases frontier.len() - i,
    {
        if frontier[i].f_score < frontier[lowest].f_score {
            lowest = i;
        }
        i = i + 1;
    }
    let ghost before = frontier@;
    let node: Node = frontier.swap_remove(lowest);
    proof {
        let last = before.len() - 1;
        assert(before[lowest as int] == node);
        assert forall|i: int| 0 <= i < frontier@.len() implies before.contains(#[trigger] frontier@[i]) by {
            if i == lowest {
                assert(frontier@[i] == before[last]);
            } else {
                assert(frontier@[i] == before[i]);
            }
        }
        assert forall|i: int| 0 <= i < before.len() implies (#[trigger] before[i]) == node || frontier@.contains(
            before[i],
        ) by {
            if i == lowest {
            } else if i == last {
                assert(frontier@[lowest as int] == before[i]);
            } else {
                assert(frontier@[i] == before[i]);
            }
        }
    }
    node
}

/// One step of the search: where the way through `here` is shorter than any
/// known way to its neighbour `next`, records it and puts `next` into the
/// frontier with its new estimate.
fn relax(
    grid: &Vec<Vec<bool>>,
    lengths: &mut Vec<Vec<i32>>,
    parents: &mut Vec<Vec<(i32, i32)>>,
    frontier: &mut Vec<Node>,
    Ghost(expanded): Ghost<Set<(i32, i32)>>,
    start: (i32, i32),
    goal: (i32, i32),
    here: (i32, i32),
    next: (i32, i32),
    base: i32,
) -> (still: Ghost<Set<(i32, i32)>>)
    requires
        rectangular(grid@),
        grid@.len() * grid_cols(grid@) < UNREACHED,
        in_grid(grid@, goal),
        in_grid(grid@, here),
        adjacent(here, next),
        cell_walkable(grid@, next),
        base == entry(old(lengths)@, here),
        base < UNREACHED,
        tree_ok(grid@, old(lengths)@, old(parents)@, start),
        frontier_ok(grid@, old(lengths)@, old(frontier)@, expanded, goal, Some(here)),
    ensures
        tree_ok(grid@, final(lengths)@, final(parents)@, start),
        frontier_ok(grid@, final(lengths)@, final(frontier)@, still@, goal, Some(here)),
        forall|cell: (i32, i32)|
            in_box(cell, grid@.len() as int, grid_cols(grid@)) ==> #[trigger] entry(final(lengths)@, cell) <= entry(
                old(lengths)@,
                cell,
            ),
        entry(final(lengths)@, next) <= base + 1,
        entry(final(lengths)@, here) == base,
        0 <= total(final(lengths)@) <= total(old(lengths)@),
        total(final(lengths)@) < total(old(lengths)@) || final(frontier)@.len() == old(frontier)@.len(),
{
    let ghost rows = grid@.len() as int;
    let ghost cols = grid_cols(grid@);
    proof {
        reveal(tree_ok);
        lengths_bounds(grid@, lengths@, parents@, start);
        assert(in_box(next, rows, cols));
        assert(in_box(here, rows, cols));
        assert(0 <= entry(lengths@, next));
        assert(0 <= entry(lengths@, here) < reached(lengths@));
    }
    let tentative: i32 = base + 1;
    if tentative < get(lengths, next) {
        let ghost lengths_before = lengths@;
        let ghost parents_before = parents@;
        let ghost waiting = frontier@;
        put(parents, next, here);
        put(lengths, next, tentative);
        proof {
            manhattan_in_box(next, goal, rows, cols);
            entry_after_replace(parents_before, parents@, next, here, rows, cols);
            entry_after_replace(lengths_before, lengths@, next, tentative, rows, cols);
            table_weight_update(lengths_before, lengths@, next, tentative, true);
            table_weight_update(lengths_before, lengths@, next, tentative, false);
            tree_ok_after_relax(grid@, lengths_before, parents_before, lengths@, parents@, start, here, next);
            lengths_bounds(grid@, lengths@, parents@, start);
        }
        let f: i32 = tentative + heuristic(next, goal);
        frontier.push(Node { col: next.0, row: next.1, f_score: f });
        proof {
            frontier_ok_after_relax(grid@, lengths_before, lengths@, waiting, frontier@, expanded, goal, here, next);
        }
        Ghost(expanded.remove(next))
    } else {
        Ghost(expanded)
    }
}

/// The tables stay consistent when a shorter way to `next` through `here` is
/// recorded.
proof fn tree_ok_after_relax(
    grid: Seq<Vec<bool>>,
    lengths_before: Seq<Vec<i32>>,
    parents_before: Seq<Vec<(i32, i32)>>,
    lengths: Seq<Vec<i32>>,
    parents: Seq<Vec<(i32, i32)>>,
    start: (i32, i32),
    here: (i32, i32),
    next: (i32, i32),
)
    requires
        rectangular(grid),
        tree_ok(grid, lengths_before, parents_before, start),
        in_box(here, grid.len() as int, grid_cols(grid)),
        in_box(next, grid.len() as int, grid_cols(grid)),
        adjacent(here, next),
        cell_walkable(grid, next),
        entry(lengths_before, here) < UNREACHED,
        entry(lengths_before, here) + 1 < entry(lengths_before, next),
        shaped(lengths, grid.len() as int, grid_cols(grid)),
        shaped(parents, grid.len() as int, grid_cols(grid)),
        entry(lengths, next) == entry(lengths_before, here) + 1,
        entry(parents, next) == here,
        forall|other: (i32, i32)|
            in_box(other, grid.len() as int, grid_cols(grid)) && other != next ==> #[trigger] entry(lengths, other)
                == entry(lengths_before, other),
        forall|other: (i32, i32)|
            in_box(other, grid.len() as int, grid_cols(grid)) && other != next ==> #[trigger] entry(parents, other)
                == entry(parents_before, other),
        reached(lengths) == reached(lengths_before) + (if entry(lengths_before, next) < UNREACHED { 0int } else { 1int }),
    ensures
        tree_ok(grid, lengths, parents, start),
{
    reveal(tree_ok);
    let rows = grid.len() as int;
    let cols = grid_cols(grid);
    assert(0 <= entry(lengths_before, here) < reached(lengths_before));
    assert(0 <= entry(lengths_before, next) <= UNREACHED);
    assert(entry(lengths_before, start) == 0);
    assert(next != start);
    assert(next != here);
    assert forall|cell: (i32, i32)| in_box(cell, rows, cols) implies {
        &&& 0 <= #[trigger] entry(lengths, cell) <= UNREACHED
        &&& entry(lengths, cell) < UNREACHED ==> entry(lengths, cell) < reached(lengths)
        &&& entry(lengths, cell) < UNREACHED && cell != start ==> {
            let parent = entry(parents, cell);
            &&& in_box(parent, rows, cols)
            &&& entry(lengths, parent) < entry(lengths, cell)
            &&& adjacent(parent, cell)
            &&& cell_walkable(grid, cell)
        }
    } by {
        if cell == next {
            assert(entry(lengths, here) == entry(lengths_before, here));
        } else {
            assert(entry(lengths, cell) == entry(lengths_before, cell));
            assert(0 <= entry(lengths_before, cell) <= UNREACHED);
            if entry(lengths, cell) < UNREACHED && cell != start {
                let parent = entry(parents_before, cell);
                assert(entry(parents, cell) == parent);
                assert(in_box(parent, rows, cols));
                if parent != next {
                    assert(entry(lengths, parent) == entry(lengths_before, parent));
                }
            }
        }
    }
}

/// The frontier stays consistent when `next` got a shorter length and was
/// added to it.
proof fn frontier_ok_after_relax(
    grid: Seq<Vec<bool>>,
    lengths_before: Seq<Vec<i32>>,
    lengths: Seq<Vec<i32>>,
    waiting: Seq<Node>,
    frontier: Seq<Node>,
    expanded: Set<(i32, i32)>,
    goal: (i32, i32),
    here: (i32, i32),
    next: (i32, i32),
)
    requires
        rectangular(grid),
        frontier_ok(grid, lengths_before, waiting, expanded, goal, Some(here)),
        in_box(next, grid.len() as int, grid_cols(grid)),
        entry(lengths, next) < entry(lengths_before, next),
        entry(lengths, next) < UNREACHED,
        forall|other: (i32, i32)|
            in_box(other, grid.len() as int, grid_cols(grid)) && other != next ==> #[trigger] entry(lengths, other)
                == entry(lengths_before, other),
        frontier.len() == waiting.len() + 1,
        forall|i: int| 0 <= i < waiting.len() ==> #[trigger] frontier[i] == waiting[i],
        frontier[waiting.len() as int].cell() == next,
        frontier[waiting.len() as int].f_score == entry(lengths, next) + manhattan(next, goal),
    ensures
        frontier_ok(grid, lengths, frontier, expanded.remove(next), goal, Some(here)),
{
    reveal(frontier_ok);
    let still = expanded.remove(next);
    let rows = grid.len() as int;
    let cols = grid_cols(grid);
    let last = waiting.len() as int;
    assert forall|cell: (i32, i32)| in_box(cell, rows, cols) && #[trigger] entry(lengths, cell) < UNREACHED implies still.contains(
        cell,
    ) || Some(here) == Some(cell) || waits(frontier, lengths, goal, cell) by {
        if cell == next {
            assert(frontier[last].cell() == cell);
        } else if !expanded.contains(cell) && cell != here {
            assert(entry(lengths_before, cell) < UNREACHED);
            assert(waits(waiting, lengths_before, goal, cell));
            let w = choose|i: int|
                0 <= i < waiting.len() && (#[trigger] waiting[i]).cell() == cell && waiting[i].f_score == entry(
                    lengths_before,
                    cell,
                ) + manhattan(cell, goal);
            assert(frontier[w] == waiting[w]);
        }
    }
    assert forall|i: int| 0 <= i < frontier.len() implies {
        &&& in_box((#[trigger] frontier[i]).cell(), rows, cols)
        &&& entry(lengths, frontier[i].cell()) < UNREACHED
        &&& frontier[i].f_score >= entry(lengths, frontier[i].cell()) + manhattan(frontier[i].cell(), goal)
    } by {
        if i < waiting.len() {
            assert(frontier[i] == waiting[i]);
            let cell = waiting[i].cell();
            assert(in_box(cell, rows, cols));
            assert(entry(lengths_before, cell) < UNREACHED);
            if cell != next {
                assert(entry(lengths, cell) == entry(lengths_before, cell));
            }
        }
    }
    assert forall|u: (i32, i32), v: (i32, i32)|
        #[trigger] still.contains(u) && adjacent(u, v) && #[trigger] cell_walkable(grid, v) implies entry(lengths, v)
        < UNREACHED && entry(lengths, v) <= entry(lengths, u) + 1 by {
        assert(expanded.contains(u) && u != next);
        assert(entry(lengths_before, v) < UNREACHED);
        assert(in_box(v, rows, cols));
        if v != next {
            assert(entry(lengths, v) == entry(lengths_before, v));
        }
    }
}

/// Follows the parents from the goal back to the start and hands the cells
/// out in walking order.
fn walk_back(
    grid: &Vec<Vec<bool>>,
    lengths: &Vec<Vec<i32>>,
    parents: &Vec<Vec<(i32, i32)>>,
    start: (i32, i32),
    goal: (i32, i32),
) -> (path: Vec<(i32, i32)>)
    requires
        rectangular(grid@),
        tree_ok(grid@, lengths@, parents@, start),
        in_box(goal, grid@.len() as int, grid_cols(grid@)),
        entry(lengths@, goal) < UNREACHED,
    ensures
        is_route(grid@, path@, start, goal),
        path@.len() - 1 <= entry(lengths@, goal),
{
    proof {
        reveal(tree_ok);
    }
    let mut back: Vec<(i32, i32)> = Vec::new();
    back.push(goal);
    let mut here: (i32, i32) = goal;
    while !(here.0 == start.0 && here.1 == start.1)
        invariant
            tree_ok(grid@, lengths@, parents@, start),
            in_box(here, grid@.len() as int, grid_cols(grid@)),
            entry(lengths@, here) < UNREACHED,
            back@.len() >= 1,
            back@.len() - 1 + entry(lengths@, here) <= entry(lengths@, goal),
            back@[0] == goal,
            back@.last() == here,
            forall|i: int|
                1 <= i < back@.len() ==> adjacent(#[trigger] back@[i], back@[i - 1]) && cell_walkable(
                    grid@,
                    back@[i - 1],
                ),
        decreases entry(lengths@, here),
    {
        proof {
            reveal(tree_ok);
        }
        let parent: (i32, i32) = get(parents, here);
        assert(0 <= entry(lengths@, parent));
        back.push(parent);
        here = parent;
    }
    let mut path: Vec<(i32, i32)> = Vec::new();
    let mut left: usize = back.len();
    while left > 0
        invariant
            left <= back@.len(),
            path@.len() == back@.len() - left,
            forall|j: int| 0 <= j < path@.len() ==> #[trigger] path@[j] == back@[back@.len() - 1 - j],
        decreases left,
    {
        left = left - 1;
        path.push(back[left]);
    }
    proof {
        assert(here == start);
        assert forall|i: int| 1 <= i < path@.len() implies adjacent(path@[i - 1], #[trigger] path@[i])
            && cell_walkable(grid@, path@[i]) by {
            let j = back@.len() - i;
            assert(adjacent(back@[j], back@[j - 1]));
            assert(path@[i] == back@[back@.len() - 1 - i]);
            assert(path@[i - 1] == back@[back@.len() - 1 - (i - 1)]);
        }
    }
    path
}

/// Along a route from the start, every cell is reached once the frontier is
/// empty: the reached cells are then closed under walkable steps.
proof fn route_stays_reached(
    grid: Seq<Vec<bool>>,
    lengths: Seq<Vec<i32>>,
    parents: Seq<Vec<(i32, i32)>>,
    expanded: Set<(i32, i32)>,
    start: (i32, i32),
    goal: (i32, i32),
    path: Seq<(i32, i32)>,
    upto: int,
)
    requires
        rectangular(grid),
        tree_ok(grid, lengths, parents, start),
        frontier_ok(grid, lengths, Seq::<Node>::empty(), expanded, goal, None),
        path.len() >= 1,
        path[0] == start,
        forall|i: int| 1 <= i < path.len() ==> adjacent(path[i - 1], #[trigger] path[i]) && cell_walkable(grid, path[i]),
        0 <= upto < path.len(),
    ensures
        in_box(path[upto], grid.len() as int, grid_cols(grid)),
        entry(lengths, path[upto]) < UNREACHED,
        expanded.contains(path[upto]),
    decreases upto,
{
    reveal(tree_ok);
    reveal(frontier_ok);
    if upto > 0 {
        route_stays_reached(grid, lengths, parents, expanded, start, goal, path, upto - 1);
        let u = path[upto - 1];
        let v = path[upto];
        assert(adjacent(u, v) && cell_walkable(grid, v));
        assert(expanded.contains(u));
        assert(entry(lengths, v) < UNREACHED);
    }
    let cell = path[upto];
    assert(in_box(cell, grid.len() as int, grid_cols(grid)));
    assert(entry(lengths, cell) < UNREACHED);
}

/// Along a route from the start, a cell either has a recorded length no
/// greater than its place in the route, or an earlier cell of the route has
/// one and is not expanded.
proof fn route_progress(
    grid: Seq<Vec<bool>>,
    lengths: Seq<Vec<i32>>,
    parents: Seq<Vec<(i32, i32)>>,
    frontier: Seq<Node>,
    expanded: Set<(i32, i32)>,
    start: (i32, i32),
    goal: (i32, i32),
    path: Seq<(i32, i32)>,
    upto: int,
) -> (open_at: int)
    requires
        rectangular(grid),
        tree_ok(grid, lengths, parents, start),
        frontier_ok(grid, lengths, frontier, expanded, goal, None),
        path.len() >= 1,
        path[0] == start,
        forall|i: int| 1 <= i < path.len() ==> adjacent(path[i - 1], #[trigger] path[i]) && cell_walkable(grid, path[i]),
        0 <= upto < path.len(),
    ensures
        in_box(path[upto], grid.len() as int, grid_cols(grid)),
        open_at == upto ==> entry(lengths, path[upto]) <= upto,
        open_at != upto ==> 0 <= open_at < upto && entry(lengths, path[open_at]) <= open_at && !expanded.contains(
            path[open_at],
        ) && in_box(path[open_at], grid.len() as int, grid_cols(grid)),
    decreases upto,
{
    reveal(tree_ok);
    reveal(frontier_ok);
    if upto == 0 {
        0
    } else {
        let before = route_progress(grid, lengths, parents, frontier, expanded, start, goal, path, upto - 1);
        let u = path[upto - 1];
        let v = path[upto];
        assert(adjacent(u, v) && cell_walkable(grid, v));
        assert(in_box(v, grid.len() as int, grid_cols(grid)));
        if before != upto - 1 {
            before
        } else if expanded.contains(u) {
            upto
        } else {
            upto - 1
        }
    }
}

/// The route returned when the goal leaves the frontier is a shortest one:
/// no route from the start to the goal has fewer cells than the goal's
/// recorded length allows.
proof fn goal_length_is_least(
    grid: Seq<Vec<bool>>,
    lengths: Seq<Vec<i32>>,
    parents: Seq<Vec<(i32, i32)>>,
    waiting: Seq<Node>,
    expanded: Set<(i32, i32)>,
    start: (i32, i32),
    goal: (i32, i32),
    served: Node,
    other: Seq<(i32, i32)>,
)
    requires
        rectangular(grid),
        in_grid(grid, goal),
        tree_ok(grid, lengths, parents, start),
        frontier_ok(grid, lengths, waiting, expanded, goal, None),
        waiting.contains(served),
        served.cell() == goal,
        forall|i: int| 0 <= i < waiting.len() ==> served.f_score <= (#[trigger] waiting[i]).f_score,
        is_route(grid, other, start, goal),
    ensures
        entry(lengths, goal) <= other.len() - 1,
{
    reveal(tree_ok);
    reveal(frontier_ok);
    let steps = other.len() - 1;
    let at = choose|i: int| 0 <= i < waiting.len() && waiting[i] == served;
    assert(waiting[at].cell() == goal);
    assert(entry(lengths, goal) < UNREACHED);
    assert(served.f_score >= entry(lengths, goal) + manhattan(goal, goal));
    if steps < UNREACHED {
        let open_at = route_progress(grid, lengths, parents, waiting, expanded, start, goal, other, steps);
        if open_at != steps {
            let cell = other[open_at];
            assert(0 <= entry(lengths, cell));
            assert(entry(lengths, cell) < UNREACHED);
            assert(waits(waiting, lengths, goal, cell));
            let w = choose|i: int|
                0 <= i < waiting.len() && (#[trigger] waiting[i]).cell() == cell && waiting[i].f_score == entry(
                    lengths,
                    cell,
                ) + manhattan(cell, goal);
            route_distance(grid, other, open_at, steps);
            assert(served.f_score <= waiting[w].f_score);
        }
    }
}

/// A* over the walkable cells of the grid, with unit steps along the two
/// axes and the Manhattan distance as estimate. Finds a route from `start` to
/// `goal` whenever one exists, and the route it finds is a shortest one. The
/// frontier is served in ascending order of estimate; which of several
/// entries with the same estimate is served first is left open, so which of
/// several shortest routes comes back is not fixed.
pub fn search(grid: &Vec<Vec<bool>>, start: (i32, i32), goal: (i32, i32)) -> (out: Option<Vec<(i32, i32)>>)
    requires
        rectangular(grid@),
        grid@.len() * grid_cols(grid@) < UNREACHED,
        in_grid(grid@, start),
        in_grid(grid@, goal),
    ensures
        out.is_some() <==> connected(grid@, start, goal),
        out matches Some(path) ==> is_route(grid@, path@, start, goal),
        out matches Some(path) ==> forall|other: Seq<(i32, i32)>| #[trigger]
            is_route(grid@, other, start, goal) ==> path@.len() <= other.len(),
{
    let rows: usize = grid.len();
    let cols: usize = column_count(grid);
    let mut lengths: Vec<Vec<i32>> = filled(rows, cols, UNREACHED);
    let mut parents: Vec<Vec<(i32, i32)>> = filled(rows, cols, start);
    let ghost blank = lengths@;
    put(&mut lengths, start, 0);
    proof {
        entry_after_replace(blank, lengths@, start, 0, rows as int, cols as int);
        table_weight_update(blank, lengths@, start, 0, true);
        assert forall|r: int, c: int| 0 <= r < blank.len() && 0 <= c < cols implies 0 <= #[trigger] blank[r]@[c] by {}
        table_weight_bounds(blank, cols as int, true);
        assert(reached(lengths@) >= 1);
        manhattan_in_box(start, goal, rows as int, cols as int);
    }
    let mut frontier: Vec<Node> = Vec::new();
    frontier.push(Node { col: start.0, row: start.1, f_score: heuristic(start, goal) });
    let ghost mut expanded: Set<(i32, i32)> = Set::empty();
    proof {
        reveal(tree_ok);
        reveal(frontier_ok);
        assert(frontier@[0].cell() == start);
        assert(tree_ok(grid@, lengths@, parents@, start));
        assert(waits(frontier@, lengths@, goal, start));
        assert(frontier_ok(grid@, lengths@, frontier@, expanded, goal, None));
        lengths_bounds(grid@, lengths@, parents@, start);
    }
    while frontier.len() > 0
        invariant
            rectangular(grid@),
            grid@.len() * grid_cols(grid@) < UNREACHED,
            rows == grid@.len(),
            cols == grid_cols(grid@),
            in_grid(grid@, goal),
            tree_ok(grid@, lengths@, parents@, start),
            frontier_ok(grid@, lengths@, frontier@, expanded, goal, None),
            0 <= total(lengths@),
        decreases total(lengths@), frontier@.len(),
    {
        let ghost waiting = frontier@;
        let current: Node = pop_lowest(&mut frontier);
        let here: (i32, i32) = (current.col, current.row);
        proof {
            let at = choose|i: int| 0 <= i < waiting.len() && waiting[i] == current;
            assert(waiting[at].cell() == here);
            served_cell_is_pending(grid@, lengths@, waiting, frontier@, expanded, goal, current);
        }
        if here.0 == goal.0 && here.1 == goal.1 {
            let path: Vec<(i32, i32)> = walk_back(grid, &lengths, &parents, start, goal);
            proof {
                assert forall|other: Seq<(i32, i32)>| #[trigger]
                    is_route(grid@, other, start, goal) implies path@.len() <= other.len() by {
                    goal_length_is_least(grid@, lengths@, parents@, waiting, expanded, start, goal, current, other);
                }
            }
            return Some(path);
        }
        proof {
            tables_shaped(grid@, lengths@, parents@, start);
        }
        let around: Vec<(i32, i32)> = neighbors(here.0, here.1, grid);
        let base: i32 = get(&lengths, here);
        let ghost total_before = total(lengths@);
        let ghost waiting_after = frontier@.len();
        proof {
            length_below_limit(grid@, lengths@, parents@, start, here);
        }
        let mut k: usize = 0;
        while k < around.len()
            invariant
                rectangular(grid@),
                grid@.len() * grid_cols(grid@) < UNREACHED,
                rows == grid@.len(),
                cols == grid_cols(grid@),
                in_grid(grid@, goal),
                in_box(here, rows as int, cols as int),
                here != goal,
                around@ == neighbor_cells(grid@, here.0, here.1),
                k <= around@.len(),
                base == entry(lengths@, here),
                base + 1 < UNREACHED,
                tree_ok(grid@, lengths@, parents@, start),
                frontier_ok(grid@, lengths@, frontier@, expanded, goal, Some(here)),
                forall|j: int| 0 <= j < k ==> entry(lengths@, #[trigger] around@[j]) <= base + 1,
                0 <= total(lengths@) <= total_before,
                total(lengths@) < total_before || frontier@.len() == waiting_after,
            decreases around@.len() - k,
        {
            let next: (i32, i32) = around[k];
            proof {
                neighbor_cells_sound(grid@, here, k as int);
            }
            let ghost lengths_before = lengths@;
            let still = relax(
                grid,
                &mut lengths,
                &mut parents,
                &mut frontier,
                Ghost(expanded),
                start,
                goal,
                here,
                next,
                base,
            );
            proof {
                expanded = still@;
                assert forall|j: int| 0 <= j < k + 1 implies entry(lengths@, #[trigger] around@[j]) <= base + 1 by {
                    neighbor_cells_sound(grid@, here, j);
                    assert(in_box(around@[j], rows as int, cols as int));
                    if j < k {
                        assert(entry(lengths_before, around@[j]) <= base + 1);
                    }
                }
            }
            k = k + 1;
        }
        proof {
            cell_is_expanded(grid@, lengths@, frontier@, expanded, goal, here, around@);
            expanded = expanded.insert(here);
        }
    }
    proof {
        reveal(frontier_ok);
        assert(frontier@ =~= Seq::<Node>::empty());
        if connected(grid@, start, goal) {
            let path = choose|path: Seq<(i32, i32)>| is_route(grid@, path, start, goal);
            route_stays_reached(grid@, lengths@, parents@, expanded, start, goal, path, path.len() - 1);
        }
    }
    None
}

/// A recorded length stays more than one step below the mark of an
/// unreached cell.
proof fn length_below_limit(
    grid: Seq<Vec<bool>>,
    lengths: Seq<Vec<i32>>,
    parents: Seq<Vec<(i32, i32)>>,
    start: (i32, i32),
    cell: (i32, i32),
)
    requires
        rectangular(grid),
        grid.len() * grid_cols(grid) < UNREACHED,
        tree_ok(grid, lengths, parents, start),
        in_box(cell, grid.len() as int, grid_cols(grid)),
        entry(lengths, cell) < UNREACHED,
    ensures
        0 <= entry(lengths, cell),
        entry(lengths, cell) + 1 < UNREACHED,
{
    lengths_bounds(grid, lengths, parents, start);
    reveal(tree_ok);
}

/// The two tables have the shape of the grid.
proof fn tables_shaped(grid: Seq<Vec<bool>>, lengths: Seq<Vec<i32>>, parents: Seq<Vec<(i32, i32)>>, start: (i32, i32))
    requires
        tree_ok(grid, lengths, parents, start),
    ensures
        shaped(lengths, grid.len() as int, grid_cols(grid)),
        shaped(parents, grid.len() as int, grid_cols(grid)),
{
    reveal(tree_ok);
}

/// Once every neighbour of the pending cell was looked at, the cell counts
/// as expanded.
proof fn cell_is_expanded(
    grid: Seq<Vec<bool>>,
    lengths: Seq<Vec<i32>>,
    frontier: Seq<Node>,
    expanded: Set<(i32, i32)>,
    goal: (i32, i32),
    here: (i32, i32),
    around: Seq<(i32, i32)>,
)
    requires
        rectangular(grid),
        frontier_ok(grid, lengths, frontier, expanded, goal, Some(here)),
        in_box(here, grid.len() as int, grid_cols(grid)),
        here != goal,
        around == neighbor_cells(grid, here.0, here.1),
        entry(lengths, here) + 1 < UNREACHED,
        forall|j: int| 0 <= j < around.len() ==> entry(lengths, #[trigger] around[j]) <= entry(lengths, here) + 1,
    ensures
        frontier_ok(grid, lengths, frontier, expanded.insert(here), goal, None),
{
    reveal(frontier_ok);
    let rows = grid.len() as int;
    let cols = grid_cols(grid);
    let grown = expanded.insert(here);
    assert forall|u: (i32, i32), v: (i32, i32)|
        #[trigger] grown.contains(u) && adjacent(u, v) && #[trigger] cell_walkable(grid, v) implies entry(lengths, v)
        < UNREACHED && entry(lengths, v) <= entry(lengths, u) + 1 by {
        if u == here {
            neighbor_cells_complete(grid, here, v);
            let j = choose|j: int| 0 <= j < around.len() && around[j] == v;
            assert(entry(lengths, around[j]) <= entry(lengths, here) + 1);
        } else {
            assert(expanded.contains(u));
        }
    }
    assert forall|cell: (i32, i32)| in_box(cell, rows, cols) && #[trigger] entry(lengths, cell) < UNREACHED implies grown.contains(
        cell,
    ) || None::<(i32, i32)> == Some(cell) || waits(frontier, lengths, goal, cell) by {
        if cell != here && !expanded.contains(cell) {
            assert(Some(here) != Some(cell));
        }
    }
    assert forall|u: (i32, i32)| #[trigger] grown.contains(u) implies in_box(u, rows, cols) by {
        if u != here {
            assert(expanded.contains(u));
        }
    }
}

/// Once an entry was served, the frontier that is left is consistent with
/// the served cell pending.
proof fn served_cell_is_pending(
    grid: Seq<Vec<bool>>,
    lengths: Seq<Vec<i32>>,
    waiting: Seq<Node>,
    frontier: Seq<Node>,
    expanded: Set<(i32, i32)>,
    goal: (i32, i32),
    served: Node,
)
    requires
        frontier_ok(grid, lengths, waiting, expanded, goal, None),
        waiting.contains(served),
        forall|i: int| 0 <= i < frontier.len() ==> waiting.contains(#[trigger] frontier[i]),
        forall|i: int| 0 <= i < waiting.len() ==> (#[trigger] waiting[i]) == served || frontier.contains(waiting[i]),
    ensures
        frontier_ok(grid, lengths, frontier, expanded, goal, Some(served.cell())),
        in_box(served.cell(), grid.len() as int, grid_cols(grid)),
        entry(lengths, served.cell()) < UNREACHED,
{
    reveal(frontier_ok);
    let rows = grid.len() as int;
    let cols = grid_cols(grid);
    let here = served.cell();
    let at = choose|i: int| 0 <= i < waiting.len() && waiting[i] == served;
    assert(waiting[at].cell() == here);
    assert forall|cell: (i32, i32)| in_box(cell, rows, cols) && #[trigger] entry(lengths, cell) < UNREACHED implies expanded.contains(
        cell,
    ) || Some(here) == Some(cell) || waits(frontier, lengths, goal, cell) by {
        if !expanded.contains(cell) && cell != here {
            assert(waits(waiting, lengths, goal, cell));
            let w = choose|i: int|
                0 <= i < waiting.len() && (#[trigger] waiting[i]).cell() == cell && waiting[i].f_score == entry(
                    lengths,
                    cell,
                ) + manhattan(cell, goal);
            assert(waiting[w] != served);
            assert(frontier.contains(waiting[w]));
            let f = choose|i: int| 0 <= i < frontier.len() && frontier[i] == waiting[w];
            assert(frontier[f].cell() == cell);
        }
    }
    assert forall|i: int| 0 <= i < frontier.len() implies {
        &&& in_box((#[trigger] frontier[i]).cell(), rows, cols)
        &&& entry(lengths, frontier[i].cell()) < UNREACHED
        &&& frontier[i].f_score >= entry(lengths, frontier[i].cell()) + manhattan(frontier[i].cell(), goal)
    } by {
        assert(waiting.contains(frontier[i]));
        let w = choose|w: int| 0 <= w < waiting.len() && waiting[w] == frontier[i];
        assert(in_box(waiting[w].cell(), rows, cols));
    }
}

} // verus!
