use store_nav::grid::{build_nav_grid, is_walkable};
use store_nav::astar::search;
use store_nav::pathfinding::{find_nearest_walkable, find_path, heuristic, is_searchable, neighbors, Node};

fn open_grid(rows: usize, cols: usize) -> Vec<Vec<bool>> {
    vec![vec![true; cols]; rows]
}

fn assert_route(grid: &Vec<Vec<bool>>, path: &Vec<(i32, i32)>, from: (i32, i32), to: (i32, i32)) {
    assert!(!path.is_empty());
    assert_eq!(path[0], from);
    assert_eq!(path[path.len() - 1], to);
    for i in 1..path.len() {
        assert_eq!(heuristic(path[i - 1], path[i]), 1);
        assert!(is_walkable(grid, path[i].0, path[i].1));
    }
}

#[test]
fn heuristic_is_the_manhattan_distance() {
    assert_eq!(heuristic((0, 0), (3, 4)), 7);
    assert_eq!(heuristic((3, 4), (0, 0)), 7);
    assert_eq!(heuristic((-2, 5), (4, -1)), 12);
    assert_eq!(heuristic((6, 6), (6, 6)), 0);
    assert_eq!(heuristic((i32::MIN, 0), (-1, 0)), i32::MAX);
}

#[test]
fn neighbors_come_left_right_up_down() {
    let grid = open_grid(3, 3);
    assert_eq!(neighbors(1, 1, &grid), vec![(0, 1), (2, 1), (1, 0), (1, 2)]);
}

#[test]
fn neighbors_stop_at_the_border() {
    let grid = open_grid(3, 3);
    assert_eq!(neighbors(0, 0, &grid), vec![(1, 0), (0, 1)]);
    assert_eq!(neighbors(2, 2, &grid), vec![(1, 2), (2, 1)]);
}

#[test]
fn neighbors_leave_out_blocked_cells() {
    let grid = build_nav_grid(3, 3, &vec![(0, 0)]);
    assert_eq!(neighbors(1, 1, &grid), vec![(2, 1), (1, 0), (1, 2)]);
}

#[test]
fn neighbors_of_a_cell_outside_the_grid() {
    let grid = open_grid(2, 2);
    assert_eq!(neighbors(-1, 0, &grid), vec![(0, 0)]);
    assert_eq!(neighbors(5, 5, &grid), Vec::<(i32, i32)>::new());
    assert_eq!(neighbors(0, 0, &Vec::new()), Vec::<(i32, i32)>::new());
}

#[test]
fn walkable_cell_snaps_to_itself() {
    let grid = build_nav_grid(3, 5, &vec![(1, 2)]);
    assert_eq!(find_nearest_walkable(3, 1, &grid), (3, 1));
}

#[test]
fn blocked_cell_snaps_to_the_nearest_walkable_one() {
    let grid = build_nav_grid(3, 6, &vec![(1, 3)]);
    assert_eq!(find_nearest_walkable(1, 1, &grid), (0, 1));
    assert_eq!(find_nearest_walkable(3, 2, &grid), (4, 2));
}

#[test]
fn equally_near_cells_snap_to_the_first_in_row_order() {
    let grid = build_nav_grid(3, 5, &vec![(1, 3)]);
    // (0, 1) and (4, 1) are both two steps from (2, 1).
    assert_eq!(find_nearest_walkable(2, 1, &grid), (0, 1));
}

#[test]
fn snapping_in_a_fully_blocked_grid_keeps_the_cell() {
    let grid = build_nav_grid(2, 3, &vec![(0, 2)]);
    assert_eq!(find_nearest_walkable(1, 1, &grid), (1, 1));
    assert_eq!(find_nearest_walkable(7, -3, &Vec::new()), (7, -3));
}

#[test]
fn cell_outside_the_grid_snaps_into_it() {
    let grid = open_grid(2, 2);
    assert_eq!(find_nearest_walkable(5, 0, &grid), (1, 0));
    assert_eq!(find_nearest_walkable(-3, 9, &grid), (0, 1));
}

#[test]
fn search_finds_a_shortest_route_in_an_open_grid() {
    let grid = open_grid(6, 8);
    let path = search(&grid, (1, 1), (6, 4)).expect("route");
    assert_route(&grid, &path, (1, 1), (6, 4));
    assert_eq!(path.len(), 9);
}

#[test]
fn search_from_a_cell_to_itself_is_one_cell() {
    let grid = open_grid(2, 2);
    assert_eq!(search(&grid, (1, 0), (1, 0)), Some(vec![(1, 0)]));
}

#[test]
fn search_goes_around_a_wall() {
    let mut grid = open_grid(5, 5);
    for row in 0..4 {
        grid[row][2] = false;
    }
    let path = search(&grid, (0, 0), (4, 0)).expect("route");
    assert_route(&grid, &path, (0, 0), (4, 0));
    assert_eq!(path.len(), 13);
    assert!(path.contains(&(2, 4)));
}

#[test]
fn search_across_a_lane_finds_nothing() {
    let grid = build_nav_grid(4, 7, &vec![(3, 3)]);
    assert_eq!(search(&grid, (0, 0), (6, 3)), None);
    assert!(search(&grid, (0, 0), (2, 3)).is_some());
}

#[test]
fn find_path_in_a_degenerate_grid_is_none() {
    assert_eq!(find_path((0, 0), (1, 1), &Vec::new()), None);
    assert_eq!(find_path((0, 0), (1, 1), &vec![Vec::new(), Vec::new()]), None);
}

#[test]
fn find_path_limits_and_snaps_both_ends() {
    let grid = build_nav_grid(4, 8, &vec![(0, 1)]);
    let path = find_path((-5, -5), (100, 100), &grid).expect("route");
    assert_route(&grid, &path, (2, 0), (7, 3));
    assert_eq!(path.len(), 9);
}

#[test]
fn find_path_in_a_fully_blocked_grid() {
    let grid = build_nav_grid(2, 2, &vec![(0, 1)]);
    assert_eq!(find_path((0, 0), (0, 0), &grid), Some(vec![(0, 0)]));
    assert_eq!(find_path((0, 0), (1, 1), &grid), None);
}

#[test]
fn route_cells_lie_outside_all_lane_spans() {
    let spans = vec![(2, 3), (8, 9), (14, 15), (20, 21)];
    let grid = build_nav_grid(20, 40, &spans);
    let path = find_path((22, 0), (39, 19), &grid).expect("route");
    assert_route(&grid, &path, (22, 0), (39, 19));
    for cell in &path {
        for &(first, last) in &spans {
            assert!(cell.0 < first || cell.0 > last);
        }
    }
}

#[test]
fn four_lane_layout_from_left_to_right_has_no_route() {
    // store 200 x 100 with four lanes; (-80, 0) falls into cell (4, 10) and
    // (80, 0) into cell (36, 10). The lanes run the full height, so the
    // caller falls back to the straight line between its two points.
    let spans = vec![(2, 3), (8, 9), (14, 15), (20, 21)];
    let grid = build_nav_grid(20, 40, &spans);
    assert!(is_walkable(&grid, 4, 10));
    assert!(is_walkable(&grid, 36, 10));
    assert_eq!(find_path((4, 10), (36, 10), &grid), None);
}

#[test]
fn four_lane_layout_within_one_corridor() {
    let spans = vec![(2, 3), (8, 9), (14, 15), (20, 21)];
    let grid = build_nav_grid(20, 40, &spans);
    let path = find_path((4, 10), (7, 2), &grid).expect("route");
    assert_route(&grid, &path, (4, 10), (7, 2));
    assert_eq!(path.len(), 12);
    for cell in &path {
        assert!(4 <= cell.0 && cell.0 <= 7);
    }
}

#[test]
fn nodes_compare_by_their_fields() {
    let a = Node { col: 1, row: 2, f_score: 3 };
    let b = a;
    assert_eq!(a, b);
    assert_ne!(a, Node { col: 1, row: 2, f_score: 4 });
}

fn flood_distance(grid: &Vec<Vec<bool>>, from: (i32, i32), to: (i32, i32)) -> Option<usize> {
    let rows = grid.len();
    let cols = grid[0].len();
    let mut seen = vec![vec![false; cols]; rows];
    let mut layer = vec![from];
    seen[from.1 as usize][from.0 as usize] = true;
    let mut steps = 0;
    while !layer.is_empty() {
        if layer.contains(&to) {
            return Some(steps);
        }
        let mut next_layer = Vec::new();
        for &(c, r) in &layer {
            for (dc, dr) in [(-1, 0), (1, 0), (0, -1), (0, 1)] {
                let (nc, nr) = (c + dc, r + dr);
                if nc < 0 || nr < 0 || nc >= cols as i32 || nr >= rows as i32 {
                    continue;
                }
                if grid[nr as usize][nc as usize] && !seen[nr as usize][nc as usize] {
                    seen[nr as usize][nc as usize] = true;
                    next_layer.push((nc, nr));
                }
            }
        }
        layer = next_layer;
        steps += 1;
    }
    None
}

#[test]
fn search_agrees_with_a_flood_fill_on_scattered_walls() {
    let mut state: u32 = 12345;
    for round in 0..40 {
        let rows = 3 + round % 5;
        let cols = 4 + round % 7;
        let mut grid = vec![vec![true; cols]; rows];
        for row in grid.iter_mut() {
            for cell in row.iter_mut() {
                state = state.wrapping_mul(1664525).wrapping_add(1013904223);
                *cell = (state >> 24) % 10 >= 3;
            }
        }
        grid[0][0] = true;
        let from = (0, 0);
        for to in [((cols - 1) as i32, (rows - 1) as i32), ((cols / 2) as i32, (rows - 1) as i32), (0, 0)] {
            if !grid[to.1 as usize][to.0 as usize] {
                continue;
            }
            match (search(&grid, from, to), flood_distance(&grid, from, to)) {
                (Some(path), Some(steps)) => {
                    assert_route(&grid, &path, from, to);
                    assert_eq!(path.len(), steps + 1);
                }
                (None, None) => {}
                (found, expected) => panic!("search gave {:?}, flood fill {:?}", found, expected),
            }
        }
    }
}

#[test]
fn snapping_agrees_with_a_full_scan() {
    let mut state: u32 = 777;
    for round in 0..30 {
        let rows = 2 + round % 4;
        let cols = 3 + round % 5;
        let mut grid = vec![vec![false; cols]; rows];
        for row in grid.iter_mut() {
            for cell in row.iter_mut() {
                state = state.wrapping_mul(1664525).wrapping_add(1013904223);
                *cell = (state >> 24) % 4 == 0;
            }
        }
        let from = ((round % cols) as i32, (round % rows) as i32);
        let mut best: Option<(i32, (i32, i32))> = None;
        for r in 0..rows as i32 {
            for c in 0..cols as i32 {
                if grid[r as usize][c as usize] {
                    let d = heuristic((c, r), from);
                    if best.map(|b| d < b.0).unwrap_or(true) {
                        best = Some((d, (c, r)));
                    }
                }
            }
        }
        let expected = best.map(|b| b.1).unwrap_or(from);
        assert_eq!(find_nearest_walkable(from.0, from.1, &grid), expected);
    }
}

#[test]
fn ragged_grid_is_not_searchable() {
    assert!(is_searchable(&open_grid(3, 4)));
    assert!(is_searchable(&Vec::new()));
    assert!(!is_searchable(&vec![vec![true, true], vec![true]]));
}

#[test]
fn neighbors_in_a_ragged_grid() {
    let grid = vec![vec![true, true, true], vec![true]];
    assert_eq!(neighbors(1, 0, &grid), vec![(0, 0), (2, 0)]);
    assert_eq!(neighbors(0, 1, &grid), vec![(0, 0)]);
}

#[test]
fn search_crosses_a_large_open_grid() {
    let grid = open_grid(100, 120);
    let path = search(&grid, (0, 0), (119, 99)).expect("route");
    assert_route(&grid, &path, (0, 0), (119, 99));
    assert_eq!(path.len(), 219);
}

#[test]
fn default_layout_routes_along_a_corridor() {
    // store 250 x 150, cells of 5: 50 columns, 30 rows; six lanes, 40 apart
    // from -105, each 4.5 wide to either side.
    let spans = vec![(3, 4), (11, 12), (19, 20), (27, 28), (35, 36), (43, 44)];
    let grid = build_nav_grid(30, 50, &spans);
    let path = find_path((12, 3), (17, 28), &grid).expect("route");
    // (12, 3) is blocked and snaps to (13, 3).
    assert_route(&grid, &path, (13, 3), (17, 28));
    assert_eq!(path.len(), 30);
    assert_eq!(find_path((5, 0), (45, 29), &grid), None);
}
