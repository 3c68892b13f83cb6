use store_nav::grid::{build_nav_grid, clamp, is_walkable};

#[test]
fn clamp_limits_to_range() {
    assert_eq!(clamp(5, 0, 3), 3);
    assert_eq!(clamp(-2, 0, 3), 0);
    assert_eq!(clamp(2, 0, 3), 2);
    assert_eq!(clamp(2, 0, -1), -1);
}

#[test]
fn lanes_block_whole_columns() {
    let grid = build_nav_grid(3, 6, &vec![(1, 2), (4, 9)]);
    assert_eq!(grid.len(), 3);
    for row in &grid {
        assert_eq!(row, &vec![true, false, false, true, false, false]);
    }
    assert!(is_walkable(&grid, 0, 0));
    assert!(!is_walkable(&grid, 1, 2));
    assert!(!is_walkable(&grid, 6, 0));
    assert!(!is_walkable(&grid, 0, 3));
    assert!(!is_walkable(&grid, -1, 0));
}

#[test]
fn grid_without_lanes_is_all_walkable() {
    let grid = build_nav_grid(2, 3, &Vec::new());
    assert_eq!(grid, vec![vec![true; 3]; 2]);
}

#[test]
fn grid_without_columns_has_empty_rows() {
    let grid = build_nav_grid(2, 0, &vec![(0, 3)]);
    assert_eq!(grid, vec![Vec::<bool>::new(), Vec::<bool>::new()]);
    let none = build_nav_grid(0, 4, &vec![(0, 3)]);
    assert!(none.is_empty());
}

#[test]
fn spans_are_limited_to_the_grid() {
    let grid = build_nav_grid(1, 5, &vec![(-7, 0), (4, 100)]);
    assert_eq!(grid[0], vec![false, true, true, true, false]);
    let beyond = build_nav_grid(1, 5, &vec![(9, 12)]);
    assert_eq!(beyond[0], vec![true, true, true, true, false]);
}

#[test]
fn span_that_ends_before_it_starts_blocks_nothing() {
    let grid = build_nav_grid(1, 5, &vec![(3, 1)]);
    assert_eq!(grid[0], vec![true; 5]);
}

#[test]
fn four_lane_layout_blocks_the_expected_columns() {
    // store 200 x 100, cells of 5: 40 columns, 20 rows; lane centres at
    // -85, -55, -25 and 5, each 4 wide to either side.
    let spans = vec![(2, 3), (8, 9), (14, 15), (20, 21)];
    let grid = build_nav_grid(20, 40, &spans);
    assert_eq!(grid.len(), 20);
    for row in &grid {
        assert_eq!(row.len(), 40);
        for (col, open) in row.iter().enumerate() {
            let blocked = spans.iter().any(|&(first, last)| first as usize <= col && col <= last as usize);
            assert_eq!(*open, !blocked);
        }
    }
}
