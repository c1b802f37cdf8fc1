use bidir_search::algorithms::heuristics::manhattan_distance;
use bidir_search::grid::{initialize_empty_grid, Cell, SIZE};
use bidir_search::report::{count_obstacles, grid_with_path, path_ranges, symbol};

#[test]
fn ranges_of_a_path() {
    let path = vec![(3, 9), (4, 9), (4, 8), (4, 7), (5, 7), (2, 7)];
    assert_eq!(path_ranges(&path), Some(((2, 5), (7, 9))));
}

#[test]
fn ranges_tell_columns_from_rows() {
    let path = vec![(1, 50), (2, 60)];
    assert_eq!(path_ranges(&path), Some(((1, 2), (50, 60))));
    let path = vec![(9, 0), (7, 3), (8, 1)];
    assert_eq!(path_ranges(&path), Some(((7, 9), (0, 3))));
}

#[test]
fn ranges_of_one_cell() {
    assert_eq!(path_ranges(&vec![(6, 2)]), Some(((6, 6), (2, 2))));
}

#[test]
fn ranges_of_no_cell() {
    assert_eq!(path_ranges(&vec![]), None);
}

#[test]
fn ranges_of_equal_cells() {
    assert_eq!(path_ranges(&vec![(1, 1), (1, 1), (1, 1), (1, 1)]), Some(((1, 1), (1, 1))));
}

#[test]
fn manhattan_distance_adds_both_differences() {
    assert_eq!(manhattan_distance((0, 0), (3, 4)), 7);
    assert_eq!(manhattan_distance((3, 4), (0, 0)), 7);
    assert_eq!(manhattan_distance((10, 2), (4, 9)), 13);
    assert_eq!(manhattan_distance((5, 5), (5, 5)), 0);
    assert_eq!(
        manhattan_distance((0, usize::MAX), (usize::MAX, 0)),
        2 * (usize::MAX as u128)
    );
}

#[test]
fn obstacles_are_counted() {
    let mut grid = initialize_empty_grid();
    assert_eq!(count_obstacles(&grid), 0);
    grid[0][0] = Cell::Obstacle;
    grid[99][99] = Cell::Obstacle;
    grid[17][42] = Cell::Obstacle;
    grid[17][43] = Cell::Path;
    grid[18][43] = Cell::Start;
    grid[19][43] = Cell::Goal;
    assert_eq!(count_obstacles(&grid), 3);
    for y in 0..SIZE {
        for x in 0..SIZE {
            grid[y][x] = Cell::Obstacle;
        }
    }
    assert_eq!(count_obstacles(&grid), SIZE * SIZE);
}

#[test]
fn path_is_drawn_on_empty_cells_only() {
    let mut grid = initialize_empty_grid();
    grid[0][2] = Cell::Obstacle;
    let path = vec![(0, 0), (1, 0), (2, 0), (3, 0), (3, 1)];
    let out = grid_with_path(&grid, &path, (0, 0), (3, 1));
    assert_eq!(out[0][0], Cell::Start);
    assert_eq!(out[0][1], Cell::Path);
    assert_eq!(out[0][2], Cell::Obstacle);
    assert_eq!(out[0][3], Cell::Path);
    assert_eq!(out[1][3], Cell::Goal);
    assert_eq!(out[1][0], Cell::Empty);
    let mut drawn = 0;
    for y in 0..SIZE {
        for x in 0..SIZE {
            if out[y][x] != Cell::Empty {
                drawn += 1;
            }
        }
    }
    assert_eq!(drawn, 5);
    // the grid itself is as it was
    assert_eq!(grid[0][1], Cell::Empty);
}

#[test]
fn goal_is_drawn_over_start() {
    let grid = initialize_empty_grid();
    let out = grid_with_path(&grid, &vec![(4, 4)], (4, 4), (4, 4));
    assert_eq!(out[4][4], Cell::Goal);
}

#[test]
fn start_and_goal_are_drawn_off_the_path_and_over_obstacles() {
    let mut grid = initialize_empty_grid();
    grid[8][9] = Cell::Obstacle;
    let out = grid_with_path(&grid, &vec![], (9, 8), (1, 2));
    assert_eq!(out[8][9], Cell::Start);
    assert_eq!(out[2][1], Cell::Goal);
}

#[test]
fn symbols_of_cells() {
    assert_eq!(symbol(Cell::Empty), '.');
    assert_eq!(symbol(Cell::Obstacle), '#');
    assert_eq!(symbol(Cell::Path), '*');
    assert_eq!(symbol(Cell::Start), 'S');
    assert_eq!(symbol(Cell::Goal), 'G');
}
