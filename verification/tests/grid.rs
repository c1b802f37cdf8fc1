use bidir_search::grid::{
    create_graph_from_grid, find_path, initialize_empty_grid, Cell, NUM_PARTITIONS, SIZE,
};

#[test]
fn empty_grid_has_only_empty_cells() {
    let grid = initialize_empty_grid();
    assert_eq!(grid.len(), SIZE);
    for row in grid.iter() {
        assert_eq!(row.len(), SIZE);
        assert!(row.iter().all(|&cell| cell == Cell::Empty));
    }
    assert_eq!(SIZE, 100);
    assert_eq!(NUM_PARTITIONS, 4);
}

#[test]
fn graph_of_the_empty_grid() {
    let grid = initialize_empty_grid();
    let g = create_graph_from_grid(&grid);
    assert_eq!(g.num_vert(), SIZE * SIZE);
    assert_eq!(g.node(0), Some(&(0, 0)));
    assert_eq!(g.node(99), Some(&(99, 0)));
    assert_eq!(g.node(100), Some(&(0, 1)));
    assert_eq!(g.node(4217), Some(&(17, 42)));
    assert_eq!(g.node(9999), Some(&(99, 99)));
    assert_eq!(g.node(10000), None);
    // a corner: down and right, each twice
    assert_eq!(g.neighbours(0), &[(100, 1000), (1, 1000), (1, 1000), (100, 1000)]);
    // the opposite corner: up and left, each twice
    assert_eq!(g.neighbours(9999), &[(9899, 1000), (9998, 1000), (9899, 1000), (9998, 1000)]);
    // an inner cell: up, left, up, down, left, right, right, down
    assert_eq!(
        g.neighbours(4217),
        &[
            (4117, 1000),
            (4216, 1000),
            (4117, 1000),
            (4317, 1000),
            (4216, 1000),
            (4218, 1000),
            (4218, 1000),
            (4317, 1000)
        ]
    );
    // the end of a row is not joined to the start of the next
    assert!(g.neighbours(99).iter().all(|&(v, _)| v != 100));
    assert!(g.neighbours(100).iter().all(|&(v, _)| v != 99));
    for v in 0..SIZE * SIZE {
        assert_eq!(g.get_region(v), 0);
    }
}

#[test]
fn obstacles_have_no_edges() {
    let mut grid = initialize_empty_grid();
    grid[42][17] = Cell::Obstacle;
    grid[42][18] = Cell::Obstacle;
    let g = create_graph_from_grid(&grid);
    assert!(g.neighbours(4217).is_empty());
    assert!(g.neighbours(4218).is_empty());
    // the cell above the first obstacle: up, left, up, left, right, right
    assert_eq!(
        g.neighbours(4117),
        &[
            (4017, 1000),
            (4116, 1000),
            (4017, 1000),
            (4116, 1000),
            (4118, 1000),
            (4118, 1000)
        ]
    );
    // the cell left of it has lost its right neighbour
    assert_eq!(
        g.neighbours(4216),
        &[
            (4116, 1000),
            (4215, 1000),
            (4116, 1000),
            (4316, 1000),
            (4215, 1000),
            (4316, 1000)
        ]
    );
}

#[test]
fn cells_that_are_no_obstacles_are_joined() {
    let mut grid = initialize_empty_grid();
    grid[0][1] = Cell::Path;
    grid[1][0] = Cell::Start;
    let g = create_graph_from_grid(&grid);
    assert_eq!(g.neighbours(0), &[(100, 1000), (1, 1000), (1, 1000), (100, 1000)]);
}

#[test]
fn path_through_the_empty_grid() {
    let grid = initialize_empty_grid();
    let (path, cost) = find_path(&grid, (0, 0), (99, 99)).unwrap();
    assert_eq!(path.first(), Some(&(0, 0)));
    assert_eq!(path.last(), Some(&(99, 99)));
    for pair in path.windows(2) {
        assert_eq!(pair[0].0.abs_diff(pair[1].0) + pair[0].1.abs_diff(pair[1].1), 1);
    }
    assert_eq!(cost, (path.len() as u128 - 1) * 1000);
    assert!(path.len() >= 199);
}

#[test]
fn path_to_the_same_cell() {
    let grid = initialize_empty_grid();
    assert_eq!(find_path(&grid, (7, 3), (7, 3)), Some((vec![(7, 3)], 0)));
}

#[test]
fn path_to_the_next_cell() {
    let grid = initialize_empty_grid();
    assert_eq!(find_path(&grid, (7, 3), (8, 3)), Some((vec![(7, 3), (8, 3)], 1000)));
    assert_eq!(find_path(&grid, (7, 3), (7, 2)), Some((vec![(7, 3), (7, 2)], 1000)));
}

#[test]
fn no_path_into_a_walled_cell() {
    let mut grid = initialize_empty_grid();
    grid[4][5] = Cell::Obstacle;
    grid[6][5] = Cell::Obstacle;
    grid[5][4] = Cell::Obstacle;
    grid[5][6] = Cell::Obstacle;
    assert_eq!(find_path(&grid, (0, 0), (5, 5)), None);
    assert_eq!(find_path(&grid, (5, 5), (0, 0)), None);
    assert_eq!(find_path(&grid, (5, 5), (5, 5)), Some((vec![(5, 5)], 0)));
    assert!(find_path(&grid, (0, 0), (7, 5)).is_some());
}

#[test]
fn no_path_from_or_to_an_obstacle() {
    let mut grid = initialize_empty_grid();
    grid[10][10] = Cell::Obstacle;
    assert_eq!(find_path(&grid, (10, 10), (11, 10)), None);
    assert_eq!(find_path(&grid, (0, 0), (10, 10)), None);
}

#[test]
fn path_round_a_wall_in_the_grid() {
    let mut grid = initialize_empty_grid();
    for y in 0..99 {
        grid[y][50] = Cell::Obstacle;
    }
    let (path, cost) = find_path(&grid, (40, 0), (60, 0)).unwrap();
    assert_eq!(path.first(), Some(&(40, 0)));
    assert_eq!(path.last(), Some(&(60, 0)));
    assert!(path.contains(&(50, 99)));
    assert!(path.iter().all(|&(x, y)| grid[y][x] != Cell::Obstacle));
    for pair in path.windows(2) {
        assert_eq!(pair[0].0.abs_diff(pair[1].0) + pair[0].1.abs_diff(pair[1].1), 1);
    }
    assert_eq!(cost, (path.len() as u128 - 1) * 1000);
}
