use bidir_search::algorithms::bidirectional::bidirectional_search;
use bidir_search::structures::Grafo;

fn cycle() -> Grafo {
    let mut g = Grafo::new(4, vec![(0, 0), (1, 0), (1, 1), (0, 1)]);
    g.add_edge(0, 1, 1000);
    g.add_edge(1, 2, 1500);
    g.add_edge(2, 3, 1000);
    g.add_edge(0, 3, 3000);
    g
}

fn grid(width: usize, height: usize) -> Grafo {
    let nodes = (0..width * height).map(|i| (i % width, i / width)).collect();
    let mut g = Grafo::new(width * height, nodes);
    for y in 0..height {
        for x in 0..width {
            if x + 1 < width {
                g.add_edge(y * width + x, y * width + x + 1, 1000);
            }
            if y + 1 < height {
                g.add_edge(y * width + x, (y + 1) * width + x, 1000);
            }
        }
    }
    g
}

fn assert_is_route(path: &[(usize, usize)], start: (usize, usize), goal: (usize, usize)) {
    assert_eq!(path.first(), Some(&start));
    assert_eq!(path.last(), Some(&goal));
    for pair in path.windows(2) {
        let dx = pair[0].0.abs_diff(pair[1].0);
        let dy = pair[0].1.abs_diff(pair[1].1);
        assert_eq!(dx + dy, 1, "{:?} and {:?} are no neighbours", pair[0], pair[1]);
    }
}

#[test]
fn from_a_node_to_itself_the_path_is_that_node() {
    let g = cycle();
    for s in 0..4 {
        let (path, cost) = bidirectional_search(&g, s, s).unwrap();
        assert_eq!(path, vec![*g.node(s).unwrap()]);
        assert_eq!(cost, 0);
    }
}

#[test]
fn a_single_node_without_edges_reaches_itself() {
    let g = Grafo::new(1, vec![(5, 9)]);
    assert_eq!(bidirectional_search(&g, 0, 0), Some((vec![(5, 9)], 0)));
}

#[test]
fn no_path_between_two_parts() {
    let mut g = Grafo::new(4, vec![(0, 0), (1, 0), (5, 5), (6, 5)]);
    g.add_edge(0, 1, 1000);
    g.add_edge(2, 3, 1000);
    assert_eq!(bidirectional_search(&g, 0, 2), None);
    assert_eq!(bidirectional_search(&g, 3, 1), None);
    assert!(bidirectional_search(&g, 0, 1).is_some());
}

#[test]
fn no_path_from_or_to_a_node_without_edges() {
    let mut g = Grafo::new(3, vec![(0, 0), (1, 0), (2, 0)]);
    g.add_edge(0, 1, 1000);
    assert_eq!(bidirectional_search(&g, 2, 0), None);
    assert_eq!(bidirectional_search(&g, 0, 2), None);
}

#[test]
fn cost_counts_steps_and_not_weights() {
    // the direct edge weighs 3.0, the way round 3.5: one step either way round
    let g = cycle();
    let (path, cost) = bidirectional_search(&g, 0, 3).unwrap();
    assert_eq!(path, vec![(0, 0), (0, 1)]);
    assert_eq!(cost, 1000);
    assert_eq!(cost as f64 / 1000.0, 1.0);
}

#[test]
fn a_heavy_direct_edge_still_counts_one_step() {
    let mut g = Grafo::new(3, vec![(0, 0), (1, 0), (2, 0)]);
    g.add_edge(0, 1, 1);
    g.add_edge(1, 2, 1);
    g.add_edge(0, 2, 1_000_000);
    let (path, cost) = bidirectional_search(&g, 0, 2).unwrap();
    assert_eq!(path, vec![(0, 0), (2, 0)]);
    assert_eq!(cost, 1000);
}

#[test]
fn path_along_a_line() {
    let mut g = Grafo::new(5, (0..5).map(|i| (i, 0)).collect());
    for i in 0..4 {
        g.add_edge(i, i + 1, 1000);
    }
    let (path, cost) = bidirectional_search(&g, 0, 4).unwrap();
    assert_eq!(path, vec![(0, 0), (1, 0), (2, 0), (3, 0), (4, 0)]);
    assert_eq!(cost, 4000);
    let (path, cost) = bidirectional_search(&g, 3, 1).unwrap();
    assert_eq!(path, vec![(3, 0), (2, 0), (1, 0)]);
    assert_eq!(cost, 2000);
}

#[test]
fn neighbours_are_one_step_apart() {
    let g = cycle();
    assert_eq!(bidirectional_search(&g, 1, 2), Some((vec![(1, 0), (1, 1)], 1000)));
    assert_eq!(bidirectional_search(&g, 2, 1), Some((vec![(1, 1), (1, 0)], 1000)));
}

#[test]
fn paths_through_a_grid_are_routes() {
    let g = grid(10, 10);
    for (start, goal) in [(0usize, 99usize), (99, 0), (9, 90), (45, 54), (0, 9), (37, 37)] {
        let (path, cost) = bidirectional_search(&g, start, goal).unwrap();
        assert_is_route(&path, *g.node(start).unwrap(), *g.node(goal).unwrap());
        assert_eq!(cost, (path.len() as u128 - 1) * 1000);
    }
}

#[test]
fn path_round_a_wall() {
    // a 5 x 5 grid with a wall in column 2 that leaves the bottom row open
    let width = 5;
    let nodes: Vec<(usize, usize)> = (0..25).map(|i| (i % width, i / width)).collect();
    let mut g = Grafo::new(25, nodes);
    let free = |x: usize, y: usize| x != 2 || y == 4;
    for y in 0..5 {
        for x in 0..5 {
            if !free(x, y) {
                continue;
            }
            if x + 1 < 5 && free(x + 1, y) {
                g.add_edge(y * width + x, y * width + x + 1, 1000);
            }
            if y + 1 < 5 && free(x, y + 1) {
                g.add_edge(y * width + x, (y + 1) * width + x, 1000);
            }
        }
    }
    let (path, cost) = bidirectional_search(&g, 0, 4).unwrap();
    assert_is_route(&path, (0, 0), (4, 0));
    assert!(path.contains(&(2, 4)));
    assert!(path.iter().all(|&(x, y)| free(x, y)));
    assert_eq!(cost, (path.len() as u128 - 1) * 1000);
    // a wall cell is cut off
    assert_eq!(bidirectional_search(&g, 0, 2), None);
}

#[test]
fn regions_do_not_cut_connections() {
    let mut g = grid(6, 6);
    for v in 0..36 {
        g.set_region(v, if v % 6 < 3 { 0 } else { 1 });
    }
    let (path, cost) = bidirectional_search(&g, 0, 35).unwrap();
    assert_is_route(&path, (0, 0), (5, 5));
    assert_eq!(cost, (path.len() as u128 - 1) * 1000);
}
