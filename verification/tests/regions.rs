use bidir_search::algorithms::regions::{partition_graph, partition_with_seeds, PartitionError};
use bidir_search::structures::Grafo;

fn line(n: usize) -> Grafo {
    let mut g = Grafo::new(n, (0..n).map(|i| (i, 0)).collect());
    for i in 0..n - 1 {
        g.add_edge(i, i + 1, 1000);
    }
    g
}

fn square_grid(side: usize) -> Grafo {
    let mut g = Grafo::new(side * side, (0..side * side).map(|i| (i % side, i / side)).collect());
    for y in 0..side {
        for x in 0..side {
            if x + 1 < side {
                g.add_edge(y * side + x, y * side + x + 1, 1000);
            }
            if y + 1 < side {
                g.add_edge(y * side + x, (y + 1) * side + x, 1000);
            }
        }
    }
    g
}

fn regions_of(g: &Grafo) -> Vec<usize> {
    (0..g.num_vert()).map(|v| g.get_region(v)).collect()
}

fn assert_borders_are_exact(g: &Grafo, k: usize) {
    for v in 0..g.num_vert() {
        let region = g.get_region(v);
        let foreign = g.neighbours(v).iter().any(|&(w, _)| g.get_region(w) != region);
        for r in 0..k {
            assert_eq!(g.is_region_boundary(r, v), r == region && foreign, "node {} region {}", v, r);
        }
    }
}

#[test]
fn regions_grow_from_the_seeds_along_a_line() {
    let mut g = line(5);
    assert_eq!(partition_with_seeds(&mut g, &vec![0, 4]), Ok(()));
    // the middle node sees one neighbour of each region, both regions have
    // two nodes: the region of lower index wins
    assert_eq!(regions_of(&g), vec![0, 0, 0, 1, 1]);
    assert_borders_are_exact(&g, 2);
    assert!(g.is_region_boundary(0, 2));
    assert!(g.is_region_boundary(1, 3));
    assert!(!g.is_region_boundary(0, 1));
}

#[test]
fn seed_order_numbers_the_regions() {
    let mut g = line(5);
    assert_eq!(partition_with_seeds(&mut g, &vec![4, 0]), Ok(()));
    assert_eq!(regions_of(&g), vec![1, 1, 0, 0, 0]);
}

#[test]
fn the_lower_region_wins_a_tie_of_counts_and_sizes() {
    let mut g = Grafo::new(6, (0..6).map(|i| (i, 0)).collect());
    g.add_edge(0, 1, 1000);
    g.add_edge(1, 5, 1000);
    g.add_edge(5, 2, 1000);
    g.add_edge(2, 3, 1000);
    g.add_edge(2, 4, 1000);
    // seeds 0 and 3: pass one gives 1 to region 0 and 2 to region 1; pass
    // two: 5 sees 1 (region 0) and 2 (region 1), both regions have two
    // nodes: region 0; 4 sees 2: region 1
    assert_eq!(partition_with_seeds(&mut g, &vec![0, 3]), Ok(()));
    assert_eq!(regions_of(&g), vec![0, 0, 1, 1, 1, 0]);
    assert_borders_are_exact(&g, 2);
}

#[test]
fn the_smaller_region_wins_a_tie_of_counts() {
    let mut g = Grafo::new(6, (0..6).map(|i| (i, 0)).collect());
    g.add_edge(0, 2, 1000);
    g.add_edge(0, 3, 1000);
    g.add_edge(1, 4, 1000);
    g.add_edge(5, 2, 1000);
    g.add_edge(5, 4, 1000);
    // seeds 0 and 1: pass one gives 2 and 3 to region 0 and 4 to region 1;
    // pass two: 5 sees 2 (region 0) and 4 (region 1); region 0 has three
    // nodes and region 1 has two: region 1
    assert_eq!(partition_with_seeds(&mut g, &vec![0, 1]), Ok(()));
    assert_eq!(regions_of(&g), vec![0, 1, 0, 0, 1, 1]);
    assert_borders_are_exact(&g, 2);
}

#[test]
fn sizes_count_as_they_were_when_the_pass_began() {
    // 4 and 5 both see one node of each region in the same pass: both join
    // region 0, though region 0 is the larger one once 4 has joined it
    let mut g = Grafo::new(6, (0..6).map(|i| (i, 0)).collect());
    g.add_edge(0, 2, 1000);
    g.add_edge(1, 3, 1000);
    g.add_edge(4, 2, 1000);
    g.add_edge(4, 3, 1000);
    g.add_edge(5, 2, 1000);
    g.add_edge(5, 3, 1000);
    assert_eq!(partition_with_seeds(&mut g, &vec![0, 1]), Ok(()));
    assert_eq!(regions_of(&g), vec![0, 1, 0, 1, 0, 0]);
}

#[test]
fn neighbours_are_counted_edge_by_edge() {
    // 2 sees region 0 once and region 1 twice, along a double edge
    let mut g = Grafo::new(3, (0..3).map(|i| (i, 0)).collect());
    g.add_edge(2, 0, 1000);
    g.add_edge(2, 1, 1000);
    g.add_edge(2, 1, 1000);
    assert_eq!(partition_with_seeds(&mut g, &vec![0, 1]), Ok(()));
    assert_eq!(regions_of(&g), vec![0, 1, 1]);
}

#[test]
fn the_region_with_more_neighbours_wins() {
    // node 3 has two neighbours in region 1 and one in region 0
    let mut g = Grafo::new(4, vec![(0, 0), (1, 0), (2, 0), (1, 1)]);
    g.add_edge(3, 0, 1000);
    g.add_edge(3, 1, 1000);
    g.add_edge(3, 2, 1000);
    g.add_edge(1, 2, 1000);
    // seeds: 0 founds region 0, 1 founds region 1; pass one: 2 joins region 1
    // (only neighbour with a region besides 3), 3 sees 0 and 1: tie, sizes 1
    // and 1: region 0
    assert_eq!(partition_with_seeds(&mut g, &vec![0, 1]), Ok(()));
    assert_eq!(regions_of(&g), vec![0, 1, 1, 0]);
}

#[test]
fn counts_go_before_sizes() {
    // node 4 has two neighbours in region 1 and one in region 0
    let mut g = Grafo::new(5, vec![(0, 0), (1, 0), (2, 0), (3, 0), (4, 0)]);
    g.add_edge(1, 2, 1000);
    g.add_edge(4, 0, 1000);
    g.add_edge(4, 1, 1000);
    g.add_edge(4, 2, 1000);
    g.add_edge(3, 4, 1000);
    // seeds 0, 1, 2 found regions 0, 1, 2; 4 sees one neighbour of each:
    // region 0; 3 waits and then follows 4
    assert_eq!(partition_with_seeds(&mut g, &vec![0, 1, 2]), Ok(()));
    assert_eq!(regions_of(&g), vec![0, 1, 2, 0, 0]);
    // with 1 and 2 both in region 0, region 0 has two of the three neighbours
    let mut g = Grafo::new(5, vec![(0, 0), (1, 0), (2, 0), (3, 0), (4, 0)]);
    g.add_edge(0, 1, 1000);
    g.add_edge(4, 0, 1000);
    g.add_edge(4, 1, 1000);
    g.add_edge(4, 2, 1000);
    g.add_edge(3, 2, 1000);
    // seeds 2 (region 0) and 0 (region 1): pass one: 1 joins region 1, 3 joins
    // region 0, 4 sees 0 (region 1) and 2 (region 0): tie, sizes equal:
    // region 0
    assert_eq!(partition_with_seeds(&mut g, &vec![2, 0]), Ok(()));
    assert_eq!(regions_of(&g), vec![1, 1, 0, 0, 0]);
}

#[test]
fn parts_without_a_seed_are_partitioned_too() {
    let mut g = Grafo::new(6, (0..6).map(|i| (i, 0)).collect());
    g.add_edge(0, 1, 1000);
    g.add_edge(1, 2, 1000);
    g.add_edge(3, 4, 1000);
    g.add_edge(4, 5, 1000);
    // both seeds in the first part: 1 joins region 0 (tie, lower index); then
    // nothing moves, and 3 joins the smaller region 1; 4 and 5 follow it
    assert_eq!(partition_with_seeds(&mut g, &vec![0, 2]), Ok(()));
    assert_eq!(regions_of(&g), vec![0, 0, 1, 1, 1, 1]);
    assert_borders_are_exact(&g, 2);
}

#[test]
fn nodes_without_edges_join_the_smallest_region() {
    let mut g = Grafo::new(5, (0..5).map(|i| (i, i)).collect());
    assert_eq!(partition_with_seeds(&mut g, &vec![3, 1]), Ok(()));
    // 0 joins region 0 (both have one node), 2 joins region 1, 4 joins region 0
    assert_eq!(regions_of(&g), vec![0, 1, 1, 0, 0]);
    for v in 0..5 {
        assert!(!g.is_region_boundary(0, v));
        assert!(!g.is_region_boundary(1, v));
    }
}

#[test]
fn one_region_takes_every_node() {
    let mut g = square_grid(4);
    g.set_region(5, 9);
    g.add_region_boundary(9, 5);
    assert_eq!(partition_with_seeds(&mut g, &vec![7]), Ok(()));
    assert_eq!(regions_of(&g), vec![0; 16]);
    assert!(!g.is_region_boundary(9, 5));
    assert_borders_are_exact(&g, 1);
}

#[test]
fn bad_seeds_are_rejected_and_change_nothing() {
    let mut g = line(4);
    g.set_region(1, 3);
    g.add_region_boundary(3, 1);
    for seeds in [vec![], vec![0, 0], vec![1, 2, 1], vec![4], vec![0, 7], vec![0, 1, 2, 3, 0]] {
        assert_eq!(partition_with_seeds(&mut g, &seeds), Err(PartitionError::InvalidArgument));
        assert_eq!(regions_of(&g), vec![0, 3, 0, 0]);
        assert!(g.is_region_boundary(3, 1));
    }
}

#[test]
fn region_counts_out_of_range_are_rejected() {
    let mut g = line(4);
    assert_eq!(partition_graph(&mut g, 0), Err(PartitionError::InvalidArgument));
    assert_eq!(partition_graph(&mut g, 5), Err(PartitionError::InvalidArgument));
    assert_eq!(regions_of(&g), vec![0; 4]);
    assert_eq!(partition_graph(&mut g, 4), Ok(()));
    assert_eq!(partition_graph(&mut g, 1), Ok(()));
    let mut empty = Grafo::new(0, vec![]);
    assert_eq!(partition_graph(&mut empty, 0), Err(PartitionError::InvalidArgument));
    assert_eq!(partition_graph(&mut empty, 1), Err(PartitionError::InvalidArgument));
}

#[test]
fn grid_is_covered_by_four_regions() {
    for _ in 0..20 {
        let mut g = square_grid(10);
        assert_eq!(partition_graph(&mut g, 4), Ok(()));
        let regions = regions_of(&g);
        assert_eq!(regions.len(), 100);
        assert!(regions.iter().all(|&r| r < 4));
        for r in 0..4 {
            assert!(regions.contains(&r), "region {} is empty", r);
        }
        assert_borders_are_exact(&g, 4);
    }
}

#[test]
fn as_many_regions_as_nodes_gives_each_node_its_own() {
    let mut g = line(12);
    assert_eq!(partition_graph(&mut g, 12), Ok(()));
    let mut regions = regions_of(&g);
    regions.sort();
    assert_eq!(regions, (0..12).collect::<Vec<usize>>());
}

#[test]
fn seeds_are_drawn_in_changing_order() {
    // with as many regions as nodes the regions show the order of the seeds
    let mut seen_other_order = false;
    for _ in 0..8 {
        let mut g = line(20);
        assert_eq!(partition_graph(&mut g, 20), Ok(()));
        if regions_of(&g) != (0..20).collect::<Vec<usize>>() {
            seen_other_order = true;
        }
    }
    assert!(seen_other_order);
}
