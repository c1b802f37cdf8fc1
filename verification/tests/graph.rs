use bidir_search::structures::Grafo;

fn square() -> Grafo {
    Grafo::new(4, vec![(0, 0), (1, 0), (1, 1), (0, 1)])
}

#[test]
fn add_edge_lists_the_edge_from_both_ends() {
    let mut g = Grafo::new(3, vec![(0, 0), (1, 0), (2, 0)]);
    g.add_edge(0, 2, 1500);
    assert_eq!(g.neighbours(0), &[(2, 1500)]);
    assert_eq!(g.neighbours(2), &[(0, 1500)]);
    assert!(g.neighbours(1).is_empty());
}

#[test]
fn new_graph_has_no_edges_and_one_region() {
    let g = square();
    assert_eq!(g.num_vert(), 4);
    for v in 0..4 {
        assert!(g.neighbours(v).is_empty());
        assert_eq!(g.get_region(v), 0);
    }
}

#[test]
fn edges_keep_the_order_in_which_they_were_added() {
    let mut g = square();
    g.add_edge(0, 1, 1000);
    g.add_edge(1, 2, 1500);
    g.add_edge(2, 3, 1000);
    g.add_edge(0, 3, 3000);
    assert_eq!(g.neighbours(0), &[(1, 1000), (3, 3000)]);
    assert_eq!(g.neighbours(1), &[(0, 1000), (2, 1500)]);
    assert_eq!(g.neighbours(2), &[(1, 1500), (3, 1000)]);
    assert_eq!(g.neighbours(3), &[(2, 1000), (0, 3000)]);
}

#[test]
fn a_second_edge_between_two_nodes_is_listed_again() {
    let mut g = square();
    g.add_edge(0, 1, 1000);
    g.add_edge(0, 1, 2500);
    assert_eq!(g.neighbours(0), &[(1, 1000), (1, 2500)]);
    assert_eq!(g.neighbours(1), &[(0, 1000), (0, 2500)]);
}

#[test]
fn a_loop_is_listed_twice_at_its_node() {
    let mut g = square();
    g.add_edge(2, 2, 700);
    assert_eq!(g.neighbours(2), &[(2, 700), (2, 700)]);
}

#[test]
fn node_gives_the_coordinate_or_nothing() {
    let g = square();
    assert_eq!(g.node(0), Some(&(0, 0)));
    assert_eq!(g.node(2), Some(&(1, 1)));
    assert_eq!(g.node(3), Some(&(0, 1)));
    assert_eq!(g.node(4), None);
    assert_eq!(g.node(usize::MAX), None);
}

#[test]
fn set_region_changes_one_label() {
    let mut g = square();
    g.set_region(2, 7);
    assert_eq!(g.get_region(2), 7);
    assert_eq!(g.get_region(0), 0);
    assert_eq!(g.get_region(1), 0);
    assert_eq!(g.get_region(3), 0);
}

#[test]
fn region_boundaries_are_a_set_of_pairs() {
    let mut g = square();
    assert!(!g.is_region_boundary(1, 2));
    g.add_region_boundary(1, 2);
    g.add_region_boundary(1, 2);
    g.add_region_boundary(0, 3);
    assert!(g.is_region_boundary(1, 2));
    assert!(g.is_region_boundary(0, 3));
    assert!(!g.is_region_boundary(2, 1));
    assert!(!g.is_region_boundary(1, 3));
    g.clear_region_boundaries();
    assert!(!g.is_region_boundary(1, 2));
    assert!(!g.is_region_boundary(0, 3));
}

#[test]
fn a_clone_is_a_graph_of_its_own() {
    let mut g = square();
    g.add_edge(0, 1, 1000);
    g.set_region(3, 2);
    g.add_region_boundary(2, 3);
    let mut copy = g.clone();
    copy.add_edge(2, 3, 500);
    copy.set_region(0, 5);
    assert_eq!(copy.neighbours(0), &[(1, 1000)]);
    assert_eq!(copy.neighbours(2), &[(3, 500)]);
    assert_eq!(copy.get_region(3), 2);
    assert!(copy.is_region_boundary(2, 3));
    assert!(g.neighbours(2).is_empty());
    assert_eq!(g.get_region(0), 0);
}
