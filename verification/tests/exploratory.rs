use bidir_search::algorithms::exploratory::advanced_exploratory_search;
use bidir_search::structures::Grafo;

fn four_cycle() -> Grafo {
    let mut g = Grafo::new(4, vec![(0, 0), (1, 0), (1, 1), (0, 1)]);
    g.add_edge(0, 1, 1000);
    g.add_edge(1, 2, 1500);
    g.add_edge(2, 3, 1000);
    g.add_edge(0, 3, 3000);
    g
}

#[test]
fn exploration_takes_the_direct_edge() {
    // 3.0 along the direct edge, 3.5 the other way round
    let g = four_cycle();
    assert_eq!(advanced_exploratory_search(&g, 0, 3), Some(3000));
    assert_eq!(advanced_exploratory_search(&g, 0, 3).map(|c| c as f64 / 1000.0), Some(3.0));
}

#[test]
fn exploration_adds_up_weights() {
    let g = four_cycle();
    assert_eq!(advanced_exploratory_search(&g, 0, 1), Some(1000));
    // two steps either way: by 1, which was found first
    assert_eq!(advanced_exploratory_search(&g, 0, 2), Some(2500));
    assert_eq!(advanced_exploratory_search(&g, 1, 3), Some(4000));
    assert_eq!(advanced_exploratory_search(&g, 3, 1), Some(2500));
}

#[test]
fn exploration_prefers_fewer_steps_to_less_weight() {
    let mut g = Grafo::new(3, vec![(0, 0), (1, 0), (2, 0)]);
    g.add_edge(0, 1, 1);
    g.add_edge(1, 2, 1);
    g.add_edge(0, 2, 500);
    assert_eq!(advanced_exploratory_search(&g, 0, 2), Some(500));
}

#[test]
fn exploration_takes_the_first_of_two_edges() {
    let mut g = Grafo::new(2, vec![(0, 0), (1, 0)]);
    g.add_edge(0, 1, 700);
    g.add_edge(0, 1, 300);
    assert_eq!(advanced_exploratory_search(&g, 0, 1), Some(700));
}

#[test]
fn exploration_from_a_node_to_itself_costs_nothing() {
    let g = four_cycle();
    for v in 0..4 {
        assert_eq!(advanced_exploratory_search(&g, v, v), Some(0));
    }
    let lonely = Grafo::new(1, vec![(0, 0)]);
    assert_eq!(advanced_exploratory_search(&lonely, 0, 0), Some(0));
}

#[test]
fn exploration_finds_nothing_in_another_part() {
    let mut g = Grafo::new(5, (0..5).map(|i| (i, 0)).collect());
    g.add_edge(0, 1, 1000);
    g.add_edge(2, 3, 1000);
    assert_eq!(advanced_exploratory_search(&g, 0, 3), None);
    assert_eq!(advanced_exploratory_search(&g, 3, 0), None);
    assert_eq!(advanced_exploratory_search(&g, 4, 0), None);
    assert_eq!(advanced_exploratory_search(&g, 0, 4), None);
    assert_eq!(advanced_exploratory_search(&g, 2, 3), Some(1000));
}

#[test]
fn exploration_adds_the_largest_weights_without_overflow() {
    let mut g = Grafo::new(3, vec![(0, 0), (1, 0), (2, 0)]);
    g.add_edge(0, 1, u64::MAX);
    g.add_edge(1, 2, u64::MAX);
    assert_eq!(advanced_exploratory_search(&g, 0, 2), Some(2 * (u64::MAX as u128)));
}
