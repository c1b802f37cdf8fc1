use bidir_search::algorithms::heuristics::adaptive_heuristic;
use bidir_search::structures::Grafo;

// two nodes at Manhattan distance 7, and a third one in another region
fn far_apart() -> Grafo {
    let mut g = Grafo::new(3, vec![(0, 0), (3, 4), (3, 4)]);
    g.set_region(2, 1);
    g
}

#[test]
fn estimate_without_cost_is_the_distance() {
    let g = far_apart();
    assert_eq!(adaptive_heuristic(&g, 0, 1, 0), 7000);
    assert_eq!(adaptive_heuristic(&g, 1, 0, 0), 7000);
}

#[test]
fn estimate_grows_with_the_cost_up_to_a_tenth_of_the_distance() {
    let g = far_apart();
    assert_eq!(adaptive_heuristic(&g, 0, 1, 350), 7350);
    assert_eq!(adaptive_heuristic(&g, 0, 1, 699), 7699);
    assert_eq!(adaptive_heuristic(&g, 0, 1, 700), 7700);
    assert_eq!(adaptive_heuristic(&g, 0, 1, 701), 7700);
    assert_eq!(adaptive_heuristic(&g, 0, 1, 1000), 7700);
    assert_eq!(adaptive_heuristic(&g, 0, 1, u128::MAX), 7700);
}

#[test]
fn estimate_is_monotone_then_flat() {
    let g = far_apart();
    let mut last = 0;
    for cost in (0..2000).step_by(50) {
        let h = adaptive_heuristic(&g, 0, 1, cost);
        assert!(h >= last);
        if cost >= 700 {
            assert_eq!(h, 7700);
        }
        last = h;
    }
}

#[test]
fn crossing_a_region_border_adds_a_tenth() {
    let g = far_apart();
    assert_eq!(adaptive_heuristic(&g, 0, 2, 0), 7700);
    assert_eq!(adaptive_heuristic(&g, 0, 2, 700), 8470);
    assert_eq!(adaptive_heuristic(&g, 2, 0, 5000), 8470);
}

#[test]
fn the_region_surcharge_rounds_down() {
    let g = far_apart();
    // 7.001 * 1.1 = 7.7011
    assert_eq!(adaptive_heuristic(&g, 0, 2, 1), 7701);
    // 7.009 * 1.1 = 7.7099
    assert_eq!(adaptive_heuristic(&g, 0, 2, 9), 7709);
}

#[test]
fn estimate_at_distance_zero_is_zero() {
    let g = far_apart();
    assert_eq!(adaptive_heuristic(&g, 1, 1, 0), 0);
    assert_eq!(adaptive_heuristic(&g, 1, 1, 4000), 0);
    // same place, other region
    assert_eq!(adaptive_heuristic(&g, 1, 2, 4000), 0);
}

#[test]
fn estimate_agrees_with_the_formula_in_floating_point() {
    let g = far_apart();
    for (goal, penalty) in [(1usize, 1.0f64), (2usize, 1.1f64)] {
        for cost in [0u128, 100, 500, 700, 3000] {
            let manhattan = 7.0f64;
            let factor = 1.0 + (cost as f64 / 1000.0 / manhattan).min(0.1);
            let expected = manhattan * factor * penalty;
            let h = adaptive_heuristic(&g, 0, goal, cost) as f64 / 1000.0;
            assert!((h - expected).abs() < 0.0011, "{} vs {}", h, expected);
        }
    }
}

#[test]
fn estimate_fits_for_the_largest_coordinates() {
    let g = Grafo::new(2, vec![(0, 0), (usize::MAX, usize::MAX)]);
    let d = 2 * (usize::MAX as u128);
    assert_eq!(adaptive_heuristic(&g, 0, 1, u128::MAX), 1100 * d);
}
