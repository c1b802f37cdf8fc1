//! The estimate of the remaining cost between two nodes.
//!
//! With `d` the Manhattan distance between the two nodes and `c` the cost
//! accumulated so far, the estimate is `d * (1 + min(c / d, 1/10))`, times
//! `11/10` where the two nodes lie in different regions. Since
//! `d * min(c / d, 1/10)` is `min(c, d / 10)`, no division by the distance is
//! needed, and the estimate of a distance of zero is zero.
use crate::structures::{Grafo, GrafoModel};
use vstd::prelude::*;

verus! {

/// The Manhattan distance between two coordinates.
pub open spec fn manhattan(a: (usize, usize), b: (usize, usize)) -> nat {
    let dx = if a.0 >= b.0 { a.0 - b.0 } else { b.0 - a.0 };
    let dy = if a.1 >= b.1 { a.1 - b.1 } else { b.1 - a.1 };
    (dx + dy) as nat
}

/// The estimate in thousandths for a distance in whole units and an
/// accumulated cost in thousandths. The region penalty rounds down to a
/// whole thousandth.
pub open spec fn estimate(distance: nat, cost_so_far: nat, crossing: bool) -> nat {
    let growth = if cost_so_far <= 100 * distance { cost_so_far } else { 100 * distance };
    let adapted = 1000 * distance + growth;
    if crossing {
        adapted * 11 / 10
    } else {
        adapted
    }
}

/// The estimate of the cost that remains from `current` to `goal` in `g`.
pub open spec fn heuristic(g: GrafoModel, current: int, goal: int, cost_so_far: u128) -> nat {
    estimate(
        manhattan(g.coordinates[current], g.coordinates[goal]),
        cost_so_far as nat,
        g.regions[current] != g.regions[goal],
    )
}

/// The estimate never falls when the accumulated cost rises, and it no
/// longer changes once the accumulated cost has reached a tenth of the
/// distance.
pub proof fn lemma_estimate_monotone(distance: nat, c1: nat, c2: nat, crossing: bool)
    requires
        c1 <= c2,
    ensures
        estimate(distance, c1, crossing) <= estimate(distance, c2, crossing),
        c1 >= 100 * distance ==> estimate(distance, c1, crossing) == estimate(
            distance,
            c2,
            crossing,
        ),
{
}

/// The estimate lies between the distance and the distance with both
/// surcharges of a tenth.
pub proof fn lemma_estimate_bounds(distance: nat, cost_so_far: nat, crossing: bool)
    ensures
        1000 * distance <= estimate(distance, cost_so_far, crossing) <= 1210 * distance,
{
}

/// For one pair of nodes, `adaptive_heuristic` never falls when the
/// accumulated cost rises, and stays the same from a tenth of the distance
/// on.
pub proof fn lemma_heuristic_monotone(g: GrafoModel, current: int, goal: int, c1: u128, c2: u128)
    requires
        c1 <= c2,
    ensures
        heuristic(g, current, goal, c1) <= heuristic(g, current, goal, c2),
        c1 >= 100 * manhattan(g.coordinates[current], g.coordinates[goal]) ==> heuristic(
            g,
            current,
            goal,
            c1,
        ) == heuristic(g, current, goal, c2),
{
    lemma_estimate_monotone(
        manhattan(g.coordinates[current], g.coordinates[goal]),
        c1 as nat,
        c2 as nat,
        g.regions[current] != g.regions[goal],
    );
}

/// The Manhattan distance between two coordinates.
pub fn manhattan_distance(a: (usize, usize), b: (usize, usize)) -> (d: u128)
    ensures
        d == manhattan(a, b),
{
    let dx: usize = if a.0 >= b.0 {
        a.0 - b.0
    } else {
        b.0 - a.0
    };
    let dy: usize = if a.1 >= b.1 {
        a.1 - b.1
    } else {
        b.1 - a.1
    };
    dx as u128 + dy as u128
}

/// The estimated cost from `current` to `goal` after `cost_so_far` has been
/// spent, in thousandths.
pub fn adaptive_heuristic(graph: &Grafo, current: usize, goal: usize, cost_so_far: u128) -> (h: u128)
    requires
        graph@.valid(),
        current < graph@.len(),
        goal < graph@.len(),
    ensures
        h == heuristic(graph@, current as int, goal as int, cost_so_far),
{
    let distance: u128 = manhattan_distance(
        *graph.node(current).unwrap(),
        *graph.node(goal).unwrap(),
    );
    let cap: u128 = 100 * distance;
    let growth: u128 = if cost_so_far <= cap { cost_so_far } else { cap };
    let adapted: u128 = 1000 * distance + growth;
    if graph.get_region(current) != graph.get_region(goal) {
        adapted * 11 / 10
    } else {
        adapted
    }
}

} // verus!
