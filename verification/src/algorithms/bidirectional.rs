//! Bidirectional best-first search.
//!
//! Two searches grow at the same time, one from the start towards the goal
//! and one from the goal towards the start. Each keeps a frontier of found
//! nodes and expands the one of lowest priority. A node that one search
//! takes from its frontier after the other search has found it is a meeting
//! point; the path through the best meeting point is the result.
//!
//! A step costs one unit whatever the weight of the edge, and the cost of a
//! path is its number of steps.
use crate::algorithms::frontier::{lemma_insert_sorted, Entry, Frontier};
use crate::algorithms::heuristics::{adaptive_heuristic, heuristic, lemma_estimate_bounds, manhattan};
use crate::algorithms::marks::{count_true, lemma_count_true_bound, lemma_count_true_update};
use crate::algorithms::model::{climb, outcome, path_through, searched, SearchModel, SideModel};
use crate::algorithms::paths::{
    connected,
    coordinates_along,
    is_route,
    is_walk,
    lemma_adjacent_symmetric,
    lemma_walk_join,
    lemma_walk_reverse,
};
use crate::fixed::{saturating_sum, sum, whole, INFINITE, UNIT};
use crate::structures::{Grafo, GrafoModel};
use vstd::prelude::*;

verus! {

/// A number of nodes up to which no cost or priority of a search reaches
/// `INFINITE`.
pub open spec fn node_limit() -> nat {
    0x4_0000_0000_0000
}

/// An upper bound of every heuristic estimate.
spec fn reach() -> nat {
    2420 * 0xffff_ffff_ffff_ffff
}

/// An upper bound of what one step adds to a priority.
spec fn stride() -> nat {
    reach() + 1000
}

proof fn lemma_heuristic_reach(g: GrafoModel, current: int, goal: int, cost_so_far: u128)
    ensures
        heuristic(g, current, goal, cost_so_far) <= reach(),
{
    let d = manhattan(g.coordinates[current], g.coordinates[goal]);
    lemma_estimate_bounds(d, cost_so_far as nat, g.regions[current] != g.regions[goal]);
    assert(d <= 2 * 0xffff_ffff_ffff_ffff);
}

/// With at most `node_limit()` nodes, two costs and a priority stay below
/// `INFINITE` together.
proof fn lemma_headroom(n: nat)
    requires
        n <= node_limit(),
    ensures
        2 * (n * stride()) + 2 * stride() < INFINITE,
{
    assert(stride() < 0x1000_0000_0000_0000_0000);
    assert(n * stride() <= 0x4_0000_0000_0000 * 0x1000_0000_0000_0000_0000) by (nonlinear_arith)
        requires
            n <= 0x4_0000_0000_0000,
            stride() < 0x1000_0000_0000_0000_0000,
    ;
}

/// One direction of the search.
struct Side {
    frontier: Frontier,
    /// The cost at which each node was found, `INFINITE` for the others.
    cost: Vec<u128>,
    /// Which nodes have left the frontier.
    visited: Vec<bool>,
    /// The node from which each node was found.
    came_from: Vec<Option<usize>>,
    /// The number of steps from the root at which each node was found.
    depth: Ghost<Seq<nat>>,
}

impl View for Side {
    type V = SideModel;

    closed spec fn view(&self) -> SideModel {
        SideModel {
            frontier: self.frontier@,
            cost: self.cost@,
            visited: self.visited@,
            came_from: self.came_from@,
        }
    }
}

impl Side {
    /// Node `x` has been found.
    spec fn found(&self, x: int) -> bool {
        self.cost@[x] < INFINITE
    }

    /// Node `x` was found from a neighbour that had left the frontier.
    spec fn hangs(&self, g: GrafoModel, x: int) -> bool {
        match self.came_from@[x] {
            Some(p) => {
                &&& p < g.len()
                &&& self.visited@[p as int]
                &&& g.adjacent(p as int, x)
                &&& self.depth@[x] == self.depth@[p as int] + 1
            },
            None => false,
        }
    }

    /// The depth of `x`, and one more once `x` has left the frontier.
    spec fn rank(&self, x: int) -> nat {
        if self.visited@[x] {
            self.depth@[x] + 1
        } else {
            self.depth@[x]
        }
    }

    /// The entry belongs to a found node and its priority is bounded.
    spec fn entry_ok(&self, g: GrafoModel, e: Entry) -> bool {
        &&& e.node < g.len()
        &&& self.found(e.node as int)
        &&& e.priority <= self.cost@[e.node as int] + reach()
    }

    /// Node `x` waits in the frontier.
    spec fn queued(&self, x: int) -> bool {
        exists|i: int| 0 <= i < self.frontier@.len() && (#[trigger] self.frontier@[i]).node == x
    }

    /// What holds of a side at all times, also while a node is expanded.
    spec fn sound(&self, g: GrafoModel, root: usize) -> bool {
        let n = g.len();
        &&& g.valid()
        &&& root < n
        &&& self.cost@.len() == n
        &&& self.visited@.len() == n
        &&& self.came_from@.len() == n
        &&& self.depth@.len() == n
        &&& self.frontier.wf()
        &&& self.cost@[root as int] == 0
        &&& self.came_from@[root as int] is None
        &&& self.depth@[root as int] == 0
        &&& forall|x: int| 0 <= x < n && #[trigger] self.visited@[x] ==> self.cost@[x] < INFINITE
        &&& forall|x: int|
            0 <= x < n && x != root && #[trigger] self.cost@[x] < INFINITE ==> self.hangs(g, x)
        &&& forall|x: int|
            0 <= x < n && #[trigger] self.cost@[x] < INFINITE ==> self.rank(x) <= count_true(
                self.visited@,
            ) && self.cost@[x] <= self.depth@[x] * stride()
        &&& forall|i: int|
            0 <= i < self.frontier@.len() ==> self.entry_ok(g, #[trigger] self.frontier@[i])
        &&& forall|x: int|
            0 <= x < n && #[trigger] self.cost@[x] < INFINITE && !self.visited@[x] ==> self.queued(
                x,
            )
    }

    /// No found node costs more than one step above anything that waits.
    spec fn ordered(&self, g: GrafoModel) -> bool {
        forall|i: int, x: int|
            0 <= i < self.frontier@.len() && 0 <= x < g.len() && #[trigger] self.cost@[x]
                < INFINITE ==> self.cost@[x] <= sum((#[trigger] self.frontier@[i]).priority, UNIT)
    }

    /// What holds of a side between two expansions.
    spec fn inv(&self, g: GrafoModel, root: usize) -> bool {
        self.sound(g, root) && self.ordered(g)
    }

    /// What holds while the neighbours of a node that left the frontier at
    /// priority `floor` are looked at.
    spec fn relaxing(&self, g: GrafoModel, root: usize, floor: u128) -> bool {
        &&& self.sound(g, root)
        &&& forall|i: int|
            0 <= i < self.frontier@.len() ==> (#[trigger] self.frontier@[i]).priority >= floor
        &&& forall|x: int|
            0 <= x < g.len() && #[trigger] self.cost@[x] < INFINITE ==> self.cost@[x] <= sum(
                floor,
                UNIT,
            )
    }

    /// Every neighbour of every node that has left the frontier has been found.
    spec fn closed(&self, g: GrafoModel) -> bool {
        forall|x: int, i: int|
            0 <= x < g.len() && self.visited@[x] && 0 <= i < g.adjacency[x].len() ==> self.found(
                (#[trigger] g.adjacency[x][i]).0 as int,
            )
    }

    /// What was found stays as it was found.
    spec fn extends(&self, before: &Side) -> bool {
        forall|x: int|
            0 <= x < before.cost@.len() && #[trigger] before.cost@[x] < INFINITE ==> self.cost@[x]
                == before.cost@[x] && self.came_from@[x] == before.came_from@[x] && self.depth@[x]
                == before.depth@[x]
    }

    /// A side that has found its root and nothing else.
    fn new(graph: &Grafo, root: usize) -> (side: Side)
        requires
            graph@.valid(),
            root < graph@.len(),
        ensures
            side.inv(graph@, root),
            side.closed(graph@),
            side@ == SideModel::rooted(graph@.len(), root),
            side.frontier@ == seq![Entry { priority: 0, node: root }],
            forall|x: int| 0 <= x < graph@.len() ==> !side.visited@[x],
            forall|x: int| 0 <= x < graph@.len() ==> (side.found(x) <==> x == root),
    {
        let n: usize = graph.num_vert();
        let mut cost: Vec<u128> = Vec::new();
        let mut visited: Vec<bool> = Vec::new();
        let mut came_from: Vec<Option<usize>> = Vec::new();
        let mut i: usize = 0;
        while i < n
            invariant
                i <= n,
                cost@.len() == i,
                visited@.len() == i,
                came_from@.len() == i,
                forall|j: int| 0 <= j < i ==> cost@[j] == INFINITE,
                forall|j: int| 0 <= j < i ==> !visited@[j],
                forall|j: int| 0 <= j < i ==> came_from@[j] is None,
            decreases n - i,
        {
            cost.push(INFINITE);
            visited.push(false);
            came_from.push(None);
            i += 1;
        }
        cost[root] = 0;
        let mut frontier = Frontier::new();
        frontier.push(0, root);
        let side = Side {
            frontier,
            cost,
            visited,
            came_from,
            depth: Ghost(Seq::new(n as nat, |x: int| 0nat)),
        };
        proof {
            let first = Entry { priority: 0, node: root };
            lemma_insert_sorted(Seq::<Entry>::empty(), first);
            assert(side.frontier@[0] == first);
            assert(side.frontier@ =~= seq![first]);
            assert(side.queued(root as int));
            let model = SideModel::rooted(graph@.len(), root);
            assert(side.cost@ =~= model.cost);
            assert(side.visited@ =~= model.visited);
            assert(side.came_from@ =~= model.came_from);
        }
        side
    }
}

impl Side {
    /// Records that `nb` was found from `pos`, which left the frontier at
    /// priority `floor`, and queues `nb`.
    fn discover(
        &mut self,
        graph: &Grafo,
        pos: usize,
        floor: u128,
        nb: usize,
        target: usize,
        Ghost(root): Ghost<usize>,
    )
        requires
            old(self).relaxing(graph@, root, floor),
            pos < graph@.len(),
            nb < graph@.len(),
            target < graph@.len(),
            old(self).visited@[pos as int],
            graph@.adjacent(pos as int, nb as int),
            floor <= old(self).cost@[pos as int] + reach(),
            sum(floor, UNIT) < old(self).cost@[nb as int],
        ensures
            final(self).relaxing(graph@, root, floor),
            final(self).extends(old(self)),
            final(self).visited@ == old(self).visited@,
            final(self).found(nb as int),
            final(self)@ == old(self)@.look(graph@, pos, floor, nb, target),
    {
        let ghost g = graph@;
        let next_cost = saturating_sum(floor, UNIT);
        assert(!self.found(nb as int));
        assert(self.found(pos as int));
        self.cost[nb] = next_cost;
        self.came_from[nb] = Some(pos);
        proof {
            self.depth@ = self.depth@.update(nb as int, self.depth@[pos as int] + 1);
        }
        let h = adaptive_heuristic(graph, nb, target, next_cost);
        let priority = saturating_sum(next_cost, h);
        self.frontier.push(priority, nb);
        proof {
            let e = Entry { priority, node: nb };
            lemma_insert_sorted(old(self).frontier@, e);
            lemma_heuristic_reach(g, nb as int, target as int, next_cost);
            let d = old(self).depth@[pos as int];
            assert((d + 1) * stride() == d * stride() + stride()) by (nonlinear_arith);
            assert forall|x: int| 0 <= x < g.len() && old(self).found(x) implies self.found(x)
                && self.cost@[x] == old(self).cost@[x] && self.came_from@[x] == old(self).came_from@[x] && self.depth@[x] == old(self).depth@[x] by {}
            assert forall|x: int| 0 <= x < g.len() && x != root && #[trigger] self.found(
                x,
            ) implies self.hangs(g, x) by {
                if x != nb {
                    assert(old(self).found(x));
                    assert(old(self).hangs(g, x));
                    let p = old(self).came_from@[x]->0;
                    assert(old(self).found(p as int));
                }
            }
            assert forall|x: int| 0 <= x < g.len() && #[trigger] self.found(x) implies self.rank(x)
                <= count_true(self.visited@) && self.cost@[x] <= self.depth@[x] * stride() by {
                if x != nb {
                    assert(old(self).found(x));
                } else {
                    assert(old(self).rank(pos as int) <= count_true(self.visited@));
                }
            }
            assert forall|i: int| 0 <= i < self.frontier@.len() implies self.entry_ok(
                g,
                #[trigger] self.frontier@[i],
            ) && self.frontier@[i].priority >= floor by {
                let x = self.frontier@[i];
                assert(self.frontier@.contains(x));
                if old(self).frontier@.contains(x) {
                    let j = choose|j: int|
                        0 <= j < old(self).frontier@.len() && old(self).frontier@[j] == x;
                    assert(old(self).entry_ok(g, old(self).frontier@[j]));
                }
            }
            assert forall|x: int|
                0 <= x < g.len() && #[trigger] self.found(x) && !self.visited@[x] implies self.queued(
                x,
            ) by {
                if x == nb {
                    assert(self.frontier@.contains(e));
                    let i = choose|i: int| 0 <= i < self.frontier@.len() && self.frontier@[i] == e;
                    assert(self.frontier@[i].node == x);
                } else {
                    assert(old(self).found(x));
                    assert(old(self).queued(x));
                    let j = choose|j: int|
                        0 <= j < old(self).frontier@.len() && (#[trigger] old(self).frontier@[j]).node
                            == x;
                    assert(old(self).frontier@.contains(old(self).frontier@[j]));
                    assert(self.frontier@.contains(old(self).frontier@[j]));
                    let i = choose|i: int|
                        0 <= i < self.frontier@.len() && self.frontier@[i] == old(self).frontier@[j];
                    assert(self.frontier@[i].node == x);
                }
            }
            assert forall|x: int| 0 <= x < g.len() && #[trigger] self.visited@[x] implies self.found(
                x,
            ) by {
                assert(old(self).found(x));
            }
        }
    }
}

/// The cost of every found node stays below what `n` strides add up to.
spec fn bounded_costs(cost: Seq<u128>, n: nat) -> bool {
    forall|x: int| 0 <= x < cost.len() && #[trigger] cost[x] < INFINITE ==> cost[x] <= n * stride()
}

/// Either one more node has left the frontier, or the frontier is shorter
/// and no node came back.
spec fn advanced(before: &Side, after: &Side) -> bool {
    ||| count_true(after.visited@) > count_true(before.visited@)
    ||| count_true(after.visited@) == count_true(before.visited@) && after.frontier@.len()
        < before.frontier@.len()
}

/// Takes the entry of lowest priority from the frontier of `side` and, if
/// its node has not left the frontier before, expands that node: where the
/// other search has found it already, the node is a meeting point and is
/// returned with the cost of the path through it; otherwise each neighbour
/// that was not yet found is recorded as found from the node, one step
/// further on, and queued under that cost plus the estimate of what remains
/// to `target`.
fn expand_heap(
    graph: &Grafo,
    side: &mut Side,
    other_cost: &Vec<u128>,
    target: usize,
    Ghost(root): Ghost<usize>,
) -> (r: Option<(usize, u128)>)
    requires
        old(side).inv(graph@, root),
        other_cost@.len() == graph@.len(),
        target < graph@.len(),
    ensures
        final(side).inv(graph@, root),
        final(side).extends(old(side)),
        count_true(final(side).visited@) >= count_true(old(side).visited@),
        old(side).frontier@.len() > 0 ==> advanced(old(side), final(side)),
        forall|x: int| 0 <= x < graph@.len() && old(side).visited@[x] ==> final(side).visited@[x],
        r matches Some((m, c)) ==> m < graph@.len() && final(side).found(m as int)
            && other_cost@[m as int] < INFINITE && (graph@.len() <= node_limit() && bounded_costs(
            other_cost@,
            graph@.len(),
        ) ==> c < INFINITE),
        (final(side)@, r) == old(side)@.expand(graph@, other_cost@, target),
        r is None ==> forall|x: int|
            0 <= x < graph@.len() && final(side).visited@[x] && !old(side).visited@[x]
                ==> other_cost@[x] == INFINITE,
        r is None && old(side).closed(graph@) && graph@.len() <= node_limit() ==> final(side).closed(
            graph@,
        ),
{
    let ghost g = graph@;
    let popped = side.frontier.pop();
    if popped.is_none() {
        return None;
    }
    let entry = popped.unwrap();
    let position: usize = entry.node;
    let current_cost: u128 = entry.priority;
    proof {
        let before = old(side).frontier@;
        assert(before[0] == entry);
        assert(old(side).entry_ok(g, before[0]));
        assert forall|i: int| 0 <= i < side.frontier@.len() implies side.entry_ok(
            g,
            #[trigger] side.frontier@[i],
        ) && side.frontier@[i].priority >= current_cost by {
            assert(side.frontier@[i] == before[i + 1]);
            assert(old(side).entry_ok(g, before[i + 1]));
            assert(before[0].precedes(before[i + 1]));
        }
        assert forall|x: int|
            0 <= x < g.len() && x != position && #[trigger] side.cost@[x] < INFINITE
                && !side.visited@[x] implies side.queued(x) by {
            assert(old(side).queued(x));
            let j = choose|j: int| 0 <= j < before.len() && (#[trigger] before[j]).node == x;
            assert(side.frontier@[j - 1] == before[j]);
        }
        assert forall|i: int, x: int|
            0 <= i < side.frontier@.len() && 0 <= x < g.len() && #[trigger] side.cost@[x]
                < INFINITE implies side.cost@[x] <= sum(
            (#[trigger] side.frontier@[i]).priority,
            UNIT,
        ) by {
            assert(side.frontier@[i] == before[i + 1]);
        }
        assert forall|x: int| 0 <= x < g.len() && #[trigger] side.cost@[x] < INFINITE implies side.cost@[x]
            <= sum(current_cost, UNIT) by {
            assert(before[0].priority == current_cost);
        }
        lemma_count_true_bound(side.visited@);
    }
    if side.visited[position] {
        return None;
    }
    side.visited[position] = true;
    proof {
        lemma_count_true_update(old(side).visited@, position as int);
        assert forall|x: int| 0 <= x < g.len() && #[trigger] side.cost@[x] < INFINITE implies side.rank(
            x,
        ) <= count_true(side.visited@) && side.cost@[x] <= side.depth@[x] * stride() by {
            assert(old(side).rank(x) <= count_true(old(side).visited@));
        }
        assert forall|x: int|
            0 <= x < g.len() && x != root && #[trigger] side.cost@[x] < INFINITE implies side.hangs(
            g,
            x,
        ) by {
            assert(old(side).hangs(g, x));
        }
        assert(side.sound(g, root));
        assert(side.relaxing(g, root, current_cost));
        // how far the cost of the node can have come
        let d = side.depth@[position as int];
        let n = g.len();
        assert(d * stride() <= n * stride()) by (nonlinear_arith)
            requires
                d <= n,
        ;
        if n <= node_limit() {
            lemma_headroom(n);
        }
    }
    if other_cost[position] < INFINITE {
        let total_cost = saturating_sum(current_cost, other_cost[position]);
        return Some((position, total_cost));
    }
    let ghost marked = *side;
    let count: usize = graph.neighbours(position).len();
    let next_cost: u128 = saturating_sum(current_cost, UNIT);
    let mut i: usize = 0;
    while i < count
        invariant
            i <= count,
            count == g.adjacency[position as int].len(),
            g == graph@,
            g.valid(),
            position < g.len(),
            target < g.len(),
            next_cost == sum(current_cost, UNIT),
            side.relaxing(g, root, current_cost),
            side@ == marked@.relax(g, position, current_cost, target, i as nat),
            side.extends(&marked),
            side.visited@ == marked.visited@,
            side.visited@[position as int],
            marked.cost@.len() == g.len(),
            current_cost <= side.cost@[position as int] + reach(),
            side.cost@[position as int] <= g.len() * stride(),
            forall|j: int|
                0 <= j < i && g.len() <= node_limit() ==> side.found(
                    (#[trigger] g.adjacency[position as int][j]).0 as int,
                ),
        decreases count - i,
    {
        let neighbor: usize = graph.neighbours(position)[i].0;
        assert(g.adjacency[position as int][i as int].0 == neighbor);
        assert(g.adjacent(position as int, neighbor as int));
        let ghost here = *side;
        if next_cost < side.cost[neighbor] {
            side.discover(graph, position, current_cost, neighbor, target, Ghost(root));
        }
        proof {
            assert forall|x: int|
                0 <= x < marked.cost@.len() && #[trigger] marked.cost@[x] < INFINITE implies side.cost@[x]
                == marked.cost@[x] && side.came_from@[x] == marked.came_from@[x] && side.depth@[x]
                == marked.depth@[x] by {
                assert(here.cost@[x] < INFINITE);
            }
            assert forall|j: int| 0 <= j < i + 1 && g.len() <= node_limit() implies side.found(
                (#[trigger] g.adjacency[position as int][j]).0 as int,
            ) by {
                let y = g.adjacency[position as int][j].0 as int;
                if j < i {
                    assert(here.found(y));
                    assert(here.cost@[y] < INFINITE);
                } else {
                    assert(y == neighbor);
                    lemma_headroom(g.len());
                    assert(sum(current_cost, UNIT) < INFINITE);
                }
            }
        }
        i += 1;
    }
    proof {
        assert forall|x: int|
            0 <= x < g.len() && #[trigger] old(side).cost@[x] < INFINITE implies side.cost@[x] == old(side).cost@[x] && side.came_from@[x] == old(side).came_from@[x] && side.depth@[x] == old(side).depth@[x] by {
            assert(marked.cost@[x] < INFINITE);
        }
        assert forall|i: int, x: int|
            0 <= i < side.frontier@.len() && 0 <= x < g.len() && #[trigger] side.cost@[x]
                < INFINITE implies side.cost@[x] <= sum(
            (#[trigger] side.frontier@[i]).priority,
            UNIT,
        ) by {
            assert(side.frontier@[i].priority >= current_cost);
        }
        if old(side).closed(g) && g.len() <= node_limit() {
            assert forall|x: int, k: int|
                0 <= x < g.len() && side.visited@[x] && 0 <= k < g.adjacency[x].len() implies side.found(
                (#[trigger] g.adjacency[x][k]).0 as int,
            ) by {
                let y = g.adjacency[x][k].0 as int;
                if x != position {
                    assert(old(side).visited@[x]);
                    assert(old(side).found(y));
                    assert(old(side).cost@[y] < INFINITE);
                }
            }
        }
    }
    None
}

/// `nodes` lead from `from` up to `root`, each found from the next.
spec fn is_ascent(g: GrafoModel, nodes: Seq<usize>, from: usize, root: usize) -> bool {
    &&& nodes.len() > 0
    &&& nodes[0] == from
    &&& nodes[nodes.len() - 1] == root
    &&& forall|i: int| 0 <= i < nodes.len() ==> (#[trigger] nodes[i]) < g.len()
    &&& forall|i: int|
        0 <= i < nodes.len() - 1 ==> g.adjacent(nodes[i + 1] as int, #[trigger] nodes[i] as int)
}

/// An ascent read backwards is a walk from the root, and read forwards a
/// walk to the root.
proof fn lemma_ascent(g: GrafoModel, nodes: Seq<usize>, from: usize, root: usize)
    requires
        g.valid(),
        is_ascent(g, nodes, from, root),
    ensures
        is_walk(g, nodes.reverse(), root, from),
        is_walk(g, nodes, from, root),
{
    let back = nodes.reverse();
    assert forall|i: int| 0 <= i < back.len() - 1 implies g.adjacent(
        #[trigger] back[i] as int,
        back[i + 1] as int,
    ) by {
        let j = nodes.len() - 2 - i;
        assert(back[i + 1] == nodes[j]);
        assert(back[i] == nodes[j + 1]);
    }
    assert forall|i: int| 0 <= i < nodes.len() - 1 implies g.adjacent(
        #[trigger] nodes[i] as int,
        nodes[i + 1] as int,
    ) by {
        lemma_adjacent_symmetric(g, nodes[i + 1] as int, nodes[i] as int);
    }
}

/// The coordinates of the nodes along the way by which `side` found
/// `from`, read from `from` back to the root.
fn trace_back(side: &Side, from: usize, root: usize, graph: &Grafo) -> (r: Vec<(usize, usize)>)
    requires
        side.sound(graph@, root),
        from < graph@.len(),
        side.found(from as int),
    ensures
        r@ == coordinates_along(graph@, climb(side@.came_from, from, root, graph@.len())),
        is_ascent(graph@, climb(side@.came_from, from, root, graph@.len()), from, root),
        r@.len() == side.depth@[from as int] + 1,
{
    let ghost g = graph@;
    let ghost n = g.len();
    let ghost links = side.came_from@;
    proof {
        lemma_count_true_bound(side.visited@);
        assert(side.rank(from as int) <= n);
    }
    let mut back: Vec<(usize, usize)> = Vec::new();
    let ghost mut trail: Seq<usize> = Seq::empty();
    let mut current: usize = from;
    while current != root
        invariant
            g == graph@,
            n == g.len(),
            links == side.came_from@,
            side.sound(g, root),
            from < n,
            current < n,
            side.cost@[current as int] < INFINITE,
            back@ == coordinates_along(g, trail),
            trail.len() + side.depth@[current as int] == side.depth@[from as int],
            side.depth@[from as int] <= n,
            trail + climb(links, current, root, (n - trail.len()) as nat) == climb(
                links,
                from,
                root,
                n,
            ),
            forall|i: int| 0 <= i < trail.len() ==> (#[trigger] trail[i]) < n,
            forall|i: int|
                0 <= i < trail.len() - 1 ==> g.adjacent(trail[i + 1] as int, #[trigger] trail[i] as int),
            trail.len() == 0 ==> current == from,
            trail.len() > 0 ==> trail[0] == from && g.adjacent(
                current as int,
                trail[trail.len() - 1] as int,
            ),
        decreases side.depth@[current as int],
    {
        assert(side.hangs(g, current as int));
        back.push(*graph.node(current).unwrap());
        let ghost shorter = trail;
        let next: usize = side.came_from[current].unwrap();
        proof {
            trail = trail.push(current);
            assert(back@ =~= coordinates_along(g, trail));
            assert(trail + climb(links, next, root, (n - trail.len()) as nat) =~= shorter + climb(
                links,
                current,
                root,
                (n - shorter.len()) as nat,
            ));
        }
        current = next;
    }
    back.push(*graph.node(root).unwrap());
    proof {
        let shorter = trail;
        trail = trail.push(root);
        assert(back@ =~= coordinates_along(g, trail));
        assert(trail =~= shorter + climb(links, root, root, (n - shorter.len()) as nat));
    }
    back
}

/// The path through `meeting_point`: the way by which the forward search
/// found it, from `start`, and then the way by which the backward search
/// found it, read towards `goal`. The cost is the number of steps.
fn reconstruct_path(
    meeting_point: usize,
    forward: &Side,
    backward: &Side,
    start: usize,
    goal: usize,
    graph: &Grafo,
) -> (r: (Vec<(usize, usize)>, u128))
    requires
        forward.sound(graph@, start),
        backward.sound(graph@, goal),
        meeting_point < graph@.len(),
        forward.found(meeting_point as int),
        backward.found(meeting_point as int),
    ensures
        is_route(graph@, r.0@, start, goal),
        r.0@ == coordinates_along(
            graph@,
            path_through(
                forward@.came_from,
                backward@.came_from,
                meeting_point,
                start,
                goal,
                graph@.len(),
            ),
        ),
        r.0@.len() == forward.depth@[meeting_point as int] + backward.depth@[meeting_point as int]
            + 1,
        r.1 == (r.0@.len() - 1) * UNIT,
{
    let ghost g = graph@;
    let ghost up = climb(forward@.came_from, meeting_point, start, g.len());
    let ghost down = climb(backward@.came_from, meeting_point, goal, g.len());
    let before = trace_back(forward, meeting_point, start, graph);
    let after = trace_back(backward, meeting_point, goal, graph);
    let mut path: Vec<(usize, usize)> = Vec::new();
    let mut i: usize = before.len();
    while i > 0
        invariant
            i <= before@.len(),
            path@.len() == before@.len() - i,
            forall|j: int| 0 <= j < path@.len() ==> path@[j] == before@[before@.len() - 1 - j],
        decreases i,
    {
        i -= 1;
        path.push(before[i]);
    }
    assert(path@ =~= before@.reverse());
    let mut j: usize = 1;
    while j < after.len()
        invariant
            1 <= j <= after@.len(),
            path@ == before@.reverse() + after@.subrange(1, j as int),
        decreases after@.len() - j,
    {
        path.push(after[j]);
        proof {
            assert(path@ =~= before@.reverse() + after@.subrange(1, j + 1));
        }
        j += 1;
    }
    proof {
        let nodes = path_through(
            forward@.came_from,
            backward@.came_from,
            meeting_point,
            start,
            goal,
            g.len(),
        );
        assert(nodes == up.reverse() + down.drop_first());
        assert(after@.subrange(1, after@.len() as int) =~= after@.drop_first());
        assert(path@ =~= coordinates_along(g, nodes));
        lemma_ascent(g, up, meeting_point, start);
        lemma_ascent(g, down, meeting_point, goal);
        lemma_walk_join(g, up.reverse(), down, start, meeting_point, goal);
    }
    let total_cost = whole(path.len() - 1);
    (path, total_cost)
}

/// Costs and priorities are bounded by the number of nodes.
proof fn lemma_bounded(side: &Side, g: GrafoModel, root: usize)
    requires
        side.sound(g, root),
    ensures
        bounded_costs(side.cost@, g.len()),
        forall|i: int|
            0 <= i < side.frontier@.len() ==> (#[trigger] side.frontier@[i]).priority <= g.len()
                * stride() + reach(),
{
    let n = g.len();
    lemma_count_true_bound(side.visited@);
    assert forall|x: int| 0 <= x < side.cost@.len() && #[trigger] side.cost@[x] < INFINITE implies side.cost@[x]
        <= n * stride() by {
        let d = side.depth@[x];
        assert(side.rank(x) <= count_true(side.visited@));
        assert(d * stride() <= n * stride()) by (nonlinear_arith)
            requires
                d <= n,
        ;
    }
    assert forall|i: int| 0 <= i < side.frontier@.len() implies (#[trigger] side.frontier@[i]).priority
        <= n * stride() + reach() by {
        assert(side.entry_ok(g, side.frontier@[i]));
    }
}

/// Once nothing waits and every expanded node has all its neighbours
/// found, the search has reached whatever a walk from its root reaches.
proof fn lemma_spread(side: &Side, g: GrafoModel, root: usize, walk: Seq<usize>, to: usize, k: int)
    requires
        side.sound(g, root),
        side.closed(g),
        side.frontier@.len() == 0,
        is_walk(g, walk, root, to),
        0 <= k < walk.len(),
    ensures
        side.visited@[walk[k] as int],
    decreases k,
{
    let x = walk[k] as int;
    if k > 0 {
        lemma_spread(side, g, root, walk, to, k - 1);
        let w = walk[k - 1] as int;
        assert(g.adjacent(w, x));
        let i = choose|i: int| 0 <= i < g.adjacency[w].len() && (#[trigger] g.adjacency[w][i]).0 == x;
        assert(side.found(g.adjacency[w][i].0 as int));
    }
    assert(side.cost@[x] < INFINITE);
    if !side.visited@[x] {
        assert(side.queued(x));
    }
}

/// Where the search has stopped without a meeting point, no walk leads
/// from `start` to `goal`.
proof fn lemma_exhausted(forward: &Side, backward: &Side, g: GrafoModel, start: usize, goal: usize)
    requires
        forward.sound(g, start),
        backward.sound(g, goal),
        forward.closed(g),
        backward.closed(g),
        !forward.visited@[goal as int],
        !backward.visited@[start as int],
        sum(forward@.lowest(), backward@.lowest()) >= INFINITE,
        g.len() <= node_limit(),
    ensures
        !connected(g, start, goal),
{
    let n = g.len();
    if connected(g, start, goal) {
        let walk = choose|walk: Seq<usize>| is_walk(g, walk, start, goal);
        lemma_bounded(forward, g, start);
        lemma_bounded(backward, g, goal);
        lemma_headroom(n);
        if forward.frontier@.len() == 0 {
            lemma_spread(forward, g, start, walk, goal, walk.len() - 1);
        } else if backward.frontier@.len() == 0 {
            lemma_walk_reverse(g, walk, start, goal);
            lemma_spread(backward, g, goal, walk.reverse(), start, walk.len() - 1);
        } else {
            assert(forward.frontier@[0].priority <= n * stride() + reach());
            assert(backward.frontier@[0].priority <= n * stride() + reach());
        }
        assert(false);
    }
}

/// What a result holds, with the path as a sequence.
pub open spec fn shown(result: Option<(Vec<(usize, usize)>, u128)>) -> Option<
    (Seq<(usize, usize)>, u128),
> {
    match result {
        Some((path, cost)) => Some((path@, cost)),
        None => None,
    }
}

/// A search in progress.
struct Search {
    forward: Side,
    backward: Side,
    best_cost: u128,
    best_meeting_point: Option<usize>,
}

impl View for Search {
    type V = SearchModel;

    closed spec fn view(&self) -> SearchModel {
        SearchModel {
            forward: self.forward@,
            backward: self.backward@,
            best_cost: self.best_cost,
            best_meeting_point: self.best_meeting_point,
        }
    }
}

impl Search {
    /// What holds of a search between two rounds.
    #[verifier::opaque]
    spec fn inv(&self, g: GrafoModel, start: usize, goal: usize) -> bool {
        let n = g.len();
        &&& start < n
        &&& goal < n
        &&& self.forward.inv(g, start)
        &&& self.backward.inv(g, goal)
        &&& self.best_meeting_point matches Some(m) ==> m < n && self.forward.found(m as int)
            && self.backward.found(m as int)
        &&& self.best_meeting_point is None ==> self.best_cost == INFINITE
        &&& self.best_meeting_point is None && n <= node_limit() ==> self.forward.closed(g)
            && self.backward.closed(g) && !self.forward.visited@[goal as int]
            && !self.backward.visited@[start as int]
        &&& start == goal ==> (self.best_meeting_point == Some(start) && self.best_cost == 0) || (
        self.best_meeting_point is None && self.forward.frontier@ == seq![
            Entry { priority: 0, node: start },
        ] && !self.forward.visited@[start as int])
    }

    /// How many nodes have left the two frontiers.
    spec fn settled(&self) -> nat {
        count_true(self.forward.visited@) + count_true(self.backward.visited@)
    }

    /// How many entries wait in the two frontiers.
    spec fn pending(&self) -> nat {
        self.forward.frontier@.len() + self.backward.frontier@.len()
    }

    /// The search before its first round.
    fn new(graph: &Grafo, start: usize, goal: usize) -> (search: Search)
        requires
            graph@.valid(),
            start < graph@.len(),
            goal < graph@.len(),
        ensures
            search.inv(graph@, start, goal),
            search@ == SearchModel::initial(graph@, start, goal),
            search.forward.frontier@.len() > 0,
            search.backward.frontier@.len() > 0,
    {
        reveal(Search::inv);
        Search {
            forward: Side::new(graph, start),
            backward: Side::new(graph, goal),
            best_cost: INFINITE,
            best_meeting_point: None,
        }
    }

    /// Takes note of what an expansion gave.
    fn note(&mut self, met: Option<(usize, u128)>)
        ensures
            final(self)@ == old(self)@.note(met),
            final(self).forward == old(self).forward,
            final(self).backward == old(self).backward,
    {
        if let Some((new_meeting_point, new_cost)) = met {
            if new_cost < self.best_cost {
                self.best_cost = new_cost;
                self.best_meeting_point = Some(new_meeting_point);
            }
        }
    }

    /// One round: an expansion forward, then one backward.
    fn round(&mut self, graph: &Grafo, start: usize, goal: usize)
        requires
            old(self).inv(graph@, start, goal),
            old(self).forward.frontier@.len() > 0,
            old(self).backward.frontier@.len() > 0,
        ensures
            final(self).inv(graph@, start, goal),
            final(self)@ == old(self)@.round(graph@, start, goal),
            final(self).settled() <= 2 * graph@.len(),
            final(self).settled() > old(self).settled() || (final(self).settled() == old(self).settled() && final(self).pending() < old(self).pending()),
            start == goal ==> final(self).best_meeting_point == Some(start),
    {
        let ghost g = graph@;
        proof {
            reveal(Search::inv);
            lemma_bounded(&self.backward, g, goal);
        }
        let met = expand_heap(graph, &mut self.forward, &self.backward.cost, goal, Ghost(start));
        self.note(met);
        proof {
            lemma_bounded(&self.forward, g, start);
            if let Some(m) = self.best_meeting_point {
                assert(self.forward.cost@[m as int] < INFINITE);
            }
        }
        let met = expand_heap(graph, &mut self.backward, &self.forward.cost, start, Ghost(goal));
        self.note(met);
        proof {
            lemma_count_true_bound(self.forward.visited@);
            lemma_count_true_bound(self.backward.visited@);
            if let Some(m) = self.best_meeting_point {
                assert(self.backward.cost@[m as int] < INFINITE);
            }
        }
    }

    /// Whether the stopping rule holds.
    fn stops(&self) -> (r: bool)
        ensures
            r == self@.stops(),
    {
        let lowest_forward: u128 = match self.forward.frontier.peek() {
            Some(p) => p,
            None => INFINITE,
        };
        let lowest_backward: u128 = match self.backward.frontier.peek() {
            Some(p) => p,
            None => INFINITE,
        };
        saturating_sum(lowest_forward, lowest_backward) >= self.best_cost
    }
}

/// Searches a path from `start` to `goal`, from both ends at once.
///
/// The result is what the rounds of the search give, up to the first round
/// after which the stopping rule holds (see `searched`). It holds the
/// coordinates of the nodes of a walk from `start` to `goal`, both
/// included, and the number of its steps as a cost. There is a result
/// whenever the two nodes are connected and the graph has at most
/// `node_limit()` nodes, and none when they are not connected. From a node
/// to itself the path is that node alone.
pub fn bidirectional_search(graph: &Grafo, start: usize, goal: usize) -> (result: Option<
    (Vec<(usize, usize)>, u128),
>)
    requires
        graph@.valid(),
        start < graph@.len(),
        goal < graph@.len(),
    ensures
        exists|rounds: nat| searched(graph@, start, goal, rounds, shown(result)),
        result matches Some((path, cost)) ==> is_route(graph@, path@, start, goal) && cost == (
        path@.len() - 1) * UNIT,
        !connected(graph@, start, goal) ==> result is None,
        connected(graph@, start, goal) && graph@.len() <= node_limit() ==> result is Some,
        start == goal ==> (result matches Some((path, cost)) && path@ == seq![
            graph@.coordinates[start as int],
        ] && cost == 0),
{
    let ghost g = graph@;
    let mut search = Search::new(graph, start, goal);
    let mut running: bool = true;
    let ghost mut rounds: nat = 0;
    proof {
        lemma_count_true_bound(search.forward.visited@);
        lemma_count_true_bound(search.backward.visited@);
    }
    while running
        invariant
            g == graph@,
            search.inv(g, start, goal),
            search@ == SearchModel::after(g, start, goal, rounds),
            forall|earlier: nat|
                1 <= earlier < rounds ==> !(#[trigger] SearchModel::after(
                    g,
                    start,
                    goal,
                    earlier,
                )).stops(),
            running && rounds >= 1 ==> !search@.stops(),
            !running ==> rounds >= 1 && search@.stops(),
            running ==> search.forward.frontier@.len() > 0 && search.backward.frontier@.len() > 0,
            start == goal && rounds >= 1 ==> search.best_meeting_point == Some(start),
            search.settled() <= 2 * g.len(),
        decreases 2 * g.len() - search.settled(), search.pending(),
    {
        search.round(graph, start, goal);
        proof {
            rounds = rounds + 1;
        }
        running = !search.stops();
    }
    proof {
        reveal(Search::inv);
    }
    let result = match search.best_meeting_point {
        Some(meeting_point) => {
            let found = reconstruct_path(
                meeting_point,
                &search.forward,
                &search.backward,
                start,
                goal,
                graph,
            );
            proof {
                if start == goal {
                    let walk = choose|walk: Seq<usize>|
                        is_walk(g, walk, start, goal) && found.0@ == coordinates_along(g, walk);
                    assert(found.0@ =~= seq![g.coordinates[start as int]]);
                }
            }
            Some(found)
        },
        None => {
            proof {
                if g.len() <= node_limit() {
                    lemma_exhausted(&search.forward, &search.backward, g, start, goal);
                }
            }
            None
        },
    };
    proof {
        assert(shown(result) == outcome(g, search@, start, goal));
        assert(searched(g, start, goal, rounds, shown(result)));
    }
    result
}

} // verus!
