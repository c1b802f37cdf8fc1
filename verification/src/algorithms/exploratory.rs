//! Breadth-first exploration that adds up edge weights.
//!
//! The exploration keeps a queue of found nodes, each with the weight of
//! the way by which it was found. The node at the front leaves the queue;
//! if it is the goal, its cost is the result; otherwise each neighbour that
//! was not found before joins the queue, at the cost of the node plus the
//! weight of the edge. The exploration ends without a result when the
//! queue is empty.
use crate::algorithms::marks::{count_true, lemma_count_true_bound, lemma_count_true_update};
use crate::algorithms::paths::{connected, is_walk};
use crate::fixed::{saturating_sum, sum};
use crate::structures::{Grafo, GrafoModel};
use std::collections::VecDeque;
use vstd::prelude::*;

verus! {

/// A found node with the cost of the way by which it was found.
#[derive(Clone, Copy, Debug)]
pub struct FrontierNode {
    pub id: usize,
    pub cost: u128,
}

/// An exploration in progress.
pub struct ExplorationModel {
    /// The found nodes that wait, in the order in which they leave.
    pub frontier: Seq<FrontierNode>,
    /// Which nodes have been found.
    pub visited: Seq<bool>,
}

impl ExplorationModel {
    /// The exploration of `n` nodes from `start` before its first step.
    pub open spec fn initial(n: nat, start: usize) -> ExplorationModel {
        ExplorationModel {
            frontier: seq![FrontierNode { id: start, cost: 0 }],
            visited: Seq::new(n, |x: int| x == start),
        }
    }

    /// The exploration after `edge` was looked at from `current`: a
    /// neighbour that was not found before is found and waits at the end of
    /// the queue, at the cost of `current` plus the weight of the edge.
    pub open spec fn look(self, current: FrontierNode, edge: (usize, u64)) -> ExplorationModel {
        if !self.visited[edge.0 as int] {
            ExplorationModel {
                frontier: self.frontier.push(
                    FrontierNode { id: edge.0, cost: sum(current.cost, edge.1 as u128) },
                ),
                visited: self.visited.update(edge.0 as int, true),
            }
        } else {
            self
        }
    }

    /// The exploration after the first `count` edges of `current` were
    /// looked at.
    pub open spec fn spread(self, g: GrafoModel, current: FrontierNode, count: nat) -> ExplorationModel
        decreases count,
    {
        if count == 0 {
            self
        } else {
            self.spread(g, current, (count - 1) as nat).look(
                current,
                g.adjacency[current.id as int][count - 1],
            )
        }
    }

    /// The exploration one step on: the node at the front leaves the queue
    /// and all its edges are looked at.
    pub open spec fn step(self, g: GrafoModel) -> ExplorationModel {
        let current = self.frontier[0];
        (ExplorationModel { frontier: self.frontier.drop_first(), ..self }).spread(
            g,
            current,
            g.adjacency[current.id as int].len(),
        )
    }

    /// The exploration from `start` after `steps` steps.
    pub open spec fn after(g: GrafoModel, start: usize, steps: nat) -> ExplorationModel
        decreases steps,
    {
        if steps == 0 {
            ExplorationModel::initial(g.len(), start)
        } else {
            ExplorationModel::after(g, start, (steps - 1) as nat).step(g)
        }
    }

    /// A node waits that is not `goal`.
    pub open spec fn goes_on(self, goal: usize) -> bool {
        self.frontier.len() > 0 && self.frontier[0].id != goal
    }
}

/// `result` is what the exploration from `start` for `goal` returns, and
/// the exploration takes `steps` steps: after that many steps, and after no
/// smaller number of them, the queue is empty or has `goal` at its front.
pub open spec fn explored(g: GrafoModel, start: usize, goal: usize, steps: nat, result: Option<u128>) -> bool {
    let last = ExplorationModel::after(g, start, steps);
    &&& forall|earlier: nat|
        earlier < steps ==> (#[trigger] ExplorationModel::after(g, start, earlier)).goes_on(goal)
    &&& !last.goes_on(goal)
    &&& result == if last.frontier.len() == 0 {
        None
    } else {
        Some(last.frontier[0].cost)
    }
}

/// The sum of `weights`, cut off at `INFINITE`.
pub open spec fn total(weights: Seq<u64>) -> u128
    decreases weights.len(),
{
    if weights.len() == 0 {
        0
    } else {
        sum(total(weights.drop_last()), weights.last() as u128)
    }
}

/// `walk` leads from `from` to `to` along edges of `g` with these weights.
pub open spec fn is_weighted_walk(
    g: GrafoModel,
    walk: Seq<usize>,
    weights: Seq<u64>,
    from: usize,
    to: usize,
) -> bool {
    &&& walk.len() == weights.len() + 1
    &&& walk[0] == from
    &&& walk[walk.len() - 1] == to
    &&& forall|i: int| 0 <= i < walk.len() ==> (#[trigger] walk[i]) < g.len()
    &&& forall|i: int|
        0 <= i < weights.len() ==> g.has_edge(walk[i] as int, walk[i + 1] as int, #[trigger] weights[i])
}

/// Some walk from `from` to `to` weighs `cost`.
pub open spec fn weighs(g: GrafoModel, from: usize, to: usize, cost: u128) -> bool {
    exists|walk: Seq<usize>, weights: Seq<u64>|
        #[trigger] is_weighted_walk(g, walk, weights, from, to) && cost == total(weights)
}

/// A weighted walk is a walk.
pub proof fn lemma_weighted_walk(g: GrafoModel, walk: Seq<usize>, weights: Seq<u64>, from: usize, to: usize)
    requires
        is_weighted_walk(g, walk, weights, from, to),
    ensures
        is_walk(g, walk, from, to),
{
    assert forall|i: int| 0 <= i < walk.len() - 1 implies g.adjacent(
        #[trigger] walk[i] as int,
        walk[i + 1] as int,
    ) by {
        assert(g.has_edge(walk[i] as int, walk[i + 1] as int, weights[i]));
    }
}

/// A weighted walk with one more edge at its end.
proof fn lemma_extend(
    g: GrafoModel,
    walk: Seq<usize>,
    weights: Seq<u64>,
    from: usize,
    to: usize,
    edge: (usize, u64),
)
    requires
        is_weighted_walk(g, walk, weights, from, to),
        g.has_edge(to as int, edge.0 as int, edge.1),
        edge.0 < g.len(),
    ensures
        is_weighted_walk(g, walk.push(edge.0), weights.push(edge.1), from, edge.0),
        total(weights.push(edge.1)) == sum(total(weights), edge.1 as u128),
{
    let longer = walk.push(edge.0);
    let heavier = weights.push(edge.1);
    assert(heavier.drop_last() =~= weights);
    assert forall|i: int| 0 <= i < heavier.len() implies g.has_edge(
        longer[i] as int,
        longer[i + 1] as int,
        #[trigger] heavier[i],
    ) by {
        if i < weights.len() {
            assert(g.has_edge(walk[i] as int, walk[i + 1] as int, weights[i]));
        }
    }
}

/// An exploration in progress.
struct Exploration {
    frontier: VecDeque<FrontierNode>,
    visited: Vec<bool>,
    /// The nodes that have left the queue and had their edges looked at.
    done: Ghost<Seq<bool>>,
}

impl View for Exploration {
    type V = ExplorationModel;

    closed spec fn view(&self) -> ExplorationModel {
        ExplorationModel { frontier: self.frontier@, visited: self.visited@ }
    }
}

impl Exploration {
    /// Node `x` waits in the queue.
    spec fn queued(&self, x: int) -> bool {
        exists|i: int| 0 <= i < self.frontier@.len() && (#[trigger] self.frontier@[i]).id == x
    }

    /// What holds of an exploration at all times; while the edges of a node
    /// are looked at, that node is `busy`.
    spec fn sound(&self, g: GrafoModel, start: usize, goal: usize, busy: Option<usize>) -> bool {
        let n = g.len();
        &&& g.valid()
        &&& start < n
        &&& goal < n
        &&& self.visited@.len() == n
        &&& self.done@.len() == n
        &&& self.visited@[start as int]
        &&& !self.done@[goal as int]
        &&& forall|i: int|
            0 <= i < self.frontier@.len() ==> {
                let e = #[trigger] self.frontier@[i];
                e.id < n && self.visited@[e.id as int] && weighs(g, start, e.id, e.cost)
            }
        &&& forall|x: int|
            0 <= x < n && #[trigger] self.visited@[x] ==> self.done@[x] || self.queued(x) || (
            busy matches Some(b) && b == x)
        &&& forall|x: int, i: int|
            0 <= x < n && self.done@[x] && 0 <= i < g.adjacency[x].len() ==> self.visited@[(
            #[trigger] g.adjacency[x][i]).0 as int]
    }

    /// The exploration from `start` before its first step.
    fn new(graph: &Grafo, start: usize, Ghost(goal): Ghost<usize>) -> (e: Exploration)
        requires
            graph@.valid(),
            start < graph@.len(),
            goal < graph@.len(),
        ensures
            e.sound(graph@, start, goal, None),
            e@ == ExplorationModel::initial(graph@.len(), start),
    {
        let n: usize = graph.num_vert();
        let mut visited: Vec<bool> = Vec::new();
        let mut i: usize = 0;
        while i < n
            invariant
                i <= n,
                visited@.len() == i,
                forall|j: int| 0 <= j < i ==> !visited@[j],
            decreases n - i,
        {
            visited.push(false);
            i += 1;
        }
        visited[start] = true;
        let mut frontier: VecDeque<FrontierNode> = VecDeque::new();
        frontier.push_back(FrontierNode { id: start, cost: 0 });
        let e = Exploration { frontier, visited, done: Ghost(Seq::new(n as nat, |x: int| false)) };
        proof {
            let model = ExplorationModel::initial(graph@.len(), start);
            assert(e.visited@ =~= model.visited);
            assert(e.frontier@ =~= model.frontier);
            assert(is_weighted_walk(graph@, seq![start], Seq::<u64>::empty(), start, start));
            assert(weighs(graph@, start, start, 0));
            assert(e.frontier@[0].id == start);
            assert(e.queued(start as int));
        }
        e
    }

    /// Looks at the edge of index `i` of `current`, which has left the
    /// queue.
    fn look(&mut self, graph: &Grafo, current: FrontierNode, i: usize, Ghost(start): Ghost<usize>, Ghost(goal): Ghost<usize>)
        requires
            old(self).sound(graph@, start, goal, Some(current.id)),
            current.id < graph@.len(),
            i < graph@.adjacency[current.id as int].len(),
            weighs(graph@, start, current.id, current.cost),
        ensures
            final(self).sound(graph@, start, goal, Some(current.id)),
            final(self)@ == old(self)@.look(current, graph@.adjacency[current.id as int][i as int]),
            final(self).done@ == old(self).done@,
            final(self).visited@[graph@.adjacency[current.id as int][i as int].0 as int],
            forall|x: int|
                0 <= x < graph@.len() && old(self).visited@[x] ==> final(self).visited@[x],
            count_true(final(self).visited@) == count_true(old(self).visited@) + (final(self).frontier@.len() - old(self).frontier@.len()),
            final(self).frontier@.len() >= old(self).frontier@.len(),
    {
        let ghost g = graph@;
        let (neighbor, weight) = graph.neighbours(current.id)[i];
        assert(g.adjacency[current.id as int][i as int] == (neighbor, weight));
        assert(neighbor < g.len());
        if !self.visited[neighbor] {
            self.visited[neighbor] = true;
            let found = FrontierNode {
                id: neighbor,
                cost: saturating_sum(current.cost, weight as u128),
            };
            self.frontier.push_back(found);
            proof {
                lemma_count_true_update(old(self).visited@, neighbor as int);
                let (walk, weights) = choose|walk: Seq<usize>, weights: Seq<u64>|
                    #[trigger] is_weighted_walk(g, walk, weights, start, current.id)
                        && current.cost == total(weights);
                assert(g.has_edge(current.id as int, neighbor as int, weight));
                lemma_extend(g, walk, weights, start, current.id, (neighbor, weight));
                assert(is_weighted_walk(
                    g,
                    walk.push(neighbor),
                    weights.push(weight),
                    start,
                    neighbor,
                ));
                assert(weighs(g, start, neighbor, found.cost));
                let last = old(self).frontier@.len() as int;
                assert(self.frontier@[last] == found);
                assert forall|i: int| 0 <= i < self.frontier@.len() implies {
                    let e = #[trigger] self.frontier@[i];
                    e.id < g.len() && self.visited@[e.id as int] && weighs(g, start, e.id, e.cost)
                } by {
                    if i < last {
                        assert(self.frontier@[i] == old(self).frontier@[i]);
                    }
                }
                assert forall|x: int| 0 <= x < g.len() && #[trigger] self.visited@[x] implies self.done@[x]
                    || self.queued(x) || current.id == x by {
                    if x == neighbor {
                        assert(self.frontier@[last].id == x);
                    } else if old(self).queued(x) {
                        let j = choose|j: int|
                            0 <= j < old(self).frontier@.len() && (#[trigger] old(self).frontier@[j]).id == x;
                        assert(self.frontier@[j].id == x);
                    }
                }
            }
        }
    }

    /// One step: takes the node at the front out of the queue. Returns its
    /// cost if it is `goal`, and looks at all its edges if not.
    fn step(&mut self, graph: &Grafo, goal: usize, Ghost(start): Ghost<usize>) -> (r: Option<u128>)
        requires
            old(self).sound(graph@, start, goal, None),
            old(self).frontier@.len() > 0,
        ensures
            r is Some <==> !old(self)@.goes_on(goal),
            r matches Some(cost) ==> cost == old(self)@.frontier[0].cost && weighs(
                graph@,
                start,
                goal,
                cost,
            ),
            r is None ==> {
                &&& final(self).sound(graph@, start, goal, None)
                &&& final(self)@ == old(self)@.step(graph@)
                &&& count_true(final(self).visited@) >= count_true(old(self).visited@)
                &&& count_true(final(self).visited@) == count_true(old(self).visited@) ==> final(self).frontier@.len() < old(self).frontier@.len()
            },
    {
        let ghost g = graph@;
        let current: FrontierNode = self.frontier.pop_front().unwrap();
        proof {
            let before = old(self).frontier@;
            assert(before[0] == current);
            assert forall|i: int| 0 <= i < self.frontier@.len() implies {
                let e = #[trigger] self.frontier@[i];
                e.id < g.len() && self.visited@[e.id as int] && weighs(g, start, e.id, e.cost)
            } by {
                assert(self.frontier@[i] == before[i + 1]);
            }
        }
        if current.id == goal {
            return Some(current.cost);
        }
        proof {
            let before = old(self).frontier@;
            assert forall|x: int| 0 <= x < g.len() && #[trigger] self.visited@[x] implies self.done@[x]
                || self.queued(x) || current.id == x by {
                if old(self).queued(x) && x != current.id {
                    let j = choose|j: int| 0 <= j < before.len() && (#[trigger] before[j]).id == x;
                    assert(self.frontier@[j - 1] == before[j]);
                }
            }
        }
        let ghost popped = *self;
        let count: usize = graph.neighbours(current.id).len();
        let mut i: usize = 0;
        while i < count
            invariant
                i <= count,
                g == graph@,
                count == g.adjacency[current.id as int].len(),
                current.id < g.len(),
                current.id != goal,
                weighs(g, start, current.id, current.cost),
                self.sound(g, start, goal, Some(current.id)),
                self@ == popped@.spread(g, current, i as nat),
                self.done@ == popped.done@,
                forall|x: int| 0 <= x < g.len() && popped.visited@[x] ==> self.visited@[x],
                forall|j: int|
                    0 <= j < i ==> self.visited@[(#[trigger] g.adjacency[current.id as int][j]).0 as int],
                count_true(self.visited@) == count_true(popped.visited@) + (self.frontier@.len()
                    - popped.frontier@.len()),
                self.frontier@.len() >= popped.frontier@.len(),
            decreases count - i,
        {
            let ghost here = *self;
            self.look(graph, current, i, Ghost(start), Ghost(goal));
            proof {
                assert forall|j: int| 0 <= j < i + 1 implies self.visited@[(
                #[trigger] g.adjacency[current.id as int][j]).0 as int] by {
                    if j < i {
                        assert(here.visited@[g.adjacency[current.id as int][j].0 as int]);
                    }
                }
            }
            i += 1;
        }
        proof {
            let spread = *self;
            self.done@ = self.done@.update(current.id as int, true);
            assert(popped@.frontier == old(self)@.frontier.drop_first());
            assert(popped@.visited == old(self)@.visited);
            assert(self@ == old(self)@.step(g));
            assert forall|x: int| 0 <= x < g.len() && #[trigger] self.visited@[x] implies self.done@[x]
                || self.queued(x) by {
                if x != current.id {
                    assert(spread.done@[x] || spread.queued(x));
                }
            }
            assert forall|x: int, i: int|
                0 <= x < g.len() && self.done@[x] && 0 <= i < g.adjacency[x].len() implies self.visited@[(
            #[trigger] g.adjacency[x][i]).0 as int] by {
                if x != current.id {
                    assert(popped.done@[x]);
                    assert(popped.visited@[g.adjacency[x][i].0 as int]);
                }
            }
            assert(self.frontier@.len() >= old(self).frontier@.len() - 1);
        }
        None
    }
}

/// Explores `graph` breadth-first from `start` until `goal` is reached.
///
/// Returns the cost at which `goal` was found: the weights of the edges
/// along the way by which it was found, added up. The result is what the
/// steps of the exploration give (see `explored`); there is one exactly
/// when the two nodes are connected, and from a node to itself it is zero.
pub fn advanced_exploratory_search(graph: &Grafo, start: usize, goal: usize) -> (r: Option<u128>)
    requires
        graph@.valid(),
        start < graph@.len(),
        goal < graph@.len(),
    ensures
        exists|steps: nat| explored(graph@, start, goal, steps, r),
        r is Some <==> connected(graph@, start, goal),
        r matches Some(cost) ==> weighs(graph@, start, goal, cost),
        start == goal ==> r == Some(0u128),
{
    let ghost g = graph@;
    let mut exploration = Exploration::new(graph, start, Ghost(goal));
    let ghost mut steps: nat = 0;
    proof {
        lemma_count_true_bound(exploration.visited@);
    }
    while exploration.frontier.len() > 0
        invariant
            g == graph@,
            exploration.sound(g, start, goal, None),
            exploration@ == ExplorationModel::after(g, start, steps),
            forall|earlier: nat|
                earlier < steps ==> (#[trigger] ExplorationModel::after(g, start, earlier)).goes_on(
                    goal,
                ),
            count_true(exploration.visited@) <= g.len(),
            start == goal ==> steps == 0,
        decreases g.len() - count_true(exploration.visited@), exploration.frontier@.len(),
    {
        let found = exploration.step(graph, goal, Ghost(start));
        if let Some(cost) = found {
            proof {
                assert(explored(g, start, goal, steps, found));
                let (walk, weights) = choose|walk: Seq<usize>, weights: Seq<u64>|
                    #[trigger] is_weighted_walk(g, walk, weights, start, goal) && cost == total(
                        weights,
                    );
                lemma_weighted_walk(g, walk, weights, start, goal);
            }
            return found;
        }
        proof {
            steps = steps + 1;
            lemma_count_true_bound(exploration.visited@);
        }
    }
    proof {
        assert(explored(g, start, goal, steps, None));
        if connected(g, start, goal) {
            let walk = choose|walk: Seq<usize>| is_walk(g, walk, start, goal);
            lemma_flooded(&exploration, g, start, goal, walk, walk.len() - 1);
        }
    }
    None
}

/// Once the queue is empty, whatever a walk from `start` reaches has left
/// the queue.
proof fn lemma_flooded(e: &Exploration, g: GrafoModel, start: usize, goal: usize, walk: Seq<usize>, k: int)
    requires
        e.sound(g, start, goal, None),
        e.frontier@.len() == 0,
        0 <= k < walk.len(),
        walk.len() > 0,
        walk[0] == start,
        forall|i: int| 0 <= i < walk.len() ==> (#[trigger] walk[i]) < g.len(),
        forall|i: int|
            0 <= i < walk.len() - 1 ==> g.adjacent(#[trigger] walk[i] as int, walk[i + 1] as int),
    ensures
        e.done@[walk[k] as int],
    decreases k,
{
    let x = walk[k] as int;
    if k > 0 {
        lemma_flooded(e, g, start, goal, walk, k - 1);
        let w = walk[k - 1] as int;
        assert(g.adjacent(w, x));
        let i = choose|i: int| 0 <= i < g.adjacency[w].len() && (#[trigger] g.adjacency[w][i]).0 == x;
        assert(e.visited@[g.adjacency[w][i].0 as int]);
    }
    assert(e.visited@[x]);
    if !e.done@[x] {
        assert(e.queued(x));
    }
}

} // verus!
