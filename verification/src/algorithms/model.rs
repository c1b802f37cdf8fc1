//! The bidirectional search as a function on states.
//!
//! A search state holds, for each of the two directions, the frontier, the
//! cost at which each node was found, the nodes that have left the frontier
//! and the node from which each node was found; and the best meeting point
//! so far with the cost of the path through it. The search is a sequence of
//! rounds, each of which expands one node forward and then one node
//! backward, up to the first round after which the stopping rule holds.
use crate::algorithms::frontier::{insert_sorted, Entry};
use crate::algorithms::heuristics::heuristic;
use crate::algorithms::paths::coordinates_along;
use crate::fixed::{sum, INFINITE, UNIT};
use crate::structures::GrafoModel;
use vstd::prelude::*;

verus! {

/// One direction of a search.
pub struct SideModel {
    /// The entries that wait, in the order in which they leave.
    pub frontier: Seq<Entry>,
    /// The cost at which each node was found, `INFINITE` for the others.
    pub cost: Seq<u128>,
    /// Which nodes have left the frontier.
    pub visited: Seq<bool>,
    /// The node from which each node was found.
    pub came_from: Seq<Option<usize>>,
}

impl SideModel {
    /// The side of a search in `n` nodes that starts at `root`: the root
    /// waits at priority 0 and has cost 0.
    pub open spec fn rooted(n: nat, root: usize) -> SideModel {
        SideModel {
            frontier: seq![Entry { priority: 0, node: root }],
            cost: Seq::new(
                n,
                |x: int|
                    if x == root {
                        0u128
                    } else {
                        INFINITE
                    },
            ),
            visited: Seq::new(n, |x: int| false),
            came_from: Seq::new(n, |x: int| None),
        }
    }

    /// The priority of the entry that leaves next, `INFINITE` where nothing
    /// waits.
    pub open spec fn lowest(self) -> u128 {
        if self.frontier.len() == 0 {
            INFINITE
        } else {
            self.frontier[0].priority
        }
    }

    /// The side after `neighbor` was looked at from `position`, which left
    /// the frontier at `priority`. One step further on costs one unit more
    /// than that priority. Where this is less than the cost of `neighbor`,
    /// the neighbour gets that cost, is found from `position`, and waits
    /// under that cost plus the estimate of what remains to `target`.
    pub open spec fn look(
        self,
        g: GrafoModel,
        position: usize,
        priority: u128,
        neighbor: usize,
        target: usize,
    ) -> SideModel {
        let next_cost = sum(priority, UNIT);
        if next_cost < self.cost[neighbor as int] {
            let estimate = heuristic(g, neighbor as int, target as int, next_cost) as u128;
            SideModel {
                frontier: insert_sorted(
                    self.frontier,
                    Entry { priority: sum(next_cost, estimate), node: neighbor },
                ),
                cost: self.cost.update(neighbor as int, next_cost),
                came_from: self.came_from.update(neighbor as int, Some(position)),
                ..self
            }
        } else {
            self
        }
    }

    /// The side after the first `count` neighbours of `position` were
    /// looked at.
    pub open spec fn relax(
        self,
        g: GrafoModel,
        position: usize,
        priority: u128,
        target: usize,
        count: nat,
    ) -> SideModel
        decreases count,
    {
        if count == 0 {
            self
        } else {
            self.relax(g, position, priority, target, (count - 1) as nat).look(
                g,
                position,
                priority,
                g.adjacency[position as int][count - 1].0,
                target,
            )
        }
    }

    /// One expansion: the side after it, and the meeting point that it
    /// found with the cost of the path through it.
    ///
    /// The entry of lowest priority leaves the frontier. If its node left
    /// the frontier before, nothing else happens. Otherwise the node is
    /// marked; if the other search has found it, it is a meeting point, at
    /// the priority of the entry plus the cost at which the other search
    /// found it; if not, all its neighbours are looked at.
    pub open spec fn expand(self, g: GrafoModel, other_cost: Seq<u128>, target: usize) -> (
        SideModel,
        Option<(usize, u128)>,
    ) {
        if self.frontier.len() == 0 {
            (self, None)
        } else {
            let first = self.frontier[0];
            let rest = SideModel { frontier: self.frontier.drop_first(), ..self };
            if self.visited[first.node as int] {
                (rest, None)
            } else {
                let marked = SideModel {
                    visited: self.visited.update(first.node as int, true),
                    ..rest
                };
                if other_cost[first.node as int] < INFINITE {
                    (
                        marked,
                        Some((first.node, sum(first.priority, other_cost[first.node as int]))),
                    )
                } else {
                    (
                        marked.relax(
                            g,
                            first.node,
                            first.priority,
                            target,
                            g.adjacency[first.node as int].len(),
                        ),
                        None,
                    )
                }
            }
        }
    }
}

/// A search in progress.
pub struct SearchModel {
    pub forward: SideModel,
    pub backward: SideModel,
    /// The cost of the path through the best meeting point, `INFINITE`
    /// where there is none yet.
    pub best_cost: u128,
    pub best_meeting_point: Option<usize>,
}

impl SearchModel {
    /// The search from `start` to `goal` before its first round.
    pub open spec fn initial(g: GrafoModel, start: usize, goal: usize) -> SearchModel {
        SearchModel {
            forward: SideModel::rooted(g.len(), start),
            backward: SideModel::rooted(g.len(), goal),
            best_cost: INFINITE,
            best_meeting_point: None,
        }
    }

    /// The search after an expansion gave `met`: a meeting point that costs
    /// less than the best so far takes its place.
    pub open spec fn note(self, met: Option<(usize, u128)>) -> SearchModel {
        match met {
            Some((meeting_point, cost)) => if cost < self.best_cost {
                SearchModel { best_cost: cost, best_meeting_point: Some(meeting_point), ..self }
            } else {
                self
            },
            None => self,
        }
    }

    /// The search one round on: one expansion forward, towards `goal`, then
    /// one backward, towards `start`.
    pub open spec fn round(self, g: GrafoModel, start: usize, goal: usize) -> SearchModel {
        let (forward, met) = self.forward.expand(g, self.backward.cost, goal);
        let half = (SearchModel { forward, ..self }).note(met);
        let (backward, met) = half.backward.expand(g, half.forward.cost, start);
        (SearchModel { backward, ..half }).note(met)
    }

    /// The search after `rounds` rounds.
    pub open spec fn after(g: GrafoModel, start: usize, goal: usize, rounds: nat) -> SearchModel
        decreases rounds,
    {
        if rounds == 0 {
            SearchModel::initial(g, start, goal)
        } else {
            SearchModel::after(g, start, goal, (rounds - 1) as nat).round(g, start, goal)
        }
    }

    /// The stopping rule: what the two searches would expand next costs
    /// together at least as much as the best path so far.
    pub open spec fn stops(self) -> bool {
        sum(self.forward.lowest(), self.backward.lowest()) >= self.best_cost
    }
}

/// The nodes from `from` back to `root` along `came_from`, both included,
/// as far as `fuel` steps lead.
pub open spec fn climb(came_from: Seq<Option<usize>>, from: usize, root: usize, fuel: nat) -> Seq<
    usize,
>
    decreases fuel,
{
    if from == root || fuel == 0 {
        seq![from]
    } else {
        match came_from[from as int] {
            Some(parent) => seq![from] + climb(came_from, parent, root, (fuel - 1) as nat),
            None => seq![from],
        }
    }
}

/// The nodes of the path through `meeting_point` in a graph of `n` nodes:
/// the way by which the forward search found it, read from `start`, then
/// the way by which the backward search found it, read towards `goal`.
pub open spec fn path_through(
    forward_from: Seq<Option<usize>>,
    backward_from: Seq<Option<usize>>,
    meeting_point: usize,
    start: usize,
    goal: usize,
    n: nat,
) -> Seq<usize> {
    climb(forward_from, meeting_point, start, n).reverse() + climb(
        backward_from,
        meeting_point,
        goal,
        n,
    ).drop_first()
}

/// What a search that has stopped in state `s` returns: nothing where no
/// meeting point was found, else the coordinates along the path through
/// the best meeting point, and the number of its steps as a cost.
pub open spec fn outcome(g: GrafoModel, s: SearchModel, start: usize, goal: usize) -> Option<
    (Seq<(usize, usize)>, u128),
> {
    match s.best_meeting_point {
        Some(meeting_point) => {
            let nodes = path_through(
                s.forward.came_from,
                s.backward.came_from,
                meeting_point,
                start,
                goal,
                g.len(),
            );
            Some((coordinates_along(g, nodes), ((nodes.len() - 1) * UNIT) as u128))
        },
        None => None,
    }
}

/// `result` is what the search from `start` to `goal` returns, and the
/// search takes `rounds` rounds: the stopping rule holds after that many
/// rounds and after no smaller number of them, but is not asked before the
/// first round.
pub open spec fn searched(
    g: GrafoModel,
    start: usize,
    goal: usize,
    rounds: nat,
    result: Option<(Seq<(usize, usize)>, u128)>,
) -> bool {
    &&& rounds >= 1
    &&& SearchModel::after(g, start, goal, rounds).stops()
    &&& forall|earlier: nat|
        1 <= earlier < rounds ==> !(#[trigger] SearchModel::after(g, start, goal, earlier)).stops()
    &&& result == outcome(g, SearchModel::after(g, start, goal, rounds), start, goal)
}

/// A search has one result: whatever two runs from `start` to `goal` in
/// one graph return, they take the same number of rounds and return the
/// same.
pub proof fn lemma_searched_once(
    g: GrafoModel,
    start: usize,
    goal: usize,
    rounds: nat,
    result: Option<(Seq<(usize, usize)>, u128)>,
    other_rounds: nat,
    other_result: Option<(Seq<(usize, usize)>, u128)>,
)
    requires
        searched(g, start, goal, rounds, result),
        searched(g, start, goal, other_rounds, other_result),
    ensures
        rounds == other_rounds,
        result == other_result,
{
    if rounds < other_rounds {
        assert(!SearchModel::after(g, start, goal, rounds).stops());
    }
    if other_rounds < rounds {
        assert(!SearchModel::after(g, start, goal, other_rounds).stops());
    }
}

} // verus!
