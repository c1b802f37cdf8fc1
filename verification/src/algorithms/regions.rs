//! Partitioning a graph into regions.
//!
//! Each region starts from one seed node. In every pass each node without a
//! region counts, region by region, how many of its neighbours belong to
//! it, and joins the region with the highest count; among regions with the
//! same count it joins the one with the fewest nodes at the start of the
//! pass, and among those the one of lowest index. A node none of whose
//! neighbours has a region waits for a later pass. When a pass gives no
//! node a region, the waiting node of lowest index joins the region with
//! the fewest nodes, so that parts of the graph that no seed reaches are
//! partitioned too. At the end the nodes that have a neighbour in another
//! region are recorded as the border nodes of their region.
use crate::structures::{Grafo, GrafoModel};
use vstd::prelude::*;

verus! {

/// Why a graph was not partitioned.
#[derive(Clone, Copy, Debug, PartialEq, Eq, Structural)]
pub enum PartitionError {
    /// There are no seeds or more seeds than nodes, or a seed is no node of
    /// the graph or occurs twice.
    InvalidArgument,
}

/// The region of each node, `None` for a node that waits.
pub type Labels = Seq<Option<usize>>;

/// Between one and `n` different nodes.
pub open spec fn valid_seeds(seeds: Seq<usize>, n: nat) -> bool {
    &&& 0 < seeds.len() <= n
    &&& forall|i: int| 0 <= i < seeds.len() ==> (#[trigger] seeds[i]) < n
    &&& forall|i: int, j: int| 0 <= i < j < seeds.len() ==> seeds[i] != seeds[j]
}

/// The labels of `n` nodes after the first `count` seeds have founded
/// their regions: seed `i` is the one node of region `i`.
pub open spec fn planted(seeds: Seq<usize>, n: nat, count: nat) -> Labels
    decreases count,
{
    if count == 0 {
        Seq::new(n, |v: int| None)
    } else {
        planted(seeds, n, (count - 1) as nat).update(
            seeds[count - 1] as int,
            Some((count - 1) as usize),
        )
    }
}

/// How many of `neighbours` belong to region `p`.
pub open spec fn tally(neighbours: Seq<(usize, u64)>, labels: Labels, p: usize) -> nat
    decreases neighbours.len(),
{
    if neighbours.len() == 0 {
        0
    } else {
        tally(neighbours.drop_last(), labels, p) + if labels[neighbours.last().0 as int] == Some(p) {
            1nat
        } else {
            0nat
        }
    }
}

/// How many nodes belong to region `p`.
pub open spec fn population(labels: Labels, p: usize) -> nat
    decreases labels.len(),
{
    if labels.len() == 0 {
        0
    } else {
        population(labels.drop_last(), p) + if labels.last() == Some(p) {
            1nat
        } else {
            0nat
        }
    }
}

/// How many nodes wait.
pub open spec fn waiting(labels: Labels) -> nat
    decreases labels.len(),
{
    if labels.len() == 0 {
        0
    } else {
        waiting(labels.drop_last()) + if labels.last() is None {
            1nat
        } else {
            0nat
        }
    }
}

/// Every node has a region.
pub open spec fn complete(labels: Labels) -> bool {
    forall|v: int| 0 <= v < labels.len() ==> (#[trigger] labels[v]) is Some
}

/// Every region in use is one of the first `k`.
pub open spec fn within(labels: Labels, k: nat) -> bool {
    forall|v: int| 0 <= v < labels.len() ==> ((#[trigger] labels[v]) matches Some(p) ==> p < k)
}

/// Some neighbour has a region.
pub open spec fn touched(neighbours: Seq<(usize, u64)>, labels: Labels) -> bool {
    exists|i: int| 0 <= i < neighbours.len() && labels[(#[trigger] neighbours[i]).0 as int] is Some
}

/// A node with these neighbours would rather join region `p` than `q`.
pub open spec fn outranks(neighbours: Seq<(usize, u64)>, labels: Labels, p: usize, q: usize) -> bool {
    let tp = tally(neighbours, labels, p);
    let tq = tally(neighbours, labels, q);
    tp > tq || (tp == tq && population(labels, p) < population(labels, q))
}

/// A node with these neighbours joins region `p` of the first `k`: no
/// region outranks `p`, and `p` outranks every region of lower index.
pub open spec fn joins(neighbours: Seq<(usize, u64)>, labels: Labels, k: nat, p: usize) -> bool {
    &&& p < k
    &&& forall|q: usize| q < k ==> !#[trigger] outranks(neighbours, labels, q, p)
    &&& forall|q: usize| q < p ==> #[trigger] outranks(neighbours, labels, p, q)
}

/// No waiting node has a neighbour with a region.
pub open spec fn stalled(g: GrafoModel, labels: Labels) -> bool {
    forall|v: int|
        0 <= v < labels.len() && (#[trigger] labels[v]) is None ==> !touched(g.adjacency[v], labels)
}

/// `after` is `before` with every waiting node that has a neighbour with a
/// region joined to the region it prefers.
pub open spec fn is_pass(g: GrafoModel, k: nat, before: Labels, after: Labels) -> bool {
    &&& after.len() == before.len()
    &&& forall|v: int|
        0 <= v < before.len() ==> if before[v] is None && touched(g.adjacency[v], before) {
            (#[trigger] after[v]) matches Some(p) && joins(g.adjacency[v], before, k, p)
        } else {
            after[v] == before[v]
        }
}

/// Region `p` of the first `k` has the fewest nodes, and more than each
/// region of lower index.
pub open spec fn smallest(labels: Labels, k: nat, p: usize) -> bool {
    &&& p < k
    &&& forall|q: usize| q < k ==> #[trigger] population(labels, q) >= population(labels, p)
    &&& forall|q: usize| q < p ==> #[trigger] population(labels, q) > population(labels, p)
}

/// `after` is `before` with the waiting node of lowest index joined to the
/// smallest region.
pub open spec fn is_rescue(k: nat, before: Labels, after: Labels) -> bool {
    exists|v: int, p: usize|
        {
            &&& 0 <= v < before.len()
            &&& before[v] is None
            &&& forall|u: int| 0 <= u < v ==> (#[trigger] before[u]) is Some
            &&& smallest(before, k, p)
            &&& #[trigger] before.update(v, Some(p)) == after
        }
}

/// One round of growth: a pass, or where a pass would change nothing, a
/// rescue.
pub open spec fn is_round(g: GrafoModel, k: nat, before: Labels, after: Labels) -> bool {
    if stalled(g, before) {
        is_rescue(k, before, after)
    } else {
        is_pass(g, k, before, after)
    }
}

/// `rounds` are the labels after each round of growing `k` regions, up to
/// the first at which every node has a region.
pub open spec fn is_growth(g: GrafoModel, k: nat, rounds: Seq<Labels>) -> bool {
    &&& rounds.len() > 0
    &&& complete(rounds[rounds.len() - 1])
    &&& forall|i: int|
        0 <= i < rounds.len() - 1 ==> !complete(#[trigger] rounds[i]) && is_round(
            g,
            k,
            rounds[i],
            rounds[i + 1],
        )
}

/// One of `neighbours` lies in another region than `region`.
pub open spec fn has_foreign(neighbours: Seq<(usize, u64)>, regions: Seq<usize>, region: usize) -> bool {
    exists|i: int| 0 <= i < neighbours.len() && regions[(#[trigger] neighbours[i]).0 as int] != region
}

/// Node `v` has a neighbour in another region.
pub open spec fn on_border(g: GrafoModel, v: int) -> bool {
    has_foreign(g.adjacency[v], g.regions, g.regions[v])
}

/// The (region, node) pairs of the nodes below `limit` that have a
/// neighbour in another region.
pub open spec fn borders_below(g: GrafoModel, limit: nat) -> Set<(usize, usize)> {
    Set::new(
        |rv: (usize, usize)|
            rv.1 < limit && g.regions[rv.1 as int] == rv.0 && has_foreign(
                g.adjacency[rv.1 as int],
                g.regions,
                rv.0,
            ),
    )
}

/// The (region, node) pairs of the nodes that have a neighbour in another
/// region.
pub open spec fn borders(g: GrafoModel) -> Set<(usize, usize)> {
    borders_below(g, g.len())
}

/// `after` is `before` partitioned from `seeds`: the regions have grown
/// round by round from the seeds until every node had one, and the border
/// nodes of the result are recorded.
pub open spec fn partitioned(before: GrafoModel, after: GrafoModel, seeds: Seq<usize>) -> bool {
    &&& after.coordinates == before.coordinates
    &&& after.adjacency == before.adjacency
    &&& after.regions.len() == before.len()
    &&& exists|rounds: Seq<Labels>|
        {
            &&& #[trigger] is_growth(before, seeds.len(), rounds)
            &&& rounds[0] == planted(seeds, before.len(), seeds.len())
            &&& rounds[rounds.len() - 1] == after.regions.map_values(|r: usize| Some(r))
        }
    &&& after.boundaries == borders(after)
}

/// At most one region is the one that a node joins.
pub proof fn lemma_joins_once(
    neighbours: Seq<(usize, u64)>,
    labels: Labels,
    k: nat,
    p: usize,
    q: usize,
)
    requires
        joins(neighbours, labels, k, p),
        joins(neighbours, labels, k, q),
    ensures
        p == q,
{
    if p < q {
        assert(outranks(neighbours, labels, q, p));
    }
    if q < p {
        assert(outranks(neighbours, labels, p, q));
    }
}

/// A round has one outcome.
pub proof fn lemma_round_once(g: GrafoModel, k: nat, before: Labels, first: Labels, second: Labels)
    requires
        is_round(g, k, before, first),
        is_round(g, k, before, second),
    ensures
        first == second,
{
    if stalled(g, before) {
        let (v, p) = choose|v: int, p: usize|
            {
                &&& 0 <= v < before.len()
                &&& before[v] is None
                &&& forall|u: int| 0 <= u < v ==> (#[trigger] before[u]) is Some
                &&& smallest(before, k, p)
                &&& #[trigger] before.update(v, Some(p)) == first
            };
        let (w, q) = choose|w: int, q: usize|
            {
                &&& 0 <= w < before.len()
                &&& before[w] is None
                &&& forall|u: int| 0 <= u < w ==> (#[trigger] before[u]) is Some
                &&& smallest(before, k, q)
                &&& #[trigger] before.update(w, Some(q)) == second
            };
        if v < w {
            assert(before[v] is Some);
        }
        if w < v {
            assert(before[w] is Some);
        }
        if p < q {
            assert(population(before, p) > population(before, q));
            assert(population(before, q) >= population(before, p));
        }
        if q < p {
            assert(population(before, q) > population(before, p));
            assert(population(before, p) >= population(before, q));
        }
    } else {
        assert forall|v: int| 0 <= v < before.len() implies first[v] == second[v] by {
            if before[v] is None && touched(g.adjacency[v], before) {
                lemma_joins_once(g.adjacency[v], before, k, first[v]->0, second[v]->0);
            }
        }
        assert(first =~= second);
    }
}

/// Two growths from the same labels agree round by round.
proof fn lemma_growth_once(g: GrafoModel, k: nat, first: Seq<Labels>, second: Seq<Labels>, i: int)
    requires
        is_growth(g, k, first),
        is_growth(g, k, second),
        first[0] == second[0],
        0 <= i < first.len(),
    ensures
        i < second.len(),
        first[i] == second[i],
    decreases i,
{
    if i > 0 {
        lemma_growth_once(g, k, first, second, i - 1);
        // the round before was not the last of the first growth, so neither of the second
        assert(!complete(first[i - 1]));
        if i - 1 == second.len() - 1 {
            assert(complete(second[i - 1]));
        }
        assert(is_round(g, k, first[i - 1], first[i]));
        assert(is_round(g, k, second[i - 1], second[i]));
        lemma_round_once(g, k, first[i - 1], first[i], second[i]);
    }
}

/// The seeds decide the partition: whatever two partitions of one graph
/// from the same seeds give, it is the same.
pub proof fn lemma_partitioned_once(
    before: GrafoModel,
    seeds: Seq<usize>,
    first: GrafoModel,
    second: GrafoModel,
)
    requires
        partitioned(before, first, seeds),
        partitioned(before, second, seeds),
    ensures
        first == second,
{
    let k = seeds.len();
    let one = choose|rounds: Seq<Labels>|
        {
            &&& #[trigger] is_growth(before, k, rounds)
            &&& rounds[0] == planted(seeds, before.len(), k)
            &&& rounds[rounds.len() - 1] == first.regions.map_values(|r: usize| Some(r))
        };
    let two = choose|rounds: Seq<Labels>|
        {
            &&& #[trigger] is_growth(before, k, rounds)
            &&& rounds[0] == planted(seeds, before.len(), k)
            &&& rounds[rounds.len() - 1] == second.regions.map_values(|r: usize| Some(r))
        };
    lemma_growth_once(before, k, one, two, one.len() - 1);
    lemma_growth_once(before, k, two, one, two.len() - 1);
    let labels = first.regions.map_values(|r: usize| Some(r));
    let others = second.regions.map_values(|r: usize| Some(r));
    assert(labels == others);
    assert forall|v: int| 0 <= v < first.regions.len() implies first.regions[v]
        == second.regions[v] by {
        assert(labels[v] == Some(first.regions[v]));
        assert(others[v] == Some(second.regions[v]));
    }
    assert(first.regions.len() == labels.len());
    assert(second.regions.len() == others.len());
    assert(first.regions =~= second.regions);
    assert(borders(first) =~= borders(second));
}

proof fn lemma_population_bound(labels: Labels, p: usize)
    ensures
        population(labels, p) <= labels.len(),
    decreases labels.len(),
{
    if labels.len() > 0 {
        lemma_population_bound(labels.drop_last(), p);
    }
}

/// A waiting node that joins region `p` adds one to the population of `p`
/// and takes one from the number of waiting nodes.
proof fn lemma_join(labels: Labels, v: int, p: usize, q: usize)
    requires
        0 <= v < labels.len(),
        labels[v] is None,
    ensures
        population(labels.update(v, Some(p)), q) == population(labels, q) + if q == p {
            1nat
        } else {
            0nat
        },
        waiting(labels.update(v, Some(p))) + 1 == waiting(labels),
    decreases labels.len(),
{
    let after = labels.update(v, Some(p));
    if v == labels.len() - 1 {
        assert(after.drop_last() =~= labels.drop_last());
    } else {
        assert(after.drop_last() =~= labels.drop_last().update(v, Some(p)));
        lemma_join(labels.drop_last(), v, p, q);
    }
}

/// Nobody waits exactly when every node has a region.
proof fn lemma_waiting(labels: Labels)
    ensures
        waiting(labels) == 0 <==> complete(labels),
    decreases labels.len(),
{
    if labels.len() > 0 {
        let front = labels.drop_last();
        lemma_waiting(front);
        if complete(labels) {
            assert forall|v: int| 0 <= v < front.len() implies (#[trigger] front[v]) is Some by {
                assert(labels[v] is Some);
            }
        }
        if waiting(labels) == 0 {
            assert forall|v: int| 0 <= v < labels.len() implies (#[trigger] labels[v]) is Some by {
                if v < front.len() {
                    assert(front[v] is Some);
                }
            }
        }
    }
}

/// A region has neighbours counted for it exactly when some neighbour
/// belongs to it.
proof fn lemma_tally(neighbours: Seq<(usize, u64)>, labels: Labels, p: usize)
    ensures
        tally(neighbours, labels, p) > 0 <==> exists|i: int|
            0 <= i < neighbours.len() && labels[(#[trigger] neighbours[i]).0 as int] == Some(p),
    decreases neighbours.len(),
{
    if neighbours.len() > 0 {
        let front = neighbours.drop_last();
        lemma_tally(front, labels, p);
        let last = neighbours.len() - 1;
        if tally(neighbours, labels, p) > 0 {
            if tally(front, labels, p) > 0 {
                let i = choose|i: int|
                    0 <= i < front.len() && labels[(#[trigger] front[i]).0 as int] == Some(p);
                assert(neighbours[i] == front[i]);
            } else {
                assert(labels[neighbours[last].0 as int] == Some(p));
            }
        }
        if exists|i: int|
            0 <= i < neighbours.len() && labels[(#[trigger] neighbours[i]).0 as int] == Some(p) {
            let i = choose|i: int|
                0 <= i < neighbours.len() && labels[(#[trigger] neighbours[i]).0 as int] == Some(p);
            if i < last {
                assert(front[i] == neighbours[i]);
            }
        }
    }
}

/// How many of `neighbours` belong to region `p`.
fn count_in_region(neighbours: &[(usize, u64)], labels: &Vec<Option<usize>>, p: usize) -> (count: usize)
    requires
        forall|i: int| 0 <= i < neighbours@.len() ==> (#[trigger] neighbours@[i]).0 < labels@.len(),
    ensures
        count == tally(neighbours@, labels@, p),
{
    let mut count: usize = 0;
    let mut i: usize = 0;
    while i < neighbours.len()
        invariant
            i <= neighbours@.len(),
            count <= i,
            count == tally(neighbours@.take(i as int), labels@, p),
            forall|i: int| 0 <= i < neighbours@.len() ==> (#[trigger] neighbours@[i]).0 < labels@.len(),
        decreases neighbours@.len() - i,
    {
        let neighbor: usize = neighbours[i].0;
        let inside: bool = match labels[neighbor] {
            Some(r) => r == p,
            None => false,
        };
        proof {
            assert(neighbours@.take(i + 1).drop_last() =~= neighbours@.take(i as int));
        }
        if inside {
            count += 1;
        }
        i += 1;
    }
    proof {
        assert(neighbours@.take(i as int) =~= neighbours@);
    }
    count
}

/// The region that waiting node `v` joins in a pass, or `None` where none
/// of its neighbours has a region yet.
fn choose_region(graph: &Grafo, labels: &Vec<Option<usize>>, sizes: &Vec<usize>, v: usize) -> (r:
    Option<usize>)
    requires
        graph@.valid(),
        v < graph@.len(),
        labels@.len() == graph@.len(),
        sizes@.len() > 0,
        within(labels@, sizes@.len()),
        forall|q: usize| q < sizes@.len() ==> sizes@[q as int] == #[trigger] population(labels@, q),
    ensures
        r is None <==> !touched(graph@.adjacency[v as int], labels@),
        r matches Some(p) ==> joins(graph@.adjacency[v as int], labels@, sizes@.len(), p),
{
    let neighbours = graph.neighbours(v);
    let ghost nb = neighbours@;
    let ghost l = labels@;
    let k: usize = sizes.len();
    let mut best: usize = 0;
    let mut most: usize = count_in_region(neighbours, labels, 0);
    let mut p: usize = 1;
    while p < k
        invariant
            1 <= p <= k,
            k == sizes@.len(),
            nb == neighbours@,
            l == labels@,
            best < p,
            most == tally(nb, l, best),
            forall|i: int| 0 <= i < nb.len() ==> (#[trigger] nb[i]).0 < l.len(),
            forall|q: usize| q < k ==> sizes@[q as int] == #[trigger] population(l, q),
            forall|q: usize| q < p ==> !#[trigger] outranks(nb, l, q, best),
            forall|q: usize| q < best ==> #[trigger] outranks(nb, l, best, q),
        decreases k - p,
    {
        let count: usize = count_in_region(neighbours, labels, p);
        let ghost former = best;
        if count > most || (count == most && sizes[p] < sizes[best]) {
            most = count;
            best = p;
        }
        proof {
            assert(sizes@[p as int] == population(l, p));
            assert(sizes@[former as int] == population(l, former));
            assert forall|q: usize| q < p + 1 implies !#[trigger] outranks(nb, l, q, best) by {
                if q < p {
                    assert(!outranks(nb, l, q, former));
                }
            }
            assert forall|q: usize| q < best implies #[trigger] outranks(nb, l, best, q) by {
                if best == former {
                    assert(outranks(nb, l, former, q));
                } else {
                    assert(!outranks(nb, l, q, former));
                }
            }
        }
        p += 1;
    }
    proof {
        if most == 0 {
            if touched(nb, l) {
                let i = choose|i: int| 0 <= i < nb.len() && l[(#[trigger] nb[i]).0 as int] is Some;
                let q = l[nb[i].0 as int]->0;
                lemma_tally(nb, l, q);
                assert(!outranks(nb, l, q, best));
            }
        } else {
            lemma_tally(nb, l, best);
        }
    }
    if most == 0 {
        None
    } else {
        Some(best)
    }
}

/// `sizes` holds the population of each region.
spec fn counted(sizes: Seq<usize>, labels: Labels) -> bool {
    forall|q: usize| q < sizes.len() ==> sizes[q as int] == #[trigger] population(labels, q)
}

/// What has a region keeps it.
spec fn keeps(before: Labels, after: Labels) -> bool {
    &&& after.len() == before.len()
    &&& forall|v: int|
        0 <= v < before.len() && (#[trigger] before[v]) is Some ==> after[v] == before[v]
}

/// One pass over the waiting nodes. Returns the labels and the region sizes
/// after the pass, and how many nodes got a region.
fn grow_once(graph: &Grafo, labels: &Vec<Option<usize>>, sizes: &Vec<usize>) -> (r: (
    Vec<Option<usize>>,
    Vec<usize>,
    usize,
))
    requires
        graph@.valid(),
        labels@.len() == graph@.len(),
        sizes@.len() > 0,
        within(labels@, sizes@.len()),
        counted(sizes@, labels@),
    ensures
        is_pass(graph@, sizes@.len(), labels@, r.0@),
        r.1@.len() == sizes@.len(),
        within(r.0@, sizes@.len()),
        counted(r.1@, r.0@),
        waiting(r.0@) + r.2 == waiting(labels@),
        r.2 == 0 <==> stalled(graph@, labels@),
        keeps(labels@, r.0@),
{
    let ghost g = graph@;
    let n: usize = labels.len();
    let k: usize = sizes.len();
    let mut grown: Vec<usize> = Vec::new();
    let mut q: usize = 0;
    while q < k
        invariant
            q <= k,
            k == sizes@.len(),
            grown@ == sizes@.take(q as int),
        decreases k - q,
    {
        grown.push(sizes[q]);
        proof {
            assert(grown@ =~= sizes@.take(q + 1));
        }
        q += 1;
    }
    assert(grown@ =~= sizes@);
    let mut after: Vec<Option<usize>> = Vec::new();
    let mut progress: usize = 0;
    let ghost mut mixed: Labels = labels@;
    let mut v: usize = 0;
    while v < n
        invariant
            v <= n,
            n == labels@.len(),
            n == g.len(),
            k == sizes@.len(),
            k > 0,
            g == graph@,
            g.valid(),
            within(labels@, k as nat),
            counted(sizes@, labels@),
            after@.len() == v,
            mixed.len() == n,
            forall|u: int| 0 <= u < v ==> mixed[u] == after@[u],
            forall|u: int| v <= u < n ==> mixed[u] == labels@[u],
            grown@.len() == k,
            counted(grown@, mixed),
            within(mixed, k as nat),
            waiting(mixed) + progress == waiting(labels@),
            progress <= v,
            forall|u: int|
                0 <= u < v ==> if labels@[u] is None && touched(g.adjacency[u], labels@) {
                    (#[trigger] after@[u]) matches Some(p) && joins(g.adjacency[u], labels@, k as nat, p)
                } else {
                    after@[u] == labels@[u]
                },
            progress == 0 ==> forall|u: int|
                0 <= u < v && (#[trigger] labels@[u]) is None ==> !touched(g.adjacency[u], labels@),
            progress > 0 ==> !stalled(g, labels@),
        decreases n - v,
    {
        let current: Option<usize> = labels[v];
        let next: Option<usize> = match current {
            Some(region) => Some(region),
            None => choose_region(graph, labels, sizes, v),
        };
        if current.is_none() {
            if let Some(region) = next {
                let ghost joined = mixed.update(v as int, Some(region));
                proof {
                    assert(mixed[v as int] is None);
                    lemma_join(mixed, v as int, region, region);
                    lemma_population_bound(joined, region);
                    assert(grown@[region as int] == population(mixed, region));
                }
                let ghost former = grown@;
                grown[region] = grown[region] + 1;
                progress += 1;
                proof {
                    assert forall|q: usize| q < k implies grown@[q as int] == #[trigger] population(
                        joined,
                        q,
                    ) by {
                        lemma_join(mixed, v as int, region, q);
                        assert(former[q as int] == population(mixed, q));
                    }
                    mixed = joined;
                }
            }
        }
        after.push(next);
        v += 1;
    }
    proof {
        assert(mixed =~= after@);
        if progress == 0 {
            assert(stalled(g, labels@));
        }
    }
    (after, grown, progress)
}

/// The index of the first waiting node.
fn first_waiting(labels: &Vec<Option<usize>>) -> (v: usize)
    requires
        waiting(labels@) > 0,
    ensures
        v < labels@.len(),
        labels@[v as int] is None,
        forall|u: int| 0 <= u < v ==> (#[trigger] labels@[u]) is Some,
{
    proof {
        lemma_waiting(labels@);
    }
    let mut v: usize = 0;
    while v < labels.len() && labels[v].is_some()
        invariant
            v <= labels@.len(),
            !complete(labels@),
            forall|u: int| 0 <= u < v ==> (#[trigger] labels@[u]) is Some,
        decreases labels@.len() - v,
    {
        v += 1;
    }
    v
}

/// The region with the fewest nodes, the first of them where there are
/// several.
fn smallest_region(sizes: &Vec<usize>, Ghost(labels): Ghost<Labels>) -> (p: usize)
    requires
        sizes@.len() > 0,
        counted(sizes@, labels),
    ensures
        smallest(labels, sizes@.len(), p),
{
    let mut best: usize = 0;
    let mut q: usize = 1;
    while q < sizes.len()
        invariant
            1 <= q <= sizes@.len(),
            best < q,
            counted(sizes@, labels),
            forall|r: usize| r < q ==> #[trigger] population(labels, r) >= population(labels, best),
            forall|r: usize| r < best ==> #[trigger] population(labels, r) > population(labels, best),
        decreases sizes@.len() - q,
    {
        assert(sizes@[q as int] == population(labels, q));
        assert(sizes@[best as int] == population(labels, best));
        if sizes[q] < sizes[best] {
            best = q;
        }
        q += 1;
    }
    best
}

/// Where every node waits, no region has a node.
proof fn lemma_blank(n: nat, q: usize)
    ensures
        population(Seq::new(n, |v: int| None::<usize>), q) == 0,
        waiting(Seq::new(n, |v: int| None::<usize>)) == n,
    decreases n,
{
    if n > 0 {
        let blank = Seq::new(n, |v: int| None::<usize>);
        assert(blank.drop_last() =~= Seq::new((n - 1) as nat, |v: int| None::<usize>));
        lemma_blank((n - 1) as nat, q);
    }
}

/// Whether node `v` has a neighbour in another region.
fn has_foreign_neighbour(graph: &Grafo, v: usize) -> (r: bool)
    requires
        graph@.valid(),
        v < graph@.len(),
    ensures
        r == on_border(graph@, v as int),
{
    let region: usize = graph.get_region(v);
    let neighbours = graph.neighbours(v);
    let mut i: usize = 0;
    while i < neighbours.len()
        invariant
            i <= neighbours@.len(),
            graph@.valid(),
            neighbours@ == graph@.adjacency[v as int],
            region == graph@.regions[v as int],
            v < graph@.len(),
            forall|j: int|
                0 <= j < i ==> graph@.regions[(#[trigger] neighbours@[j]).0 as int] == region,
        decreases neighbours@.len() - i,
    {
        let neighbor: usize = neighbours[i].0;
        assert(graph@.adjacency[v as int][i as int].0 < graph@.len());
        if graph.get_region(neighbor) != region {
            return true;
        }
        i += 1;
    }
    false
}

/// Partitions `graph` into as many regions as there are seeds, region `i`
/// growing from `seeds[i]`, and records the border nodes of the result in
/// place of what was recorded before.
///
/// Fails, and leaves the graph as it is, unless `seeds` are between one
/// and `num_vert()` different nodes of the graph.
pub fn partition_with_seeds(graph: &mut Grafo, seeds: &Vec<usize>) -> (r: Result<
    (),
    PartitionError,
>)
    requires
        old(graph)@.valid(),
    ensures
        r is Ok <==> valid_seeds(seeds@, old(graph)@.len()),
        r is Err ==> final(graph)@ == old(graph)@,
        r is Ok ==> partitioned(old(graph)@, final(graph)@, seeds@),
        r is Ok ==> final(graph)@.valid(),
        r is Ok ==> forall|v: int|
            0 <= v < final(graph)@.len() ==> (#[trigger] final(graph)@.regions[v]) < seeds@.len(),
        r is Ok ==> forall|i: int|
            0 <= i < seeds@.len() ==> final(graph)@.regions[(#[trigger] seeds@[i]) as int] == i,
        r is Ok ==> forall|region: usize, v: usize|
            #[trigger] final(graph)@.boundaries.contains((region, v)) ==> v < final(graph)@.len()
                && final(graph)@.regions[v as int] == region && on_border(final(graph)@, v as int),
{
    let ghost g = graph@;
    let n: usize = graph.num_vert();
    let k: usize = seeds.len();
    if k == 0 || k > n {
        return Err(PartitionError::InvalidArgument);
    }
    let mut labels: Vec<Option<usize>> = Vec::new();
    let mut v: usize = 0;
    while v < n
        invariant
            v <= n,
            labels@ == Seq::new(v as nat, |u: int| None::<usize>),
        decreases n - v,
    {
        labels.push(None);
        proof {
            assert(labels@ =~= Seq::new((v + 1) as nat, |u: int| None::<usize>));
        }
        v += 1;
    }
    let mut sizes: Vec<usize> = Vec::new();
    let mut q: usize = 0;
    while q < k
        invariant
            q <= k,
            sizes@.len() == q,
            forall|p: int| 0 <= p < q ==> sizes@[p] == 0,
        decreases k - q,
    {
        sizes.push(0);
        q += 1;
    }
    proof {
        assert forall|q: usize| q < sizes@.len() implies sizes@[q as int] == #[trigger] population(
            labels@,
            q,
        ) by {
            lemma_blank(n as nat, q);
        }
        lemma_blank(n as nat, 0);
    }
    // the seeds found their regions
    let mut i: usize = 0;
    while i < k
        invariant
            i <= k,
            k == seeds@.len(),
            k <= n,
            n == g.len(),
            g == old(graph)@,
            graph@ == g,
            labels@.len() == n,
            sizes@.len() == k,
            labels@ == planted(seeds@, n as nat, i as nat),
            counted(sizes@, labels@),
            waiting(labels@) + i == n,
            forall|j: int| 0 <= j < i ==> (#[trigger] seeds@[j]) < n,
            forall|j: int, l: int| 0 <= j < l < i ==> seeds@[j] != seeds@[l],
            forall|j: int| 0 <= j < i ==> labels@[(#[trigger] seeds@[j]) as int] == Some(j as usize),
            forall|u: int|
                0 <= u < n ==> ((#[trigger] labels@[u]) matches Some(p) ==> p < i && seeds@[p as int]
                    == u),
            forall|q: usize| i <= q < k ==> sizes@[q as int] == 0,
        decreases k - i,
    {
        let seed: usize = seeds[i];
        if seed >= n {
            return Err(PartitionError::InvalidArgument);
        }
        if labels[seed].is_some() {
            proof {
                let first = labels@[seed as int]->0;
                assert(seeds@[first as int] == seeds@[i as int]);
            }
            return Err(PartitionError::InvalidArgument);
        }
        let ghost before = labels@;
        let ghost sized = sizes@;
        labels[seed] = Some(i);
        sizes[i] = 1;
        proof {
            assert forall|q: usize| q < k implies sizes@[q as int] == #[trigger] population(
                labels@,
                q,
            ) by {
                lemma_join(before, seed as int, i, q);
                assert(sized[q as int] == population(before, q));
            }
            lemma_join(before, seed as int, i, i);
        }
        i += 1;
    }
    assert(valid_seeds(seeds@, n as nat));
    // the regions grow
    let ghost mut rounds: Seq<Labels> = seq![labels@];
    let mut remaining: usize = n - k;
    while remaining > 0
        invariant
            g == graph@,
            g.valid(),
            n == g.len(),
            k == seeds@.len(),
            k > 0,
            labels@.len() == n,
            sizes@.len() == k,
            within(labels@, k as nat),
            counted(sizes@, labels@),
            remaining == waiting(labels@),
            forall|j: int| 0 <= j < k ==> (#[trigger] seeds@[j]) < n,
            forall|j: int| 0 <= j < k ==> labels@[(#[trigger] seeds@[j]) as int] == Some(j as usize),
            rounds.len() > 0,
            rounds[0] == planted(seeds@, n as nat, k as nat),
            rounds[rounds.len() - 1] == labels@,
            forall|j: int|
                0 <= j < rounds.len() - 1 ==> !complete(#[trigger] rounds[j]) && is_round(
                    g,
                    k as nat,
                    rounds[j],
                    rounds[j + 1],
                ),
        decreases remaining,
    {
        let ghost before = labels@;
        proof {
            lemma_waiting(before);
        }
        let (after, grown, progress) = grow_once(graph, &labels, &sizes);
        if progress == 0 {
            let node: usize = first_waiting(&labels);
            let region: usize = smallest_region(&sizes, Ghost(before));
            let ghost sized = sizes@;
            proof {
                lemma_join(before, node as int, region, region);
                lemma_population_bound(before.update(node as int, Some(region)), region);
                assert(sized[region as int] == population(before, region));
            }
            labels[node] = Some(region);
            sizes[region] = sizes[region] + 1;
            remaining -= 1;
            proof {
                assert forall|q: usize| q < k implies sizes@[q as int] == #[trigger] population(
                    labels@,
                    q,
                ) by {
                    lemma_join(before, node as int, region, q);
                    assert(sized[q as int] == population(before, q));
                }
                assert(before.update(node as int, Some(region)) == labels@);
                assert(is_rescue(k as nat, before, labels@));
            }
        } else {
            labels = after;
            sizes = grown;
            remaining -= progress;
        }
        proof {
            assert forall|j: int| 0 <= j < k implies labels@[(#[trigger] seeds@[j]) as int] == Some(
                j as usize,
            ) by {
                assert(before[seeds@[j] as int] == Some(j as usize));
            }
            let last = rounds.len() - 1;
            let former = rounds;
            rounds = rounds.push(labels@);
            assert forall|j: int| 0 <= j < rounds.len() - 1 implies !complete(#[trigger] rounds[j])
                && is_round(g, k as nat, rounds[j], rounds[j + 1]) by {
                if j < last {
                    assert(rounds[j] == former[j]);
                    assert(rounds[j + 1] == former[j + 1]);
                } else {
                    assert(rounds[j] == before);
                }
            }
        }
    }
    proof {
        lemma_waiting(labels@);
    }
    // the labels go into the graph
    let mut v: usize = 0;
    while v < n
        invariant
            v <= n,
            n == g.len(),
            labels@.len() == n,
            complete(labels@),
            graph@.valid(),
            graph@.coordinates == g.coordinates,
            graph@.adjacency == g.adjacency,
            graph@.regions.len() == n,
            forall|u: int| 0 <= u < v ==> Some(#[trigger] graph@.regions[u]) == labels@[u],
        decreases n - v,
    {
        assert(labels@[v as int] is Some);
        graph.set_region(v, labels[v].unwrap());
        v += 1;
    }
    proof {
        assert(labels@ =~= graph@.regions.map_values(|r: usize| Some(r)));
        assert(is_growth(g, k as nat, rounds));
    }
    // the border nodes are recorded
    graph.clear_region_boundaries();
    let ghost labelled = graph@;
    assert(labelled.boundaries =~= borders_below(labelled, 0));
    let mut v: usize = 0;
    while v < n
        invariant
            v <= n,
            n == labelled.len(),
            labelled.valid(),
            graph@ == (GrafoModel { boundaries: borders_below(labelled, v as nat), ..labelled }),
        decreases n - v,
    {
        let ghost here = graph@;
        if has_foreign_neighbour(graph, v) {
            let region: usize = graph.get_region(v);
            graph.add_region_boundary(region, v);
        }
        proof {
            assert(on_border(here, v as int) == has_foreign(
                labelled.adjacency[v as int],
                labelled.regions,
                labelled.regions[v as int],
            ));
            assert(graph@.boundaries =~= borders_below(labelled, (v + 1) as nat));
        }
        v += 1;
    }
    proof {
        assert(graph@.boundaries == borders(graph@));
        assert forall|v: int| 0 <= v < graph@.len() implies (#[trigger] graph@.regions[v]) < seeds@.len() by {
            assert(labels@[v] == Some(graph@.regions[v]));
        }
    }
    Ok(())
}

/// The generator type of `rand::thread_rng`. Nothing is known of a value of
/// it.
#[verifier::external_type_specification]
#[verifier::external_body]
pub struct ExThreadRng(rand::rngs::ThreadRng);

/// `rand::thread_rng`: a handle to the random number generator of the
/// current thread, which the system seeds. Nothing is claimed of it. (It
/// panics where the system gives no seed.)
#[verifier::external_body]
fn thread_generator() -> (rng: rand::rngs::ThreadRng) {
    rand::thread_rng()
}

/// `rand::seq::SliceRandom::shuffle` on the slice of `values`: swaps
/// elements in place, so what comes out holds the same values as what went
/// in, each as often as before. In which order is left open.
#[verifier::external_body]
fn shuffle(values: &mut Vec<usize>, rng: &mut rand::rngs::ThreadRng)
    ensures
        final(values)@.to_multiset() == old(values)@.to_multiset(),
{
    rand::seq::SliceRandom::shuffle(values.as_mut_slice(), rng);
}

/// The first `k` of the nodes `0..n` in any order are valid seeds.
proof fn lemma_shuffled_seeds(nodes: Seq<usize>, shuffled: Seq<usize>, k: nat)
    requires
        forall|i: int| 0 <= i < nodes.len() ==> nodes[i] == i,
        shuffled.to_multiset() == nodes.to_multiset(),
        0 < k <= nodes.len(),
    ensures
        shuffled.len() == nodes.len(),
        valid_seeds(shuffled.take(k as int), nodes.len()),
{
    let seeds = shuffled.take(k as int);
    vstd::seq_lib::to_multiset_len(shuffled);
    vstd::seq_lib::to_multiset_len(nodes);
    assert(nodes.no_duplicates());
    nodes.lemma_multiset_has_no_duplicates();
    shuffled.lemma_multiset_has_no_duplicates_conv();
    assert forall|i: int| 0 <= i < seeds.len() implies (#[trigger] seeds[i]) < nodes.len() by {
        let x = shuffled[i];
        assert(shuffled.contains(x));
        vstd::seq_lib::to_multiset_contains(shuffled, x);
        vstd::seq_lib::to_multiset_contains(nodes, x);
        let j = choose|j: int| 0 <= j < nodes.len() && nodes[j] == x;
    }
    assert forall|i: int, j: int| 0 <= i < j < seeds.len() implies seeds[i] != seeds[j] by {
        assert(shuffled[i] != shuffled[j]);
    }
}

/// Partitions `graph` into `num_partitions` regions that grow from as many
/// different nodes, drawn at random, and records the border nodes of the
/// result in place of what was recorded before.
///
/// Fails, and leaves the graph as it is, unless `num_partitions` is at
/// least one and at most the number of nodes.
pub fn partition_graph(graph: &mut Grafo, num_partitions: usize) -> (r: Result<(), PartitionError>)
    requires
        old(graph)@.valid(),
    ensures
        r is Ok <==> 0 < num_partitions <= old(graph)@.len(),
        r is Err ==> final(graph)@ == old(graph)@,
        r is Ok ==> exists|seeds: Seq<usize>|
            seeds.len() == num_partitions && valid_seeds(seeds, old(graph)@.len())
                && #[trigger] partitioned(old(graph)@, final(graph)@, seeds),
        r is Ok ==> final(graph)@.valid(),
        r is Ok ==> forall|v: int|
            0 <= v < final(graph)@.len() ==> (#[trigger] final(graph)@.regions[v]) < num_partitions,
        r is Ok ==> forall|region: usize, v: usize|
            #[trigger] final(graph)@.boundaries.contains((region, v)) ==> v < final(graph)@.len()
                && final(graph)@.regions[v as int] == region && on_border(final(graph)@, v as int),
{
    let total_vertices: usize = graph.num_vert();
    if num_partitions == 0 || num_partitions > total_vertices {
        return Err(PartitionError::InvalidArgument);
    }
    let mut seeds: Vec<usize> = Vec::new();
    let mut v: usize = 0;
    while v < total_vertices
        invariant
            v <= total_vertices,
            seeds@.len() == v,
            forall|i: int| 0 <= i < v ==> seeds@[i] == i,
        decreases total_vertices - v,
    {
        seeds.push(v);
        v += 1;
    }
    let ghost nodes = seeds@;
    let mut rng = thread_generator();
    shuffle(&mut seeds, &mut rng);
    proof {
        lemma_shuffled_seeds(nodes, seeds@, num_partitions as nat);
    }
    seeds.truncate(num_partitions);
    partition_with_seeds(graph, &seeds)
}

} // verus!
