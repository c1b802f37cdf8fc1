//! The weighted undirected graph that the algorithms work on.
//!
//! Nodes are numbered from zero. A method that takes a node demands that
//! there is such a node; only `node` answers for any index, with `None`
//! where there is no such node.
use vstd::prelude::*;

verus! {

/// An undirected graph with weighted edges. Every node has a coordinate in
/// the plane and a region label; a set of (region, node) pairs records which
/// nodes lie on the border of which region.
///
/// Edge weights are fixed-point numbers in thousandths.
#[derive(Debug, Clone)]
pub struct Grafo {
    edges: Vec<Vec<(usize, u64)>>,
    nodes: Vec<(usize, usize)>,
    regions: Vec<usize>,
    region_boundaries: Vec<(usize, usize)>,
}

/// What a `Grafo` stands for.
pub struct GrafoModel {
    /// The coordinate of each node, by node index.
    pub coordinates: Seq<(usize, usize)>,
    /// For each node, its (neighbour, weight) pairs in the order in which the
    /// edges were added.
    pub adjacency: Seq<Seq<(usize, u64)>>,
    /// The region label of each node.
    pub regions: Seq<usize>,
    /// The recorded (region, node) border pairs.
    pub boundaries: Set<(usize, usize)>,
}

impl GrafoModel {
    /// The number of nodes.
    pub open spec fn len(self) -> nat {
        self.coordinates.len()
    }

    /// `u` lists `v` as a neighbour with weight `w`.
    pub open spec fn has_edge(self, u: int, v: int, w: u64) -> bool {
        &&& 0 <= u < self.adjacency.len()
        &&& exists|i: int|
            0 <= i < self.adjacency[u].len() && (#[trigger] self.adjacency[u][i]).0 == v
                && self.adjacency[u][i].1 == w
    }

    /// `u` lists `v` as a neighbour.
    pub open spec fn adjacent(self, u: int, v: int) -> bool {
        &&& 0 <= u < self.adjacency.len()
        &&& exists|i: int| 0 <= i < self.adjacency[u].len() && (#[trigger] self.adjacency[u][i]).0 == v
    }

    /// Every node has a coordinate, a label and a neighbour list; every
    /// neighbour is a node; and every edge is listed from both of its ends
    /// with the same weight.
    pub open spec fn valid(self) -> bool {
        &&& self.adjacency.len() == self.coordinates.len()
        &&& self.regions.len() == self.coordinates.len()
        &&& forall|u: int, i: int|
            0 <= u < self.adjacency.len() && 0 <= i < self.adjacency[u].len() ==> {
                let e = #[trigger] self.adjacency[u][i];
                e.0 < self.coordinates.len() && self.has_edge(e.0 as int, u, e.1)
            }
    }

    /// The model after an edge between `u` and `v` was added.
    pub open spec fn with_edge(self, u: usize, v: usize, w: u64) -> GrafoModel {
        let first = self.adjacency.update(u as int, self.adjacency[u as int].push((v, w)));
        GrafoModel { adjacency: first.update(v as int, first[v as int].push((u, w))), ..self }
    }
}

impl View for Grafo {
    type V = GrafoModel;

    closed spec fn view(&self) -> GrafoModel {
        GrafoModel {
            coordinates: self.nodes@,
            adjacency: Seq::new(self.edges@.len(), |i: int| self.edges@[i]@),
            regions: self.regions@,
            boundaries: self.region_boundaries@.to_set(),
        }
    }
}

impl Grafo {
    /// A graph of `n` nodes with the given coordinates, no edges, every node
    /// in region 0 and no border recorded.
    pub fn new(n: usize, nodes: Vec<(usize, usize)>) -> (g: Grafo)
        requires
            n == nodes@.len(),
        ensures
            g@.valid(),
            g@.coordinates == nodes@,
            g@.adjacency == Seq::new(n as nat, |i: int| Seq::<(usize, u64)>::empty()),
            g@.regions == Seq::new(n as nat, |i: int| 0usize),
            g@.boundaries == Set::<(usize, usize)>::empty(),
    {
        let mut edges: Vec<Vec<(usize, u64)>> = Vec::new();
        let mut regions: Vec<usize> = Vec::new();
        let mut i: usize = 0;
        while i < n
            invariant
                i <= n,
                edges@.len() == i,
                regions@.len() == i,
                forall|j: int| 0 <= j < i ==> (#[trigger] edges@[j])@ == Seq::<(usize, u64)>::empty(),
                forall|j: int| 0 <= j < i ==> #[trigger] regions@[j] == 0,
            decreases n - i,
        {
            edges.push(Vec::new());
            regions.push(0);
            i += 1;
        }
        let g = Grafo { edges, nodes, regions, region_boundaries: Vec::new() };
        assert(g@.adjacency =~= Seq::new(n as nat, |i: int| Seq::<(usize, u64)>::empty()));
        assert(g@.regions =~= Seq::new(n as nat, |i: int| 0usize));
        assert(g@.boundaries =~= Set::<(usize, usize)>::empty());
        g
    }

    /// The number of nodes.
    pub fn num_vert(&self) -> (n: usize)
        ensures
            n == self@.len(),
    {
        self.nodes.len()
    }

    /// Adds an edge of weight `cost` between `u` and `v`: each of the two
    /// nodes gets the other as its newest neighbour.
    pub fn add_edge(&mut self, u: usize, v: usize, cost: u64)
        requires
            old(self)@.valid(),
            u < old(self)@.len(),
            v < old(self)@.len(),
        ensures
            final(self)@ == old(self)@.with_edge(u, v, cost),
            final(self)@.valid(),
            final(self)@.has_edge(u as int, v as int, cost),
            final(self)@.has_edge(v as int, u as int, cost),
    {
        self.edges[u].push((v, cost));
        self.edges[v].push((u, cost));
        proof {
            lemma_with_edge(old(self)@, u, v, cost);
            assert(self@.adjacency =~= old(self)@.with_edge(u, v, cost).adjacency);
            assert(self@.boundaries == old(self)@.boundaries);
        }
    }

    /// The (neighbour, weight) pairs of `v`, in the order in which its edges
    /// were added.
    pub fn neighbours(&self, v: usize) -> (r: &[(usize, u64)])
        requires
            self@.valid(),
            v < self@.len(),
        ensures
            r@ == self@.adjacency[v as int],
    {
        self.edges[v].as_slice()
    }

    /// The coordinate of node `idx`, or `None` where there is no such node.
    pub fn node(&self, idx: usize) -> (r: Option<&(usize, usize)>)
        ensures
            idx < self@.len() ==> r == Some(&self@.coordinates[idx as int]),
            idx >= self@.len() ==> r is None,
    {
        if idx < self.nodes.len() {
            Some(&self.nodes[idx])
        } else {
            None
        }
    }

    /// Labels `node` with `region`.
    pub fn set_region(&mut self, node: usize, region: usize)
        requires
            old(self)@.valid(),
            node < old(self)@.len(),
        ensures
            final(self)@ == (GrafoModel {
                regions: old(self)@.regions.update(node as int, region),
                ..old(self)@
            }),
            final(self)@.valid(),
    {
        self.regions[node] = region;
        proof {
            assert(self@.adjacency =~= old(self)@.adjacency);
            assert(self@.regions =~= old(self)@.regions.update(node as int, region));
            assert(self@.boundaries == old(self)@.boundaries);
        }
    }

    /// The region label of `node`.
    pub fn get_region(&self, node: usize) -> (r: usize)
        requires
            self@.valid(),
            node < self@.len(),
        ensures
            r == self@.regions[node as int],
    {
        self.regions[node]
    }

    /// Records `node` as a border node of `region`.
    pub fn add_region_boundary(&mut self, region: usize, node: usize)
        ensures
            final(self)@ == (GrafoModel {
                boundaries: old(self)@.boundaries.insert((region, node)),
                ..old(self)@
            }),
    {
        if !self.is_region_boundary(region, node) {
            self.region_boundaries.push((region, node));
        }
        proof {
            assert(self@.adjacency =~= old(self)@.adjacency);
            let before = old(self).region_boundaries@;
            let after = self.region_boundaries@;
            assert forall|p: (usize, usize)|
                after.to_set().contains(p) <==> before.to_set().insert((region, node)).contains(
                    p,
                ) by {
                if after.contains(p) {
                    let i = choose|i: int| 0 <= i < after.len() && after[i] == p;
                    if i < before.len() {
                        assert(before[i] == p);
                    }
                }
                if before.contains(p) {
                    let i = choose|i: int| 0 <= i < before.len() && before[i] == p;
                    assert(after[i] == p);
                }
                if p == (region, node) && after.len() > before.len() {
                    assert(after[before.len() as int] == p);
                }
            }
            assert(self@.boundaries =~= old(self)@.boundaries.insert((region, node)));
        }
    }

    /// Whether `node` is recorded as a border node of `region`.
    pub fn is_region_boundary(&self, region: usize, node: usize) -> (r: bool)
        ensures
            r == self@.boundaries.contains((region, node)),
    {
        let mut i: usize = 0;
        while i < self.region_boundaries.len()
            invariant
                i <= self.region_boundaries@.len(),
                forall|j: int| 0 <= j < i ==> self.region_boundaries@[j] != (region, node),
            decreases self.region_boundaries@.len() - i,
        {
            let (r, v) = self.region_boundaries[i];
            if r == region && v == node {
                assert(self.region_boundaries@.contains((region, node)));
                return true;
            }
            i += 1;
        }
        proof {
            if self.region_boundaries@.contains((region, node)) {
                let j = choose|j: int|
                    0 <= j < self.region_boundaries@.len() && self.region_boundaries@[j] == (
                        region,
                        node,
                    );
                assert(false);
            }
        }
        false
    }

    /// Forgets every recorded border node.
    pub fn clear_region_boundaries(&mut self)
        ensures
            final(self)@ == (GrafoModel {
                boundaries: Set::<(usize, usize)>::empty(),
                ..old(self)@
            }),
    {
        self.region_boundaries.clear();
        proof {
            assert(self@.adjacency =~= old(self)@.adjacency);
            assert(self@.boundaries =~= Set::<(usize, usize)>::empty());
        }
    }
}

/// Adding an edge keeps a graph valid and lists the edge from both ends.
pub proof fn lemma_with_edge(g: GrafoModel, u: usize, v: usize, w: u64)
    requires
        g.valid(),
        u < g.len(),
        v < g.len(),
    ensures
        g.with_edge(u, v, w).valid(),
        g.with_edge(u, v, w).has_edge(u as int, v as int, w),
        g.with_edge(u, v, w).has_edge(v as int, u as int, w),
{
    let h = g.with_edge(u, v, w);
    let first = g.adjacency.update(u as int, g.adjacency[u as int].push((v, w)));
    assert(h.adjacency == first.update(v as int, first[v as int].push((u, w))));
    let iu = g.adjacency[u as int].len() as int;
    let iv = first[v as int].len() as int;
    assert(h.adjacency[v as int][iv] == (u, w));
    assert(h.adjacency[u as int][iu] == (v, w));
    assert forall|a: int, i: int| 0 <= a < h.adjacency.len() && 0 <= i < h.adjacency[a].len() implies {
        let e = #[trigger] h.adjacency[a][i];
        e.0 < h.coordinates.len() && h.has_edge(e.0 as int, a, e.1)
    } by {
        let e = h.adjacency[a][i];
        if i < g.adjacency[a].len() {
            assert(e == g.adjacency[a][i]);
            assert(g.has_edge(e.0 as int, a, e.1));
            let b = e.0 as int;
            let j = choose|j: int|
                0 <= j < g.adjacency[b].len() && (#[trigger] g.adjacency[b][j]).0 == a
                    && g.adjacency[b][j].1 == e.1;
            assert(h.adjacency[b][j] == g.adjacency[b][j]);
        } else if a == u && i == iu {
            assert(e == (v, w));
        } else {
            assert(a == v);
            assert(e == (u, w));
        }
    }
}

} // verus!
