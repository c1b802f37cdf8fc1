//! Walks through a graph, and what it means for two nodes to be connected.
use crate::structures::GrafoModel;
use vstd::prelude::*;

verus! {

/// `walk` leads from `from` to `to` along edges of `g`.
pub open spec fn is_walk(g: GrafoModel, walk: Seq<usize>, from: usize, to: usize) -> bool {
    &&& walk.len() > 0
    &&& walk[0] == from
    &&& walk[walk.len() - 1] == to
    &&& forall|i: int| 0 <= i < walk.len() ==> (#[trigger] walk[i]) < g.len()
    &&& forall|i: int|
        0 <= i < walk.len() - 1 ==> g.adjacent(#[trigger] walk[i] as int, walk[i + 1] as int)
}

/// Some walk leads from `from` to `to`.
pub open spec fn connected(g: GrafoModel, from: usize, to: usize) -> bool {
    exists|walk: Seq<usize>| is_walk(g, walk, from, to)
}

/// The coordinates of the nodes of `walk`, in order.
pub open spec fn coordinates_along(g: GrafoModel, walk: Seq<usize>) -> Seq<(usize, usize)> {
    Seq::new(walk.len(), |i: int| g.coordinates[walk[i] as int])
}

/// `path` holds the coordinates of the nodes of some walk from `from` to `to`.
pub open spec fn is_route(g: GrafoModel, path: Seq<(usize, usize)>, from: usize, to: usize) -> bool {
    exists|walk: Seq<usize>| is_walk(g, walk, from, to) && path == coordinates_along(g, walk)
}

/// In a valid graph adjacency goes both ways.
pub proof fn lemma_adjacent_symmetric(g: GrafoModel, u: int, v: int)
    requires
        g.valid(),
        g.adjacent(u, v),
    ensures
        g.adjacent(v, u),
        0 <= v < g.len(),
{
    let i = choose|i: int| 0 <= i < g.adjacency[u].len() && (#[trigger] g.adjacency[u][i]).0 == v;
    let e = g.adjacency[u][i];
    assert(g.has_edge(e.0 as int, u, e.1));
}

/// A walk read backwards is a walk.
pub proof fn lemma_walk_reverse(g: GrafoModel, walk: Seq<usize>, from: usize, to: usize)
    requires
        g.valid(),
        is_walk(g, walk, from, to),
    ensures
        is_walk(g, walk.reverse(), to, from),
{
    let back = walk.reverse();
    assert forall|i: int| 0 <= i < back.len() - 1 implies g.adjacent(
        #[trigger] back[i] as int,
        back[i + 1] as int,
    ) by {
        let j = walk.len() - 2 - i;
        assert(back[i + 1] == walk[j]);
        assert(back[i] == walk[j + 1]);
        lemma_adjacent_symmetric(g, walk[j] as int, walk[j + 1] as int);
    }
}

/// Two walks that meet in a node make one walk.
pub proof fn lemma_walk_join(
    g: GrafoModel,
    first: Seq<usize>,
    second: Seq<usize>,
    from: usize,
    mid: usize,
    to: usize,
)
    requires
        is_walk(g, first, from, mid),
        is_walk(g, second, mid, to),
    ensures
        is_walk(g, first + second.drop_first(), from, to),
{
    let rest = second.drop_first();
    let joined = first + rest;
    assert forall|i: int| 0 <= i < joined.len() implies (#[trigger] joined[i]) < g.len() by {
        if i >= first.len() {
            assert(joined[i] == second[i - first.len() + 1]);
        }
    }
    assert forall|i: int| 0 <= i < joined.len() - 1 implies g.adjacent(
        #[trigger] joined[i] as int,
        joined[i + 1] as int,
    ) by {
        if i < first.len() - 1 {
            assert(joined[i] == first[i] && joined[i + 1] == first[i + 1]);
        } else {
            let j = i - first.len() + 1;
            assert(joined[i + 1] == second[j + 1]);
            assert(joined[i] == second[j]);
        }
    }
    if rest.len() > 0 {
        assert(joined[joined.len() - 1] == second[second.len() - 1]);
    }
}

/// Walks, routes and connectedness depend on the coordinates and the
/// neighbour lists alone, not on regions or borders.
pub proof fn lemma_same_shape(g: GrafoModel, h: GrafoModel, from: usize, to: usize)
    requires
        g.coordinates == h.coordinates,
        g.adjacency == h.adjacency,
    ensures
        forall|walk: Seq<usize>| #[trigger] is_walk(g, walk, from, to) == is_walk(h, walk, from, to),
        forall|path: Seq<(usize, usize)>|
            #[trigger] is_route(g, path, from, to) == is_route(h, path, from, to),
        connected(g, from, to) == connected(h, from, to),
{
    assert forall|walk: Seq<usize>| #[trigger] is_walk(g, walk, from, to) == is_walk(
        h,
        walk,
        from,
        to,
    ) by {
        if is_walk(g, walk, from, to) {
            lemma_walk_same_shape(g, h, walk, from, to);
        }
        if is_walk(h, walk, from, to) {
            lemma_walk_same_shape(h, g, walk, from, to);
        }
    }
    assert forall|path: Seq<(usize, usize)>| #[trigger] is_route(g, path, from, to) == is_route(
        h,
        path,
        from,
        to,
    ) by {
        if is_route(g, path, from, to) {
            let walk = choose|walk: Seq<usize>|
                is_walk(g, walk, from, to) && path == coordinates_along(g, walk);
            assert(is_walk(h, walk, from, to));
            assert(coordinates_along(g, walk) =~= coordinates_along(h, walk));
        }
        if is_route(h, path, from, to) {
            let walk = choose|walk: Seq<usize>|
                is_walk(h, walk, from, to) && path == coordinates_along(h, walk);
            assert(is_walk(g, walk, from, to));
            assert(coordinates_along(g, walk) =~= coordinates_along(h, walk));
        }
    }
    if connected(g, from, to) {
        let walk = choose|walk: Seq<usize>| is_walk(g, walk, from, to);
        assert(is_walk(h, walk, from, to));
    }
    if connected(h, from, to) {
        let walk = choose|walk: Seq<usize>| is_walk(h, walk, from, to);
        assert(is_walk(g, walk, from, to));
    }
}

proof fn lemma_walk_same_shape(g: GrafoModel, h: GrafoModel, walk: Seq<usize>, from: usize, to: usize)
    requires
        g.coordinates == h.coordinates,
        g.adjacency == h.adjacency,
        is_walk(g, walk, from, to),
    ensures
        is_walk(h, walk, from, to),
{
    assert forall|i: int| 0 <= i < walk.len() - 1 implies h.adjacent(
        #[trigger] walk[i] as int,
        walk[i + 1] as int,
    ) by {
        assert(g.adjacent(walk[i] as int, walk[i + 1] as int));
    }
}

} // verus!
