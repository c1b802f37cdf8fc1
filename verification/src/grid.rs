//! The square obstacle grid, and the graph of its free cells.
//!
//! Cell `(x, y)` is node `y * SIZE + x`. Two free cells that touch along a
//! side are joined by edges of weight one.
use crate::algorithms::bidirectional::{bidirectional_search, node_limit, shown};
use crate::algorithms::model::searched;
use crate::algorithms::paths::{connected, is_route, lemma_same_shape};
use crate::algorithms::regions::{partition_graph, partitioned, valid_seeds};
use crate::fixed::UNIT;
use crate::structures::{Grafo, GrafoModel};
use vstd::prelude::*;

verus! {

/// The side length of the grid.
pub const SIZE: usize = 100;

/// The number of regions into which the graph of a grid is partitioned
/// before a search.
pub const NUM_PARTITIONS: usize = 4;

/// The weight of the edge between two cells that touch.
pub const CELL_WEIGHT: u64 = 1000;

/// What a grid cell holds.
#[derive(Clone, Copy, PartialEq, Eq, Structural, Debug)]
pub enum Cell {
    Empty,
    Obstacle,
    Path,
    Start,
    Goal,
}

/// A grid in which every cell is empty.
pub fn initialize_empty_grid() -> (grid: [[Cell; SIZE]; SIZE])
    ensures
        forall|y: int, x: int|
            0 <= y < SIZE && 0 <= x < SIZE ==> #[trigger] grid@[y]@[x] == Cell::Empty,
{
    [[Cell::Empty; SIZE]; SIZE]
}

/// The node of cell `(x, y)`.
pub open spec fn cell(x: int, y: int) -> int {
    y * SIZE + x
}

/// `(x, y)` is a cell of the grid and no obstacle.
pub open spec fn free(grid: [[Cell; SIZE]; SIZE], x: int, y: int) -> bool {
    0 <= x < SIZE && 0 <= y < SIZE && grid@[y]@[x] != Cell::Obstacle
}

/// What the neighbour list of cell `(x, y)` holds for the cell at
/// `(x + dx, y + dy)`: one entry where both are free, none otherwise.
pub open spec fn link(grid: [[Cell; SIZE]; SIZE], x: int, y: int, dx: int, dy: int) -> Seq<
    (usize, u64),
> {
    if free(grid, x, y) && free(grid, x + dx, y + dy) {
        seq![(cell(x + dx, y + dy) as usize, CELL_WEIGHT)]
    } else {
        Seq::empty()
    }
}

/// `entry` once step `time` of the construction is over.
spec fn due(time: int, now: int, entry: Seq<(usize, u64)>) -> Seq<(usize, u64)> {
    if time < now {
        entry
    } else {
        Seq::empty()
    }
}

/// The neighbour list of cell `(x, y)` after the first `now` steps of the
/// construction. The cells are visited row by row, and each cell looks up,
/// down, left and right in four steps; a step that finds two free cells
/// adds each to the list of the other.
#[verifier::opaque]
spec fn links_before(grid: [[Cell; SIZE]; SIZE], x: int, y: int, now: int) -> Seq<
    (usize, u64),
> {
    let here = 4 * cell(x, y);
    due(4 * cell(x, y - 1) + 1, now, link(grid, x, y, 0, -1)) + due(
        4 * cell(x - 1, y) + 3,
        now,
        link(grid, x, y, -1, 0),
    ) + due(here, now, link(grid, x, y, 0, -1)) + due(here + 1, now, link(grid, x, y, 0, 1)) + due(
        here + 2,
        now,
        link(grid, x, y, -1, 0),
    ) + due(here + 3, now, link(grid, x, y, 1, 0)) + due(
        4 * cell(x + 1, y) + 2,
        now,
        link(grid, x, y, 1, 0),
    ) + due(4 * cell(x, y + 1), now, link(grid, x, y, 0, 1))
}

/// The neighbour list of cell `(x, y)` in the graph of `grid`: each free
/// neighbour cell twice, in the order up, left, up, down, left, right,
/// right, down; nothing for an obstacle.
#[verifier::opaque]
pub open spec fn links(grid: [[Cell; SIZE]; SIZE], x: int, y: int) -> Seq<(usize, u64)> {
    link(grid, x, y, 0, -1) + link(grid, x, y, -1, 0) + link(grid, x, y, 0, -1) + link(
        grid,
        x,
        y,
        0,
        1,
    ) + link(grid, x, y, -1, 0) + link(grid, x, y, 1, 0) + link(grid, x, y, 1, 0) + link(
        grid,
        x,
        y,
        0,
        1,
    )
}

/// The graph under construction after the first `now` steps.
spec fn graph_before(grid: [[Cell; SIZE]; SIZE], now: int) -> GrafoModel {
    GrafoModel {
        coordinates: Seq::new(
            (SIZE * SIZE) as nat,
            |i: int| ((i % SIZE as int) as usize, (i / SIZE as int) as usize),
        ),
        adjacency: Seq::new(
            (SIZE * SIZE) as nat,
            |i: int| links_before(grid, i % SIZE as int, i / SIZE as int, now),
        ),
        regions: Seq::new((SIZE * SIZE) as nat, |i: int| 0usize),
        boundaries: Set::empty(),
    }
}

/// The graph of `grid`: one node for each cell, at the cell's coordinate;
/// the neighbour lists as `links` gives them; every node in region 0 and no
/// border recorded.
pub open spec fn grid_graph(grid: [[Cell; SIZE]; SIZE]) -> GrafoModel {
    GrafoModel {
        coordinates: Seq::new(
            (SIZE * SIZE) as nat,
            |i: int| ((i % SIZE as int) as usize, (i / SIZE as int) as usize),
        ),
        adjacency: Seq::new(
            (SIZE * SIZE) as nat,
            |i: int| links(grid, i % SIZE as int, i / SIZE as int),
        ),
        regions: Seq::new((SIZE * SIZE) as nat, |i: int| 0usize),
        boundaries: Set::empty(),
    }
}

/// Two cells touch along a side.
pub open spec fn touching(x: int, y: int, other_x: int, other_y: int) -> bool {
    (other_y == y && (other_x == x - 1 || other_x == x + 1)) || (other_x == x && (other_y == y - 1
        || other_y == y + 1))
}

/// The neighbour list of a cell holds what its four links hold.
proof fn lemma_links_hold(grid: [[Cell; SIZE]; SIZE], x: int, y: int, e: (usize, u64))
    ensures
        links(grid, x, y).contains(e) <==> link(grid, x, y, 0, -1).contains(e) || link(
            grid,
            x,
            y,
            -1,
            0,
        ).contains(e) || link(grid, x, y, 0, 1).contains(e) || link(grid, x, y, 1, 0).contains(e),
{
    reveal(links);
    let up = link(grid, x, y, 0, -1);
    let left = link(grid, x, y, -1, 0);
    let down = link(grid, x, y, 0, 1);
    let right = link(grid, x, y, 1, 0);
    let list = up + left + up + down + left + right + right + down;
    let at_left = up.len() as int;
    let at_up = at_left + left.len();
    let at_down = at_up + up.len();
    let at_left_again = at_down + down.len();
    let at_right = at_left_again + left.len();
    let at_right_again = at_right + right.len();
    let at_down_again = at_right_again + right.len();
    if list.contains(e) {
        let i = choose|i: int| 0 <= i < list.len() && list[i] == e;
        if i < at_left {
            assert(up[i] == e);
        } else if i < at_up {
            assert(left[i - at_left] == e);
        } else if i < at_down {
            assert(up[i - at_up] == e);
        } else if i < at_left_again {
            assert(down[i - at_down] == e);
        } else if i < at_right {
            assert(left[i - at_left_again] == e);
        } else if i < at_right_again {
            assert(right[i - at_right] == e);
        } else if i < at_down_again {
            assert(right[i - at_right_again] == e);
        } else {
            assert(down[i - at_down_again] == e);
        }
    }
    if up.contains(e) {
        assert(list[0] == e);
    }
    if left.contains(e) {
        assert(list[at_left] == e);
    }
    if down.contains(e) {
        assert(list[at_down] == e);
    }
    if right.contains(e) {
        assert(list[at_right] == e);
    }
}

/// A link holds the node of the other cell, at weight one, where both
/// cells are free, and nothing else.
proof fn lemma_link_holds(grid: [[Cell; SIZE]; SIZE], x: int, y: int, dx: int, dy: int, e: (usize, u64))
    requires
        0 <= x < SIZE,
        0 <= y < SIZE,
    ensures
        link(grid, x, y, dx, dy).contains(e) <==> free(grid, x, y) && free(grid, x + dx, y + dy)
            && e.0 == cell(x + dx, y + dy) && e.1 == CELL_WEIGHT,
{
    let l = link(grid, x, y, dx, dy);
    if free(grid, x, y) && free(grid, x + dx, y + dy) {
        assert(l[0] == (cell(x + dx, y + dy) as usize, CELL_WEIGHT));
        if l.contains(e) {
            let i = choose|i: int| 0 <= i < l.len() && l[i] == e;
        }
    }
}

/// In the graph of a grid two nodes are neighbours exactly when they are
/// free cells that touch along a side, and every edge weighs one.
pub proof fn lemma_grid_neighbours(
    grid: [[Cell; SIZE]; SIZE],
    x: int,
    y: int,
    other_x: int,
    other_y: int,
)
    requires
        0 <= x < SIZE,
        0 <= y < SIZE,
        0 <= other_x < SIZE,
        0 <= other_y < SIZE,
    ensures
        grid_graph(grid).adjacent(cell(x, y), cell(other_x, other_y)) <==> free(grid, x, y) && free(
            grid,
            other_x,
            other_y,
        ) && touching(x, y, other_x, other_y),
        forall|weight: u64|
            grid_graph(grid).has_edge(cell(x, y), cell(other_x, other_y), weight) ==> weight
                == CELL_WEIGHT,
{
    let g = grid_graph(grid);
    let here = cell(x, y);
    let there = cell(other_x, other_y);
    let list = links(grid, x, y);
    assert(g.adjacency[here] == list);
    assert forall|e: (usize, u64)| list.contains(e) implies free(grid, x, y) && e.1 == CELL_WEIGHT
        && (e.0 == there ==> free(grid, other_x, other_y) && touching(x, y, other_x, other_y)) by {
        lemma_links_hold(grid, x, y, e);
        lemma_link_holds(grid, x, y, 0, -1, e);
        lemma_link_holds(grid, x, y, -1, 0, e);
        lemma_link_holds(grid, x, y, 0, 1, e);
        lemma_link_holds(grid, x, y, 1, 0, e);
    }
    if g.adjacent(here, there) {
        let i = choose|i: int| 0 <= i < list.len() && (#[trigger] g.adjacency[here][i]).0 == there;
        assert(list.contains(list[i]));
    }
    if free(grid, x, y) && free(grid, other_x, other_y) && touching(x, y, other_x, other_y) {
        let e = (there as usize, CELL_WEIGHT);
        lemma_links_hold(grid, x, y, e);
        lemma_link_holds(grid, x, y, 0, -1, e);
        lemma_link_holds(grid, x, y, -1, 0, e);
        lemma_link_holds(grid, x, y, 0, 1, e);
        lemma_link_holds(grid, x, y, 1, 0, e);
        assert(list.contains(e));
        let i = choose|i: int| 0 <= i < list.len() && list[i] == e;
        assert(g.adjacency[here][i].0 == there);
    }
    assert forall|weight: u64| g.has_edge(here, there, weight) implies weight == CELL_WEIGHT by {
        let i = choose|i: int|
            0 <= i < list.len() && (#[trigger] g.adjacency[here][i]).0 == there
                && g.adjacency[here][i].1 == weight;
        assert(list.contains(list[i]));
    }
}

/// What step `now` of the construction adds to the neighbour list of cell
/// `(x, y)`.
spec fn added_at(grid: [[Cell; SIZE]; SIZE], x: int, y: int, now: int) -> Seq<(usize, u64)> {
    let here = 4 * cell(x, y);
    if now == 4 * cell(x, y - 1) + 1 {
        link(grid, x, y, 0, -1)
    } else if now == 4 * cell(x - 1, y) + 3 {
        link(grid, x, y, -1, 0)
    } else if now == here {
        link(grid, x, y, 0, -1)
    } else if now == here + 1 {
        link(grid, x, y, 0, 1)
    } else if now == here + 2 {
        link(grid, x, y, -1, 0)
    } else if now == here + 3 {
        link(grid, x, y, 1, 0)
    } else if now == 4 * cell(x + 1, y) + 2 {
        link(grid, x, y, 1, 0)
    } else if now == 4 * cell(x, y + 1) {
        link(grid, x, y, 0, 1)
    } else {
        Seq::empty()
    }
}

/// One step of the construction appends what it adds.
proof fn lemma_links_step(grid: [[Cell; SIZE]; SIZE], x: int, y: int, now: int)
    requires
        0 <= x < SIZE,
        0 <= y < SIZE,
    ensures
        links_before(grid, x, y, now + 1) == links_before(grid, x, y, now) + added_at(
            grid,
            x,
            y,
            now,
        ),
{
    reveal(links_before);
    let here = 4 * cell(x, y);
    let s1 = link(grid, x, y, 0, -1);
    let s2 = link(grid, x, y, -1, 0);
    let s4 = link(grid, x, y, 0, 1);
    let s6 = link(grid, x, y, 1, 0);
    let none = Seq::<(usize, u64)>::empty();
    let t1 = 4 * cell(x, y - 1) + 1;
    let t2 = 4 * cell(x - 1, y) + 3;
    let t7 = 4 * cell(x + 1, y) + 2;
    let t8 = 4 * cell(x, y + 1);
    assert(t1 < t2 < here < t7 < t8);
    let old_links = links_before(grid, x, y, now);
    let new_links = links_before(grid, x, y, now + 1);
    let added = added_at(grid, x, y, now);
    if now < t1 {
        assert(new_links =~= old_links + added);
    } else if now == t1 {
        assert(new_links =~= old_links + added);
    } else if now < t2 {
        assert(new_links =~= old_links + added);
    } else if now == t2 {
        assert(new_links =~= old_links + added);
    } else if now < here {
        assert(new_links =~= old_links + added);
    } else if now == here {
        assert(new_links =~= old_links + added);
    } else if now == here + 1 {
        assert(new_links =~= old_links + added);
    } else if now == here + 2 {
        assert(new_links =~= old_links + added);
    } else if now == here + 3 {
        assert(new_links =~= old_links + added);
    } else if now < t7 {
        assert(new_links =~= old_links + added);
    } else if now == t7 {
        assert(new_links =~= old_links + added);
    } else if now < t8 {
        assert(new_links =~= old_links + added);
    } else if now == t8 {
        assert(new_links =~= old_links + added);
    } else {
        assert(new_links =~= old_links + added);
    }
}

/// The column that direction `dir` leads to from column `x`.
spec fn ahead_x(x: int, dir: int) -> int {
    if dir == 2 {
        x - 1
    } else if dir == 3 {
        x + 1
    } else {
        x
    }
}

/// The row that direction `dir` leads to from row `y`.
spec fn ahead_y(y: int, dir: int) -> int {
    if dir == 0 {
        y - 1
    } else if dir == 1 {
        y + 1
    } else {
        y
    }
}

/// What the step in which cell `(x, y)` looks in direction `dir` adds to
/// the neighbour list of cell `(xa, ya)`: the other cell, where the two
/// cells are the looking cell and the cell it looks at, and both are free.
proof fn lemma_added(grid: [[Cell; SIZE]; SIZE], x: int, y: int, dir: int, xa: int, ya: int)
    requires
        0 <= x < SIZE,
        0 <= y < SIZE,
        0 <= xa < SIZE,
        0 <= ya < SIZE,
        0 <= dir < 4,
    ensures
        added_at(grid, xa, ya, 4 * cell(x, y) + dir) == if free(grid, x, y) && free(
            grid,
            ahead_x(x, dir),
            ahead_y(y, dir),
        ) {
            if xa == x && ya == y {
                seq![(cell(ahead_x(x, dir), ahead_y(y, dir)) as usize, CELL_WEIGHT)]
            } else if xa == ahead_x(x, dir) && ya == ahead_y(y, dir) {
                seq![(cell(x, y) as usize, CELL_WEIGHT)]
            } else {
                Seq::empty()
            }
        } else {
            Seq::empty()
        },
{
}

/// Looks from the free cell `(x, y)` in direction `dir` (0 up, 1 down,
/// 2 left, 3 right) and joins it to the cell there if that is a free cell.
fn connect(graph: &mut Grafo, grid: &[[Cell; SIZE]; SIZE], x: usize, y: usize, dir: usize)
    requires
        x < SIZE,
        y < SIZE,
        dir < 4,
        grid@[y as int]@[x as int] != Cell::Obstacle,
        old(graph)@.valid(),
        old(graph)@.len() == SIZE * SIZE,
    ensures
        final(graph)@.valid(),
        final(graph)@ == if free(*grid, ahead_x(x as int, dir as int), ahead_y(y as int, dir as int)) {
            old(graph)@.with_edge(
                cell(x as int, y as int) as usize,
                cell(ahead_x(x as int, dir as int), ahead_y(y as int, dir as int)) as usize,
                CELL_WEIGHT,
            )
        } else {
            old(graph)@
        },
{
    let index: usize = y * SIZE + x;
    let target: Option<(usize, usize)> = if dir == 0 {
        if y > 0 {
            Some((x, (y - 1) as usize))
        } else {
            None
        }
    } else if dir == 1 {
        if y + 1 < SIZE {
            Some((x, y + 1))
        } else {
            None
        }
    } else if dir == 2 {
        if x > 0 {
            Some(((x - 1) as usize, y))
        } else {
            None
        }
    } else {
        if x + 1 < SIZE {
            Some((x + 1, y))
        } else {
            None
        }
    };
    if let Some((nx, ny)) = target {
        if grid[ny][nx] != Cell::Obstacle {
            let neighbor_index: usize = ny * SIZE + nx;
            graph.add_edge(index, neighbor_index, CELL_WEIGHT);
        }
    }
}

/// The step in which the free cell `(x, y)` looks in direction `dir` takes
/// the graph under construction from one step to the next.
proof fn lemma_connect(grid: [[Cell; SIZE]; SIZE], x: int, y: int, dir: int)
    requires
        0 <= x < SIZE,
        0 <= y < SIZE,
        0 <= dir < 4,
        free(grid, x, y),
    ensures
        graph_before(grid, 4 * cell(x, y) + dir + 1) == if free(
            grid,
            ahead_x(x, dir),
            ahead_y(y, dir),
        ) {
            graph_before(grid, 4 * cell(x, y) + dir).with_edge(
                cell(x, y) as usize,
                cell(ahead_x(x, dir), ahead_y(y, dir)) as usize,
                CELL_WEIGHT,
            )
        } else {
            graph_before(grid, 4 * cell(x, y) + dir)
        },
{
    let now = 4 * cell(x, y) + dir;
    let before = graph_before(grid, now);
    let after = graph_before(grid, now + 1);
    let joined = free(grid, ahead_x(x, dir), ahead_y(y, dir));
    let index = cell(x, y) as usize;
    let other = cell(ahead_x(x, dir), ahead_y(y, dir)) as usize;
    let result = if joined {
        before.with_edge(index, other, CELL_WEIGHT)
    } else {
        before
    };
    assert forall|i: int| 0 <= i < SIZE * SIZE implies #[trigger] result.adjacency[i]
        == after.adjacency[i] by {
        let xa = i % SIZE as int;
        let ya = i / SIZE as int;
        assert(i == cell(xa, ya));
        lemma_links_step(grid, xa, ya, now);
        lemma_added(grid, x, y, dir, xa, ya);
        let list = links_before(grid, xa, ya, now);
        assert(before.adjacency[i] == list);
        if joined {
            assert(index != other);
            if i == index {
                assert(result.adjacency[i] == list.push((other, CELL_WEIGHT)));
                assert(list.push((other, CELL_WEIGHT)) =~= list + seq![(other, CELL_WEIGHT)]);
            } else if i == other {
                assert(result.adjacency[i] == list.push((index, CELL_WEIGHT)));
                assert(list.push((index, CELL_WEIGHT)) =~= list + seq![(index, CELL_WEIGHT)]);
            } else {
                assert(result.adjacency[i] == list);
                assert(list =~= list + Seq::<(usize, u64)>::empty());
            }
        } else {
            assert(list =~= list + Seq::<(usize, u64)>::empty());
        }
    }
    assert(result.adjacency =~= after.adjacency);
}

/// The four steps of an obstacle cell add nothing.
proof fn lemma_skip(grid: [[Cell; SIZE]; SIZE], x: int, y: int)
    requires
        0 <= x < SIZE,
        0 <= y < SIZE,
        !free(grid, x, y),
    ensures
        graph_before(grid, 4 * cell(x, y) + 4) == graph_before(grid, 4 * cell(x, y)),
{
    let now = 4 * cell(x, y);
    let before = graph_before(grid, now);
    let after = graph_before(grid, now + 4);
    assert forall|i: int| 0 <= i < SIZE * SIZE implies #[trigger] before.adjacency[i]
        == after.adjacency[i] by {
        let xa = i % SIZE as int;
        let ya = i / SIZE as int;
        let none = Seq::<(usize, u64)>::empty();
        lemma_links_step(grid, xa, ya, now);
        lemma_links_step(grid, xa, ya, now + 1);
        lemma_links_step(grid, xa, ya, now + 2);
        lemma_links_step(grid, xa, ya, now + 3);
        lemma_added(grid, x, y, 0, xa, ya);
        lemma_added(grid, x, y, 1, xa, ya);
        lemma_added(grid, x, y, 2, xa, ya);
        lemma_added(grid, x, y, 3, xa, ya);
        let list = links_before(grid, xa, ya, now);
        assert(list + none =~= list);
    }
    assert(before.adjacency =~= after.adjacency);
}

/// Before the first step the lists are empty, and after the last step they
/// are complete.
proof fn lemma_links_ends(grid: [[Cell; SIZE]; SIZE], x: int, y: int)
    requires
        0 <= x < SIZE,
        0 <= y < SIZE,
    ensures
        links_before(grid, x, y, 0) == Seq::<(usize, u64)>::empty(),
        links_before(grid, x, y, 4 * SIZE * SIZE) == links(grid, x, y),
{
    reveal(links_before);
    reveal(links);
    assert(links_before(grid, x, y, 0) =~= Seq::<(usize, u64)>::empty());
    assert(links_before(grid, x, y, 4 * SIZE * SIZE) =~= links(grid, x, y));
}

/// The graph of `grid`: a node for every cell, and edges of weight one
/// between free cells that touch along a side.
pub fn create_graph_from_grid(grid: &[[Cell; SIZE]; SIZE]) -> (graph: Grafo)
    ensures
        graph@ == grid_graph(*grid),
        graph@.valid(),
{
    let mut nodes: Vec<(usize, usize)> = Vec::new();
    let mut i: usize = 0;
    while i < SIZE * SIZE
        invariant
            i <= SIZE * SIZE,
            nodes@.len() == i,
            forall|j: int|
                0 <= j < i ==> #[trigger] nodes@[j] == ((j % SIZE as int) as usize, (j
                    / SIZE as int) as usize),
        decreases SIZE * SIZE - i,
    {
        nodes.push((i % SIZE, i / SIZE));
        i += 1;
    }
    let mut graph = Grafo::new(SIZE * SIZE, nodes);
    proof {
        let start = graph_before(*grid, 0);
        assert(graph@.coordinates =~= start.coordinates);
        assert forall|i: int| 0 <= i < SIZE * SIZE implies #[trigger] graph@.adjacency[i]
            == start.adjacency[i] by {
            lemma_links_ends(*grid, i % SIZE as int, i / SIZE as int);
        }
        assert(graph@.adjacency =~= start.adjacency);
        assert(graph@.regions =~= start.regions);
    }
    let mut y: usize = 0;
    while y < SIZE
        invariant
            y <= SIZE,
            graph@.valid(),
            graph@ == graph_before(*grid, 4 * cell(0, y as int)),
        decreases SIZE - y,
    {
        let mut x: usize = 0;
        while x < SIZE
            invariant
                x <= SIZE,
                y < SIZE,
                graph@.valid(),
                graph@ == graph_before(*grid, 4 * cell(x as int, y as int)),
            decreases SIZE - x,
        {
            if grid[y][x] != Cell::Obstacle {
                let mut dir: usize = 0;
                while dir < 4
                    invariant
                        dir <= 4,
                        x < SIZE,
                        y < SIZE,
                        grid@[y as int]@[x as int] != Cell::Obstacle,
                        graph@.valid(),
                        graph@ == graph_before(*grid, 4 * cell(x as int, y as int) + dir),
                    decreases 4 - dir,
                {
                    proof {
                        lemma_connect(*grid, x as int, y as int, dir as int);
                    }
                    connect(&mut graph, grid, x, y, dir);
                    dir += 1;
                }
            } else {
                proof {
                    lemma_skip(*grid, x as int, y as int);
                }
            }
            x += 1;
        }
        y += 1;
    }
    proof {
        let whole = grid_graph(*grid);
        assert forall|i: int| 0 <= i < SIZE * SIZE implies #[trigger] graph@.adjacency[i]
            == whole.adjacency[i] by {
            lemma_links_ends(*grid, i % SIZE as int, i / SIZE as int);
        }
        assert(graph@.adjacency =~= whole.adjacency);
    }
    graph
}

/// Searches a path from cell `start` to cell `goal` through the free cells
/// of `grid`, both given as `(x, y)`.
///
/// The graph of the grid is partitioned into `NUM_PARTITIONS` regions from
/// seeds drawn at random, and the result is what the search in the
/// partitioned graph returns. Whatever the seeds, there is a path exactly
/// when the two cells are connected; the result holds the cells of a walk
/// from `start` to `goal` and the number of its steps as a cost.
pub fn find_path(grid: &[[Cell; SIZE]; SIZE], start: (usize, usize), goal: (usize, usize)) -> (result:
    Option<(Vec<(usize, usize)>, u128)>)
    requires
        start.1 * SIZE + start.0 < SIZE * SIZE,
        goal.1 * SIZE + goal.0 < SIZE * SIZE,
    ensures
        result matches Some((path, cost)) ==> is_route(
            grid_graph(*grid),
            path@,
            (start.1 * SIZE + start.0) as usize,
            (goal.1 * SIZE + goal.0) as usize,
        ) && cost == (path@.len() - 1) * UNIT,
        result is Some <==> connected(
            grid_graph(*grid),
            (start.1 * SIZE + start.0) as usize,
            (goal.1 * SIZE + goal.0) as usize,
        ),
        exists|labelled: GrafoModel, seeds: Seq<usize>, rounds: nat|
            {
                &&& seeds.len() == NUM_PARTITIONS
                &&& valid_seeds(seeds, (SIZE * SIZE) as nat)
                &&& #[trigger] partitioned(grid_graph(*grid), labelled, seeds)
                &&& #[trigger] searched(
                    labelled,
                    (start.1 * SIZE + start.0) as usize,
                    (goal.1 * SIZE + goal.0) as usize,
                    rounds,
                    shown(result),
                )
            },
{
    let mut graph = create_graph_from_grid(grid);
    let labelled = partition_graph(&mut graph, NUM_PARTITIONS);
    let start_index: usize = start.1 * SIZE + start.0;
    let goal_index: usize = goal.1 * SIZE + goal.0;
    proof {
        assert(labelled is Ok);
        lemma_same_shape(grid_graph(*grid), graph@, start_index, goal_index);
        assert(graph@.len() <= node_limit());
    }
    let result = bidirectional_search(&graph, start_index, goal_index);
    proof {
        let seeds = choose|seeds: Seq<usize>|
            seeds.len() == NUM_PARTITIONS && valid_seeds(seeds, grid_graph(*grid).len())
                && #[trigger] partitioned(grid_graph(*grid), graph@, seeds);
        let rounds = choose|rounds: nat|
            searched(graph@, start_index, goal_index, rounds, shown(result));
        assert(partitioned(grid_graph(*grid), graph@, seeds) && searched(
            graph@,
            start_index,
            goal_index,
            rounds,
            shown(result),
        ));
    }
    result
}

} // verus!
