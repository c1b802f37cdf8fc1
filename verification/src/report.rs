//! What a report on a found path shows: the extent of the path, the number
//! of obstacles, and the grid with the path drawn into it.
use crate::grid::{Cell, SIZE};
use vstd::prelude::*;

verus! {

/// `lo` is one of `values` and none is smaller.
pub open spec fn is_least(values: Seq<usize>, lo: usize) -> bool {
    values.contains(lo) && forall|i: int| 0 <= i < values.len() ==> lo <= #[trigger] values[i]
}

/// `hi` is one of `values` and none is greater.
pub open spec fn is_greatest(values: Seq<usize>, hi: usize) -> bool {
    values.contains(hi) && forall|i: int| 0 <= i < values.len() ==> hi >= #[trigger] values[i]
}

/// `itertools::Itertools::minmax` on the values in order, and
/// `MinMaxResult::into_option` on what it gives: nothing for no values,
/// else the smallest and the greatest of them (twice the same for one
/// value).
#[verifier::external_body]
fn minmax(values: &Vec<usize>) -> (r: Option<(usize, usize)>)
    ensures
        r is None <==> values@.len() == 0,
        r matches Some((lo, hi)) ==> is_least(values@, lo) && is_greatest(values@, hi),
{
    itertools::Itertools::minmax(values.iter().copied()).into_option()
}

/// The columns of `path`, in order.
pub open spec fn columns(path: Seq<(usize, usize)>) -> Seq<usize> {
    Seq::new(path.len(), |i: int| path[i].0)
}

/// The rows of `path`, in order.
pub open spec fn rows(path: Seq<(usize, usize)>) -> Seq<usize> {
    Seq::new(path.len(), |i: int| path[i].1)
}

/// The least and the greatest column of `path`, then its least and its
/// greatest row; nothing for an empty path.
pub fn path_ranges(path: &Vec<(usize, usize)>) -> (r: Option<((usize, usize), (usize, usize))>)
    ensures
        r is None <==> path@.len() == 0,
        r matches Some(((min_x, max_x), (min_y, max_y))) ==> {
            &&& is_least(columns(path@), min_x)
            &&& is_greatest(columns(path@), max_x)
            &&& is_least(rows(path@), min_y)
            &&& is_greatest(rows(path@), max_y)
        },
{
    let mut xs: Vec<usize> = Vec::new();
    let mut ys: Vec<usize> = Vec::new();
    let mut i: usize = 0;
    while i < path.len()
        invariant
            i <= path@.len(),
            xs@ == columns(path@).take(i as int),
            ys@ == rows(path@).take(i as int),
        decreases path@.len() - i,
    {
        xs.push(path[i].0);
        ys.push(path[i].1);
        proof {
            assert(xs@ =~= columns(path@).take(i + 1));
            assert(ys@ =~= rows(path@).take(i + 1));
        }
        i += 1;
    }
    proof {
        assert(xs@ =~= columns(path@));
        assert(ys@ =~= rows(path@));
    }
    match (minmax(&xs), minmax(&ys)) {
        (Some(x_range), Some(y_range)) => Some((x_range, y_range)),
        _ => None,
    }
}

/// How many of the first `cells` cells of `grid`, row by row, are
/// obstacles.
pub open spec fn obstacles(grid: [[Cell; SIZE]; SIZE], cells: int) -> nat
    decreases cells,
{
    if cells <= 0 {
        0
    } else {
        obstacles(grid, cells - 1) + if grid@[(cells - 1) / SIZE as int]@[(cells - 1) % SIZE as int]
            == Cell::Obstacle {
            1nat
        } else {
            0nat
        }
    }
}

/// The number of obstacles in `grid`.
pub fn count_obstacles(grid: &[[Cell; SIZE]; SIZE]) -> (count: usize)
    ensures
        count == obstacles(*grid, SIZE * SIZE),
{
    let mut count: usize = 0;
    let mut y: usize = 0;
    while y < SIZE
        invariant
            y <= SIZE,
            count <= y * SIZE,
            count == obstacles(*grid, y * SIZE),
        decreases SIZE - y,
    {
        let mut x: usize = 0;
        while x < SIZE
            invariant
                x <= SIZE,
                y < SIZE,
                count <= y * SIZE + x,
                count == obstacles(*grid, y * SIZE + x),
            decreases SIZE - x,
        {
            if grid[y][x] == Cell::Obstacle {
                count += 1;
            }
            x += 1;
        }
        y += 1;
    }
    count
}

/// What the report shows at cell `(x, y)`: the goal, else the start, else
/// the path on an empty cell that it crosses, else what the grid holds.
pub open spec fn drawn(
    grid: [[Cell; SIZE]; SIZE],
    path: Seq<(usize, usize)>,
    start: (usize, usize),
    goal: (usize, usize),
    x: usize,
    y: usize,
) -> Cell {
    if (x, y) == goal {
        Cell::Goal
    } else if (x, y) == start {
        Cell::Start
    } else if grid@[y as int]@[x as int] == Cell::Empty && path.contains((x, y)) {
        Cell::Path
    } else {
        grid@[y as int]@[x as int]
    }
}

/// `grid` with the path, the start and the goal drawn into it.
pub fn grid_with_path(
    grid: &[[Cell; SIZE]; SIZE],
    path: &Vec<(usize, usize)>,
    start: (usize, usize),
    goal: (usize, usize),
) -> (out: [[Cell; SIZE]; SIZE])
    requires
        forall|i: int| 0 <= i < path@.len() ==> (#[trigger] path@[i]).0 < SIZE && path@[i].1 < SIZE,
        start.0 < SIZE,
        start.1 < SIZE,
        goal.0 < SIZE,
        goal.1 < SIZE,
    ensures
        forall|x: usize, y: usize|
            x < SIZE && y < SIZE ==> out@[y as int]@[x as int] == #[trigger] drawn(
                *grid,
                path@,
                start,
                goal,
                x,
                y,
            ),
{
    let mut out: [[Cell; SIZE]; SIZE] = *grid;
    let mut i: usize = 0;
    while i < path.len()
        invariant
            i <= path@.len(),
            forall|i: int|
                0 <= i < path@.len() ==> (#[trigger] path@[i]).0 < SIZE && path@[i].1 < SIZE,
            forall|x: int, y: int|
                0 <= x < SIZE && 0 <= y < SIZE ==> #[trigger] out@[y]@[x] == if grid@[y]@[x]
                    == Cell::Empty && path@.take(i as int).contains((x as usize, y as usize)) {
                    Cell::Path
                } else {
                    grid@[y]@[x]
                },
        decreases path@.len() - i,
    {
        let (x, y) = path[i];
        let ghost before = out;
        if out[y][x] == Cell::Empty {
            out[y][x] = Cell::Path;
        }
        proof {
            let shorter = path@.take(i as int);
            let longer = path@.take(i + 1);
            assert(longer =~= shorter.push((x, y)));
            assert forall|a: int, b: int| 0 <= a < SIZE && 0 <= b < SIZE implies #[trigger] out@[b]@[a]
                == if grid@[b]@[a] == Cell::Empty && longer.contains((a as usize, b as usize)) {
                Cell::Path
            } else {
                grid@[b]@[a]
            } by {
                let c = (a as usize, b as usize);
                if shorter.contains(c) {
                    let j = choose|j: int| 0 <= j < shorter.len() && shorter[j] == c;
                    assert(longer[j] == c);
                }
                if longer.contains(c) && c != (x, y) {
                    let j = choose|j: int| 0 <= j < longer.len() && longer[j] == c;
                    assert(shorter[j] == c);
                }
                if c == (x, y) {
                    assert(longer[i as int] == c);
                }
            }
        }
        i += 1;
    }
    proof {
        assert(path@.take(i as int) =~= path@);
    }
    out[start.1][start.0] = Cell::Start;
    out[goal.1][goal.0] = Cell::Goal;
    out
}

/// The character that stands for `cell` in a report.
pub open spec fn symbol_of(cell: Cell) -> char {
    match cell {
        Cell::Empty => '.',
        Cell::Obstacle => '#',
        Cell::Path => '*',
        Cell::Start => 'S',
        Cell::Goal => 'G',
    }
}

/// The character that stands for `cell` in a report.
pub fn symbol(cell: Cell) -> (c: char)
    ensures
        c == symbol_of(cell),
{
    match cell {
        Cell::Empty => '.',
        Cell::Obstacle => '#',
        Cell::Path => '*',
        Cell::Start => 'S',
        Cell::Goal => 'G',
    }
}

} // verus!
