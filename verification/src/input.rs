//! Reading cell coordinates from a line of text.
//!
//! A line names a cell as two numbers with a comma between them, the column
//! first. The line is cut at its commas, and the pieces that are numbers
//! are kept: a line names a cell when exactly two pieces are numbers and
//! both lie below the side length of the grid. A number is a sequence of
//! decimal digits after at most one `+`, with a value that fits a `usize`.
//! White space is the ASCII white space: blank, tab, line feed, vertical
//! tab, form feed and carriage return.
use crate::grid::{Cell, SIZE};
use vstd::prelude::*;

verus! {

/// `b` is ASCII white space.
pub open spec fn is_space(b: u8) -> bool {
    b == 32 || 9 <= b <= 13
}

/// `b` is a decimal digit.
pub open spec fn is_digit(b: u8) -> bool {
    48 <= b <= 57
}

/// Every byte of `s` is a decimal digit.
pub open spec fn all_digits(s: Seq<u8>) -> bool {
    forall|i: int| 0 <= i < s.len() ==> is_digit(#[trigger] s[i])
}

/// The value of a sequence of decimal digits.
pub open spec fn decimal(digits: Seq<u8>) -> nat
    decreases digits.len(),
{
    if digits.len() == 0 {
        0
    } else {
        (decimal(digits.drop_last()) * 10 + (digits.last() - 48)) as nat
    }
}

/// The number that `s` spells, if it spells one.
pub open spec fn number(s: Seq<u8>) -> Option<usize> {
    let digits = if s.len() > 0 && s[0] == 43 {
        s.drop_first()
    } else {
        s
    };
    if digits.len() > 0 && all_digits(digits) && decimal(digits) <= usize::MAX {
        Some(decimal(digits) as usize)
    } else {
        None
    }
}

/// The index of the first byte of `s` from `from` up to `to` that is no
/// white space, `to` where there is none.
pub open spec fn lead(s: Seq<u8>, from: int, to: int) -> int
    decreases to - from,
{
    if from < to && is_space(s[from]) {
        lead(s, from + 1, to)
    } else {
        from
    }
}

/// The index behind the last byte of `s` from `from` up to `to` that is no
/// white space, `from` where there is none.
pub open spec fn trail(s: Seq<u8>, from: int, to: int) -> int
    decreases to - from,
{
    if from < to && is_space(s[to - 1]) {
        trail(s, from, to - 1)
    } else {
        to
    }
}

/// The index of the first comma of `s` from `from` up to `to`, `to` where
/// there is none.
pub open spec fn next_comma(s: Seq<u8>, from: int, to: int) -> int
    decreases to - from,
{
    if from < to && s[from] != 44 {
        next_comma(s, from + 1, to)
    } else {
        from
    }
}

/// The number that the piece of `s` from `from` up to `to` spells, with the
/// white space at its ends left out where `trim` says so.
pub open spec fn piece(s: Seq<u8>, from: int, to: int, trim: bool) -> Option<usize> {
    if trim {
        number(s.subrange(lead(s, from, to), trail(s, lead(s, from, to), to)))
    } else {
        number(s.subrange(from, to))
    }
}

/// The numbers among the pieces into which the commas cut `s` from `from`
/// up to `to`.
pub open spec fn numbers(s: Seq<u8>, from: int, to: int, trim: bool) -> Seq<usize>
    decreases to - from,
{
    let end = next_comma(s, from, to);
    let head = match piece(s, from, end, trim) {
        Some(v) => seq![v],
        None => Seq::empty(),
    };
    if from <= end < to {
        head + numbers(s, end + 1, to, trim)
    } else {
        head
    }
}

/// The cell that `line` names, as `(x, y)`: the white space at the ends of
/// the line does not count, and with `trim` neither does that at the ends
/// of a piece.
pub open spec fn coordinates(line: Seq<u8>, trim: bool) -> Option<(usize, usize)> {
    let from = lead(line, 0, line.len() as int);
    let to = trail(line, from, line.len() as int);
    let found = numbers(line, from, to, trim);
    if found.len() == 2 && found[0] < SIZE && found[1] < SIZE {
        Some((found[0], found[1]))
    } else {
        None
    }
}

/// Whether `b` is ASCII white space.
fn space(b: u8) -> (r: bool)
    ensures
        r == is_space(b),
{
    b == 32 || (9 <= b && b <= 13)
}

/// Leaves out the white space at both ends of the bytes from `from` up to
/// `to`.
fn trim_bounds(line: &[u8], from: usize, to: usize) -> (r: (usize, usize))
    requires
        from <= to <= line@.len(),
    ensures
        r.0 == lead(line@, from as int, to as int),
        r.1 == trail(line@, r.0 as int, to as int),
        from <= r.0 <= r.1 <= to,
{
    let mut a: usize = from;
    while a < to && space(line[a])
        invariant
            from <= a <= to <= line@.len(),
            lead(line@, from as int, to as int) == lead(line@, a as int, to as int),
        decreases to - a,
    {
        a += 1;
    }
    let mut b: usize = to;
    while a < b && space(line[b - 1])
        invariant
            a <= b <= to <= line@.len(),
            trail(line@, a as int, to as int) == trail(line@, a as int, b as int),
        decreases b - a,
    {
        b -= 1;
    }
    (a, b)
}

/// The value of digits is at least the value of the digits before the last.
proof fn lemma_decimal_grows(digits: Seq<u8>, count: int)
    requires
        all_digits(digits),
        0 <= count <= digits.len(),
    ensures
        decimal(digits.take(count)) <= decimal(digits),
    decreases digits.len() - count,
{
    if count < digits.len() {
        lemma_decimal_grows(digits, count + 1);
        assert(digits.take(count + 1).drop_last() =~= digits.take(count));
        assert(is_digit(digits[count]));
    } else {
        assert(digits.take(count) =~= digits);
    }
}

/// The number that the bytes from `from` up to `to` spell.
fn parse_number(line: &[u8], from: usize, to: usize) -> (r: Option<usize>)
    requires
        from <= to <= line@.len(),
    ensures
        r == number(line@.subrange(from as int, to as int)),
{
    let ghost s = line@.subrange(from as int, to as int);
    let first: usize = if from < to && line[from] == 43 {
        from + 1
    } else {
        from
    };
    let ghost digits = line@.subrange(first as int, to as int);
    proof {
        if first > from {
            assert(s[0] == 43);
            assert(digits =~= s.drop_first());
        } else {
            assert(from < to ==> s[0] != 43);
            assert(digits =~= s);
        }
    }
    if first == to {
        return None;
    }
    let mut value: usize = 0;
    let mut i: usize = first;
    while i < to
        invariant
            first <= i <= to <= line@.len(),
            first < to,
            s == line@.subrange(from as int, to as int),
            digits == line@.subrange(first as int, to as int),
            digits == if s.len() > 0 && s[0] == 43 {
                s.drop_first()
            } else {
                s
            },
            all_digits(digits.take(i - first)),
            value == decimal(digits.take(i - first)),
        decreases to - i,
    {
        let b: u8 = line[i];
        assert(digits[i - first] == b);
        if b < 48 || b > 57 {
            return None;
        }
        let next: u128 = value as u128 * 10 + (b - 48) as u128;
        proof {
            let longer = digits.take(i - first + 1);
            assert(longer.drop_last() =~= digits.take(i - first));
            assert(next == decimal(longer));
            assert forall|j: int| 0 <= j < longer.len() implies is_digit(#[trigger] longer[j]) by {
                if j < i - first {
                    assert(digits.take(i - first)[j] == longer[j]);
                }
            }
        }
        if next > usize::MAX as u128 {
            proof {
                if all_digits(digits) {
                    lemma_decimal_grows(digits, i - first + 1);
                }
            }
            return None;
        }
        value = next as usize;
        i += 1;
    }
    proof {
        assert(digits.take(i - first) =~= digits);
    }
    Some(value)
}

/// The cell that `line` names, as `(x, y)`, if it names one. With
/// `trim_pieces`, white space round a number is left out.
pub fn parse_coordinates(line: &[u8], trim_pieces: bool) -> (r: Option<(usize, usize)>)
    ensures
        r == coordinates(line@, trim_pieces),
        r matches Some((x, y)) ==> x < SIZE && y < SIZE,
{
    let (from, to) = trim_bounds(line, 0, line.len());
    let mut found: Vec<usize> = Vec::new();
    let mut start: usize = from;
    let mut open: bool = true;
    while open
        invariant
            from <= start <= to <= line@.len(),
            open ==> found@ + numbers(line@, start as int, to as int, trim_pieces) == numbers(
                line@,
                from as int,
                to as int,
                trim_pieces,
            ),
            !open ==> found@ == numbers(line@, from as int, to as int, trim_pieces),
        decreases to - start + if open {
                1int
            } else {
                0int
            },
    {
        let mut end: usize = start;
        while end < to && line[end] != 44
            invariant
                start <= end <= to <= line@.len(),
                next_comma(line@, start as int, to as int) == next_comma(
                    line@,
                    end as int,
                    to as int,
                ),
            decreases to - end,
        {
            end += 1;
        }
        let (a, b) = if trim_pieces {
            trim_bounds(line, start, end)
        } else {
            (start, end)
        };
        let ghost before = found@;
        if let Some(v) = parse_number(line, a, b) {
            found.push(v);
        }
        proof {
            let head: Seq<usize> = match piece(line@, start as int, end as int, trim_pieces) {
                Some(v) => seq![v],
                None => Seq::empty(),
            };
            assert(found@ =~= before + head);
            if end < to {
                assert(before + (head + numbers(line@, end + 1, to as int, trim_pieces)) =~= found@
                    + numbers(line@, end + 1, to as int, trim_pieces));
            } else {
                assert(before + head =~= found@);
            }
        }
        if end < to {
            start = end + 1;
        } else {
            open = false;
        }
    }
    if found.len() == 2 && found[0] < SIZE && found[1] < SIZE {
        Some((found[0], found[1]))
    } else {
        None
    }
}

/// `line` is the word `fin`, in capitals or small letters, with nothing but
/// white space round it.
pub open spec fn ends_input(line: Seq<u8>) -> bool {
    let from = lead(line, 0, line.len() as int);
    let to = trail(line, from, line.len() as int);
    &&& to - from == 3
    &&& line[from] == 102 || line[from] == 70
    &&& line[from + 1] == 105 || line[from + 1] == 73
    &&& line[from + 2] == 110 || line[from + 2] == 78
}

/// Whether `line` ends the input of obstacles.
pub fn is_end_marker(line: &[u8]) -> (r: bool)
    ensures
        r == ends_input(line@),
{
    let (from, to) = trim_bounds(line, 0, line.len());
    to - from == 3 && (line[from] == 102 || line[from] == 70) && (line[from + 1] == 105 || line[from
        + 1] == 73) && (line[from + 2] == 110 || line[from + 2] == 78)
}

/// Puts an obstacle into the cell that `line` names, and returns the cell;
/// where the line names no cell, the grid stays as it is.
pub fn place_obstacle(grid: &mut [[Cell; SIZE]; SIZE], line: &[u8]) -> (r: Option<(usize, usize)>)
    ensures
        r == coordinates(line@, true),
        r is None ==> *final(grid) == *old(grid),
        r matches Some((x, y)) ==> forall|b: int, a: int|
            0 <= b < SIZE && 0 <= a < SIZE ==> #[trigger] final(grid)@[b]@[a] == if a == x && b == y {
                Cell::Obstacle
            } else {
                old(grid)@[b]@[a]
            },
{
    let named = parse_coordinates(line, true);
    if let Some((x, y)) = named {
        grid[y][x] = Cell::Obstacle;
    }
    named
}

} // verus!
