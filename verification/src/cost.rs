//! What a path costs, and what follows where no cell has a negative cost.

use crate::grid::{in_bounds, is_rectangular, Cost, Point};
use crate::model::{visited, Visit};
use crate::path::is_path;
use vstd::prelude::*;

verus! {

/// The cost of entering a cell.
pub open spec fn cost_of(cells: Seq<Seq<Cost>>, point: Point) -> int {
    cells[point.0 as int][point.1 as int] as int
}

/// Whether no cell has a negative cost.
pub open spec fn non_negative(cells: Seq<Seq<Cost>>) -> bool {
    forall|r: int, c: int|
        0 <= r < cells.len() && 0 <= c < cells[r].len() ==> (#[trigger] cells[r][c]) >= 0
}

/// The cost of walking a path: the sum of the costs of its cells after the
/// first.
pub open spec fn path_cost(path: Seq<Point>, cells: Seq<Seq<Cost>>) -> int
    decreases path.len(),
{
    if path.len() <= 1 {
        0
    } else {
        path_cost(path.drop_last(), cells) + cost_of(cells, path.last())
    }
}

/// Whether no path from `start` to `end` through the rectangle costs less
/// than `path`.
pub open spec fn is_cheapest_path(
    path: Seq<Point>,
    start: Point,
    end: Point,
    cells: Seq<Seq<Cost>>,
) -> bool {
    forall|other: Seq<Point>| #[trigger]
        is_path(other, start, end, cells.len(), cells[0].len()) ==> path_cost(path, cells)
            <= path_cost(other, cells)
}

/// Whether every cell of a walk lies in the rectangle.
pub open spec fn stays_inside(path: Seq<Point>, rows: nat, columns: nat) -> bool {
    forall|i: int| 0 <= i < path.len() ==> in_bounds(#[trigger] path[i], rows, columns)
}

/// Where no cost is negative, the beginning of a walk costs no more than
/// the whole.
pub proof fn lemma_path_cost_prefix(path: Seq<Point>, cells: Seq<Seq<Cost>>, count: int)
    requires
        is_rectangular(cells),
        non_negative(cells),
        stays_inside(path, cells.len(), cells[0].len()),
        0 <= count <= path.len(),
    ensures
        0 <= path_cost(path.take(count), cells) <= path_cost(path, cells),
    decreases path.len(),
{
    if count == path.len() {
        assert(path.take(count) =~= path);
        if path.len() > 1 {
            lemma_path_cost_prefix(path.drop_last(), cells, count - 1);
            let last = path.last();
            assert(in_bounds(path[path.len() - 1], cells.len(), cells[0].len()));
            assert(cells[last.0 as int].len() == cells[0].len());
            assert(cells[last.0 as int][last.1 as int] >= 0);
        }
    } else {
        assert(path.take(count) =~= path.drop_last().take(count));
        lemma_path_cost_prefix(path.drop_last(), cells, count);
        let last = path.last();
        assert(in_bounds(path[path.len() - 1], cells.len(), cells[0].len()));
        assert(cells[last.0 as int].len() == cells[0].len());
        assert(cells[last.0 as int][last.1 as int] >= 0);
    }
}

/// One more cell of a walk adds its cost.
pub proof fn lemma_path_cost_next(path: Seq<Point>, cells: Seq<Seq<Cost>>, count: int)
    requires
        1 <= count < path.len(),
    ensures
        path_cost(path.take(count + 1), cells) == path_cost(path.take(count), cells) + cost_of(
            cells,
            path[count],
        ),
{
    assert(path.take(count + 1).drop_last() =~= path.take(count));
}

/// The beginning of a path is a path to the cell where it stops.
pub proof fn lemma_path_prefix(
    path: Seq<Point>,
    start: Point,
    end: Point,
    rows: nat,
    columns: nat,
    count: int,
)
    requires
        is_path(path, start, end, rows, columns),
        1 <= count <= path.len(),
    ensures
        is_path(path.take(count), start, path[count - 1], rows, columns),
{
    let shorter = path.take(count);
    assert forall|i: int| 0 <= i < shorter.len() implies in_bounds(
        #[trigger] shorter[i],
        rows,
        columns,
    ) by {
        assert(shorter[i] == path[i]);
    }
    assert forall|i: int| 0 < i < shorter.len() implies crate::grid::adjacent(
        shorter[i - 1],
        #[trigger] shorter[i],
    ) by {
        assert(shorter[i] == path[i]);
        assert(shorter[i - 1] == path[i - 1]);
    }
}

/// A path from a visited cell to one that is not visited steps at some
/// point from a visited cell onto one that is not.
pub proof fn lemma_crossing(
    path: Seq<Point>,
    record: Seq<Visit>,
    start: Point,
    end: Point,
    rows: nat,
    columns: nat,
) -> (i: int)
    requires
        is_path(path, start, end, rows, columns),
        visited(record, start),
        !visited(record, end),
    ensures
        0 <= i < path.len() - 1,
        visited(record, path[i]),
        !visited(record, path[i + 1]),
    decreases path.len(),
{
    let before = path[path.len() - 2];
    if visited(record, before) {
        path.len() - 2
    } else {
        lemma_path_prefix(path, start, end, rows, columns, path.len() - 1);
        assert(path.take(path.len() - 1) =~= path.drop_last());
        lemma_crossing(path.drop_last(), record, start, before, rows, columns)
    }
}

} // verus!
