//! The 4-connected neighbourhood of a cell.

use crate::grid::{adjacent, in_bounds, Grid, Point};
use vstd::prelude::*;

verus! {

/// The cell itself if it lies in the rectangle, else nothing.
pub open spec fn within(row: int, column: int, rows: nat, columns: nat) -> Seq<Point> {
    if 0 <= row < rows && 0 <= column < columns {
        seq![(row as usize, column as usize)]
    } else {
        seq![]
    }
}

/// The cells of a `rows` by `columns` rectangle one step away from `point`,
/// in the order up, left, down, right.
pub open spec fn neighbors(point: Point, rows: nat, columns: nat) -> Seq<Point> {
    within(point.0 - 1, point.1 as int, rows, columns) + within(
        point.0 as int,
        point.1 - 1,
        rows,
        columns,
    ) + within(point.0 + 1, point.1 as int, rows, columns) + within(
        point.0 as int,
        point.1 + 1,
        rows,
        columns,
    )
}

/// Every neighbour lies in the rectangle, one step away from the cell.
pub proof fn lemma_neighbors_sound(point: Point, rows: nat, columns: nat, k: int)
    requires
        0 <= k < neighbors(point, rows, columns).len(),
        rows <= usize::MAX,
        columns <= usize::MAX,
    ensures
        in_bounds(neighbors(point, rows, columns)[k], rows, columns),
        adjacent(point, neighbors(point, rows, columns)[k]),
{
}

/// Every cell of the rectangle one step away from the cell is a neighbour.
pub proof fn lemma_neighbors_complete(point: Point, rows: nat, columns: nat, other: Point)
    requires
        in_bounds(other, rows, columns),
        adjacent(point, other),
    ensures
        neighbors(point, rows, columns).contains(other),
{
    let up = within(point.0 - 1, point.1 as int, rows, columns);
    let left = within(point.0 as int, point.1 - 1, rows, columns);
    let down = within(point.0 + 1, point.1 as int, rows, columns);
    let right = within(point.0 as int, point.1 + 1, rows, columns);
    let all = neighbors(point, rows, columns);
    if other.0 + 1 == point.0 {
        assert(all[0] == other);
    } else if other.1 + 1 == point.1 {
        assert(all[up.len() as int] == other);
    } else if point.0 + 1 == other.0 {
        assert(all[(up.len() + left.len()) as int] == other);
    } else {
        assert(all[(up.len() + left.len() + down.len()) as int] == other);
    }
}

/// The cells of the grid one step away from `point`, in the order up, left,
/// down, right.
pub fn get_neighbors(point: Point, grid: &Grid) -> (found: Vec<Point>)
    ensures
        found@ == neighbors(point, grid.spec_rows(), grid.spec_columns()),
{
    let rows = grid.rows();
    let columns = grid.columns();
    let mut found: Vec<Point> = Vec::new();
    if point.0 > 0 && point.0 - 1 < rows && point.1 < columns {
        found.push((point.0 - 1, point.1));
    }
    assert(found@ == within(point.0 - 1, point.1 as int, rows as nat, columns as nat));
    let ghost up = found@;
    if point.1 > 0 && point.0 < rows && point.1 - 1 < columns {
        found.push((point.0, point.1 - 1));
    }
    assert(found@ == up + within(point.0 as int, point.1 - 1, rows as nat, columns as nat));
    let ghost left = found@;
    if point.0 < rows - 1 && point.1 < columns {
        found.push((point.0 + 1, point.1));
    }
    assert(found@ == left + within(point.0 + 1, point.1 as int, rows as nat, columns as nat));
    let ghost down = found@;
    if point.0 < rows && point.1 < columns - 1 {
        found.push((point.0, point.1 + 1));
    }
    assert(found@ == down + within(point.0 as int, point.1 + 1, rows as nat, columns as nat));
    found
}

} // verus!
