//! The set of cells of a rectangle, and how many there are.

use crate::grid::{in_bounds, Point};
use vstd::prelude::*;

verus! {

/// The cells of a `rows` by `columns` rectangle.
pub open spec fn cell_set(rows: nat, columns: nat) -> Set<Point> {
    Set::new(|p: Point| in_bounds(p, rows, columns))
}

/// The first `columns` cells of one row.
pub open spec fn row_set(row: usize, columns: nat) -> Set<Point> {
    Set::new(|p: Point| p.0 == row && p.1 < columns)
}

/// A row of `columns` cells is finite and has `columns` members.
pub proof fn lemma_row_set(row: usize, columns: nat)
    requires
        columns <= usize::MAX,
    ensures
        row_set(row, columns).finite(),
        row_set(row, columns).len() == columns,
    decreases columns,
{
    if columns == 0 {
        assert(row_set(row, columns) =~= Set::<Point>::empty());
    } else {
        let shorter = (columns - 1) as nat;
        lemma_row_set(row, shorter);
        let last: Point = (row, shorter as usize);
        assert(row_set(row, columns) =~= row_set(row, shorter).insert(last));
    }
}

proof fn lemma_grow(rows: int, columns: int)
    by (nonlinear_arith)
    requires
        rows >= 1,
    ensures
        rows * columns == (rows - 1) * columns + columns,
{
}

/// A rectangle of cells is finite and has `rows * columns` members.
pub proof fn lemma_cell_set(rows: nat, columns: nat)
    requires
        rows <= usize::MAX,
        columns <= usize::MAX,
    ensures
        cell_set(rows, columns).finite(),
        cell_set(rows, columns).len() == rows * columns,
    decreases rows,
{
    if rows == 0 {
        assert(cell_set(rows, columns) =~= Set::<Point>::empty());
        assert(rows * columns == 0);
    } else {
        let above = (rows - 1) as nat;
        lemma_cell_set(above, columns);
        lemma_row_set(above as usize, columns);
        let upper = cell_set(above, columns);
        let bottom = row_set(above as usize, columns);
        assert(cell_set(rows, columns) =~= upper.union(bottom));
        assert(upper.disjoint(bottom));
        vstd::set_lib::lemma_set_disjoint_lens(upper, bottom);
        lemma_grow(rows as int, columns as int);
    }
}

} // verus!
