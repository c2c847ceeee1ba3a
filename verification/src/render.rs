//! Costs as numbers to show: the unit of cost, and costs in hundredths of it.

use crate::grid::{Cost, Grid};
use vstd::prelude::*;

verus! {

/// The number of cost units that make up a cost of one.
pub const COST_UNIT: Cost = 1_000_000_000;

/// The number of cost units that make up a hundredth of a cost of one.
pub const HUNDREDTH: Cost = 10_000_000;

/// A cost in hundredths, rounded down.
pub open spec fn hundredths(cost: int) -> int {
    cost / (HUNDREDTH as int)
}

proof fn lemma_floor_of_negative(cost: int, magnitude: int, step: int, up: int)
    by (nonlinear_arith)
    requires
        step > 0,
        magnitude == -cost,
        up == (magnitude + step - 1) / step,
    ensures
        cost / step == -up,
{
    let low = cost / step;
    assert(low * step <= cost < low * step + step);
    assert(up * step <= magnitude + step - 1 < up * step + step);
    assert((low + up) * step == low * step + up * step);
    if low + up >= 1 {
        assert((low + up) * step >= step);
    }
    if low + up <= -1 {
        assert((low + up) * step <= -step);
    }
}

/// A cost in hundredths of the unit, rounded down.
pub fn cost_in_hundredths(cost: Cost) -> (shown: i64)
    ensures
        shown == hundredths(cost as int),
{
    if cost >= 0 {
        cost / HUNDREDTH
    } else {
        let magnitude: u64 = (-(cost as i128)) as u64;
        let step: u64 = HUNDREDTH as u64;
        let up: u64 = (magnitude + (step - 1)) / step;
        proof {
            assert(up <= magnitude + step - 1) by (nonlinear_arith)
                requires
                    up == (magnitude + step - 1) / (step as int),
                    step > 0,
                    magnitude + step - 1 >= 0,
            ;
            lemma_floor_of_negative(cost as int, magnitude as int, step as int, up as int);
        }
        -(up as i64)
    }
}

/// The costs of a grid in hundredths of the unit, rounded down, row by row.
pub fn render_grid(grid: &Grid) -> (shown: Vec<Vec<i64>>)
    ensures
        shown@.len() == grid.spec_rows(),
        forall|r: int| 0 <= r < shown@.len() ==> (#[trigger] shown@[r])@.len() == grid.spec_columns(),
        forall|r: int, c: int|
            0 <= r < grid.spec_rows() && 0 <= c < grid.spec_columns() ==> (#[trigger] shown@[r]@[c])
                == hundredths(grid@[r][c] as int),
{
    let rows = grid.rows();
    let columns = grid.columns();
    let mut shown: Vec<Vec<i64>> = Vec::new();
    let mut row: usize = 0;
    while row < rows
        invariant
            rows == grid.spec_rows(),
            columns == grid.spec_columns(),
            row <= rows,
            shown@.len() == row,
            forall|r: int| 0 <= r < row ==> (#[trigger] shown@[r])@.len() == columns,
            forall|r: int, c: int|
                0 <= r < row && 0 <= c < columns ==> (#[trigger] shown@[r]@[c]) == hundredths(
                    grid@[r][c] as int,
                ),
        decreases rows - row,
    {
        let mut line: Vec<i64> = Vec::new();
        let mut column: usize = 0;
        while column < columns
            invariant
                rows == grid.spec_rows(),
                columns == grid.spec_columns(),
                row < rows,
                column <= columns,
                line@.len() == column,
                forall|c: int|
                    0 <= c < column ==> (#[trigger] line@[c]) == hundredths(
                        grid@[row as int][c] as int,
                    ),
            decreases columns - column,
        {
            let cost = match grid.cost((row, column)) {
                Some(cost) => cost,
                None => {
                    proof {
                        assert(false);
                    }
                    0
                },
            };
            line.push(cost_in_hundredths(cost));
            column += 1;
        }
        shown.push(line);
        row += 1;
    }
    shown
}

} // verus!
