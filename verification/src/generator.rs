//! The grid generator: it places a start and an end cell at a given distance
//! inside a bordered rectangle, and builds the grid around them.

use crate::grid::{cell_index, in_bounds, lemma_cell_index, Cost, Grid, GridError, Point};
use crate::progress::steps_between;
use crate::random::{draw_ratio, draw_up_to};
use rand::rngs::StdRng;
use vstd::prelude::*;

verus! {

/// Where the endpoints lie, and the extents of the grid around them.
#[derive(Clone, Copy, Debug, PartialEq, Eq, Structural)]
pub struct Layout {
    pub start_row: usize,
    pub start_column: usize,
    pub end_row: usize,
    pub end_column: usize,
    pub rows: usize,
    pub columns: usize,
}

impl Layout {
    /// The start cell.
    pub open spec fn spec_start(&self) -> Point {
        (self.start_row, self.start_column)
    }

    /// The end cell.
    pub open spec fn spec_end(&self) -> Point {
        (self.end_row, self.end_column)
    }

    /// The start cell.
    #[verifier::when_used_as_spec(spec_start)]
    pub fn start(&self) -> (point: Point)
        ensures
            point == self.spec_start(),
    {
        (self.start_row, self.start_column)
    }

    /// The end cell.
    #[verifier::when_used_as_spec(spec_end)]
    pub fn end(&self) -> (point: Point)
        ensures
            point == self.spec_end(),
    {
        (self.end_row, self.end_column)
    }
}

/// Whether a grid for this distance and border fits the machine.
pub open spec fn layout_fits(distance: usize, border: usize) -> bool {
    distance + 2 * border + 1 <= usize::MAX
}

/// The layout for a split of the distance into `split.0` rows and `split.1`
/// columns.
///
/// Before any trimming the start lies `border` cells from the top left
/// corner, the end lies `split` further on, and `border` cells follow the
/// end on both axes. With `swap_rows` the two endpoints exchange their rows.
/// With `hug_edge` the border is taken off the row axis if there are more
/// rows than columns, and off the column axis if not: both endpoints move
/// `border` cells towards the origin on that axis, and the axis loses
/// `2 * border` cells.
pub open spec fn planned_layout(split: Point, swap_rows: bool, border: usize, hug_edge: bool) -> Layout {
    let rows = split.0 + 2 * border + 1;
    let columns = split.1 + 2 * border + 1;
    let near = border as int;
    let far = split.0 + border;
    let start_row = if swap_rows {
        far
    } else {
        near
    };
    let end_row = if swap_rows {
        near
    } else {
        far
    };
    let trim_rows = hug_edge && rows > columns;
    let trim_columns = hug_edge && rows <= columns;
    let off_rows = if trim_rows {
        border as int
    } else {
        0
    };
    let off_columns = if trim_columns {
        border as int
    } else {
        0
    };
    Layout {
        start_row: (start_row - off_rows) as usize,
        start_column: (border - off_columns) as usize,
        end_row: (end_row - off_rows) as usize,
        end_column: (split.1 + border - off_columns) as usize,
        rows: (rows - 2 * off_rows) as usize,
        columns: (columns - 2 * off_columns) as usize,
    }
}

/// Whether a layout is one that the generator can produce for these
/// arguments: the planned layout of some split of the distance, with the
/// rows swapped or not.
pub open spec fn is_generated_layout(
    layout: Layout,
    distance: usize,
    border: usize,
    hug_edge: bool,
) -> bool {
    exists|across: usize, swap_rows: bool|
        across <= distance && layout == #[trigger] planned_layout(
            (across, (distance - across) as usize),
            swap_rows,
            border,
            hug_edge,
        )
}

/// Every planned layout has at least one row and one column, holds both
/// endpoints, and keeps them exactly the split apart.
pub proof fn lemma_layout_placed(split: Point, swap_rows: bool, border: usize, hug_edge: bool)
    requires
        split.0 + split.1 + 2 * border + 1 <= usize::MAX,
    ensures
        ({
            let layout = planned_layout(split, swap_rows, border, hug_edge);
            &&& layout.rows >= 1
            &&& layout.columns >= 1
            &&& in_bounds(layout.start(), layout.rows as nat, layout.columns as nat)
            &&& in_bounds(layout.end(), layout.rows as nat, layout.columns as nat)
            &&& steps_between(layout.start(), layout.end()) == split.0 + split.1
        }),
{
}

/// Without `hug_edge` each endpoint keeps `border` cells between itself and
/// every boundary, and the grid is exactly as large as that requires.
pub proof fn lemma_layout_bordered(split: Point, swap_rows: bool, border: usize)
    requires
        split.0 + split.1 + 2 * border + 1 <= usize::MAX,
    ensures
        ({
            let layout = planned_layout(split, swap_rows, border, false);
            let bottom = if layout.start_row >= layout.end_row {
                layout.start_row
            } else {
                layout.end_row
            };
            let right = if layout.start_column >= layout.end_column {
                layout.start_column
            } else {
                layout.end_column
            };
            &&& layout.rows == bottom + border + 1
            &&& layout.columns == right + border + 1
            &&& layout.start_row >= border && layout.end_row >= border
            &&& layout.start_column >= border && layout.end_column >= border
            &&& layout.start_row + layout.start_column + layout.end_row + layout.end_column
                == split.0 + split.1 + 4 * border
        }),
{
}

/// With `hug_edge` the longer axis of the untrimmed layout loses exactly
/// `2 * border` cells and both endpoints move `border` cells towards the
/// origin on it, and the other axis is unchanged. Rows count as longer only
/// if there are strictly more of them.
pub proof fn lemma_hug_edge_trims_longer_axis(split: Point, swap_rows: bool, border: usize)
    requires
        split.0 + split.1 + 2 * border + 1 <= usize::MAX,
    ensures
        ({
            let loose = planned_layout(split, swap_rows, border, false);
            let tight = planned_layout(split, swap_rows, border, true);
            if loose.rows > loose.columns {
                &&& tight.rows == loose.rows - 2 * border
                &&& tight.start_row == loose.start_row - border
                &&& tight.end_row == loose.end_row - border
                &&& tight.columns == loose.columns
                &&& tight.start_column == loose.start_column
                &&& tight.end_column == loose.end_column
            } else {
                &&& tight.columns == loose.columns - 2 * border
                &&& tight.start_column == loose.start_column - border
                &&& tight.end_column == loose.end_column - border
                &&& tight.rows == loose.rows
                &&& tight.start_row == loose.start_row
                &&& tight.end_row == loose.end_row
            }
        }),
{
}

/// Splits `distance` at a random point: the two parts add up to it.
pub fn generate_random_point(rng: &mut StdRng, distance: usize) -> (point: Point)
    ensures
        point.0 + point.1 == distance,
        point.0 <= distance,
{
    let across = draw_up_to(rng, distance);
    (across, distance - across)
}

/// Lays out the grid for a split of the distance that has been drawn.
pub fn place_endpoints(split: Point, swap_rows: bool, border: usize, hug_edge: bool) -> (layout:
    Layout)
    requires
        split.0 + split.1 + 2 * border + 1 <= usize::MAX,
    ensures
        layout == planned_layout(split, swap_rows, border, hug_edge),
{
    let mut start_row = border;
    let mut start_column = border;
    let mut end_row = split.0 + border;
    let mut end_column = split.1 + border;
    let mut rows = end_row + border + 1;
    let mut columns = end_column + border + 1;
    if swap_rows {
        let kept = start_row;
        start_row = end_row;
        end_row = kept;
    }
    if hug_edge {
        if rows > columns {
            start_row -= border;
            end_row -= border;
            rows -= border * 2;
        } else {
            start_column -= border;
            end_column -= border;
            columns -= border * 2;
        }
    }
    Layout { start_row, start_column, end_row, end_column, rows, columns }
}

/// Draws a split of the distance and, with even odds, a swap of the rows,
/// and lays out the grid for them.
pub fn generate_layout(rng: &mut StdRng, distance: usize, border: usize, hug_edge: bool) -> (layout:
    Layout)
    requires
        layout_fits(distance, border),
    ensures
        is_generated_layout(layout, distance, border, hug_edge),
        layout.rows >= 1,
        layout.columns >= 1,
        in_bounds(layout.start(), layout.rows as nat, layout.columns as nat),
        in_bounds(layout.end(), layout.rows as nat, layout.columns as nat),
        steps_between(layout.start(), layout.end()) == distance,
{
    let split = generate_random_point(rng, distance);
    let swap_rows = draw_ratio(rng, 1, 2);
    let layout = place_endpoints(split, swap_rows, border, hug_edge);
    proof {
        lemma_layout_placed(split, swap_rows, border, hug_edge);
        assert(layout == planned_layout(
            (split.0, (distance - split.0) as usize),
            swap_rows,
            border,
            hug_edge,
        ));
    }
    layout
}

/// The cost that the generated grid holds at a cell: nothing at the two
/// endpoints, and elsewhere the sample drawn for the cell, row by row.
pub open spec fn generated_cost(layout: Layout, samples: Seq<Cost>, row: int, column: int) -> Cost {
    if (row == layout.start_row && column == layout.start_column) || (row == layout.end_row
        && column == layout.end_column) {
        0
    } else {
        samples[row * layout.columns + column]
    }
}

/// Why no grid can be built for a layout and a number of samples, if
/// anything.
pub open spec fn generation_error(layout: Layout, samples: nat) -> Option<GridError> {
    if layout.rows == 0 || layout.columns == 0 {
        Some(GridError::Empty)
    } else if samples != layout.rows * layout.columns {
        Some(GridError::SizeMismatch)
    } else if !in_bounds(layout.start(), layout.rows as nat, layout.columns as nat) || !in_bounds(
        layout.end(),
        layout.rows as nat,
        layout.columns as nat,
    ) {
        Some(GridError::OutOfBounds)
    } else {
        None
    }
}

/// Builds the grid of a layout from one cost sample for each cell, listed
/// row by row, and clears the cost of the two endpoints.
pub fn generate_grid(layout: &Layout, samples: Vec<Cost>) -> (result: Result<
    (Point, Point, Grid),
    GridError,
>)
    ensures
        result is Ok <==> generation_error(*layout, samples@.len()) is None,
        result matches Err(error) ==> generation_error(*layout, samples@.len()) == Some(error),
        result matches Ok(generated) ==> {
            &&& generated.0 == layout.start()
            &&& generated.1 == layout.end()
            &&& generated.2.wf()
            &&& generated.2.spec_rows() == layout.rows
            &&& generated.2.spec_columns() == layout.columns
            &&& generated.2.cost_at(layout.start()) == 0
            &&& generated.2.cost_at(layout.end()) == 0
            &&& forall|r: int, c: int|
                0 <= r < layout.rows && 0 <= c < layout.columns ==> #[trigger] generated.2@[r][c]
                    == generated_cost(*layout, samples@, r, c)
        },
{
    let rows = layout.rows;
    let columns = layout.columns;
    if rows == 0 || columns == 0 {
        return Err(GridError::Empty);
    }
    let given = samples.len();
    match rows.checked_mul(columns) {
        Some(count) => {
            if count != given {
                return Err(GridError::SizeMismatch);
            }
        },
        None => {
            return Err(GridError::SizeMismatch);
        },
    }
    let start = layout.start();
    let end = layout.end();
    if !(start.0 < rows && start.1 < columns && end.0 < rows && end.1 < columns) {
        return Err(GridError::OutOfBounds);
    }
    let mut cells = samples;
    let start_index = cell_index(rows, columns, start);
    let end_index = cell_index(rows, columns, end);
    cells.set(start_index, 0);
    cells.set(end_index, 0);
    proof {
        assert forall|r: int, c: int| 0 <= r < rows && 0 <= c < columns implies #[trigger] cells@[r
            * columns + c] == generated_cost(*layout, samples@, r, c) by {
            lemma_cell_index(rows as int, columns as int, r, c);
            lemma_index_distinct(columns as int, r, c, start.0 as int, start.1 as int);
            lemma_index_distinct(columns as int, r, c, end.0 as int, end.1 as int);
        }
    }
    match Grid::from_cells(rows, columns, cells) {
        Ok(grid) => Ok((start, end, grid)),
        Err(error) => Err(error),
    }
}

/// Two cells of a row-major buffer share a position only if they are the
/// same cell.
proof fn lemma_index_distinct(columns: int, r: int, c: int, s: int, t: int)
    by (nonlinear_arith)
    requires
        0 <= c < columns,
        0 <= t < columns,
        0 <= r,
        0 <= s,
    ensures
        r * columns + c == s * columns + t ==> r == s && c == t,
{
}

} // verus!
