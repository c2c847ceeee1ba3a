//! Points, adjacency, and the rectangular grid of traversal costs.

use vstd::prelude::*;

verus! {

/// A grid cell, as `(row, column)`.
pub type Point = (usize, usize);

/// The cost of entering a cell, in fixed-point units. It may be negative.
pub type Cost = i64;

/// Whether two cells differ by exactly one unit in exactly one coordinate.
pub open spec fn adjacent(a: Point, b: Point) -> bool {
    ||| a.0 == b.0 && a.1 + 1 == b.1
    ||| a.0 == b.0 && b.1 + 1 == a.1
    ||| a.1 == b.1 && a.0 + 1 == b.0
    ||| a.1 == b.1 && b.0 + 1 == a.0
}

/// Whether a cell lies in a rectangle of the given extents.
pub open spec fn in_bounds(point: Point, rows: nat, columns: nat) -> bool {
    point.0 < rows && point.1 < columns
}

/// Whether rows of costs form a rectangle with at least one cell whose cell
/// count fits the machine.
pub open spec fn is_rectangular(cells: Seq<Seq<Cost>>) -> bool {
    &&& cells.len() >= 1
    &&& cells[0].len() >= 1
    &&& forall|r: int| 0 <= r < cells.len() ==> (#[trigger] cells[r]).len() == cells[0].len()
    &&& cells.len() * cells[0].len() <= usize::MAX
}

/// Why a grid could not be built.
#[derive(Clone, Copy, Debug, PartialEq, Eq, Structural)]
pub enum GridError {
    /// The grid would have no rows or no columns.
    Empty,
    /// The number of costs given is not `rows * columns`.
    SizeMismatch,
    /// The start or the end cell lies outside the grid.
    OutOfBounds,
}

/// A rectangle of costs with at least one row and one column, stored row by
/// row. Its view is the sequence of its rows.
pub struct Grid {
    rows: usize,
    columns: usize,
    cells: Vec<Cost>,
}

impl View for Grid {
    type V = Seq<Seq<Cost>>;

    closed spec fn view(&self) -> Seq<Seq<Cost>> {
        Seq::new(
            self.rows as nat,
            |r: int| Seq::new(self.columns as nat, |c: int| self.cells@[r * self.columns + c]),
        )
    }
}

/// A cell's position in a row-major buffer lies inside the buffer.
pub proof fn lemma_cell_index(rows: int, columns: int, r: int, c: int)
    by (nonlinear_arith)
    requires
        0 <= r < rows,
        0 <= c < columns,
    ensures
        0 <= r * columns + c < rows * columns,
        r * columns + c == c + columns * r,
{
}

/// The position of a cell in a row-major buffer of `rows * columns` cells.
pub(crate) fn cell_index(rows: usize, columns: usize, point: Point) -> (index: usize)
    requires
        in_bounds(point, rows as nat, columns as nat),
        rows * columns <= usize::MAX,
    ensures
        index == point.0 * columns + point.1,
        index < rows * columns,
{
    proof {
        lemma_cell_index(rows as int, columns as int, point.0 as int, point.1 as int);
        assert(point.0 * columns <= point.0 * columns + point.1);
    }
    point.0 * columns + point.1
}

impl Grid {
    /// The representation invariant: the buffer holds exactly the cells of a
    /// non-empty rectangle.
    #[verifier::type_invariant]
    pub closed spec fn inv(&self) -> bool {
        &&& self.rows >= 1
        &&& self.columns >= 1
        &&& self.cells@.len() == self.rows * self.columns
        &&& self.rows * self.columns <= usize::MAX
    }

    /// Whether the grid is a rectangle with at least one cell.
    pub open spec fn wf(&self) -> bool {
        is_rectangular(self@)
    }

    /// The number of rows.
    pub open spec fn spec_rows(&self) -> nat {
        self@.len()
    }

    /// The number of columns.
    pub open spec fn spec_columns(&self) -> nat {
        self@[0].len()
    }

    /// Whether the cell lies inside the grid.
    pub open spec fn spec_contains(&self, point: Point) -> bool {
        in_bounds(point, self.spec_rows(), self.spec_columns())
    }

    /// The cost of a cell of the grid.
    pub open spec fn cost_at(&self, point: Point) -> Cost {
        self@[point.0 as int][point.1 as int]
    }

    /// A grid that satisfies its representation invariant is a rectangle, and
    /// its view reads the buffer row by row.
    pub proof fn lemma_inv_wf(&self)
        requires
            self.inv(),
        ensures
            self.wf(),
    {
        assert(self@[0].len() == self.columns);
        assert forall|r: int| 0 <= r < self@.len() implies (#[trigger] self@[r]).len()
            == self@[0].len() by {}
    }

    /// Builds a grid of the given extents from costs listed row by row.
    pub fn from_cells(rows: usize, columns: usize, cells: Vec<Cost>) -> (result: Result<
        Grid,
        GridError,
    >)
        ensures
            result is Ok <==> rows >= 1 && columns >= 1 && cells@.len() == rows * columns,
            result matches Err(error) ==> error == if rows == 0 || columns == 0 {
                GridError::Empty
            } else {
                GridError::SizeMismatch
            },
            result matches Ok(grid) ==> {
                &&& grid.wf()
                &&& grid.spec_rows() == rows
                &&& grid.spec_columns() == columns
                &&& forall|r: int, c: int|
                    0 <= r < rows && 0 <= c < columns ==> #[trigger] grid@[r][c] == cells@[r
                        * columns + c]
            },
    {
        if rows == 0 || columns == 0 {
            return Err(GridError::Empty);
        }
        let given = cells.len();
        match rows.checked_mul(columns) {
            Some(count) => {
                if count != given {
                    return Err(GridError::SizeMismatch);
                }
            },
            None => {
                return Err(GridError::SizeMismatch);
            },
        }
        let grid = Grid { rows, columns, cells };
        proof {
            grid.lemma_inv_wf();
        }
        Ok(grid)
    }

    /// The number of rows.
    pub fn rows(&self) -> (rows: usize)
        ensures
            rows == self.spec_rows(),
            rows >= 1,
            self.wf(),
    {
        proof {
            use_type_invariant(self);
            self.lemma_inv_wf();
        }
        self.rows
    }

    /// The number of columns.
    pub fn columns(&self) -> (columns: usize)
        ensures
            columns == self.spec_columns(),
            columns >= 1,
            self.wf(),
    {
        proof {
            use_type_invariant(self);
            self.lemma_inv_wf();
        }
        self.columns
    }

    /// Whether the cell lies inside the grid.
    #[verifier::when_used_as_spec(spec_contains)]
    pub fn contains(&self, point: Point) -> (inside: bool)
        ensures
            inside == self.spec_contains(point),
    {
        proof {
            use_type_invariant(self);
            self.lemma_inv_wf();
        }
        point.0 < self.rows && point.1 < self.columns
    }

    /// The cost of a cell, or `None` for a cell outside the grid.
    pub fn cost(&self, point: Point) -> (cost: Option<Cost>)
        ensures
            cost == if self.contains(point) {
                Some(self.cost_at(point))
            } else {
                None
            },
    {
        proof {
            use_type_invariant(self);
            self.lemma_inv_wf();
        }
        if point.0 < self.rows && point.1 < self.columns {
            let index = cell_index(self.rows, self.columns, point);
            Some(self.cells[index])
        } else {
            None
        }
    }
}

} // verus!
