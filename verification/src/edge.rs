//! The edge classifier: which boundary of the grid a cell is nearest to.

use crate::grid::Point;
use vstd::prelude::*;

verus! {

/// A boundary of the grid, as seen from a cell.
#[derive(Clone, Copy, Debug, PartialEq, Eq, Structural)]
pub enum Direction {
    Up,
    Down,
    Left,
    Right,
}

/// The distance from a cell to a boundary of a grid of the given extents
/// `(rows, columns)`. It is negative for a cell beyond that boundary.
pub open spec fn edge_distance(point: Point, extents: (usize, usize), direction: Direction) -> int {
    match direction {
        Direction::Up => point.0 as int,
        Direction::Down => extents.0 - point.0,
        Direction::Left => point.1 as int,
        Direction::Right => extents.1 - point.1,
    }
}

/// The place of a direction in the order in which ties are broken.
pub open spec fn precedence(direction: Direction) -> int {
    match direction {
        Direction::Up => 0,
        Direction::Down => 1,
        Direction::Left => 2,
        Direction::Right => 3,
    }
}

/// Whether `direction` names the nearest boundary: no boundary is nearer,
/// and none that is as near comes before it.
pub open spec fn is_closest_edge(point: Point, extents: (usize, usize), direction: Direction) -> bool {
    forall|other: Direction|
        edge_distance(point, extents, direction) < #[trigger] edge_distance(point, extents, other)
            || (edge_distance(point, extents, direction) == edge_distance(point, extents, other)
            && precedence(direction) <= precedence(other))
}

/// The boundary nearest to a cell: the first of up, down, left and right
/// that is as near as any.
pub open spec fn closest_edge(point: Point, extents: (usize, usize)) -> Direction {
    let up = edge_distance(point, extents, Direction::Up);
    let down = edge_distance(point, extents, Direction::Down);
    let left = edge_distance(point, extents, Direction::Left);
    let right = edge_distance(point, extents, Direction::Right);
    if up <= down && up <= left && up <= right {
        Direction::Up
    } else if down <= left && down <= right {
        Direction::Down
    } else if left <= right {
        Direction::Left
    } else {
        Direction::Right
    }
}

/// The nearest boundary is nearest, and it is the only one that is.
pub proof fn lemma_closest_edge(point: Point, extents: (usize, usize), direction: Direction)
    ensures
        is_closest_edge(point, extents, direction) <==> direction == closest_edge(point, extents),
{
    let nearest = closest_edge(point, extents);
    assert(is_closest_edge(point, extents, nearest));
    if is_closest_edge(point, extents, direction) {
        assert(edge_distance(point, extents, direction) <= edge_distance(point, extents, nearest));
        assert(edge_distance(point, extents, nearest) <= edge_distance(
            point,
            extents,
            direction,
        ));
    }
}

/// A cell in the top row of a grid with at least one row is nearest to the
/// upper boundary unless another boundary is strictly nearer.
pub proof fn lemma_top_row_is_up(point: Point, extents: (usize, usize))
    requires
        point.0 == 0,
        extents.0 > 0,
    ensures
        closest_edge(point, extents) == Direction::Up || exists|other: Direction|
            #[trigger] edge_distance(point, extents, other) < edge_distance(
                point,
                extents,
                Direction::Up,
            ),
{
    let nearest = closest_edge(point, extents);
    if nearest != Direction::Up {
        assert(edge_distance(point, extents, nearest) < edge_distance(
            point,
            extents,
            Direction::Up,
        ));
    }
}

/// Of two boundaries equally near, the later one in the order up, down,
/// left, right is never the answer.
pub proof fn lemma_tie_goes_to_earlier(
    point: Point,
    extents: (usize, usize),
    earlier: Direction,
    later: Direction,
)
    requires
        edge_distance(point, extents, earlier) == edge_distance(point, extents, later),
        precedence(earlier) < precedence(later),
    ensures
        closest_edge(point, extents) != later,
{
}

/// Names the boundary of a `rows` by `columns` grid nearest to a cell. Ties
/// go to the first of up, down, left and right.
pub fn calculate_closest_edge_direction(point: Point, extents: (usize, usize)) -> (direction:
    Direction)
    ensures
        direction == closest_edge(point, extents),
        is_closest_edge(point, extents, direction),
{
    let up: i128 = point.0 as i128;
    let down: i128 = extents.0 as i128 - point.0 as i128;
    let left: i128 = point.1 as i128;
    let right: i128 = extents.1 as i128 - point.1 as i128;
    proof {
        lemma_closest_edge(point, extents, closest_edge(point, extents));
    }
    if up <= down && up <= left && up <= right {
        Direction::Up
    } else if down <= left && down <= right {
        Direction::Down
    } else if left <= right {
        Direction::Left
    } else {
        Direction::Right
    }
}

} // verus!
