//! The path that a visitation record holds, and the finder that returns it.

use crate::cost::{is_cheapest_path, non_negative, path_cost};
use crate::grid::{adjacent, in_bounds, Cost, Grid, GridError, Point};
use crate::optimal::lemma_shortest_path_is_cheapest;
use crate::model::{visitation_record, visited, visited_before, Visit};
use crate::search::explore;
use crate::soundness::record_ok;
use crate::visited::{point_index_entries, PointIndex};
use vstd::prelude::*;

verus! {

/// Whether the visit at `index` is the first one to `point`.
pub open spec fn is_first_visit(record: Seq<Visit>, point: Point, index: int) -> bool {
    &&& 0 <= index < record.len()
    &&& record[index].point == point
    &&& !visited_before(record, index, point)
}

/// The position of the first visit to `point`.
pub open spec fn first_visit(record: Seq<Visit>, point: Point) -> int {
    choose|index: int| is_first_visit(record, point, index)
}

/// The cell from which `point` was reached when it was first visited.
pub open spec fn predecessor(record: Seq<Visit>, point: Point) -> Point {
    record[first_visit(record, point)].previous
}

/// Whether `path` leads from `start` to `end`, passes `start` only at its
/// beginning, and reaches each later cell from its predecessor.
pub open spec fn is_trace(path: Seq<Point>, record: Seq<Visit>, start: Point, end: Point) -> bool {
    &&& path.len() >= 1
    &&& path[0] == start
    &&& path.last() == end
    &&& forall|i: int|
        0 < i < path.len() ==> #[trigger] path[i] != start && path[i - 1] == predecessor(
            record,
            path[i],
        )
}

/// The path that a record holds from `start` to `end`.
pub open spec fn traced_path(record: Seq<Visit>, start: Point, end: Point) -> Seq<Point> {
    choose|path: Seq<Point>| is_trace(path, record, start, end)
}

/// The path that the finder returns.
pub open spec fn shortest_path(start: Point, end: Point, cells: Seq<Seq<Cost>>) -> Seq<Point> {
    traced_path(visitation_record(start, end, cells), start, end)
}

/// Whether `path` leads from `start` to `end` through cells of the rectangle,
/// each one step away from the one before it.
pub open spec fn is_path(path: Seq<Point>, start: Point, end: Point, rows: nat, columns: nat) -> bool {
    &&& path.len() >= 1
    &&& path[0] == start
    &&& path.last() == end
    &&& forall|i: int| 0 <= i < path.len() ==> in_bounds(#[trigger] path[i], rows, columns)
    &&& forall|i: int| 0 < i < path.len() ==> adjacent(path[i - 1], #[trigger] path[i])
}

/// A cell has only one first visit.
pub proof fn lemma_first_visit_unique(record: Seq<Visit>, point: Point, index: int)
    requires
        is_first_visit(record, point, index),
    ensures
        first_visit(record, point) == index,
{
    let other = first_visit(record, point);
    assert(is_first_visit(record, point, other));
    if other < index {
        assert(record[other].point == point);
    } else if other > index {
        assert(record[index].point == point);
    }
}

proof fn lemma_trace_suffix(
    one: Seq<Point>,
    other: Seq<Point>,
    record: Seq<Visit>,
    start: Point,
    end: Point,
    k: int,
)
    requires
        is_trace(one, record, start, end),
        is_trace(other, record, start, end),
        0 <= k < one.len(),
        k < other.len(),
    ensures
        one[one.len() - 1 - k] == other[other.len() - 1 - k],
    decreases k,
{
    if k > 0 {
        lemma_trace_suffix(one, other, record, start, end, k - 1);
        let i = one.len() - k;
        let j = other.len() - k;
        assert(one[i] != start && one[i - 1] == predecessor(record, one[i]));
        assert(other[j] != start && other[j - 1] == predecessor(record, other[j]));
    }
}

/// A record holds only one path from `start` to `end`.
pub proof fn lemma_trace_unique(
    one: Seq<Point>,
    other: Seq<Point>,
    record: Seq<Visit>,
    start: Point,
    end: Point,
)
    requires
        is_trace(one, record, start, end),
        is_trace(other, record, start, end),
    ensures
        one == other,
{
    if one.len() < other.len() {
        lemma_trace_suffix(one, other, record, start, end, one.len() - 1);
        assert(other[other.len() - one.len()] != start);
    } else if other.len() < one.len() {
        lemma_trace_suffix(one, other, record, start, end, other.len() - 1);
        assert(one[one.len() - other.len()] != start);
    } else {
        assert forall|i: int| 0 <= i < one.len() implies one[i] == other[i] by {
            lemma_trace_suffix(one, other, record, start, end, one.len() - 1 - i);
        }
        assert(one =~= other);
    }
}

/// The finder is a function of its arguments: whatever traces the record of
/// the search from `start` back from `end` is the path it returns.
pub proof fn lemma_path_determined(
    path: Seq<Point>,
    start: Point,
    end: Point,
    cells: Seq<Seq<Cost>>,
)
    requires
        is_trace(path, visitation_record(start, end, cells), start, end),
    ensures
        path == shortest_path(start, end, cells),
{
    let record = visitation_record(start, end, cells);
    lemma_trace_unique(path, traced_path(record, start, end), record, start, end);
}

/// Every cell of the path that a sound record holds has been visited, lies
/// in the rectangle, and is one step away from the cell before it.
pub proof fn lemma_trace_visited(
    path: Seq<Point>,
    record: Seq<Visit>,
    start: Point,
    end: Point,
    rows: nat,
    columns: nat,
    i: int,
)
    requires
        is_trace(path, record, start, end),
        record_ok(record, start, rows, columns),
        visited(record, end),
        0 <= i < path.len(),
    ensures
        visited(record, path[i]),
        in_bounds(path[i], rows, columns),
        i > 0 ==> adjacent(path[i - 1], path[i]),
    decreases path.len() - i,
{
    if i < path.len() - 1 {
        lemma_trace_visited(path, record, start, end, rows, columns, i + 1);
        let next = path[i + 1];
        assert(next != start && path[i] == predecessor(record, next));
        let first = lemma_first_visit_exists(record, next, record.len() as int);
        lemma_first_visit_unique(record, next, first);
        assert(record[first].previous == path[i]);
        let j = choose|j: int|
            0 <= j < first && j < record.len() && (#[trigger] record[j]).point
                == record[first].previous;
        assert(record[j].point == path[i]);
    }
    let j = choose|j: int| 0 <= j < record.len() && (#[trigger] record[j]).point == path[i];
    assert(in_bounds(record[j].point, rows, columns));
    if i > 0 {
        assert(path[i] != start && path[i - 1] == predecessor(record, path[i]));
        let first = lemma_first_visit_exists(record, path[i], record.len() as int);
        lemma_first_visit_unique(record, path[i], first);
        assert(adjacent(record[first].previous, record[first].point));
    }
}

/// A cell visited among the first `count` visits has a first visit there.
pub proof fn lemma_first_visit_exists(record: Seq<Visit>, point: Point, count: int) -> (index: int)
    requires
        visited_before(record, count, point),
    ensures
        index < count,
        is_first_visit(record, point, index),
    decreases count,
{
    let j = choose|j: int| 0 <= j < count && j < record.len() && (#[trigger] record[j]).point == point;
    if visited_before(record, j, point) {
        lemma_first_visit_exists(record, point, j)
    } else {
        j
    }
}

/// A sound record holds a path from the start to each cell visited.
pub proof fn lemma_trace_exists(
    record: Seq<Visit>,
    start: Point,
    point: Point,
    rows: nat,
    columns: nat,
) -> (path: Seq<Point>)
    requires
        record_ok(record, start, rows, columns),
        visited(record, point),
    ensures
        is_trace(path, record, start, point),
    decreases first_visit(record, point),
{
    let first = lemma_first_visit_exists(record, point, record.len() as int);
    lemma_first_visit_unique(record, point, first);
    if point == start {
        seq![start]
    } else {
        assert(record[0].point == start);
        let before = record[first].previous;
        let earlier = lemma_first_visit_exists(record, before, first);
        lemma_first_visit_unique(record, before, earlier);
        let shorter = lemma_trace_exists(record, start, before, rows, columns);
        let path = shorter.push(point);
        assert forall|i: int| 0 < i < path.len() implies #[trigger] path[i] != start && path[i
            - 1] == predecessor(record, path[i]) by {
            if i < shorter.len() {
                assert(path[i] == shorter[i]);
                assert(path[i - 1] == shorter[i - 1]);
            }
        }
        path
    }
}

/// The path that a sound record holds is a path of the grid.
pub proof fn lemma_trace_is_path(
    path: Seq<Point>,
    record: Seq<Visit>,
    start: Point,
    end: Point,
    rows: nat,
    columns: nat,
)
    requires
        is_trace(path, record, start, end),
        record_ok(record, start, rows, columns),
        visited(record, end),
    ensures
        is_path(path, start, end, rows, columns),
{
    assert forall|i: int| 0 <= i < path.len() implies in_bounds(
        #[trigger] path[i],
        rows,
        columns,
    ) by {
        lemma_trace_visited(path, record, start, end, rows, columns, i);
    }
    assert forall|i: int| 0 < i < path.len() implies adjacent(path[i - 1], #[trigger] path[i]) by {
        lemma_trace_visited(path, record, start, end, rows, columns, i);
    }
}

/// Maps each visited cell to the position of its first visit.
fn index_first_visits(record: &Vec<Visit>) -> (lookup: PointIndex)
    ensures
        forall|p: Point| #[trigger]
            point_index_entries(lookup).contains_key(p) <==> visited(record@, p),
        forall|p: Point| #[trigger]
            point_index_entries(lookup).contains_key(p) ==> is_first_visit(
                record@,
                p,
                point_index_entries(lookup)[p] as int,
            ),
{
    let mut lookup = PointIndex::new();
    let mut k: usize = 0;
    while k < record.len()
        invariant
            k <= record@.len(),
            forall|p: Point| #[trigger]
                point_index_entries(lookup).contains_key(p) <==> visited_before(
                    record@,
                    k as int,
                    p,
                ),
            forall|p: Point| #[trigger]
                point_index_entries(lookup).contains_key(p) ==> is_first_visit(
                    record@,
                    p,
                    point_index_entries(lookup)[p] as int,
                ),
        decreases record@.len() - k,
    {
        let ghost before = point_index_entries(lookup);
        lookup.insert_if_absent(record[k].point, k);
        proof {
            let after = point_index_entries(lookup);
            let here = record@[k as int].point;
            assert forall|p: Point| #[trigger]
                after.contains_key(p) <==> visited_before(record@, k + 1, p) by {
                if visited_before(record@, k + 1, p) {
                    let j = choose|j: int|
                        0 <= j < k + 1 && j < record@.len() && (#[trigger] record@[j]).point == p;
                    if j < k {
                        assert(visited_before(record@, k as int, p));
                    }
                }
                if before.contains_key(p) {
                    let j = choose|j: int|
                        0 <= j < k && j < record@.len() && (#[trigger] record@[j]).point == p;
                    assert(record@[j].point == p);
                }
                if p == here {
                    assert(record@[k as int].point == p);
                }
            }
        }
        k += 1;
    }
    lookup
}

/// Follows the predecessors from `end` back to `start`, and returns the
/// cells passed in the order from `start` to `end`.
fn reconstruct(
    record: &Vec<Visit>,
    start: Point,
    end: Point,
    Ghost(rows): Ghost<nat>,
    Ghost(columns): Ghost<nat>,
) -> (path: Vec<Point>)
    requires
        record_ok(record@, start, rows, columns),
        visited(record@, end),
    ensures
        is_trace(path@, record@, start, end),
{
    let lookup = index_first_visits(record);
    let mut reversed: Vec<Point> = Vec::new();
    reversed.push(end);
    let mut point = end;
    while !(point.0 == start.0 && point.1 == start.1)
        invariant
            record_ok(record@, start, rows, columns),
            forall|p: Point| #[trigger]
                point_index_entries(lookup).contains_key(p) <==> visited(record@, p),
            forall|p: Point| #[trigger]
                point_index_entries(lookup).contains_key(p) ==> is_first_visit(
                    record@,
                    p,
                    point_index_entries(lookup)[p] as int,
                ),
            reversed@.len() >= 1,
            reversed@[0] == end,
            reversed@.last() == point,
            visited(record@, point),
            forall|i: int|
                0 <= i < reversed@.len() - 1 ==> #[trigger] reversed@[i] != start && reversed@[i
                    + 1] == predecessor(record@, reversed@[i]),
        decreases first_visit(record@, point),
    {
        proof {
            assert(point_index_entries(lookup).contains_key(point));
        }
        let position = match lookup.get(point) {
            Some(position) => position,
            None => {
                proof {
                    assert(false);
                }
                0
            },
        };
        proof {
            lemma_first_visit_unique(record@, point, position as int);
            assert(record@[0].point == start);
            let before = record@[position as int].previous;
            let j = choose|j: int|
                0 <= j < position && j < record@.len() && (#[trigger] record@[j]).point == before;
            assert(visited(record@, before));
            assert(point_index_entries(lookup).contains_key(before));
            let earlier = point_index_entries(lookup)[before] as int;
            lemma_first_visit_unique(record@, before, earlier);
            if earlier >= position {
                assert(visited_before(record@, earlier, before));
            }
        }
        let ghost last = reversed@.len() - 1;
        let ghost shorter = reversed@;
        point = record[position].previous;
        reversed.push(point);
        proof {
            assert forall|i: int| 0 <= i < reversed@.len() - 1 implies #[trigger] reversed@[i]
                != start && reversed@[i + 1] == predecessor(record@, reversed@[i]) by {
                if i < last {
                    assert(reversed@[i + 1] == shorter[i + 1]);
                }
            }
        }
    }
    let mut path: Vec<Point> = Vec::new();
    let mut k: usize = reversed.len();
    while k > 0
        invariant
            k <= reversed@.len(),
            path@.len() == reversed@.len() - k,
            forall|i: int| 0 <= i < path@.len() ==> path@[i] == reversed@[reversed@.len() - 1 - i],
        decreases k,
    {
        k -= 1;
        path.push(reversed[k]);
    }
    proof {
        let n = reversed@.len() as int;
        assert forall|i: int| 0 < i < path@.len() implies #[trigger] path@[i] != start && path@[i
            - 1] == predecessor(record@, path@[i]) by {
            assert(path@[i] == reversed@[n - 1 - i]);
            assert(path@[i - 1] == reversed@[n - 1 - i + 1]);
        }
    }
    path
}

/// Finds a path from `start` to `end` by visiting cells in the order of
/// their cumulative cost, and fails if either cell lies outside the grid.
/// Where no cell has a negative cost the path is a cheapest one; with
/// negative costs it need not be.
pub fn calculate_shortest_path(start: Point, end: Point, grid: &Grid) -> (result: Result<
    Vec<Point>,
    GridError,
>)
    ensures
        result is Ok <==> grid.contains(start) && grid.contains(end),
        result matches Err(error) ==> error == GridError::OutOfBounds,
        result matches Ok(path) ==> {
            &&& path@ == shortest_path(start, end, grid@)
            &&& is_trace(path@, visitation_record(start, end, grid@), start, end)
            &&& is_path(path@, start, end, grid.spec_rows(), grid.spec_columns())
            &&& non_negative(grid@) ==> is_cheapest_path(path@, start, end, grid@)
        },
{
    if !grid.contains(start) || !grid.contains(end) {
        return Err(GridError::OutOfBounds);
    }
    let record = explore(start, end, grid);
    proof {
        assert(record@[record@.len() - 1].point == end);
    }
    let path = reconstruct(
        &record,
        start,
        end,
        Ghost(grid.spec_rows()),
        Ghost(grid.spec_columns()),
    );
    proof {
        lemma_path_determined(path@, start, end, grid@);
        lemma_trace_is_path(
            path@,
            record@,
            start,
            end,
            grid.spec_rows(),
            grid.spec_columns(),
        );
        if non_negative(grid@) {
            assert forall|other: Seq<Point>| #[trigger]
                is_path(
                    other,
                    start,
                    end,
                    grid@.len(),
                    grid@[0].len(),
                ) implies path_cost(path@, grid@) <= path_cost(other, grid@) by {
                lemma_shortest_path_is_cheapest(start, end, grid@, other);
            }
        }
    }
    Ok(path)
}

} // verus!
