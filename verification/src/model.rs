//! The search, stated as a mathematical state machine.
//!
//! A state is a frontier of candidates, kept in the order in which they were
//! pushed, and the record of the visits made so far. One step removes the
//! cheapest candidate, records the visit, and pushes a candidate for each
//! neighbour that has not been visited. The search is over when the end cell
//! has been recorded.

use crate::grid::{Cost, Point};
use crate::neighbors::neighbors;
use vstd::prelude::*;

verus! {

/// One entry of the visitation record: a finalized cell and the cell it was
/// reached from.
#[derive(Clone, Copy, Debug, PartialEq, Eq)]
pub struct Visit {
    pub point: Point,
    pub previous: Point,
}

/// A frontier entry: a cell, the cumulative cost of reaching it along one
/// route, and the cell before it on that route.
pub struct Candidate {
    pub point: Point,
    pub cost: int,
    pub previous: Point,
}

/// A state of the search.
pub struct Search {
    pub frontier: Seq<Candidate>,
    pub record: Seq<Visit>,
}

/// Whether one of the first `count` visits of the record is to `point`.
pub open spec fn visited_before(record: Seq<Visit>, count: int, point: Point) -> bool {
    exists|j: int| 0 <= j < count && j < record.len() && (#[trigger] record[j]).point == point
}

/// Whether the record holds a visit to `point`.
pub open spec fn visited(record: Seq<Visit>, point: Point) -> bool {
    visited_before(record, record.len() as int, point)
}

/// Whether `index` is the candidate to remove next: none is cheaper, and of
/// those that cost the same it was pushed last.
pub open spec fn is_cheapest(frontier: Seq<Candidate>, index: int) -> bool {
    &&& 0 <= index < frontier.len()
    &&& forall|j: int| 0 <= j < index ==> (#[trigger] frontier[j]).cost >= frontier[index].cost
    &&& forall|j: int|
        index < j < frontier.len() ==> (#[trigger] frontier[j]).cost > frontier[index].cost
}

/// The index of the candidate to remove next.
pub open spec fn cheapest(frontier: Seq<Candidate>) -> int {
    choose|index: int| is_cheapest(frontier, index)
}

/// The candidate for stepping from `from` onto `point`.
pub open spec fn reached(from: Candidate, point: Point, cells: Seq<Seq<Cost>>) -> Candidate {
    Candidate {
        point,
        cost: from.cost + cells[point.0 as int][point.1 as int],
        previous: from.point,
    }
}

/// The candidates pushed when `from` is expanded: one for each of the cells
/// `around` it that the record does not hold, in their order.
pub open spec fn expansion(
    from: Candidate,
    around: Seq<Point>,
    record: Seq<Visit>,
    cells: Seq<Seq<Cost>>,
) -> Seq<Candidate>
    decreases around.len(),
{
    if around.len() == 0 {
        Seq::empty()
    } else {
        let earlier = expansion(from, around.drop_last(), record, cells);
        if visited(record, around.last()) {
            earlier
        } else {
            earlier.push(reached(from, around.last(), cells))
        }
    }
}

/// The visit that removing a candidate records.
pub open spec fn visit_of(taken: Candidate) -> Visit {
    Visit { point: taken.point, previous: taken.previous }
}

/// One step of the search.
#[verifier::opaque]
pub open spec fn step(search: Search, end: Point, cells: Seq<Seq<Cost>>) -> Search {
    let index = cheapest(search.frontier);
    let taken = search.frontier[index];
    let record = search.record.push(visit_of(taken));
    let rest = search.frontier.remove(index);
    if taken.point == end {
        Search { frontier: rest, record }
    } else {
        let around = neighbors(taken.point, cells.len(), cells[0].len());
        Search { frontier: rest + expansion(taken, around, record, cells), record }
    }
}

/// The state in which the search begins.
pub open spec fn initial(start: Point) -> Search {
    Search {
        frontier: seq![Candidate { point: start, cost: 0, previous: start }],
        record: Seq::empty(),
    }
}

/// The state after the given number of steps.
pub open spec fn search_after(start: Point, end: Point, cells: Seq<Seq<Cost>>, steps: nat) -> Search
    decreases steps,
{
    if steps == 0 {
        initial(start)
    } else {
        step(search_after(start, end, cells, (steps - 1) as nat), end, cells)
    }
}

/// Whether the last visit recorded is to the end cell.
pub open spec fn arrived(search: Search, end: Point) -> bool {
    search.record.len() > 0 && search.record.last().point == end
}

/// Whether the search arrives after exactly `steps` steps, and not before.
pub open spec fn is_search_length(
    start: Point,
    end: Point,
    cells: Seq<Seq<Cost>>,
    steps: nat,
) -> bool {
    &&& arrived(search_after(start, end, cells, steps), end)
    &&& forall|earlier: nat|
        earlier < steps ==> !arrived(#[trigger] search_after(start, end, cells, earlier), end)
}

/// The visits that the search from `start` records until it arrives at `end`.
pub open spec fn visitation_record(start: Point, end: Point, cells: Seq<Seq<Cost>>) -> Seq<Visit> {
    search_after(
        start,
        end,
        cells,
        choose|steps: nat| is_search_length(start, end, cells, steps),
    ).record
}

/// Only one candidate of a frontier is the one to remove next.
pub proof fn lemma_cheapest_unique(frontier: Seq<Candidate>, index: int)
    requires
        is_cheapest(frontier, index),
    ensures
        cheapest(frontier) == index,
{
    let other = cheapest(frontier);
    assert(is_cheapest(frontier, other));
    if other < index {
        assert(frontier[other].cost >= frontier[index].cost);
        assert(frontier[index].cost > frontier[other].cost);
    } else if other > index {
        assert(frontier[index].cost >= frontier[other].cost);
        assert(frontier[other].cost > frontier[index].cost);
    }
}

/// A search arrives after only one number of steps.
pub proof fn lemma_search_length_unique(
    start: Point,
    end: Point,
    cells: Seq<Seq<Cost>>,
    steps: nat,
)
    requires
        is_search_length(start, end, cells, steps),
    ensures
        visitation_record(start, end, cells) == search_after(start, end, cells, steps).record,
{
    let other = choose|n: nat| is_search_length(start, end, cells, n);
    assert(is_search_length(start, end, cells, other));
    if other < steps {
        assert(!arrived(search_after(start, end, cells, other), end));
    } else if other > steps {
        assert(!arrived(search_after(start, end, cells, steps), end));
    }
}

/// A visit appended to the record adds its cell to the visited ones, and
/// nothing else.
pub proof fn lemma_visited_push(record: Seq<Visit>, visit: Visit, point: Point)
    ensures
        visited(record.push(visit), point) <==> visited(record, point) || point == visit.point,
{
    let longer = record.push(visit);
    if visited(record, point) {
        let j = choose|j: int| 0 <= j < record.len() && (#[trigger] record[j]).point == point;
        assert(longer[j].point == point);
    }
    if point == visit.point {
        assert(longer[record.len() as int].point == point);
    }
    if visited(longer, point) {
        let j = choose|j: int| 0 <= j < longer.len() && (#[trigger] longer[j]).point == point;
        if j < record.len() {
            assert(record[j].point == point);
        }
    }
}

} // verus!
