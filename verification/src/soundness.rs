//! What holds of every state that the search passes through.

use crate::grid::{adjacent, in_bounds, is_rectangular, Cost, Point};
use crate::model::{arrived, expansion, initial, is_cheapest, reached, step, visit_of};
use crate::model::{lemma_cheapest_unique, lemma_visited_push, visited, visited_before};
use crate::model::{Candidate, Search, Visit};
use crate::neighbors::{lemma_neighbors_complete, lemma_neighbors_sound, neighbors};
use crate::region::{cell_set, lemma_cell_set};
use vstd::prelude::*;

verus! {

/// No cost of a cell is larger in magnitude than this.
pub open spec fn cost_limit() -> int {
    0x8000_0000_0000_0000
}

/// The cells that the record holds a visit to.
pub open spec fn visited_set(record: Seq<Visit>) -> Set<Point> {
    Set::new(|p: Point| visited(record, p))
}

/// Whether a record is one that a search from `start` can have written: it
/// begins at `start`, stays in the rectangle, and each later visit steps from
/// a cell visited before it onto a cell next to that one.
pub open spec fn record_ok(record: Seq<Visit>, start: Point, rows: nat, columns: nat) -> bool {
    &&& record.len() > 0 ==> record[0] == (Visit { point: start, previous: start })
    &&& forall|i: int|
        0 <= i < record.len() ==> in_bounds((#[trigger] record[i]).point, rows, columns)
    &&& forall|i: int|
        0 < i < record.len() ==> adjacent((#[trigger] record[i]).previous, record[i].point)
            && visited_before(record, i, record[i].previous)
}

/// Whether the frontier holds a candidate for `point`.
pub open spec fn queued(frontier: Seq<Candidate>, point: Point) -> bool {
    exists|k: int| 0 <= k < frontier.len() && (#[trigger] frontier[k]).point == point
}

/// The number of visited cells other than `point`.
pub open spec fn spread(record: Seq<Visit>, point: Point) -> nat {
    visited_set(record).remove(point).len()
}

/// Whether a cumulative cost is at most one cost limit for each visited cell
/// other than `point`.
pub open spec fn within_budget(cost: int, record: Seq<Visit>, point: Point) -> bool {
    -(spread(record, point) * cost_limit()) <= cost <= spread(record, point) * cost_limit()
}

/// Whether a candidate steps from a visited cell onto a cell of the rectangle
/// next to it, at a cost within its budget.
pub open spec fn candidate_ok(
    candidate: Candidate,
    record: Seq<Visit>,
    rows: nat,
    columns: nat,
) -> bool {
    &&& in_bounds(candidate.point, rows, columns)
    &&& adjacent(candidate.previous, candidate.point)
    &&& visited(record, candidate.previous)
    &&& within_budget(candidate.cost, record, candidate.point)
}

/// Whether every cell of the rectangle that is next to a visited cell, and
/// not visited itself, has a candidate in the frontier.
pub open spec fn covered(
    frontier: Seq<Candidate>,
    record: Seq<Visit>,
    rows: nat,
    columns: nat,
) -> bool {
    forall|i: int, n: Point|
        0 <= i < record.len() && in_bounds(n, rows, columns) && #[trigger] adjacent(
            record[i].point,
            n,
        ) && !visited(record, n) ==> queued(frontier, n)
}

/// The visited cells are cells of the rectangle, so there are finitely many.
pub proof fn lemma_visited_set_finite(record: Seq<Visit>, start: Point, rows: nat, columns: nat)
    requires
        record_ok(record, start, rows, columns),
        rows <= usize::MAX,
        columns <= usize::MAX,
    ensures
        visited_set(record).finite(),
        visited_set(record).subset_of(cell_set(rows, columns)),
        visited_set(record).len() <= rows * columns,
{
    lemma_cell_set(rows, columns);
    assert forall|p: Point| visited_set(record).contains(p) implies cell_set(
        rows,
        columns,
    ).contains(p) by {
        let j = choose|j: int| 0 <= j < record.len() && (#[trigger] record[j]).point == p;
        assert(in_bounds(record[j].point, rows, columns));
    }
    vstd::set_lib::lemma_len_subset(visited_set(record), cell_set(rows, columns));
}

/// Appending a visit inserts its cell into the visited set.
pub proof fn lemma_visited_set_push(record: Seq<Visit>, visit: Visit)
    ensures
        visited_set(record.push(visit)) == visited_set(record).insert(visit.point),
{
    assert forall|p: Point|
        visited_set(record.push(visit)).contains(p) <==> visited_set(record).insert(
            visit.point,
        ).contains(p) by {
        lemma_visited_push(record, visit, p);
    }
    assert(visited_set(record.push(visit)) =~= visited_set(record).insert(visit.point));
}

/// Appending a visit shrinks no budget.
pub proof fn lemma_spread_grows(record: Seq<Visit>, visit: Visit, point: Point)
    requires
        visited_set(record).finite(),
    ensures
        spread(record.push(visit), point) >= spread(record, point),
{
    lemma_visited_set_push(record, visit);
    let before = visited_set(record);
    if visit.point == point {
        assert(before.insert(visit.point).remove(point) =~= before.remove(point));
    } else {
        assert(before.insert(visit.point).remove(point) =~= before.remove(point).insert(
            visit.point,
        ));
    }
}

/// The budget of a cell not yet visited is one limit more than the budget
/// that the cell visited last had before the visit.
pub proof fn lemma_spread_fresh(record: Seq<Visit>, visit: Visit, point: Point)
    requires
        visited_set(record).finite(),
        !visited(record.push(visit), point),
    ensures
        spread(record.push(visit), point) == spread(record, visit.point) + 1,
{
    lemma_visited_set_push(record, visit);
    let before = visited_set(record);
    let after = visited_set(record.push(visit));
    assert(after.remove(point) =~= after);
    assert(after =~= before.remove(visit.point).insert(visit.point));
}

/// Each candidate of an expansion steps onto one of the cells around that
/// the record does not hold.
pub proof fn lemma_expansion_members(
    from: Candidate,
    around: Seq<Point>,
    record: Seq<Visit>,
    cells: Seq<Seq<Cost>>,
    k: int,
) -> (m: int)
    requires
        0 <= k < expansion(from, around, record, cells).len(),
    ensures
        0 <= m < around.len(),
        !visited(record, around[m]),
        expansion(from, around, record, cells)[k] == reached(from, around[m], cells),
    decreases around.len(),
{
    let earlier = expansion(from, around.drop_last(), record, cells);
    if k < earlier.len() {
        lemma_expansion_members(from, around.drop_last(), record, cells, k)
    } else {
        around.len() - 1
    }
}

/// Each of the cells around that the record does not hold has its candidate
/// in the expansion.
pub proof fn lemma_expansion_complete(
    from: Candidate,
    around: Seq<Point>,
    record: Seq<Visit>,
    cells: Seq<Seq<Cost>>,
    m: int,
) -> (k: int)
    requires
        0 <= m < around.len(),
        !visited(record, around[m]),
    ensures
        0 <= k < expansion(from, around, record, cells).len(),
        expansion(from, around, record, cells)[k] == reached(from, around[m], cells),
    decreases around.len(),
{
    let earlier = expansion(from, around.drop_last(), record, cells);
    if m < around.len() - 1 {
        lemma_expansion_complete(from, around.drop_last(), record, cells, m)
    } else {
        earlier.len() as int
    }
}

/// What holds of a state as long as the search has not arrived: the record
/// is sound and does not hold the end, and either nothing has been visited
/// and the frontier is the initial one, or every candidate is sound and the
/// frontier covers the rim of the visited cells.
#[verifier::opaque]
pub open spec fn search_inv(search: Search, start: Point, end: Point, cells: Seq<Seq<Cost>>) -> bool {
    let rows = cells.len();
    let columns = cells[0].len();
    &&& record_ok(search.record, start, rows, columns)
    &&& !visited(search.record, end)
    &&& if search.record.len() == 0 {
        search.frontier == initial(start).frontier
    } else {
        &&& forall|k: int|
            0 <= k < search.frontier.len() ==> candidate_ok(
                #[trigger] search.frontier[k],
                search.record,
                rows,
                columns,
            )
        &&& covered(search.frontier, search.record, rows, columns)
    }
}

/// Neither extent of a rectangle exceeds the machine's largest index.
pub proof fn lemma_extents_fit(cells: Seq<Seq<Cost>>)
    requires
        is_rectangular(cells),
    ensures
        cells.len() <= usize::MAX,
        cells[0].len() <= usize::MAX,
{
    let rows = cells.len() as int;
    let columns = cells[0].len() as int;
    assert(rows <= rows * columns && columns <= rows * columns) by (nonlinear_arith)
        requires
            rows >= 1,
            columns >= 1,
    ;
}

/// A sound record stays sound when a visit is appended that begins it at the
/// start, or that steps from a visited cell onto a cell of the rectangle
/// next to it.
pub proof fn lemma_record_push(
    record: Seq<Visit>,
    visit: Visit,
    start: Point,
    rows: nat,
    columns: nat,
)
    requires
        record_ok(record, start, rows, columns),
        in_bounds(visit.point, rows, columns),
        record.len() == 0 ==> visit == (Visit { point: start, previous: start }),
        record.len() > 0 ==> adjacent(visit.previous, visit.point) && visited(
            record,
            visit.previous,
        ),
    ensures
        record_ok(record.push(visit), start, rows, columns),
{
    let longer = record.push(visit);
    assert forall|i: int| 0 <= i < longer.len() implies in_bounds(
        (#[trigger] longer[i]).point,
        rows,
        columns,
    ) by {
        if i < record.len() {
            assert(longer[i] == record[i]);
        }
    }
    assert forall|i: int| 0 < i < longer.len() implies adjacent(
        (#[trigger] longer[i]).previous,
        longer[i].point,
    ) && visited_before(longer, i, longer[i].previous) by {
        if i < record.len() {
            assert(longer[i] == record[i]);
            let j = choose|j: int|
                0 <= j < i && j < record.len() && (#[trigger] record[j]).point
                    == record[i].previous;
            assert(longer[j].point == longer[i].previous);
        } else {
            let j = choose|j: int|
                0 <= j < record.len() && (#[trigger] record[j]).point == visit.previous;
            assert(longer[j].point == longer[i].previous);
        }
    }
}

/// A sound candidate stays sound when a visit is appended to the record.
pub proof fn lemma_candidate_kept(
    candidate: Candidate,
    record: Seq<Visit>,
    visit: Visit,
    rows: nat,
    columns: nat,
)
    requires
        visited_set(record).finite(),
        candidate_ok(candidate, record, rows, columns),
    ensures
        candidate_ok(candidate, record.push(visit), rows, columns),
{
    lemma_visited_push(record, visit, candidate.previous);
    lemma_spread_grows(record, visit, candidate.point);
}

/// The candidate for a step from the cell visited last onto a neighbour not
/// yet visited is sound.
pub proof fn lemma_candidate_fresh(
    taken: Candidate,
    record: Seq<Visit>,
    cells: Seq<Seq<Cost>>,
    m: int,
)
    requires
        is_rectangular(cells),
        visited_set(record).finite(),
        within_budget(taken.cost, record, taken.point),
        0 <= m < neighbors(taken.point, cells.len(), cells[0].len()).len(),
        !visited(
            record.push(visit_of(taken)),
            neighbors(taken.point, cells.len(), cells[0].len())[m],
        ),
    ensures
        candidate_ok(
            reached(taken, neighbors(taken.point, cells.len(), cells[0].len())[m], cells),
            record.push(visit_of(taken)),
            cells.len(),
            cells[0].len(),
        ),
{
    let rows = cells.len();
    let columns = cells[0].len();
    let onto = neighbors(taken.point, rows, columns)[m];
    lemma_extents_fit(cells);
    lemma_neighbors_sound(taken.point, rows, columns, m);
    lemma_visited_push(record, visit_of(taken), taken.point);
    lemma_spread_fresh(record, visit_of(taken), onto);
}

/// After a step that does not arrive, the frontier covers the rim of the
/// visited cells again.
pub proof fn lemma_covered_step(
    frontier: Seq<Candidate>,
    record: Seq<Visit>,
    cells: Seq<Seq<Cost>>,
    index: int,
)
    requires
        0 <= index < frontier.len(),
        covered(frontier, record, cells.len(), cells[0].len()),
    ensures
        covered(
            frontier.remove(index) + expansion(
                frontier[index],
                neighbors(frontier[index].point, cells.len(), cells[0].len()),
                record.push(visit_of(frontier[index])),
                cells,
            ),
            record.push(visit_of(frontier[index])),
            cells.len(),
            cells[0].len(),
        ),
{
    let rows = cells.len();
    let columns = cells[0].len();
    let taken = frontier[index];
    let visit = visit_of(taken);
    let longer = record.push(visit);
    let rest = frontier.remove(index);
    let around = neighbors(taken.point, rows, columns);
    let pushed = expansion(taken, around, longer, cells);
    let grown = rest + pushed;
    assert forall|i: int, n: Point|
        0 <= i < longer.len() && in_bounds(n, rows, columns) && #[trigger] adjacent(
            longer[i].point,
            n,
        ) && !visited(longer, n) implies queued(grown, n) by {
        lemma_visited_push(record, visit, n);
        if i < record.len() {
            assert(longer[i] == record[i]);
            assert(adjacent(record[i].point, n));
            assert(queued(frontier, n));
            let k = choose|k: int| 0 <= k < frontier.len() && (#[trigger] frontier[k]).point == n;
            if k < index {
                assert(grown[k] == frontier[k]);
            } else {
                assert(grown[k - 1] == frontier[k]);
            }
        } else {
            lemma_neighbors_complete(taken.point, rows, columns, n);
            let m = choose|m: int| 0 <= m < around.len() && around[m] == n;
            let k = lemma_expansion_complete(taken, around, longer, cells, m);
            assert(grown[rest.len() + k] == pushed[k]);
        }
    }
}

/// The candidate removed next lies in the rectangle, within its budget, and
/// its visit may be appended to the record.
pub proof fn lemma_taken(search: Search, start: Point, end: Point, cells: Seq<Seq<Cost>>, index: int)
    requires
        is_rectangular(cells),
        in_bounds(start, cells.len(), cells[0].len()),
        search_inv(search, start, end, cells),
        0 <= index < search.frontier.len(),
    ensures
        in_bounds(search.frontier[index].point, cells.len(), cells[0].len()),
        within_budget(search.frontier[index].cost, search.record, search.frontier[index].point),
        record_ok(search.record, start, cells.len(), cells[0].len()),
        record_ok(
            search.record.push(visit_of(search.frontier[index])),
            start,
            cells.len(),
            cells[0].len(),
        ),
{
    reveal(search_inv);
    let taken = search.frontier[index];
    if search.record.len() == 0 {
        assert(visited_set(search.record) =~= Set::<Point>::empty());
        assert(visited_set(search.record).remove(taken.point) =~= Set::<Point>::empty());
    } else {
        assert(candidate_ok(taken, search.record, cells.len(), cells[0].len()));
    }
    lemma_record_push(search.record, visit_of(taken), start, cells.len(), cells[0].len());
}

/// A step from a state that satisfies the invariant records the candidate
/// removed, keeps the record sound, and either arrives or keeps the
/// invariant.
pub proof fn lemma_step(search: Search, start: Point, end: Point, cells: Seq<Seq<Cost>>, index: int)
    requires
        is_rectangular(cells),
        in_bounds(start, cells.len(), cells[0].len()),
        search_inv(search, start, end, cells),
        is_cheapest(search.frontier, index),
    ensures
        step(search, end, cells).record == search.record.push(visit_of(search.frontier[index])),
        record_ok(step(search, end, cells).record, start, cells.len(), cells[0].len()),
        search.frontier[index].point == end ==> arrived(step(search, end, cells), end),
        search.frontier[index].point != end ==> search_inv(step(search, end, cells), start, end, cells)
            && !arrived(step(search, end, cells), end),
{
    reveal(search_inv);
    reveal(step);
    let rows = cells.len();
    let columns = cells[0].len();
    lemma_cheapest_unique(search.frontier, index);
    lemma_taken(search, start, end, cells, index);
    lemma_extents_fit(cells);
    let frontier = search.frontier;
    let taken = frontier[index];
    let visit = visit_of(taken);
    let record = search.record;
    let longer = record.push(visit);
    let rest = frontier.remove(index);
    assert(longer.last().point == taken.point);
    if taken.point != end {
        lemma_visited_push(record, visit, end);
        let around = neighbors(taken.point, rows, columns);
        let pushed = expansion(taken, around, longer, cells);
        let grown = rest + pushed;
        lemma_visited_set_finite(record, start, rows, columns);
        assert forall|k: int| 0 <= k < grown.len() implies candidate_ok(
            #[trigger] grown[k],
            longer,
            rows,
            columns,
        ) by {
            if k < rest.len() {
                let origin = if k < index {
                    k
                } else {
                    k + 1
                };
                assert(grown[k] == frontier[origin]);
                lemma_candidate_kept(frontier[origin], record, visit, rows, columns);
            } else {
                let m = lemma_expansion_members(taken, around, longer, cells, k - rest.len());
                assert(grown[k] == pushed[k - rest.len()]);
                lemma_candidate_fresh(taken, record, cells, m);
            }
        }
        if record.len() == 0 {
            assert(rest =~= Seq::<Candidate>::empty());
            assert forall|i: int, n: Point|
                0 <= i < record.len() && in_bounds(n, rows, columns) && #[trigger] adjacent(
                    record[i].point,
                    n,
                ) && !visited(record, n) implies queued(frontier, n) by {}
        }
        lemma_covered_step(frontier, record, cells, index);
        assert(!visited(longer, end));
        if arrived(step(search, end, cells), end) {
            assert(longer[longer.len() - 1].point == end);
        }
    }
}

} // verus!
