//! Where no cell has a negative cost, the path that the finder returns is a
//! cheapest one.

use crate::cost::{cost_of, lemma_crossing, lemma_path_cost_next, lemma_path_cost_prefix};
use crate::cost::{lemma_path_prefix, non_negative, path_cost, stays_inside};
use crate::grid::{adjacent, in_bounds, is_rectangular, Cost, Point};
use crate::model::{arrived, cheapest, expansion, initial, is_cheapest, lemma_cheapest_unique};
use crate::model::{lemma_visited_push, search_after, step, visit_of, visited};
use crate::model::visited_before;
use crate::model::{visitation_record, Candidate, Search, Visit};
use crate::neighbors::{lemma_neighbors_complete, lemma_neighbors_sound, neighbors};
use crate::path::{is_first_visit, is_path, is_trace, lemma_first_visit_exists};
use crate::path::{lemma_first_visit_unique, lemma_path_determined, lemma_trace_exists};
use crate::path::{lemma_trace_is_path, lemma_trace_visited, predecessor, shortest_path};
use crate::progress::{lemma_cheapest_exists, lemma_frontier_nonempty, lemma_search_inv_after};
use crate::progress::{lemma_search_terminates, still_searching};
use crate::soundness::{lemma_expansion_complete, lemma_expansion_members, lemma_extents_fit};
use crate::soundness::{lemma_step, lemma_taken, record_ok, search_inv};
use vstd::prelude::*;

verus! {

/// The costs of the candidates that the search has removed after the given
/// number of steps, in the order of their removal: one for each visit of the
/// record.
pub open spec fn cost_log(start: Point, end: Point, cells: Seq<Seq<Cost>>, steps: nat) -> Seq<int>
    decreases steps,
{
    if steps == 0 {
        Seq::empty()
    } else {
        let before = search_after(start, end, cells, (steps - 1) as nat);
        cost_log(start, end, cells, (steps - 1) as nat).push(
            before.frontier[cheapest(before.frontier)].cost,
        )
    }
}

/// Whether `cost` is the cost logged for one of the first `limit` visits, a
/// visit to `previous`, plus the cost of entering `point`.
pub open spec fn derived(
    record: Seq<Visit>,
    costs: Seq<int>,
    cells: Seq<Seq<Cost>>,
    limit: int,
    previous: Point,
    point: Point,
    cost: int,
) -> bool {
    exists|j: int|
        0 <= j < limit && j < record.len() && (#[trigger] record[j]).point == previous && cost
            == costs[j] + cost_of(cells, point)
}

/// Whether the frontier holds a candidate for `point` that costs at most
/// `limit`.
pub open spec fn offered(frontier: Seq<Candidate>, point: Point, limit: int) -> bool {
    exists|k: int|
        0 <= k < frontier.len() && (#[trigger] frontier[k]).point == point && frontier[k].cost
            <= limit
}

/// What holds of the record and the costs logged for it, where no cost of a
/// cell is negative: the costs never fall, each later one adds the cost of
/// its cell to the cost logged for an earlier visit to the cell before it,
/// and no path from the start to a cell costs less than what was logged
/// when the cell was first visited.
pub open spec fn log_ok(
    record: Seq<Visit>,
    costs: Seq<int>,
    start: Point,
    cells: Seq<Seq<Cost>>,
) -> bool {
    &&& costs.len() == record.len()
    &&& record.len() > 0 ==> costs[0] == 0
    &&& forall|i: int, j: int| 0 <= i <= j < costs.len() ==> #[trigger] costs[i] <= #[trigger] costs[j]
    &&& forall|i: int|
        0 < i < record.len() ==> derived(
            record,
            costs,
            cells,
            i,
            (#[trigger] record[i]).previous,
            record[i].point,
            costs[i],
        )
    &&& forall|i: int, route: Seq<Point>|
        0 <= i < record.len() && is_first_visit(record, record[i].point, i) && #[trigger] is_path(
            route,
            start,
            record[i].point,
            cells.len(),
            cells[0].len(),
        ) ==> costs[i] <= path_cost(route, cells)
}

/// What holds of the frontier besides, as long as the search has not
/// arrived: no candidate is cheaper than what was logged last, each adds the
/// cost of its cell to the cost logged for a visit to the cell before it,
/// and each unvisited neighbour of a visited cell has a candidate that costs
/// no more than such a step from that visit.
pub open spec fn frontier_log_ok(
    search: Search,
    costs: Seq<int>,
    start: Point,
    cells: Seq<Seq<Cost>>,
) -> bool {
    let frontier = search.frontier;
    let record = search.record;
    if record.len() == 0 {
        frontier == initial(start).frontier
    } else {
        &&& forall|k: int|
            0 <= k < frontier.len() ==> (#[trigger] frontier[k]).cost >= costs[costs.len() - 1]
        &&& forall|k: int|
            0 <= k < frontier.len() ==> derived(
                record,
                costs,
                cells,
                record.len() as int,
                (#[trigger] frontier[k]).previous,
                frontier[k].point,
                frontier[k].cost,
            )
        &&& forall|i: int, v: Point|
            0 <= i < record.len() && in_bounds(v, cells.len(), cells[0].len())
                && #[trigger] adjacent(record[i].point, v) && !visited(record, v) ==> offered(
                frontier,
                v,
                costs[i] + cost_of(cells, v),
            )
    }
}

/// The cost of a cell of a rectangle without negative costs is not negative.
pub proof fn lemma_cost_of_inside(cells: Seq<Seq<Cost>>, point: Point)
    requires
        is_rectangular(cells),
        non_negative(cells),
        in_bounds(point, cells.len(), cells[0].len()),
    ensures
        cost_of(cells, point) >= 0,
{
    assert(cells[point.0 as int].len() == cells[0].len());
    assert(cells[point.0 as int][point.1 as int] >= 0);
}

/// The candidate removed when a cell is first visited costs no more than
/// any path from the start to that cell.
pub proof fn lemma_first_visit_is_cheapest(
    search: Search,
    costs: Seq<int>,
    start: Point,
    end: Point,
    cells: Seq<Seq<Cost>>,
    index: int,
    route: Seq<Point>,
)
    requires
        is_rectangular(cells),
        non_negative(cells),
        in_bounds(start, cells.len(), cells[0].len()),
        search_inv(search, start, end, cells),
        is_cheapest(search.frontier, index),
        log_ok(search.record, costs, start, cells),
        frontier_log_ok(search, costs, start, cells),
        !visited(search.record, search.frontier[index].point),
        is_path(route, start, search.frontier[index].point, cells.len(), cells[0].len()),
    ensures
        search.frontier[index].cost <= path_cost(route, cells),
{
    reveal(search_inv);
    let rows = cells.len();
    let columns = cells[0].len();
    let record = search.record;
    let frontier = search.frontier;
    let taken = frontier[index];
    assert(stays_inside(route, rows, columns));
    if record.len() == 0 {
        lemma_path_cost_prefix(route, cells, 0);
    } else {
        assert(record[0].point == start);
        let i = lemma_crossing(route, record, start, taken.point, rows, columns);
        let from = route[i];
        let onto = route[i + 1];
        let first = lemma_first_visit_exists(record, from, record.len() as int);
        lemma_path_prefix(route, start, taken.point, rows, columns, i + 1);
        let prefix = route.take(i + 1);
        assert(is_path(prefix, start, record[first].point, rows, columns));
        assert(costs[first] <= path_cost(prefix, cells));
        assert(adjacent(route[i + 1 - 1], route[i + 1]));
        assert(in_bounds(route[i + 1], rows, columns));
        assert(adjacent(record[first].point, onto));
        assert(offered(frontier, onto, costs[first] + cost_of(cells, onto)));
        let k = choose|k: int|
            0 <= k < frontier.len() && (#[trigger] frontier[k]).point == onto && frontier[k].cost
                <= costs[first] + cost_of(cells, onto);
        assert(frontier[k].cost >= taken.cost);
        lemma_path_cost_next(route, cells, i + 1);
        lemma_path_cost_prefix(route, cells, i + 2);
    }
}

/// A step keeps what holds of the record and its costs.
pub proof fn lemma_log_step(
    search: Search,
    costs: Seq<int>,
    start: Point,
    end: Point,
    cells: Seq<Seq<Cost>>,
    index: int,
)
    requires
        is_rectangular(cells),
        non_negative(cells),
        in_bounds(start, cells.len(), cells[0].len()),
        search_inv(search, start, end, cells),
        is_cheapest(search.frontier, index),
        log_ok(search.record, costs, start, cells),
        frontier_log_ok(search, costs, start, cells),
    ensures
        log_ok(
            search.record.push(visit_of(search.frontier[index])),
            costs.push(search.frontier[index].cost),
            start,
            cells,
        ),
{
    let rows = cells.len();
    let columns = cells[0].len();
    let record = search.record;
    let taken = search.frontier[index];
    let longer = record.push(visit_of(taken));
    let more = costs.push(taken.cost);
    assert forall|i: int, j: int| 0 <= i <= j < more.len() implies #[trigger] more[i]
        <= #[trigger] more[j] by {
        if j < costs.len() {
            assert(costs[i] <= costs[j]);
        } else if i < costs.len() {
            assert(costs[i] <= costs[costs.len() - 1]);
        }
    }
    assert forall|i: int| 0 < i < longer.len() implies derived(
        longer,
        more,
        cells,
        i,
        (#[trigger] longer[i]).previous,
        longer[i].point,
        more[i],
    ) by {
        if i < record.len() {
            assert(longer[i] == record[i]);
            let j = choose|j: int|
                0 <= j < i && j < record.len() && (#[trigger] record[j]).point
                    == record[i].previous && costs[i] == costs[j] + cost_of(cells, record[i].point);
            assert(longer[j].point == longer[i].previous);
        } else {
            let j = choose|j: int|
                0 <= j < record.len() && (#[trigger] record[j]).point == taken.previous
                    && taken.cost == costs[j] + cost_of(cells, taken.point);
            assert(longer[j].point == longer[i].previous);
        }
    }
    assert forall|i: int, route: Seq<Point>|
        0 <= i < longer.len() && is_first_visit(longer, longer[i].point, i) && #[trigger] is_path(
            route,
            start,
            longer[i].point,
            rows,
            columns,
        ) implies more[i] <= path_cost(route, cells) by {
        if i < record.len() {
            assert(longer[i] == record[i]);
            if visited_before(record, i, record[i].point) {
                let j = choose|j: int|
                    0 <= j < i && j < record.len() && (#[trigger] record[j]).point
                        == record[i].point;
                assert(longer[j].point == longer[i].point);
            }
            assert(is_first_visit(record, record[i].point, i));
            assert(is_path(route, start, record[i].point, rows, columns));
        } else {
            if visited(record, taken.point) {
                let j = choose|j: int|
                    0 <= j < record.len() && (#[trigger] record[j]).point == taken.point;
                assert(longer[j].point == taken.point);
            }
            lemma_first_visit_is_cheapest(search, costs, start, end, cells, index, route);
        }
    }
}

/// A cost derived from the record stays derived when a visit is appended.
pub proof fn lemma_derived_push(
    record: Seq<Visit>,
    costs: Seq<int>,
    cells: Seq<Seq<Cost>>,
    visit: Visit,
    logged: int,
    previous: Point,
    point: Point,
    cost: int,
)
    requires
        costs.len() == record.len(),
        derived(record, costs, cells, record.len() as int, previous, point, cost),
    ensures
        derived(
            record.push(visit),
            costs.push(logged),
            cells,
            (record.len() + 1) as int,
            previous,
            point,
            cost,
        ),
{
    let j = choose|j: int|
        0 <= j < record.len() && (#[trigger] record[j]).point == previous && cost == costs[j]
            + cost_of(cells, point);
    assert(record.push(visit)[j].point == previous);
    assert(costs.push(logged)[j] == costs[j]);
}

/// The cost of a step from the visit appended last is derived from the
/// record.
pub proof fn lemma_derived_last(
    record: Seq<Visit>,
    costs: Seq<int>,
    cells: Seq<Seq<Cost>>,
    visit: Visit,
    logged: int,
    point: Point,
)
    requires
        costs.len() == record.len(),
    ensures
        derived(
            record.push(visit),
            costs.push(logged),
            cells,
            (record.len() + 1) as int,
            visit.point,
            point,
            logged + cost_of(cells, point),
        ),
{
    assert(record.push(visit)[record.len() as int].point == visit.point);
    assert(costs.push(logged)[record.len() as int] == logged);
}

/// After a step that does not arrive, each unvisited neighbour of a visited
/// cell is offered again at no more than a step from that visit costs.
pub proof fn lemma_offered_step(
    frontier: Seq<Candidate>,
    record: Seq<Visit>,
    costs: Seq<int>,
    cells: Seq<Seq<Cost>>,
    index: int,
    i: int,
    v: Point,
)
    requires
        0 <= index < frontier.len(),
        costs.len() == record.len(),
        forall|i: int, v: Point|
            0 <= i < record.len() && in_bounds(v, cells.len(), cells[0].len())
                && #[trigger] adjacent(record[i].point, v) && !visited(record, v) ==> offered(
                frontier,
                v,
                costs[i] + cost_of(cells, v),
            ),
        0 <= i <= record.len(),
        in_bounds(v, cells.len(), cells[0].len()),
        adjacent(record.push(visit_of(frontier[index]))[i].point, v),
        !visited(record.push(visit_of(frontier[index])), v),
    ensures
        offered(
            frontier.remove(index) + expansion(
                frontier[index],
                neighbors(frontier[index].point, cells.len(), cells[0].len()),
                record.push(visit_of(frontier[index])),
                cells,
            ),
            v,
            costs.push(frontier[index].cost)[i] + cost_of(cells, v),
        ),
{
    let rows = cells.len();
    let columns = cells[0].len();
    let taken = frontier[index];
    let visit = visit_of(taken);
    let longer = record.push(visit);
    let rest = frontier.remove(index);
    let around = neighbors(taken.point, rows, columns);
    let pushed = expansion(taken, around, longer, cells);
    let grown = rest + pushed;
    lemma_visited_push(record, visit, v);
    if i < record.len() {
        assert(longer[i] == record[i]);
        assert(adjacent(record[i].point, v));
        assert(offered(frontier, v, costs[i] + cost_of(cells, v)));
        let k = choose|k: int|
            0 <= k < frontier.len() && (#[trigger] frontier[k]).point == v && frontier[k].cost
                <= costs[i] + cost_of(cells, v);
        if k < index {
            assert(grown[k] == frontier[k]);
        } else {
            assert(grown[k - 1] == frontier[k]);
        }
    } else {
        lemma_neighbors_complete(taken.point, rows, columns, v);
        let m = choose|m: int| 0 <= m < around.len() && around[m] == v;
        let k = lemma_expansion_complete(taken, around, longer, cells, m);
        assert(grown[rest.len() + k] == pushed[k]);
    }
}

/// After a step that does not arrive, each candidate costs at least as much
/// as the one removed, and its cost is derived from the record.
pub proof fn lemma_candidate_log_step(
    frontier: Seq<Candidate>,
    record: Seq<Visit>,
    costs: Seq<int>,
    cells: Seq<Seq<Cost>>,
    index: int,
    k: int,
)
    requires
        is_rectangular(cells),
        non_negative(cells),
        costs.len() == record.len(),
        is_cheapest(frontier, index),
        in_bounds(frontier[index].point, cells.len(), cells[0].len()),
        record.len() == 0 ==> frontier.len() == 1,
        record.len() > 0 ==> forall|k: int|
            0 <= k < frontier.len() ==> derived(
                record,
                costs,
                cells,
                record.len() as int,
                (#[trigger] frontier[k]).previous,
                frontier[k].point,
                frontier[k].cost,
            ),
        0 <= k < frontier.len() - 1 + expansion(
            frontier[index],
            neighbors(frontier[index].point, cells.len(), cells[0].len()),
            record.push(visit_of(frontier[index])),
            cells,
        ).len(),
    ensures
        ({
            let taken = frontier[index];
            let longer = record.push(visit_of(taken));
            let grown = frontier.remove(index) + expansion(
                taken,
                neighbors(taken.point, cells.len(), cells[0].len()),
                longer,
                cells,
            );
            &&& grown[k].cost >= taken.cost
            &&& derived(
                longer,
                costs.push(taken.cost),
                cells,
                longer.len() as int,
                grown[k].previous,
                grown[k].point,
                grown[k].cost,
            )
        }),
{
    let rows = cells.len();
    let columns = cells[0].len();
    lemma_extents_fit(cells);
    let taken = frontier[index];
    let visit = visit_of(taken);
    let longer = record.push(visit);
    let rest = frontier.remove(index);
    let around = neighbors(taken.point, rows, columns);
    let pushed = expansion(taken, around, longer, cells);
    let grown = rest + pushed;
    if k < rest.len() {
        let origin = if k < index {
            k
        } else {
            k + 1
        };
        assert(grown[k] == frontier[origin]);
        assert(frontier[origin].cost >= taken.cost);
        lemma_derived_push(
            record,
            costs,
            cells,
            visit,
            taken.cost,
            frontier[origin].previous,
            frontier[origin].point,
            frontier[origin].cost,
        );
    } else {
        let m = lemma_expansion_members(taken, around, longer, cells, k - rest.len());
        assert(grown[k] == pushed[k - rest.len()]);
        lemma_neighbors_sound(taken.point, rows, columns, m);
        lemma_cost_of_inside(cells, around[m]);
        lemma_derived_last(record, costs, cells, visit, taken.cost, around[m]);
    }
}

/// A step that does not arrive keeps what holds of the frontier.
pub proof fn lemma_frontier_log_step(
    search: Search,
    costs: Seq<int>,
    start: Point,
    end: Point,
    cells: Seq<Seq<Cost>>,
    index: int,
)
    requires
        is_rectangular(cells),
        non_negative(cells),
        in_bounds(search.frontier[index].point, cells.len(), cells[0].len()),
        is_cheapest(search.frontier, index),
        costs.len() == search.record.len(),
        frontier_log_ok(search, costs, start, cells),
        search.frontier[index].point != end,
    ensures
        frontier_log_ok(
            step(search, end, cells),
            costs.push(search.frontier[index].cost),
            start,
            cells,
        ),
{
    reveal(step);
    let rows = cells.len();
    let columns = cells[0].len();
    lemma_cheapest_unique(search.frontier, index);
    let frontier = search.frontier;
    let record = search.record;
    let taken = frontier[index];
    let longer = record.push(visit_of(taken));
    let more = costs.push(taken.cost);
    let grown = frontier.remove(index) + expansion(
        taken,
        neighbors(taken.point, rows, columns),
        longer,
        cells,
    );
    assert(step(search, end, cells).frontier == grown);
    assert(step(search, end, cells).record == longer);
    assert(more[more.len() - 1] == taken.cost);
    assert forall|k: int| 0 <= k < grown.len() implies (#[trigger] grown[k]).cost >= more[more.len()
        - 1] && derived(
        longer,
        more,
        cells,
        longer.len() as int,
        grown[k].previous,
        grown[k].point,
        grown[k].cost,
    ) by {
        lemma_candidate_log_step(frontier, record, costs, cells, index, k);
    }
    assert forall|i: int, v: Point|
        0 <= i < longer.len() && in_bounds(v, rows, columns) && #[trigger] adjacent(
            longer[i].point,
            v,
        ) && !visited(longer, v) implies offered(grown, v, more[i] + cost_of(cells, v)) by {
        lemma_offered_step(frontier, record, costs, cells, index, i, v);
    }
}

/// Where no cost is negative, the record and the costs logged for it are
/// sound after any number of steps that the search takes, and so is the
/// frontier as long as the search has not arrived.
pub proof fn lemma_log_after(start: Point, end: Point, cells: Seq<Seq<Cost>>, steps: nat)
    requires
        is_rectangular(cells),
        non_negative(cells),
        in_bounds(start, cells.len(), cells[0].len()),
        in_bounds(end, cells.len(), cells[0].len()),
        forall|earlier: nat|
            earlier < steps ==> !arrived(#[trigger] search_after(start, end, cells, earlier), end),
    ensures
        log_ok(
            search_after(start, end, cells, steps).record,
            cost_log(start, end, cells, steps),
            start,
            cells,
        ),
        !arrived(search_after(start, end, cells, steps), end) ==> frontier_log_ok(
            search_after(start, end, cells, steps),
            cost_log(start, end, cells, steps),
            start,
            cells,
        ),
    decreases steps,
{
    if steps > 0 {
        let sooner = (steps - 1) as nat;
        let before = search_after(start, end, cells, sooner);
        let costs = cost_log(start, end, cells, sooner);
        lemma_log_after(start, end, cells, sooner);
        assert(still_searching(start, end, cells, sooner));
        lemma_search_inv_after(start, end, cells, sooner);
        lemma_frontier_nonempty(before, start, end, cells);
        let index = lemma_cheapest_exists(before.frontier);
        lemma_cheapest_unique(before.frontier, index);
        lemma_step(before, start, end, cells, index);
        lemma_log_step(before, costs, start, end, cells, index);
        if before.frontier[index].point != end {
            lemma_taken(before, start, end, cells, index);
            lemma_frontier_log_step(before, costs, start, end, cells, index);
        }
    }
}

/// Where no cost is negative, the beginning of the path that the record
/// holds costs no more than what was logged when the cell it stops at was
/// first visited.
pub proof fn lemma_trace_cost(
    path: Seq<Point>,
    record: Seq<Visit>,
    costs: Seq<int>,
    start: Point,
    end: Point,
    cells: Seq<Seq<Cost>>,
    i: int,
) -> (first: int)
    requires
        is_trace(path, record, start, end),
        record_ok(record, start, cells.len(), cells[0].len()),
        visited(record, end),
        log_ok(record, costs, start, cells),
        0 <= i < path.len(),
    ensures
        is_first_visit(record, path[i], first),
        path_cost(path.take(i + 1), cells) <= costs[first],
    decreases i,
{
    lemma_trace_visited(path, record, start, end, cells.len(), cells[0].len(), i);
    let first = lemma_first_visit_exists(record, path[i], record.len() as int);
    assert(record[0].point == start);
    if i == 0 {
        assert(path.take(1).len() == 1);
    } else {
        let earlier = lemma_trace_cost(path, record, costs, start, end, cells, i - 1);
        lemma_first_visit_unique(record, path[i], first);
        assert(path[i] != start && path[i - 1] == predecessor(record, path[i]));
        let j = choose|j: int|
            0 <= j < first && j < record.len() && (#[trigger] record[j]).point
                == record[first].previous && costs[first] == costs[j] + cost_of(
                cells,
                record[first].point,
            );
        assert(record[j].point == path[i - 1]);
        assert(costs[earlier] <= costs[j]);
        lemma_path_cost_next(path, cells, i);
    }
    first
}

/// Where no cost is negative, no path from the start to the end costs less
/// than the one that the finder returns.
pub proof fn lemma_shortest_path_is_cheapest(
    start: Point,
    end: Point,
    cells: Seq<Seq<Cost>>,
    other: Seq<Point>,
)
    requires
        is_rectangular(cells),
        non_negative(cells),
        in_bounds(start, cells.len(), cells[0].len()),
        in_bounds(end, cells.len(), cells[0].len()),
        is_path(other, start, end, cells.len(), cells[0].len()),
    ensures
        path_cost(shortest_path(start, end, cells), cells) <= path_cost(other, cells),
{
    let total = lemma_search_terminates(start, end, cells);
    let record = visitation_record(start, end, cells);
    let costs = cost_log(start, end, cells, total);
    lemma_log_after(start, end, cells, total);
    let path = lemma_trace_exists(record, start, end, cells.len(), cells[0].len());
    lemma_path_determined(path, start, end, cells);
    let first = lemma_trace_cost(path, record, costs, start, end, cells, path.len() - 1);
    assert(path.take(path.len() as int) =~= path);
    assert(is_path(other, start, record[first].point, cells.len(), cells[0].len()));
}

/// The path that the finder returns leads from the start to the end through
/// cells of the grid, each one step away from the one before it.
pub proof fn lemma_shortest_path_is_path(start: Point, end: Point, cells: Seq<Seq<Cost>>)
    requires
        is_rectangular(cells),
        in_bounds(start, cells.len(), cells[0].len()),
        in_bounds(end, cells.len(), cells[0].len()),
    ensures
        is_path(shortest_path(start, end, cells), start, end, cells.len(), cells[0].len()),
{
    let total = lemma_search_terminates(start, end, cells);
    let record = visitation_record(start, end, cells);
    let path = lemma_trace_exists(record, start, end, cells.len(), cells[0].len());
    lemma_path_determined(path, start, end, cells);
    lemma_trace_is_path(path, record, start, end, cells.len(), cells[0].len());
}

} // verus!
