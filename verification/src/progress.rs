//! Why the search cannot run dry and cannot run forever.

use crate::grid::{adjacent, in_bounds, is_rectangular, Cost, Point};
use crate::model::{arrived, expansion, is_cheapest, is_search_length, search_after};
use crate::model::{lemma_cheapest_unique, lemma_search_length_unique, lemma_visited_push};
use crate::model::{step, visit_of, visitation_record, visited, Candidate, Search, Visit};
use crate::neighbors::neighbors;
use crate::region::{cell_set, lemma_cell_set};
use crate::soundness::{lemma_extents_fit, lemma_step, lemma_taken, lemma_visited_set_finite};
use crate::soundness::{lemma_visited_set_push, queued, record_ok, search_inv, visited_set};
use vstd::prelude::*;

verus! {

/// The number of steps between two cells.
pub open spec fn steps_between(a: Point, b: Point) -> nat {
    (if a.0 <= b.0 {
        b.0 - a.0
    } else {
        a.0 - b.0
    } + if a.1 <= b.1 {
        b.1 - a.1
    } else {
        a.1 - b.1
    }) as nat
}

/// The cell one step from `from` towards `end`, rows first.
pub open spec fn towards(from: Point, end: Point) -> Point {
    if from.0 < end.0 {
        ((from.0 + 1) as usize, from.1)
    } else if from.0 > end.0 {
        ((from.0 - 1) as usize, from.1)
    } else if from.1 < end.1 {
        (from.0, (from.1 + 1) as usize)
    } else {
        (from.0, (from.1 - 1) as usize)
    }
}

/// When a cell of the rectangle is visited and another is not, some visited
/// cell has a neighbour in the rectangle that is not visited: the walk from
/// the one to the other crosses the rim.
pub proof fn lemma_rim(record: Seq<Visit>, from: Point, end: Point, rows: nat, columns: nat) -> (found:
    (int, Point))
    requires
        visited(record, from),
        !visited(record, end),
        in_bounds(from, rows, columns),
        in_bounds(end, rows, columns),
    ensures
        0 <= found.0 < record.len(),
        in_bounds(found.1, rows, columns),
        adjacent(record[found.0].point, found.1),
        !visited(record, found.1),
    decreases steps_between(from, end),
{
    let next = towards(from, end);
    if visited(record, next) {
        lemma_rim(record, next, end, rows, columns)
    } else {
        let i = choose|i: int| 0 <= i < record.len() && (#[trigger] record[i]).point == from;
        (i, next)
    }
}

/// As long as the search has not arrived, its frontier holds a candidate.
pub proof fn lemma_frontier_nonempty(
    search: Search,
    start: Point,
    end: Point,
    cells: Seq<Seq<Cost>>,
)
    requires
        in_bounds(start, cells.len(), cells[0].len()),
        in_bounds(end, cells.len(), cells[0].len()),
        search_inv(search, start, end, cells),
    ensures
        search.frontier.len() > 0,
{
    reveal(search_inv);
    if search.record.len() > 0 {
        assert(search.record[0].point == start);
        let found = lemma_rim(search.record, start, end, cells.len(), cells[0].len());
        assert(adjacent(search.record[found.0].point, found.1));
        assert(queued(search.frontier, found.1));
    }
}

/// The number of cells of the rectangle that have not been visited.
pub open spec fn unvisited_count(record: Seq<Visit>, rows: nat, columns: nat) -> nat {
    cell_set(rows, columns).difference(visited_set(record)).len()
}

/// The number of candidates for cells that have been visited.
pub open spec fn stale_count(frontier: Seq<Candidate>, record: Seq<Visit>) -> nat
    decreases frontier.len(),
{
    if frontier.len() == 0 {
        0
    } else {
        stale_count(frontier.drop_last(), record) + if visited(record, frontier.last().point) {
            1nat
        } else {
            0nat
        }
    }
}

proof fn lemma_stale_concat(a: Seq<Candidate>, b: Seq<Candidate>, record: Seq<Visit>)
    ensures
        stale_count(a + b, record) == stale_count(a, record) + stale_count(b, record),
    decreases b.len(),
{
    if b.len() == 0 {
        assert(a + b =~= a);
    } else {
        assert((a + b).drop_last() =~= a + b.drop_last());
        lemma_stale_concat(a, b.drop_last(), record);
    }
}

proof fn lemma_stale_same(frontier: Seq<Candidate>, one: Seq<Visit>, other: Seq<Visit>)
    requires
        forall|p: Point| visited(one, p) == visited(other, p),
    ensures
        stale_count(frontier, one) == stale_count(frontier, other),
    decreases frontier.len(),
{
    if frontier.len() > 0 {
        lemma_stale_same(frontier.drop_last(), one, other);
    }
}

proof fn lemma_stale_remove(frontier: Seq<Candidate>, record: Seq<Visit>, index: int)
    requires
        0 <= index < frontier.len(),
    ensures
        stale_count(frontier, record) == stale_count(frontier.remove(index), record) + if visited(
            record,
            frontier[index].point,
        ) {
            1nat
        } else {
            0nat
        },
    decreases frontier.len(),
{
    if index == frontier.len() - 1 {
        assert(frontier.remove(index) =~= frontier.drop_last());
    } else {
        assert(frontier.remove(index).drop_last() =~= frontier.drop_last().remove(index));
        lemma_stale_remove(frontier.drop_last(), record, index);
    }
}

proof fn lemma_stale_expansion(
    from: Candidate,
    around: Seq<Point>,
    record: Seq<Visit>,
    cells: Seq<Seq<Cost>>,
)
    ensures
        stale_count(expansion(from, around, record, cells), record) == 0,
    decreases around.len(),
{
    if around.len() > 0 {
        lemma_stale_expansion(from, around.drop_last(), record, cells);
        let earlier = expansion(from, around.drop_last(), record, cells);
        if !visited(record, around.last()) {
            assert(expansion(from, around, record, cells).drop_last() =~= earlier);
        }
    }
}

/// Each step that does not arrive visits a cell for the first time, or else
/// leaves one stale candidate fewer.
pub proof fn lemma_step_progress(
    search: Search,
    start: Point,
    end: Point,
    cells: Seq<Seq<Cost>>,
    index: int,
)
    requires
        is_rectangular(cells),
        in_bounds(start, cells.len(), cells[0].len()),
        search_inv(search, start, end, cells),
        is_cheapest(search.frontier, index),
        search.frontier[index].point != end,
    ensures
        ({
            let next = step(search, end, cells);
            let before = unvisited_count(search.record, cells.len(), cells[0].len());
            let after = unvisited_count(next.record, cells.len(), cells[0].len());
            after < before || (after == before && stale_count(next.frontier, next.record)
                < stale_count(search.frontier, search.record))
        }),
{
    reveal(step);
    let rows = cells.len();
    let columns = cells[0].len();
    lemma_cheapest_unique(search.frontier, index);
    lemma_taken(search, start, end, cells, index);
    lemma_extents_fit(cells);
    lemma_cell_set(rows, columns);
    let frontier = search.frontier;
    let taken = frontier[index];
    let record = search.record;
    let longer = record.push(visit_of(taken));
    lemma_visited_set_finite(record, start, rows, columns);
    lemma_visited_set_push(record, visit_of(taken));
    let all = cell_set(rows, columns);
    let seen = visited_set(record);
    if visited(record, taken.point) {
        assert(seen.insert(taken.point) =~= seen);
        let rest = frontier.remove(index);
        let pushed = expansion(taken, neighbors(taken.point, rows, columns), longer, cells);
        lemma_stale_concat(rest, pushed, longer);
        lemma_stale_expansion(taken, neighbors(taken.point, rows, columns), longer, cells);
        assert forall|p: Point| visited(longer, p) == visited(record, p) by {
            lemma_visited_push(record, visit_of(taken), p);
        }
        lemma_stale_same(rest, longer, record);
        lemma_stale_remove(frontier, record, index);
    } else {
        assert(all.difference(seen.insert(taken.point)) =~= all.difference(seen).remove(
            taken.point,
        ));
        assert(all.difference(seen).contains(taken.point));
    }
}

/// A frontier that holds a candidate holds one to remove next.
pub proof fn lemma_cheapest_exists(frontier: Seq<Candidate>) -> (index: int)
    requires
        frontier.len() > 0,
    ensures
        is_cheapest(frontier, index),
    decreases frontier.len(),
{
    let shorter = frontier.drop_last();
    if shorter.len() == 0 {
        0
    } else {
        let best = lemma_cheapest_exists(shorter);
        assert forall|j: int| 0 <= j < shorter.len() implies (#[trigger] frontier[j]) == shorter[j] by {}
        if frontier.last().cost <= shorter[best].cost {
            let last = frontier.len() - 1;
            assert forall|j: int| 0 <= j < last implies (#[trigger] frontier[j]).cost
                >= frontier[last].cost by {
                assert(shorter[j].cost >= shorter[best].cost);
            }
            last
        } else {
            assert forall|j: int| best < j < frontier.len() implies (#[trigger] frontier[j]).cost
                > frontier[best].cost by {
                if j < shorter.len() {
                    assert(shorter[j].cost > shorter[best].cost);
                }
            }
            best
        }
    }
}

/// Whether the search has not arrived after any number of steps up to
/// `steps`.
pub open spec fn still_searching(start: Point, end: Point, cells: Seq<Seq<Cost>>, steps: nat) -> bool {
    forall|earlier: nat|
        earlier <= steps ==> !arrived(#[trigger] search_after(start, end, cells, earlier), end)
}

/// As long as the search has not arrived, its state satisfies the invariant.
pub proof fn lemma_search_inv_after(start: Point, end: Point, cells: Seq<Seq<Cost>>, steps: nat)
    requires
        is_rectangular(cells),
        in_bounds(start, cells.len(), cells[0].len()),
        in_bounds(end, cells.len(), cells[0].len()),
        still_searching(start, end, cells, steps),
    ensures
        search_inv(search_after(start, end, cells, steps), start, end, cells),
    decreases steps,
{
    reveal(search_inv);
    if steps > 0 {
        let before = search_after(start, end, cells, (steps - 1) as nat);
        assert(!arrived(search_after(start, end, cells, steps), end));
        lemma_search_inv_after(start, end, cells, (steps - 1) as nat);
        lemma_frontier_nonempty(before, start, end, cells);
        let index = lemma_cheapest_exists(before.frontier);
        lemma_step(before, start, end, cells, index);
    }
}

/// A search that has not arrived after `steps` steps arrives later.
pub proof fn lemma_search_arrives(start: Point, end: Point, cells: Seq<Seq<Cost>>, steps: nat) -> (total:
    nat)
    requires
        is_rectangular(cells),
        in_bounds(start, cells.len(), cells[0].len()),
        in_bounds(end, cells.len(), cells[0].len()),
        still_searching(start, end, cells, steps),
    ensures
        is_search_length(start, end, cells, total),
        record_ok(search_after(start, end, cells, total).record, start, cells.len(), cells[0].len()),
    decreases
            unvisited_count(
                search_after(start, end, cells, steps).record,
                cells.len(),
                cells[0].len(),
            ),
            stale_count(
                search_after(start, end, cells, steps).frontier,
                search_after(start, end, cells, steps).record,
            ),
{
    let now = search_after(start, end, cells, steps);
    lemma_search_inv_after(start, end, cells, steps);
    lemma_frontier_nonempty(now, start, end, cells);
    let index = lemma_cheapest_exists(now.frontier);
    lemma_step(now, start, end, cells, index);
    assert(search_after(start, end, cells, steps + 1) == step(now, end, cells));
    if now.frontier[index].point == end {
        steps + 1
    } else {
        lemma_step_progress(now, start, end, cells, index);
        lemma_search_arrives(start, end, cells, steps + 1)
    }
}

/// The search between two cells of a rectangle arrives: each step visits a
/// cell for the first time or uses up a stale candidate, and there are
/// finitely many of either.
pub proof fn lemma_search_terminates(start: Point, end: Point, cells: Seq<Seq<Cost>>) -> (total: nat)
    requires
        is_rectangular(cells),
        in_bounds(start, cells.len(), cells[0].len()),
        in_bounds(end, cells.len(), cells[0].len()),
    ensures
        is_search_length(start, end, cells, total),
        visitation_record(start, end, cells) == search_after(start, end, cells, total).record,
        record_ok(visitation_record(start, end, cells), start, cells.len(), cells[0].len()),
        visited(visitation_record(start, end, cells), end),
{
    let total = lemma_search_arrives(start, end, cells, 0);
    lemma_search_length_unique(start, end, cells, total);
    let record = search_after(start, end, cells, total).record;
    assert(record[record.len() - 1].point == end);
    total
}

} // verus!
