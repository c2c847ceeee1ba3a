//! The executable search: it walks the state machine of the model until the
//! end cell has been recorded.

use crate::grid::{in_bounds, Grid, Point};
use crate::model::{arrived, expansion, initial, is_cheapest, lemma_search_length_unique};
use crate::model::{lemma_cheapest_unique, reached, search_after, step, visit_of};
use crate::model::{visitation_record, visited, Candidate, Search, Visit};
use crate::neighbors::{get_neighbors, lemma_neighbors_sound, neighbors};
use crate::progress::{lemma_frontier_nonempty, lemma_step_progress, stale_count};
use crate::progress::unvisited_count;
use crate::region::cell_set;
use crate::soundness::{cost_limit, lemma_extents_fit, lemma_step, lemma_taken};
use crate::soundness::{lemma_visited_set_finite, lemma_visited_set_push, record_ok};
use crate::soundness::{search_inv, spread, visited_set, within_budget};
use crate::visited::{point_set_members, PointSet};
use vstd::prelude::*;

verus! {

/// An entry of the executable frontier. Its view is a candidate of the model.
#[derive(Clone, Copy, Debug)]
pub struct FrontierEntry {
    pub point: Point,
    pub cost: i128,
    pub previous: Point,
}

impl View for FrontierEntry {
    type V = Candidate;

    open spec fn view(&self) -> Candidate {
        Candidate { point: self.point, cost: self.cost as int, previous: self.previous }
    }
}

/// The candidates that the entries of a frontier stand for, in their order.
pub open spec fn candidates(frontier: Seq<FrontierEntry>) -> Seq<Candidate> {
    Seq::new(frontier.len(), |k: int| frontier[k]@)
}

/// A cumulative cost within the budget of a cell of a rectangle whose cell
/// count fits the machine can take one more cell cost in 128 bits.
pub proof fn lemma_budget_fits(
    record: Seq<Visit>,
    start: Point,
    rows: nat,
    columns: nat,
    point: Point,
    cost: int,
)
    requires
        record_ok(record, start, rows, columns),
        rows <= usize::MAX,
        columns <= usize::MAX,
        rows * columns <= usize::MAX,
        in_bounds(point, rows, columns),
        within_budget(cost, record, point),
    ensures
        i128::MIN + cost_limit() <= cost <= i128::MAX - cost_limit(),
{
    lemma_visited_set_finite(record, start, rows, columns);
    crate::region::lemma_cell_set(rows, columns);
    let others = cell_set(rows, columns).remove(point);
    assert(visited_set(record).remove(point).subset_of(others));
    vstd::set_lib::lemma_len_subset(visited_set(record).remove(point), others);
    assert(spread(record, point) <= rows * columns - 1);
}

/// The index of the entry to remove next: the cheapest, and of those that
/// cost the same the one pushed last.
pub fn select_cheapest(frontier: &Vec<FrontierEntry>) -> (index: usize)
    requires
        frontier@.len() > 0,
    ensures
        is_cheapest(candidates(frontier@), index as int),
{
    let mut best: usize = 0;
    let mut k: usize = 1;
    while k < frontier.len()
        invariant
            1 <= k <= frontier@.len(),
            best < k,
            forall|j: int| 0 <= j < best ==> (#[trigger] frontier@[j]).cost >= frontier@[best as int].cost,
            forall|j: int| best < j < k ==> (#[trigger] frontier@[j]).cost > frontier@[best as int].cost,
        decreases frontier@.len() - k,
    {
        if frontier[k].cost <= frontier[best].cost {
            best = k;
        }
        k += 1;
    }
    proof {
        let model = candidates(frontier@);
        assert forall|j: int| 0 <= j < best implies (#[trigger] model[j]).cost >= model[best as int].cost by {
            assert(frontier@[j].cost >= frontier@[best as int].cost);
        }
        assert forall|j: int| best < j < model.len() implies (#[trigger] model[j]).cost
            > model[best as int].cost by {
            assert(frontier@[j].cost > frontier@[best as int].cost);
        }
    }
    best
}

/// Pushes a candidate for each neighbour of the entry removed last that has
/// not been finalized.
fn expand(
    frontier: &mut Vec<FrontierEntry>,
    taken: FrontierEntry,
    grid: &Grid,
    finalized: &PointSet,
    Ghost(record): Ghost<Seq<Visit>>,
)
    requires
        point_set_members(*finalized) == visited_set(record),
        i128::MIN + cost_limit() <= taken.cost <= i128::MAX - cost_limit(),
    ensures
        candidates(final(frontier)@) == candidates(old(frontier)@) + expansion(
            taken@,
            neighbors(taken.point, grid.spec_rows(), grid.spec_columns()),
            record,
            grid@,
        ),
{
    let rows = grid.rows();
    let columns = grid.columns();
    let around = get_neighbors(taken.point, grid);
    let ghost rest = candidates(frontier@);
    let mut k: usize = 0;
    proof {
        lemma_extents_fit(grid@);
        assert(around@.take(0) =~= Seq::<Point>::empty());
        assert(rest + Seq::<Candidate>::empty() =~= rest);
    }
    while k < around.len()
        invariant
            grid.wf(),
            rows == grid.spec_rows(),
            columns == grid.spec_columns(),
            rows <= usize::MAX,
            columns <= usize::MAX,
            k <= around@.len(),
            around@ == neighbors(taken.point, rows as nat, columns as nat),
            candidates(frontier@) == rest + expansion(taken@, around@.take(k as int), record, grid@),
            point_set_members(*finalized) == visited_set(record),
            i128::MIN + cost_limit() <= taken.cost <= i128::MAX - cost_limit(),
        decreases around@.len() - k,
    {
        let onto = around[k];
        let ghost pushed = expansion(taken@, around@.take(k as int), record, grid@);
        proof {
            lemma_neighbors_sound(taken.point, rows as nat, columns as nat, k as int);
            assert(around@.take(k + 1).drop_last() =~= around@.take(k as int));
            assert(around@.take(k + 1).last() == onto);
            assert(visited(record, onto) == visited_set(record).contains(onto));
        }
        if !finalized.contains(onto) {
            match grid.cost(onto) {
                Some(cost) => {
                    frontier.push(
                        FrontierEntry {
                            point: onto,
                            cost: taken.cost + cost as i128,
                            previous: taken.point,
                        },
                    );
                },
                None => {
                    proof {
                        assert(false);
                    }
                },
            }
            proof {
                let fresh = reached(taken@, onto, grid@);
                assert(frontier@.last()@ == fresh);
                assert(expansion(taken@, around@.take(k + 1), record, grid@) == pushed.push(fresh));
                assert(candidates(frontier@) =~= (rest + pushed).push(fresh));
                assert((rest + pushed).push(fresh) =~= rest + pushed.push(fresh));
            }
        }
        k += 1;
    }
    proof {
        assert(around@.take(around@.len() as int) =~= around@);
    }
}

/// The state that a frontier and a record stand for.
pub open spec fn state_of(frontier: Seq<FrontierEntry>, record: Seq<Visit>) -> Search {
    Search { frontier: candidates(frontier), record }
}

/// Takes one step of the search, and tells whether it arrived.
fn advance(
    frontier: &mut Vec<FrontierEntry>,
    finalized: &mut PointSet,
    record: &mut Vec<Visit>,
    start: Point,
    end: Point,
    grid: &Grid,
) -> (found: bool)
    requires
        grid.contains(start),
        grid.contains(end),
        search_inv(state_of(old(frontier)@, old(record)@), start, end, grid@),
        point_set_members(*old(finalized)) == visited_set(old(record)@),
    ensures
        state_of(final(frontier)@, final(record)@) == step(
            state_of(old(frontier)@, old(record)@),
            end,
            grid@,
        ),
        point_set_members(*final(finalized)) == visited_set(final(record)@),
        record_ok(final(record)@, start, grid.spec_rows(), grid.spec_columns()),
        found == arrived(state_of(final(frontier)@, final(record)@), end),
        !found ==> search_inv(state_of(final(frontier)@, final(record)@), start, end, grid@),
        !found ==> unvisited_count(final(record)@, grid.spec_rows(), grid.spec_columns())
            < unvisited_count(old(record)@, grid.spec_rows(), grid.spec_columns()) || (
        unvisited_count(final(record)@, grid.spec_rows(), grid.spec_columns()) == unvisited_count(
            old(record)@,
            grid.spec_rows(),
            grid.spec_columns(),
        ) && stale_count(candidates(final(frontier)@), final(record)@) < stale_count(
            candidates(old(frontier)@),
            old(record)@,
        )),
{
    let rows = grid.rows();
    let ghost before = state_of(frontier@, record@);
    proof {
        reveal(step);
        lemma_extents_fit(grid@);
        lemma_frontier_nonempty(before, start, end, grid@);
    }
    let index = select_cheapest(frontier);
    let taken = frontier.remove(index);
    proof {
        assert(taken@ == before.frontier[index as int]);
        lemma_step(before, start, end, grid@, index as int);
        lemma_taken(before, start, end, grid@, index as int);
        lemma_budget_fits(
            before.record,
            start,
            grid.spec_rows(),
            grid.spec_columns(),
            taken.point,
            taken.cost as int,
        );
        lemma_cheapest_unique(before.frontier, index as int);
        if taken.point != end {
            lemma_step_progress(before, start, end, grid@, index as int);
        }
        assert(candidates(frontier@) =~= before.frontier.remove(index as int));
        lemma_visited_set_push(record@, visit_of(taken@));
    }
    finalized.insert(taken.point);
    record.push(Visit { point: taken.point, previous: taken.previous });
    if taken.point.0 == end.0 && taken.point.1 == end.1 {
        true
    } else {
        expand(frontier, taken, grid, finalized, Ghost(record@));
        false
    }
}

/// Searches from `start` until `end` is reached, and returns the visits in
/// the order in which they were made.
pub fn explore(start: Point, end: Point, grid: &Grid) -> (record: Vec<Visit>)
    requires
        grid.contains(start),
        grid.contains(end),
    ensures
        grid.wf(),
        record@ == visitation_record(start, end, grid@),
        record_ok(record@, start, grid.spec_rows(), grid.spec_columns()),
        record@.len() > 0,
        record@.last().point == end,
{
    let rows = grid.rows();
    let mut frontier: Vec<FrontierEntry> = Vec::new();
    frontier.push(FrontierEntry { point: start, cost: 0, previous: start });
    let mut finalized = PointSet::new();
    let mut record: Vec<Visit> = Vec::new();
    let mut found = false;
    let ghost mut steps: nat = 0;
    proof {
        reveal(search_inv);
        assert(candidates(frontier@) =~= initial(start).frontier);
        assert(visited_set(record@) =~= Set::<Point>::empty());
    }
    while !found
        invariant
            grid.wf(),
            grid.contains(start),
            grid.contains(end),
            state_of(frontier@, record@) == search_after(start, end, grid@, steps),
            point_set_members(finalized) == visited_set(record@),
            record_ok(record@, start, grid.spec_rows(), grid.spec_columns()),
            found == arrived(search_after(start, end, grid@, steps), end),
            !found ==> search_inv(search_after(start, end, grid@, steps), start, end, grid@),
            forall|earlier: nat|
                earlier < steps ==> !arrived(
                    #[trigger] search_after(start, end, grid@, earlier),
                    end,
                ),
        decreases
                (if found {
                    0nat
                } else {
                    1nat
                }),
                unvisited_count(record@, grid.spec_rows(), grid.spec_columns()),
                stale_count(candidates(frontier@), record@),
    {
        found = advance(&mut frontier, &mut finalized, &mut record, start, end, grid);
        proof {
            steps = steps + 1;
        }
    }
    proof {
        lemma_search_length_unique(start, end, grid@, steps);
    }
    record
}

} // verus!
