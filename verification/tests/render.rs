use grid_planner::search::{select_cheapest, FrontierEntry};
use grid_planner::{cost_in_hundredths, render_grid, Grid, COST_UNIT};

#[test]
fn unit_is_a_hundred_hundredths() {
    assert_eq!(cost_in_hundredths(COST_UNIT), 100);
    assert_eq!(cost_in_hundredths(-COST_UNIT), -100);
    assert_eq!(cost_in_hundredths(0), 0);
}

#[test]
fn hundredths_are_rounded_down() {
    assert_eq!(cost_in_hundredths(1_234_567_890), 123);
    assert_eq!(cost_in_hundredths(9_999_999), 0);
    assert_eq!(cost_in_hundredths(10_000_000), 1);
    assert_eq!(cost_in_hundredths(-1), -1);
    assert_eq!(cost_in_hundredths(-10_000_000), -1);
    assert_eq!(cost_in_hundredths(-10_000_001), -2);
    assert_eq!(cost_in_hundredths(-1_234_567_890), -124);
}

#[test]
fn hundredths_of_the_extremes() {
    assert_eq!(cost_in_hundredths(i64::MAX), 922_337_203_685);
    assert_eq!(cost_in_hundredths(i64::MIN), -922_337_203_686);
}

#[test]
fn grid_is_rendered_row_by_row() {
    let cells = vec![0, 1_500_000_000, -250_000_000, 5_000_000, -5_000_000, 20_000_000];
    let grid = Grid::from_cells(2, 3, cells).unwrap();
    assert_eq!(render_grid(&grid), vec![vec![0, 150, -25], vec![0, -1, 2]]);
}

fn entry(cost: i128) -> FrontierEntry {
    FrontierEntry { point: (0, 0), cost, previous: (0, 0) }
}

#[test]
fn cheapest_entry_is_selected() {
    assert_eq!(select_cheapest(&vec![entry(5), entry(-2), entry(9)]), 1);
    assert_eq!(select_cheapest(&vec![entry(7)]), 0);
}

#[test]
fn latest_of_the_cheapest_entries_is_selected() {
    assert_eq!(select_cheapest(&vec![entry(3), entry(1), entry(4), entry(1), entry(5)]), 3);
    assert_eq!(select_cheapest(&vec![entry(0), entry(0), entry(0)]), 2);
}
