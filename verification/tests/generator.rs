use grid_planner::{generate_grid, generate_layout, generate_random_point, place_endpoints};
use grid_planner::{calculate_shortest_path, GridError, Layout};
use rand::rngs::StdRng;
use rand::SeedableRng;

fn layout(start: (usize, usize), end: (usize, usize), rows: usize, columns: usize) -> Layout {
    Layout {
        start_row: start.0,
        start_column: start.1,
        end_row: end.0,
        end_column: end.1,
        rows,
        columns,
    }
}

#[test]
fn random_point_splits_the_distance() {
    let mut rng = StdRng::seed_from_u64(11);
    for distance in 0..40 {
        let (across, down) = generate_random_point(&mut rng, distance);
        assert!(across <= distance);
        assert_eq!(across + down, distance);
    }
}

#[test]
fn random_point_of_distance_zero_is_the_origin() {
    let mut rng = StdRng::seed_from_u64(3);
    assert_eq!(generate_random_point(&mut rng, 0), (0, 0));
}

#[test]
fn random_point_varies_with_the_draw() {
    let mut rng = StdRng::seed_from_u64(5);
    let mut below = false;
    let mut above = false;
    for _ in 0..200 {
        let (across, _) = generate_random_point(&mut rng, 16);
        below = below || across < 16;
        above = above || across > 0;
    }
    assert!(below);
    assert!(above);
}

#[test]
fn random_point_is_the_same_for_the_same_seed() {
    let mut one = StdRng::seed_from_u64(99);
    let mut other = StdRng::seed_from_u64(99);
    for _ in 0..20 {
        assert_eq!(generate_random_point(&mut one, 1000), generate_random_point(&mut other, 1000));
    }
}

#[test]
fn endpoints_without_swap_or_trim() {
    let placed = place_endpoints((1, 3), false, 1, false);
    assert_eq!(placed, layout((1, 1), (2, 4), 4, 6));
    assert_eq!(placed.start(), (1, 1));
    assert_eq!(placed.end(), (2, 4));
}

#[test]
fn endpoints_with_rows_swapped() {
    assert_eq!(place_endpoints((1, 3), true, 1, false), layout((2, 1), (1, 4), 4, 6));
}

#[test]
fn hug_edge_trims_the_columns_when_they_are_longer() {
    assert_eq!(place_endpoints((1, 3), false, 1, true), layout((1, 0), (2, 3), 4, 4));
    assert_eq!(place_endpoints((1, 3), true, 2, true), layout((3, 0), (2, 3), 6, 4));
}

#[test]
fn hug_edge_trims_the_rows_when_they_are_longer() {
    assert_eq!(place_endpoints((3, 1), false, 1, true), layout((0, 1), (3, 2), 4, 4));
    assert_eq!(place_endpoints((3, 1), true, 2, true), layout((3, 2), (0, 3), 4, 6));
}

#[test]
fn hug_edge_trims_the_columns_on_a_tie() {
    assert_eq!(place_endpoints((2, 2), false, 2, true), layout((2, 0), (4, 2), 7, 3));
}

#[test]
fn hug_edge_changes_only_the_longer_axis() {
    for across in 0..=6 {
        for swap in [false, true] {
            for border in 0..4 {
                let loose = place_endpoints((across, 6 - across), swap, border, false);
                let tight = place_endpoints((across, 6 - across), swap, border, true);
                if loose.rows > loose.columns {
                    assert_eq!(tight.rows, loose.rows - 2 * border);
                    assert_eq!(tight.start_row, loose.start_row - border);
                    assert_eq!(tight.end_row, loose.end_row - border);
                    assert_eq!(tight.columns, loose.columns);
                    assert_eq!(tight.start_column, loose.start_column);
                    assert_eq!(tight.end_column, loose.end_column);
                } else {
                    assert_eq!(tight.columns, loose.columns - 2 * border);
                    assert_eq!(tight.start_column, loose.start_column - border);
                    assert_eq!(tight.end_column, loose.end_column - border);
                    assert_eq!(tight.rows, loose.rows);
                    assert_eq!(tight.start_row, loose.start_row);
                    assert_eq!(tight.end_row, loose.end_row);
                }
            }
        }
    }
}

#[test]
fn distance_zero_puts_both_endpoints_on_one_cell() {
    assert_eq!(place_endpoints((0, 0), true, 2, false), layout((2, 2), (2, 2), 5, 5));
    assert_eq!(place_endpoints((0, 0), false, 0, true), layout((0, 0), (0, 0), 1, 1));
}

#[test]
fn generated_layout_of_distance_four_and_border_one() {
    let mut swapped = false;
    let mut straight = false;
    for seed in 0..64 {
        let mut rng = StdRng::seed_from_u64(seed);
        let placed = generate_layout(&mut rng, 4, 1, false);
        let (start, end) = (placed.start(), placed.end());
        assert_eq!(start.0.abs_diff(end.0) + start.1.abs_diff(end.1), 4);
        assert_eq!(start.0 + start.1 + end.0 + end.1, 4 + 4);
        assert_eq!(placed.rows, start.0.max(end.0) + 1 + 1);
        assert_eq!(placed.columns, start.1.max(end.1) + 1 + 1);
        assert!(start.0 >= 1 && start.1 >= 1 && end.0 >= 1 && end.1 >= 1);
        if start.0 <= end.0 {
            assert_eq!(start, (1, 1));
            assert_eq!(end.0 + end.1, start.0 + start.1 + 4);
            straight = true;
        } else {
            assert_eq!(end.0, 1);
            swapped = true;
        }
    }
    assert!(swapped);
    assert!(straight);
}

#[test]
fn generated_layout_is_the_same_for_the_same_seed() {
    let mut one = StdRng::seed_from_u64(2024);
    let mut other = StdRng::seed_from_u64(2024);
    assert_eq!(generate_layout(&mut one, 16, 2, true), generate_layout(&mut other, 16, 2, true));
}

#[test]
fn generated_layout_holds_its_endpoints() {
    for seed in 0..32 {
        let mut rng = StdRng::seed_from_u64(seed);
        let placed = generate_layout(&mut rng, 16, 2, true);
        assert!(placed.rows >= 1 && placed.columns >= 1);
        assert!(placed.start_row < placed.rows && placed.end_row < placed.rows);
        assert!(placed.start_column < placed.columns && placed.end_column < placed.columns);
        let rows = placed.start_row.abs_diff(placed.end_row);
        let columns = placed.start_column.abs_diff(placed.end_column);
        assert_eq!(rows + columns, 16);
    }
}

#[test]
fn generated_grid_clears_the_endpoints() {
    let placed = layout((1, 1), (2, 4), 4, 6);
    let samples: Vec<i64> = (1..=24).collect();
    let (start, end, grid) = generate_grid(&placed, samples).unwrap();
    assert_eq!(start, (1, 1));
    assert_eq!(end, (2, 4));
    assert_eq!(grid.rows(), 4);
    assert_eq!(grid.columns(), 6);
    for row in 0..4 {
        for column in 0..6 {
            let expected = if (row, column) == start || (row, column) == end {
                0
            } else {
                (row * 6 + column + 1) as i64
            };
            assert_eq!(grid.cost((row, column)), Some(expected));
        }
    }
}

#[test]
fn generated_grid_can_be_searched() {
    let mut rng = StdRng::seed_from_u64(8);
    let placed = generate_layout(&mut rng, 4, 1, false);
    let samples: Vec<i64> = (0..placed.rows * placed.columns).map(|k| (k as i64 % 7) - 3).collect();
    let (start, end, grid) = generate_grid(&placed, samples).unwrap();
    assert_eq!(grid.cost(start), Some(0));
    assert_eq!(grid.cost(end), Some(0));
    let path = calculate_shortest_path(start, end, &grid).unwrap();
    assert_eq!(path[0], start);
    assert_eq!(path[path.len() - 1], end);
    assert!(path.len() >= 5);
}

#[test]
fn generated_grid_needs_rows_and_columns() {
    assert_eq!(generate_grid(&layout((0, 0), (0, 0), 0, 3), vec![]).err(), Some(GridError::Empty));
    assert_eq!(generate_grid(&layout((0, 0), (0, 0), 3, 0), vec![]).err(), Some(GridError::Empty));
}

#[test]
fn generated_grid_needs_one_sample_for_each_cell() {
    let placed = layout((0, 0), (1, 1), 2, 2);
    assert_eq!(generate_grid(&placed, vec![1, 2, 3]).err(), Some(GridError::SizeMismatch));
    assert_eq!(generate_grid(&placed, vec![1, 2, 3, 4, 5]).err(), Some(GridError::SizeMismatch));
}

#[test]
fn generated_grid_needs_its_endpoints_inside() {
    let samples = vec![1, 2, 3, 4];
    let outside_start = layout((2, 0), (1, 1), 2, 2);
    assert_eq!(generate_grid(&outside_start, samples.clone()).err(), Some(GridError::OutOfBounds));
    let outside_end = layout((0, 0), (1, 2), 2, 2);
    assert_eq!(generate_grid(&outside_end, samples).err(), Some(GridError::OutOfBounds));
}
