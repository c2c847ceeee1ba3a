use grid_planner::{calculate_shortest_path, explore, get_neighbors, Grid, GridError, Point, Visit};

fn grid_of(rows: usize, columns: usize, cells: Vec<i64>) -> Grid {
    Grid::from_cells(rows, columns, cells).expect("a rectangle")
}

fn assert_connected(path: &[Point], start: Point, end: Point, grid: &Grid) {
    assert_eq!(path[0], start);
    assert_eq!(path[path.len() - 1], end);
    for point in path {
        assert!(grid.contains(*point));
    }
    for pair in path.windows(2) {
        let rows = pair[0].0.abs_diff(pair[1].0);
        let columns = pair[0].1.abs_diff(pair[1].1);
        assert_eq!(rows + columns, 1);
    }
}

fn path_cost(path: &[Point], grid: &Grid) -> i64 {
    path.iter().skip(1).map(|point| grid.cost(*point).unwrap()).sum()
}

#[test]
fn zero_grid_gives_a_path_of_five_cells() {
    let grid = grid_of(3, 3, vec![0; 9]);
    let path = calculate_shortest_path((0, 0), (2, 2), &grid).unwrap();
    assert_eq!(path.len(), 5);
    assert_connected(&path, (0, 0), (2, 2), &grid);
    assert_eq!(path_cost(&path, &grid), 0);
}

#[test]
fn ties_go_to_the_candidate_pushed_last() {
    let grid = grid_of(3, 3, vec![0; 9]);
    let path = calculate_shortest_path((0, 0), (2, 2), &grid).unwrap();
    assert_eq!(path, vec![(0, 0), (0, 1), (0, 2), (1, 2), (2, 2)]);
}

#[test]
fn cheap_detour_is_preferred() {
    let grid = grid_of(3, 3, vec![0, 9, 9, 1, 9, 9, 1, 1, 0]);
    let path = calculate_shortest_path((0, 0), (2, 2), &grid).unwrap();
    assert_eq!(path, vec![(0, 0), (1, 0), (2, 0), (2, 1), (2, 2)]);
    assert_eq!(path_cost(&path, &grid), 3);
}

#[test]
fn expensive_wall_is_walked_around() {
    let grid = grid_of(3, 4, vec![0, 50, 1, 1, 1, 50, 1, 50, 1, 1, 1, 0]);
    let path = calculate_shortest_path((0, 0), (2, 3), &grid).unwrap();
    assert_eq!(path, vec![(0, 0), (1, 0), (2, 0), (2, 1), (2, 2), (2, 3)]);
    assert_eq!(path_cost(&path, &grid), 4);
}

#[test]
fn start_equal_to_end_gives_a_single_cell() {
    let grid = grid_of(2, 2, vec![5, 6, 7, 8]);
    let path = calculate_shortest_path((1, 0), (1, 0), &grid).unwrap();
    assert_eq!(path, vec![(1, 0)]);
}

#[test]
fn single_cell_grid() {
    let grid = grid_of(1, 1, vec![3]);
    let path = calculate_shortest_path((0, 0), (0, 0), &grid).unwrap();
    assert_eq!(path, vec![(0, 0)]);
}

#[test]
fn single_row_is_walked_in_order() {
    let grid = grid_of(1, 4, vec![0, -2, 7, 0]);
    let path = calculate_shortest_path((0, 3), (0, 0), &grid).unwrap();
    assert_eq!(path, vec![(0, 3), (0, 2), (0, 1), (0, 0)]);
}

#[test]
fn start_outside_the_grid_is_rejected() {
    let grid = grid_of(3, 3, vec![0; 9]);
    assert_eq!(calculate_shortest_path((3, 0), (2, 2), &grid), Err(GridError::OutOfBounds));
    assert_eq!(calculate_shortest_path((0, 3), (2, 2), &grid), Err(GridError::OutOfBounds));
}

#[test]
fn end_outside_the_grid_is_rejected() {
    let grid = grid_of(3, 3, vec![0; 9]);
    assert_eq!(calculate_shortest_path((0, 0), (2, 3), &grid), Err(GridError::OutOfBounds));
    assert_eq!(calculate_shortest_path((0, 0), (7, 7), &grid), Err(GridError::OutOfBounds));
}

#[test]
fn negative_costs_still_give_a_connected_path() {
    let cells = vec![0, -3, 4, -1, 2, -5, 6, -7, 1, 8, -2, 3, -4, 5, -6, 0];
    let grid = grid_of(4, 4, cells);
    let path = calculate_shortest_path((0, 0), (3, 3), &grid).unwrap();
    assert_connected(&path, (0, 0), (3, 3), &grid);
}

#[test]
fn extreme_costs_do_not_overflow() {
    let mut cells = vec![i64::MAX; 16];
    cells[5] = i64::MIN;
    cells[10] = i64::MIN;
    let grid = grid_of(4, 4, cells);
    let path = calculate_shortest_path((0, 0), (3, 3), &grid).unwrap();
    assert_connected(&path, (0, 0), (3, 3), &grid);
}

#[test]
fn finder_gives_the_same_path_twice() {
    let cells = vec![0, 4, 8, 2, 7, 1, 9, 3, 5, 6, 12, 11, 10, 14, 13, 0];
    let grid = grid_of(4, 4, cells);
    let first = calculate_shortest_path((0, 0), (3, 3), &grid).unwrap();
    let second = calculate_shortest_path((0, 0), (3, 3), &grid).unwrap();
    assert_eq!(first, second);
    assert_eq!(first, vec![(0, 0), (0, 1), (1, 1), (1, 2), (1, 3), (2, 3), (3, 3)]);
    assert_eq!(path_cost(&first, &grid), 28);
}

#[test]
fn record_lists_the_visits_in_order() {
    let grid = grid_of(3, 3, vec![0; 9]);
    let record = explore((0, 0), (2, 2), &grid);
    let expected = vec![
        Visit { point: (0, 0), previous: (0, 0) },
        Visit { point: (0, 1), previous: (0, 0) },
        Visit { point: (0, 2), previous: (0, 1) },
        Visit { point: (1, 2), previous: (0, 2) },
        Visit { point: (2, 2), previous: (1, 2) },
    ];
    assert_eq!(record, expected);
}

#[test]
fn record_may_visit_a_cell_again() {
    // Both candidates for (1, 1) are cheaper than any for the end, so the
    // cell is recorded twice; the path goes by the first visit of each cell.
    let grid = grid_of(2, 3, vec![0, 1, 100, 1, 1, 100]);
    let record = explore((0, 0), (0, 2), &grid);
    let expected = vec![
        Visit { point: (0, 0), previous: (0, 0) },
        Visit { point: (0, 1), previous: (0, 0) },
        Visit { point: (1, 0), previous: (0, 0) },
        Visit { point: (1, 1), previous: (1, 0) },
        Visit { point: (1, 1), previous: (0, 1) },
        Visit { point: (0, 2), previous: (0, 1) },
    ];
    assert_eq!(record, expected);
    let path = calculate_shortest_path((0, 0), (0, 2), &grid).unwrap();
    assert_eq!(path, vec![(0, 0), (0, 1), (0, 2)]);
}

#[test]
fn path_follows_the_first_visit_of_each_cell() {
    // (1, 1) is first reached from (1, 0) and later again from (0, 1).
    let grid = grid_of(3, 3, vec![0, 1, 100, 1, 1, 100, 100, 1, 0]);
    let path = calculate_shortest_path((0, 0), (2, 2), &grid).unwrap();
    assert_eq!(path, vec![(0, 0), (1, 0), (1, 1), (2, 1), (2, 2)]);
}

#[test]
fn neighbors_of_an_inner_cell() {
    let grid = grid_of(3, 3, vec![0; 9]);
    assert_eq!(get_neighbors((1, 1), &grid), vec![(0, 1), (1, 0), (2, 1), (1, 2)]);
}

#[test]
fn neighbors_of_the_corners() {
    let grid = grid_of(3, 4, vec![0; 12]);
    assert_eq!(get_neighbors((0, 0), &grid), vec![(1, 0), (0, 1)]);
    assert_eq!(get_neighbors((2, 3), &grid), vec![(1, 3), (2, 2)]);
    assert_eq!(get_neighbors((0, 3), &grid), vec![(0, 2), (1, 3)]);
    assert_eq!(get_neighbors((2, 0), &grid), vec![(1, 0), (2, 1)]);
}

#[test]
fn neighbors_in_a_single_cell_grid() {
    let grid = grid_of(1, 1, vec![0]);
    assert_eq!(get_neighbors((0, 0), &grid), Vec::<Point>::new());
}

#[test]
fn neighbors_of_a_cell_outside_stay_inside() {
    let grid = grid_of(3, 3, vec![0; 9]);
    assert_eq!(get_neighbors((3, 1), &grid), vec![(2, 1)]);
    assert_eq!(get_neighbors((1, 3), &grid), vec![(1, 2)]);
    assert_eq!(get_neighbors((9, 9), &grid), Vec::<Point>::new());
    assert_eq!(get_neighbors((usize::MAX, 0), &grid), Vec::<Point>::new());
}

fn cheapest_cost(grid: &Grid, start: Point, end: Point) -> i64 {
    let (rows, columns) = (grid.rows(), grid.columns());
    let mut best = vec![vec![i64::MAX; columns]; rows];
    best[start.0][start.1] = 0;
    for _ in 0..rows * columns {
        for row in 0..rows {
            for column in 0..columns {
                if best[row][column] == i64::MAX {
                    continue;
                }
                for next in get_neighbors((row, column), grid) {
                    let cost = best[row][column] + grid.cost(next).unwrap();
                    if cost < best[next.0][next.1] {
                        best[next.0][next.1] = cost;
                    }
                }
            }
        }
    }
    best[end.0][end.1]
}

#[test]
fn path_is_cheapest_without_negative_costs() {
    let mut state: u64 = 0x2545_f491_4f6c_dd1d;
    for round in 0..40 {
        let rows = 2 + round % 5;
        let columns = 2 + (round / 5) % 4;
        let mut cells = Vec::new();
        for _ in 0..rows * columns {
            state ^= state << 13;
            state ^= state >> 7;
            state ^= state << 17;
            cells.push((state % 10) as i64);
        }
        let grid = grid_of(rows, columns, cells);
        let start = (0, round % columns);
        let end = (rows - 1, (round * 3) % columns);
        let path = calculate_shortest_path(start, end, &grid).unwrap();
        assert_connected(&path, start, end, &grid);
        assert_eq!(path_cost(&path, &grid), cheapest_cost(&grid, start, end));
    }
}

#[test]
fn path_need_not_be_cheapest_with_negative_costs() {
    // The end is reached at cost 1 before the detour over the cell of cost
    // -10 has been explored.
    let grid = grid_of(2, 2, vec![0, 1, 5, -10]);
    let path = calculate_shortest_path((0, 0), (0, 1), &grid).unwrap();
    assert_eq!(path, vec![(0, 0), (0, 1)]);
    assert_eq!(path_cost(&path, &grid), 1);
    let detour = [(0, 0), (1, 0), (1, 1), (0, 1)];
    assert_connected(&detour, (0, 0), (0, 1), &grid);
    assert_eq!(path_cost(&detour, &grid), -4);
}
