use grid_planner::{Grid, GridError};

#[test]
fn grid_reads_its_cells_row_by_row() {
    let grid = Grid::from_cells(2, 3, vec![1, 2, 3, 4, 5, 6]).unwrap();
    assert_eq!(grid.rows(), 2);
    assert_eq!(grid.columns(), 3);
    assert_eq!(grid.cost((0, 0)), Some(1));
    assert_eq!(grid.cost((0, 2)), Some(3));
    assert_eq!(grid.cost((1, 0)), Some(4));
    assert_eq!(grid.cost((1, 2)), Some(6));
}

#[test]
fn grid_has_no_cost_outside() {
    let grid = Grid::from_cells(2, 3, vec![1, 2, 3, 4, 5, 6]).unwrap();
    assert_eq!(grid.cost((2, 0)), None);
    assert_eq!(grid.cost((0, 3)), None);
    assert!(grid.contains((1, 2)));
    assert!(!grid.contains((2, 2)));
    assert!(!grid.contains((1, 3)));
}

#[test]
fn grid_without_rows_or_columns_is_rejected() {
    assert_eq!(Grid::from_cells(0, 3, vec![]).err(), Some(GridError::Empty));
    assert_eq!(Grid::from_cells(3, 0, vec![]).err(), Some(GridError::Empty));
    assert_eq!(Grid::from_cells(0, 0, vec![1]).err(), Some(GridError::Empty));
}

#[test]
fn grid_with_the_wrong_number_of_cells_is_rejected() {
    assert_eq!(Grid::from_cells(2, 2, vec![1, 2, 3]).err(), Some(GridError::SizeMismatch));
    assert_eq!(Grid::from_cells(2, 2, vec![1, 2, 3, 4, 5]).err(), Some(GridError::SizeMismatch));
    assert_eq!(Grid::from_cells(usize::MAX, 2, vec![1, 2]).err(), Some(GridError::SizeMismatch));
}
