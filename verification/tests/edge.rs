use grid_planner::{calculate_closest_edge_direction, Direction};

#[test]
fn corner_of_the_grid_is_up() {
    assert_eq!(calculate_closest_edge_direction((0, 0), (5, 5)), Direction::Up);
}

#[test]
fn top_row_is_up() {
    for column in 0..=5 {
        assert_eq!(calculate_closest_edge_direction((0, column), (5, 5)), Direction::Up);
    }
}

#[test]
fn each_boundary_can_be_nearest() {
    assert_eq!(calculate_closest_edge_direction((1, 2), (5, 5)), Direction::Up);
    assert_eq!(calculate_closest_edge_direction((4, 2), (5, 5)), Direction::Down);
    assert_eq!(calculate_closest_edge_direction((2, 0), (5, 5)), Direction::Left);
    assert_eq!(calculate_closest_edge_direction((2, 4), (5, 5)), Direction::Right);
}

#[test]
fn ties_go_to_the_earlier_direction() {
    // up 2, down 2, left 2, right 2
    assert_eq!(calculate_closest_edge_direction((2, 2), (4, 4)), Direction::Up);
    // up 3, down 1, left 1, right 3
    assert_eq!(calculate_closest_edge_direction((3, 1), (4, 4)), Direction::Down);
    // up 3, down 3, left 1, right 1
    assert_eq!(calculate_closest_edge_direction((3, 1), (6, 2)), Direction::Left);
    // up 3, down 1, left 5, right 1
    assert_eq!(calculate_closest_edge_direction((3, 5), (4, 6)), Direction::Down);
}

#[test]
fn cell_beyond_a_boundary_is_nearest_to_it() {
    assert_eq!(calculate_closest_edge_direction((7, 2), (5, 5)), Direction::Down);
    assert_eq!(calculate_closest_edge_direction((2, 9), (5, 5)), Direction::Right);
    assert_eq!(calculate_closest_edge_direction((7, 9), (5, 5)), Direction::Right);
    assert_eq!(calculate_closest_edge_direction((9, 7), (5, 5)), Direction::Down);
}

#[test]
fn empty_extents_are_classified() {
    assert_eq!(calculate_closest_edge_direction((0, 0), (0, 0)), Direction::Up);
}
