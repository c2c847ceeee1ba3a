//! Procedural weighted grids and a greedy shortest-path planner over them.
//!
//! A grid is a rectangle of traversal costs, held as integers in fixed-point
//! units. The generator lays out a start and an end cell at a given distance
//! inside a bordered rectangle, the finder searches a 4-connected path
//! between them by ascending cumulative cost, and the edge classifier names
//! the boundary nearest to a cell.
//!
//! The finder is specified by a state machine ([`model`]): its result is the
//! path that the record of that search holds ([`path`]). Every search
//! arrives ([`progress`]), its path is connected and stays in the grid, and
//! where no cost is negative it is a cheapest path ([`optimal`]). With
//! negative costs the search is still well defined, but need not be optimal.
//!
//! Random draws ([`random`]) and the hash tables of the search ([`visited`])
//! are not verified; what is assumed of them is stated on each item there.

pub mod cost;
pub mod edge;
pub mod generator;
pub mod grid;
pub mod model;
pub mod neighbors;
pub mod optimal;
pub mod path;
pub mod progress;
pub mod random;
pub mod region;
pub mod render;
pub mod search;
pub mod soundness;
pub mod visited;

pub use edge::{calculate_closest_edge_direction, Direction};
pub use generator::{generate_grid, generate_layout, generate_random_point};
pub use generator::{place_endpoints, Layout};
pub use grid::{Cost, Grid, GridError, Point};
pub use model::Visit;
pub use neighbors::get_neighbors;
pub use path::calculate_shortest_path;
pub use render::{cost_in_hundredths, render_grid, COST_UNIT};
pub use search::explore;
pub use visited::{PointIndex, PointSet};
