//! Maze solving on a grid of classified cells: endpoint detection on the
//! boundary rows, A* search over 4-connected free cells, path reconstruction
//! and rendering of the route back onto the grid.

pub mod config;
pub mod maze;
pub mod queue;
pub mod search;
pub mod solver;

pub use config::Config;
pub use maze::{Cell, Grid, Maze, Point};
pub use solver::{color_path, distance_between, find_path, reconstruct_path, solve, SolveError};
