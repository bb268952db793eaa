//! Shortest-path search (A*) over a rectangular occupancy grid with
//! four-directional, unit-cost movement.

pub mod grid;
pub mod heuristic;
pub mod route;
pub mod search;
