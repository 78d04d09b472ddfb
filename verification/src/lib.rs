//! Hex-grid factory core: cube-coordinate algebra, grid pathfinding and the
//! run-length encoded conveyor belt.

pub mod engine;
pub mod game;
