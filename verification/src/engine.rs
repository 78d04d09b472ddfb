//! Grid engine: cells, coordinates and path search.

pub mod cell;
pub mod coords;
pub mod rng;
pub mod world;
