//! Simulation models.

pub mod belt;
