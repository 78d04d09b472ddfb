//! What is placed on the cells of the world.

pub mod belt;
pub mod building;
pub mod snapshot;
pub mod world;
