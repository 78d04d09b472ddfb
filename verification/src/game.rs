//! Game-side models and state.

pub mod models;
pub mod view;
