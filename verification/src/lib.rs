//! A small ecosystem simulation: creatures ("livings") that age, spread and
//! die on a bounded field, kept in a world that applies additions and
//! removals in batches.

pub mod game;
pub mod living;
pub mod random;
pub mod world;
