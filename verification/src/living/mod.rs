//! The creatures of the simulation.

pub mod grass;
pub mod living;
