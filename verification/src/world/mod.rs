//! The world that holds every creature.

pub mod world;
