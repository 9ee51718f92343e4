//! Intersections of automata, counted.
pub mod algorithms;
pub mod counting;
