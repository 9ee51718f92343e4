//! Replays of the joins that a best-first search makes, with different join strategies.
pub mod batch_laws;
pub mod batched;
pub mod candidates;
pub mod child_index;
pub mod collect;
pub mod data;
pub mod joins;
pub mod laws;
pub mod partners;
pub mod products;
pub mod settings;
pub mod strategies;
pub mod tally;
pub mod visit_laws;
pub mod walks;
