//! Obligatory leaves: the words that every derivation, or every completion, must have.
pub mod attained;
pub mod bag;
pub mod filter;
pub mod fits;
pub mod flatten;
pub mod laws;
pub mod needs;
pub mod report;
pub mod report_laws;
pub mod settings;
pub mod tables;
pub mod yield_laws;
