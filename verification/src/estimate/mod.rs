//! Grammar-only estimates of how well a derivation can go on.
pub mod derivations;
pub mod inside;
pub mod laws;
pub mod outside;
pub mod probe;
pub mod scorer;
