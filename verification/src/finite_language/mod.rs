//! Unsorted enumeration of finite derivation languages.
pub mod count;
pub mod forests;
pub mod iteration;
pub mod laws;
pub mod node_laws;
pub mod plan;
pub mod traversal;

pub use iteration::{Derivation, DerivationNode, FiniteLanguageIterator};
pub use plan::{FiniteLanguageError, FiniteLanguagePlan};
