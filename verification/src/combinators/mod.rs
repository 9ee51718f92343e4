//! Automata built from other automata without copying their rules.
pub mod determinized;
pub mod groups;
pub mod invhom;
pub mod mapped;
pub mod matching;
pub mod product;
pub mod reach;
pub mod subsets;
