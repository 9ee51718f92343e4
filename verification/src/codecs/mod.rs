//! Reading grammars from text.
pub mod tulipac;
