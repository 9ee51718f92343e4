//! Interpreted regular tree grammars.
pub mod assemble;
pub mod build_laws;
pub mod draft;
pub mod explore;
pub mod grammar;
pub mod input_laws;
pub mod lowering;
pub mod parse;
pub mod ranks;
pub mod size;
pub mod weight_laws;
