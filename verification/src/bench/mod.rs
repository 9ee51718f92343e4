//! The measuring and comparing programs: what they accept, build and count.
pub mod comparison;
pub mod group_laws;
pub mod image_groups;
pub mod lexicon;
pub mod parse_bench;
pub mod tree_runs;
pub mod tree_settings;
pub mod text_laws;
pub mod tree_text;
pub mod workload;
pub mod workload_laws;
