//! Bottom-up tree automata and the grammar tools built on them.
pub mod alto_ast;
pub mod apply;
pub mod arena;
pub mod argument_laws;
pub mod arguments;
pub mod automaton;
pub mod automaton_laws;
pub mod bench;
pub mod builder;
pub mod cartesian;
pub mod chart_filter;
pub mod codec;
pub mod codec_laws;
pub mod codecs;
pub mod combinators;
pub mod condensed;
pub mod control;
pub mod corpus;
pub mod corpus_laws;
pub mod corpus_lines;
pub mod corpus_writer;
pub mod estimate;
pub mod evaluation;
pub mod explicit;
pub mod finite_language;
pub mod heuristic;
pub mod homomorphism;
pub mod homomorphism_laws;
pub mod ids;
pub mod interner;
pub mod intersection;
pub mod irtg;
pub mod key_index;
pub mod label_tree;
pub mod language_analysis;
pub mod language_cardinality;
pub mod messages;
pub mod obligations;
pub mod output;
pub mod pair_chart;
pub mod quoting;
pub mod recognition;
pub mod release;
pub mod replay;
pub mod runs;
pub mod signature;
pub mod signature_laws;
pub mod state_set;
pub mod symbol_set;
pub mod tables;
pub mod terms;
pub mod text;
pub mod text_laws;
pub mod traits;
pub mod tree_lines;
pub mod trim_laws;
pub mod view_laws;
pub mod weight;
pub mod weight_laws;
pub mod worklist;
