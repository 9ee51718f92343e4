//! Tree-adjoining grammars in the Tulipac format.
pub mod compile;
pub mod compile_laws;
pub mod feature_images;
pub mod feature_laws;
pub mod features;
pub mod image_laws;
pub mod images;
pub mod include_laws;
pub mod includes;
pub mod lexicon;
pub mod lexicon_laws;
pub mod messages;
pub mod parser;
pub mod read;
pub mod reading_laws;
pub mod spelling_laws;
pub mod syntax;
pub mod token_laws;
pub mod tokens;

pub use includes::TulipacInputCodec;
