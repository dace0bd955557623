//! Verified WordPiece tokenization pipeline and the byte-level parts of the
//! `.sovereign` model format.

pub mod text;
pub mod tokenizer;
pub mod nn;
