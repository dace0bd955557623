//! Inference-only WordPiece tokenizer: normalization, pre-tokenization,
//! greedy longest-match subwords, truncation, padding and decoding.

pub mod error;
pub mod format;
pub mod normalizer;
pub mod pretokenizer;
pub mod truncation;
pub mod wordpiece;
pub mod tokenizer;
