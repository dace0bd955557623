//! Typed error boundary for the tokenizer.

use vstd::prelude::*;

use crate::tokenizer::truncation::TruncationStrategy;

verus! {

/// Every way a tokenizer operation can fail. Payloads that come from the
/// outside world (I/O and codec failures) are carried as their messages.
#[derive(Debug, Clone, PartialEq, Eq)]
#[non_exhaustive]
pub enum TokenizerError {
    Io(String),
    HeaderCorrupt { reason: String },
    PayloadCorrupt { reason: String },
    UnsupportedFormatVersion { found_major: u16, supported_major: u16 },
    BincodeDecode(String),
    BincodeEncode(String),
    VocabInvalid { reason: String },
    SpecialTokenMissing { token: String },
    WordTooLong { word_len: usize, limit: usize },
    TruncationImpossible { strategy: TruncationStrategy, max_length: usize, special_tokens: usize },
}

/// Result alias used across the tokenizer.
pub type Result<T> = core::result::Result<T, TokenizerError>;

/// The stable short code of each variant.
pub open spec fn error_code_spec(e: TokenizerError) -> Seq<char> {
    match e {
        TokenizerError::Io(_) => "io"@,
        TokenizerError::HeaderCorrupt { .. } => "header_corrupt"@,
        TokenizerError::PayloadCorrupt { .. } => "payload_corrupt"@,
        TokenizerError::UnsupportedFormatVersion { .. } => "unsupported_format_version"@,
        TokenizerError::BincodeDecode(_) => "bincode_decode"@,
        TokenizerError::BincodeEncode(_) => "bincode_encode"@,
        TokenizerError::VocabInvalid { .. } => "vocab_invalid"@,
        TokenizerError::SpecialTokenMissing { .. } => "special_token_missing"@,
        TokenizerError::WordTooLong { .. } => "word_too_long"@,
        TokenizerError::TruncationImpossible { .. } => "truncation_impossible"@,
    }
}

impl TokenizerError {
    /// Stable short identifier per variant, for error-code routing.
    pub fn error_code(&self) -> (code: &'static str)
        ensures
            code@ == error_code_spec(*self),
    {
        match self {
            TokenizerError::Io(_) => "io",
            TokenizerError::HeaderCorrupt { .. } => "header_corrupt",
            TokenizerError::PayloadCorrupt { .. } => "payload_corrupt",
            TokenizerError::UnsupportedFormatVersion { .. } => "unsupported_format_version",
            TokenizerError::BincodeDecode(_) => "bincode_decode",
            TokenizerError::BincodeEncode(_) => "bincode_encode",
            TokenizerError::VocabInvalid { .. } => "vocab_invalid",
            TokenizerError::SpecialTokenMissing { .. } => "special_token_missing",
            TokenizerError::WordTooLong { .. } => "word_too_long",
            TokenizerError::TruncationImpossible { .. } => "truncation_impossible",
        }
    }
}

} // verus!
