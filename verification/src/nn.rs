//! The integer and byte-level parts of the neural inference engine: tensor
//! shapes, pooling geometry, the `.sovereign` container's CRC32, index
//! entries and metadata, and the token-id helpers of the encoders.

pub mod blocks;
pub mod checks;
pub mod error;
pub mod format;
pub mod heads;
pub mod layout;
pub mod metadata;
pub mod pooling;
pub mod tensor;
pub mod writer;
pub mod xlm_roberta;
