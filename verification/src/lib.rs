//! Token-level encodings: the record a tokenizer produces for one or two
//! input sequences, kept as equal-length per-token arrays, together with the
//! truncation and padding engines that mutate it and the coordinate queries
//! that map between character, word, token and sequence positions.

pub mod config;
pub mod encoding;

pub use config::EncodingError;
pub use config::PaddingDirection;
pub use config::TruncationDirection;
pub use config::TruncationStrategy;
pub use encoding::Encoding;
