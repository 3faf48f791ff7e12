//! # Tokenizer
//!
//! BPE (byte-pair encoding) tokenizer with code-aware pre-tokenization.

pub mod bpe;
pub mod prefix;
pub mod pretok;
pub mod roundtrip;
pub mod train;
pub mod trained;
pub mod vocab;

pub use bpe::{BpeTokenizer, MergeRule, TokenizerError};
pub use pretok::pre_tokenize;
pub use train::BpeTrainer;
pub use vocab::{SpecialToken, Vocab, VocabError};
