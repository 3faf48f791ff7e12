//! # Format
//!
//! The `brain.sllm` binary file format: a versioned header followed by the
//! serialized tokenizer and brain.

use vstd::prelude::*;
use crate::brain::BrainError;
use crate::tokenizer::TokenizerError;

pub mod header;
pub mod reader;
pub mod writer;

pub use header::BrainHeader;
pub use reader::{BrainReader, LoadedModel};
pub use writer::BrainWriter;

verus! {

/// The I/O error type of std, carried by [`FormatError::Io`].
#[verifier::external_type_specification]
#[verifier::external_body]
pub struct ExIoError(std::io::Error);

/// Errors from file format operations.
#[derive(Debug)]
pub enum FormatError {
    /// The data does not start with the bytes "SLLM".
    InvalidMagic,
    /// The file's format version is newer than this library reads.
    UnsupportedVersion(u16),
    /// The stored checksum does not match the data.
    ChecksumMismatch { expected: u32, actual: u32 },
    /// The data ended early (or held a malformed field).
    TruncatedData,
    /// Reading or writing the file failed.
    Io(std::io::Error),
    /// The brain section could not be decoded.
    Brain(BrainError),
    /// The tokenizer section could not be decoded.
    Tokenizer(TokenizerError),
}

} // verus!
