//! # sLLM core library
//!
//! A gradient-free n-gram language model: a code-aware BPE tokenizer, Hebbian
//! count tables and a count-min sketch, the `brain.sllm` binary file format,
//! an in-memory retrieval store and small evaluation helpers.
//!
//! Every function here carries a contract that Verus proves against its body.
//! Floating-point work (probabilities, sampling, perplexity) and I/O live with
//! the programs that use this library.

use vstd::prelude::*;

pub mod brain;
pub mod bytes;
pub mod curriculum;
pub mod text;
pub mod eval;
pub mod format;
pub mod progress;
pub mod rag;
pub mod serve;
pub mod tokenizer;
pub mod training;

verus! {

/// The magic bytes identifying a brain.sllm file ("SLLM").
pub const SLLM_MAGIC: [u8; 4] = [0x53u8, 0x4Cu8, 0x4Cu8, 0x4Du8];

/// Current file format version.
pub const SLLM_VERSION: u16 = 1;

/// Default vocabulary size for the BPE tokenizer.
pub const DEFAULT_VOCAB_SIZE: u32 = 22_000;

/// Default context window size (number of tokens for n-gram lookups).
pub const DEFAULT_CONTEXT_WINDOW: u32 = 128;

/// Default HTTP port for the inference runner.
pub const DEFAULT_PORT: u16 = 11435;

} // verus!
