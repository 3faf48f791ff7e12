//! Errors from decoding brain data.

use vstd::prelude::*;

verus! {

/// Errors from brain operations.
#[derive(Debug, Clone, Copy, PartialEq, Eq, Structural)]
pub enum BrainError {
    /// The brain data ended early.
    TruncatedData,
}

} // verus!
