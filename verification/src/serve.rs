//! Defaults of generation requests to the inference server.

use vstd::prelude::*;

verus! {

/// Default number of tokens generated for a request.
pub fn default_max_tokens() -> (n: usize)
    ensures
        n == 128,
{
    128
}

/// Default number of most likely tokens a request samples from.
pub fn default_top_k() -> (n: usize)
    ensures
        n == 40,
{
    40
}

} // verus!
