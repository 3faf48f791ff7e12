//! The decisions of the training loop: which files are trained on, when a
//! checkpoint is written, and the consolidation pass at the end. The program
//! around the library reads the files and writes the checkpoints.

use vstd::prelude::*;
use crate::brain::count_table::prune_spec;
use crate::brain::NgramBrain;

verus! {

/// What the training loop does after reading and encoding one file.
#[derive(Debug, Clone, Copy, PartialEq, Eq, Structural)]
pub struct FileStep {
    /// Whether the file's tokens are trained on (5 tokens or more)
    pub train: bool,
    /// Whether a checkpoint is written after this file
    pub checkpoint: bool,
    /// Number of files processed, this one included
    pub files_processed: u64,
}

/// The step after a file that encoded to `token_count` tokens, when
/// `files_processed` files came before it: the file is trained on when it
/// has at least 5 tokens, it counts as processed, and a checkpoint is
/// written every `checkpoint_interval` processed files (never for 0).
pub fn after_file(files_processed: u64, token_count: usize, checkpoint_interval: usize) -> (s: FileStep)
    requires
        files_processed < u64::MAX,
    ensures
        s.files_processed == files_processed + 1,
        s.train == (token_count >= 5),
        s.checkpoint == (checkpoint_interval > 0 && (files_processed + 1) % (checkpoint_interval as int) == 0),
{
    let n = files_processed + 1;
    let checkpoint = checkpoint_interval > 0 && n % (checkpoint_interval as u64) == 0;
    FileStep { train: token_count >= 5, checkpoint, files_processed: n }
}

/// The consolidation ("sleep") pass: with a positive threshold every table
/// is pruned at it; with 0 the brain is left as it is.
pub fn consolidate(brain: &mut NgramBrain, prune_threshold: u32)
    requires
        old(brain).wf(),
    ensures
        final(brain).wf(),
        prune_threshold == 0 ==> final(brain)@ == old(brain)@,
        prune_threshold > 0 ==> final(brain)@.tables.len() == old(brain)@.tables.len() && forall|i: int|
            0 <= i < old(brain)@.tables.len() ==> #[trigger] final(brain)@.tables[i] == prune_spec(
                old(brain)@.tables[i],
                prune_threshold,
            ),
        final(brain)@.weight_bits == old(brain)@.weight_bits,
        final(brain)@.tokens_trained == old(brain)@.tokens_trained,
{
    if prune_threshold > 0 {
        brain.prune_all(prune_threshold);
    }
}

} // verus!
