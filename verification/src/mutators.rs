//! The grammar-constrained mutation operator library. Every operator
//! receives the sequence to mutate together with the random words and
//! donor material the surrounding engine drew, and reports whether it
//! mutated the sequence or found nothing to do; unmet preconditions are
//! ordinary no-op results, never panics.

pub mod byte;
pub mod message;
pub mod sequence;

use vstd::prelude::*;

verus! {

/// Outcome of one mutation attempt.
#[derive(Clone, Copy, Debug, PartialEq, Eq, Structural)]
pub enum MutationResult {
    Mutated,
    Skipped,
}

} // verus!
