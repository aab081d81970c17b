//! Sequence-level operators: they add or remove whole messages, keeping
//! the exchange between one and three messages.

use crate::message::HttpInput;
use crate::message::HttpSequenceInput;
use crate::mutators::MutationResult;
use vstd::prelude::*;

verus! {

/// Insert a deep copy of a donor message at a random position; no-op
/// once the sequence already holds three messages, or when it holds
/// none at all.
pub struct SequenceSpliceMutator;

impl SequenceSpliceMutator {
    pub fn new() -> Self {
        Self
    }

    /// Apply the operator: `donor` is the corpus message spliced in and
    /// `r_pos` picks the insertion position. A sequence within the bound
    /// stays within it: the result never exceeds three messages.
    pub fn mutate(&self, seq: &mut HttpSequenceInput, donor: &HttpInput, r_pos: u64) -> (r:
        MutationResult)
        requires
            old(seq).wf(),
            donor.wf(),
        ensures
            final(seq).wf(),
            old(seq).msgs().len() >= 3 || old(seq).msgs().len() == 0 ==> r
                == MutationResult::Skipped && final(seq).msgs() == old(seq).msgs(),
            0 < old(seq).msgs().len() < 3 ==> r == MutationResult::Mutated && final(seq).msgs()
                == old(seq).msgs().insert(
                (r_pos as int) % (old(seq).msgs().len() as int),
                donor.model(),
            ),
            old(seq).msgs().len() <= 3 ==> final(seq).msgs().len() <= 3,
    {
        let cnt = seq.count();
        if cnt >= 3 || cnt == 0 {
            return MutationResult::Skipped;
        }
        let k = (r_pos % (cnt as u64)) as usize;
        let copy = donor.deep_clone();
        seq.inputs.insert(k, copy);
        proof {
            assert(seq.msgs() =~= old(seq).msgs().insert(k as int, donor.model()));
        }
        MutationResult::Mutated
    }
}

/// Delete the message at a random position; no-op while fewer than two
/// messages remain, so the exchange never becomes empty.
pub struct SequenceRemoveMutator;

impl SequenceRemoveMutator {
    pub fn new() -> Self {
        Self
    }

    /// Apply the operator: `r_pos` picks the message removed. A
    /// non-empty sequence stays non-empty.
    pub fn mutate(&self, seq: &mut HttpSequenceInput, r_pos: u64) -> (r: MutationResult)
        requires
            old(seq).wf(),
        ensures
            final(seq).wf(),
            old(seq).msgs().len() < 2 ==> r == MutationResult::Skipped && final(seq).msgs() == old(
                seq,
            ).msgs(),
            old(seq).msgs().len() >= 2 ==> r == MutationResult::Mutated && final(seq).msgs()
                == old(seq).msgs().remove((r_pos as int) % (old(seq).msgs().len() as int)),
            old(seq).msgs().len() >= 1 ==> final(seq).msgs().len() >= 1,
    {
        let cnt = seq.count();
        if cnt < 2 {
            return MutationResult::Skipped;
        }
        let k = (r_pos % (cnt as u64)) as usize;
        let _gone = seq.inputs.remove(k);
        proof {
            old(seq).inputs@.remove_ensures(k as int);
            old(seq).msgs().remove_ensures(k as int);
            assert(seq.msgs() =~= old(seq).msgs().remove(k as int));
        }
        MutationResult::Mutated
    }
}

} // verus!
