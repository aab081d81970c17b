//! The differential oracle: compares the two parameter records two
//! monitored targets produced for the same rendered bytes and flags the
//! input interesting when they disagree on how the byte stream splits
//! into messages.

use crate::param::HttpParam;
use crate::param::SLOTS;
use vstd::prelude::*;

verus! {

/// A status that counts as an error for the oracle's skip rule: unset,
/// or a 4xx/5xx response class.
pub open spec fn spec_is_error(status: i16) -> bool {
    status == 0 || (400 <= status && status < 600)
}

/// Both targets already failed on this slot, so its remaining
/// parameters are noise.
pub open spec fn spec_both_error(a: HttpParam, b: HttpParam, i: int) -> bool {
    spec_is_error(a.status@[i]) && spec_is_error(b.status@[i])
}

/// Slot `i` flags a disagreement: a body-length mismatch always does;
/// the chunked flag, declared content length and consumed length only
/// count when not both targets errored on the slot.
pub open spec fn spec_slot_interesting(a: HttpParam, b: HttpParam, i: int) -> bool {
    ||| a.body_length@[i] != b.body_length@[i]
    ||| (!spec_both_error(a, b, i) && (a.chunked_encoding@[i] != b.chunked_encoding@[i]
        || a.content_length@[i] != b.content_length@[i] || a.consumed_length@[i]
        != b.consumed_length@[i]))
}

/// The oracle's decision: the two executions disagree on the message
/// count, on being mid-message, or on some slot's parameters. Two
/// never-populated (all-sentinel) records disagree on nothing.
pub open spec fn spec_interesting(a: HttpParam, b: HttpParam) -> bool {
    ||| a.message_count != b.message_count
    ||| a.message_processed != b.message_processed
    ||| exists|i: int| 0 <= i < SLOTS && #[trigger] spec_slot_interesting(a, b, i)
}

/// Whether a status is of the error class.
pub fn is_error(status: i16) -> (r: bool)
    ensures
        r == spec_is_error(status),
{
    status == 0 || (status >= 400 && status < 600)
}

/// Decide whether the two records disagree. The rules are checked in
/// order and the first match decides, which yields exactly the
/// disagreement predicate `spec_interesting`.
pub fn is_interesting(first: &HttpParam, second: &HttpParam) -> (r: bool)
    requires
        first.wf(),
        second.wf(),
    ensures
        r == spec_interesting(*first, *second),
{
    if first.message_count != second.message_count {
        return true;
    }
    if first.message_processed != second.message_processed {
        return true;
    }
    let mut i: usize = 0;
    while i < SLOTS
        invariant
            first.wf(),
            second.wf(),
            0 <= i <= SLOTS,
            forall|j: int| 0 <= j < i ==> !#[trigger] spec_slot_interesting(*first, *second, j),
        decreases SLOTS - i,
    {
        if first.body_length[i] != second.body_length[i] {
            proof {
                assert(spec_slot_interesting(*first, *second, i as int));
            }
            return true;
        }
        if !(is_error(first.status[i]) && is_error(second.status[i])) {
            if first.chunked_encoding[i] != second.chunked_encoding[i] {
                proof {
                    assert(spec_slot_interesting(*first, *second, i as int));
                }
                return true;
            }
            if first.content_length[i] != second.content_length[i] {
                proof {
                    assert(spec_slot_interesting(*first, *second, i as int));
                }
                return true;
            }
            if first.consumed_length[i] != second.consumed_length[i] {
                proof {
                    assert(spec_slot_interesting(*first, *second, i as int));
                }
                return true;
            }
        }
        i = i + 1;
    }
    false
}

} // verus!
