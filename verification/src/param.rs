//! The per-target parameter record a monitored execution fills through
//! the reporting hooks: one fixed ten-slot record per target, cleared to
//! sentinel values before each execution.

use vstd::prelude::*;

verus! {

/// Number of message slots a record carries.
pub const SLOTS: usize = 10;

/// The structured parameters one monitored target reports for up to ten
/// messages of one exchange: declared content length, chunked flag,
/// cumulative consumed length, cumulative body length and final status
/// per slot, plus a running message counter and a processed flag.
pub struct HttpParam {
    pub content_length: Vec<i64>,
    pub chunked_encoding: Vec<i8>,
    pub consumed_length: Vec<i64>,
    pub body_length: Vec<i64>,
    pub message_count: i32,
    pub message_processed: i8,
    pub status: Vec<i16>,
    pub order: Vec<i32>,
}

impl HttpParam {
    /// Each per-slot list holds exactly one entry per slot.
    pub open spec fn wf(self) -> bool {
        &&& self.content_length@.len() == SLOTS
        &&& self.chunked_encoding@.len() == SLOTS
        &&& self.consumed_length@.len() == SLOTS
        &&& self.body_length@.len() == SLOTS
        &&& self.status@.len() == SLOTS
        &&& self.order@.len() == SLOTS
    }

    /// All sentinel values: the state before any report call.
    pub open spec fn cleared(self) -> bool {
        &&& self.content_length@ == seq![-1i64; 10]
        &&& self.chunked_encoding@ == seq![0i8; 10]
        &&& self.consumed_length@ == seq![-1i64; 10]
        &&& self.body_length@ == seq![-1i64; 10]
        &&& self.message_count == 0
        &&& self.message_processed == 0
        &&& self.status@ == seq![0i16; 10]
        &&& self.order@ == seq![0i32; 10]
    }

    /// A fresh record, already cleared.
    pub fn new() -> (r: HttpParam)
        ensures
            r.wf(),
            r.cleared(),
    {
        let r = HttpParam {
            content_length: vec![-1i64;10],
            chunked_encoding: vec![0i8;10],
            consumed_length: vec![-1i64;10],
            body_length: vec![-1i64;10],
            message_count: 0,
            message_processed: 0,
            status: vec![0i16;10],
            order: vec![0i32;10],
        };
        proof {
            assert(r.content_length@ =~= seq![-1i64; 10]);
            assert(r.chunked_encoding@ =~= seq![0i8; 10]);
            assert(r.consumed_length@ =~= seq![-1i64; 10]);
            assert(r.body_length@ =~= seq![-1i64; 10]);
            assert(r.status@ =~= seq![0i16; 10]);
            assert(r.order@ =~= seq![0i32; 10]);
        }
        r
    }

    /// Reset every field to its sentinel, as done before each execution.
    pub fn clear(&mut self)
        ensures
            final(self).wf(),
            final(self).cleared(),
    {
        self.content_length = vec![-1i64;10];
        self.chunked_encoding = vec![0i8;10];
        self.consumed_length = vec![-1i64;10];
        self.body_length = vec![-1i64;10];
        self.message_count = 0;
        self.message_processed = 0;
        self.status = vec![0i16;10];
        self.order = vec![0i32;10];
        proof {
            assert(self.content_length@ =~= seq![-1i64; 10]);
            assert(self.chunked_encoding@ =~= seq![0i8; 10]);
            assert(self.consumed_length@ =~= seq![-1i64; 10]);
            assert(self.body_length@ =~= seq![-1i64; 10]);
            assert(self.status@ =~= seq![0i16; 10]);
            assert(self.order@ =~= seq![0i32; 10]);
        }
    }

    /// Whether a report with the given direction mask applies when the
    /// fuzzing campaign runs with the given active mask.
    pub open spec fn mask_applies(mask: i32, active: i32) -> bool {
        mask & active != 0
    }

    /// The processed flag after an eventual slot advance: a report that
    /// opened a new slot resets it.
    pub open spec fn advanced_processed(self) -> i8 {
        if self.message_processed == 1 && self.message_count < i32::MAX {
            0i8
        } else {
            self.message_processed
        }
    }

    /// The slot the next report lands in, after an eventual advance.
    pub open spec fn advanced_count(self) -> int {
        if self.message_processed == 1 && self.message_count < i32::MAX {
            self.message_count + 1
        } else {
            self.message_count as int
        }
    }

    /// Advance to the next slot if the previous message was marked
    /// processed.
    fn advance(&mut self)
        requires
            old(self).wf(),
        ensures
            final(self).wf(),
            final(self).message_count == old(self).advanced_count(),
            final(self).message_processed == (if old(self).message_processed == 1 && old(
                self,
            ).message_count < i32::MAX {
                0i8
            } else {
                old(self).message_processed
            }),
            final(self).content_length == old(self).content_length,
            final(self).chunked_encoding == old(self).chunked_encoding,
            final(self).consumed_length == old(self).consumed_length,
            final(self).body_length == old(self).body_length,
            final(self).status == old(self).status,
            final(self).order == old(self).order,
    {
        if self.message_processed == 1 && self.message_count < i32::MAX {
            self.message_count = self.message_count + 1;
            self.message_processed = 0;
        }
    }

    /// Record the declared content length for the current slot; ignored
    /// when the mask does not apply or the record has run out of slots.
    /// The first report after a processed mark advances to the next slot.
    pub fn set_content_length(&mut self, length: i64, mask: i32, active: i32)
        requires
            old(self).wf(),
        ensures
            final(self).wf(),
            !Self::mask_applies(mask, active) ==> *final(self) == *old(self),
            Self::mask_applies(mask, active) ==> {
                let c = old(self).advanced_count();
                &&& final(self).message_count == c
                &&& final(self).content_length@ == (if 0 <= c < SLOTS {
                    old(self).content_length@.update(c, length)
                } else {
                    old(self).content_length@
                })
                &&& final(self).chunked_encoding == old(self).chunked_encoding
                &&& final(self).consumed_length == old(self).consumed_length
                &&& final(self).body_length == old(self).body_length
                &&& final(self).status == old(self).status
                &&& final(self).message_processed == old(self).advanced_processed()
                &&& final(self).order == old(self).order
            },
    {
        if mask & active == 0 {
            return ;
        }
        self.advance();
        if self.message_count >= 0 && (self.message_count as usize) < self.content_length.len() {
            let idx = self.message_count as usize;
            self.content_length[idx] = length;
        }
    }

    /// Record the chunked-framing flag for the current slot.
    pub fn set_chunked_encoding(&mut self, chunked: i8, mask: i32, active: i32)
        requires
            old(self).wf(),
        ensures
            final(self).wf(),
            !Self::mask_applies(mask, active) ==> *final(self) == *old(self),
            Self::mask_applies(mask, active) ==> {
                let c = old(self).advanced_count();
                &&& final(self).message_count == c
                &&& final(self).chunked_encoding@ == (if 0 <= c < SLOTS {
                    old(self).chunked_encoding@.update(c, chunked)
                } else {
                    old(self).chunked_encoding@
                })
                &&& final(self).content_length == old(self).content_length
                &&& final(self).consumed_length == old(self).consumed_length
                &&& final(self).body_length == old(self).body_length
                &&& final(self).status == old(self).status
                &&& final(self).message_processed == old(self).advanced_processed()
                &&& final(self).order == old(self).order
            },
    {
        if mask & active == 0 {
            return ;
        }
        self.advance();
        if self.message_count >= 0 && (self.message_count as usize) < self.chunked_encoding.len() {
            let idx = self.message_count as usize;
            self.chunked_encoding[idx] = chunked;
        }
    }

    /// Add to the cumulative consumed length of the current slot; a
    /// sentinel slot starts from zero. Saturates at the numeric limits
    /// rather than wrapping.
    pub fn inc_consumed_length(&mut self, length: i64, mask: i32, active: i32)
        requires
            old(self).wf(),
        ensures
            final(self).wf(),
            !Self::mask_applies(mask, active) ==> *final(self) == *old(self),
            Self::mask_applies(mask, active) ==> {
                let c = old(self).advanced_count();
                &&& final(self).message_count == c
                &&& final(self).consumed_length@.len() == SLOTS
                &&& (0 <= c < SLOTS ==> {
                    let base = if old(self).consumed_length@[c] == -1 {
                        0i64
                    } else {
                        old(self).consumed_length@[c]
                    };
                    final(self).consumed_length@ == old(self).consumed_length@.update(
                        c,
                        crate::param::sat_add_i64(base, length),
                    )
                })
                &&& (!(0 <= c < SLOTS) ==> final(self).consumed_length
                    == old(self).consumed_length)
                &&& final(self).content_length == old(self).content_length
                &&& final(self).chunked_encoding == old(self).chunked_encoding
                &&& final(self).body_length == old(self).body_length
                &&& final(self).status == old(self).status
                &&& final(self).message_processed == old(self).advanced_processed()
                &&& final(self).order == old(self).order
            },
    {
        if mask & active == 0 {
            return ;
        }
        self.advance();
        if self.message_count >= 0 && (self.message_count as usize) < self.consumed_length.len() {
            let idx = self.message_count as usize;
            let mut cur = self.consumed_length[idx];
            if cur == -1 {
                cur = 0;
            }
            self.consumed_length[idx] = sat_add(cur, length);
        }
    }

    /// Add to the cumulative body length of the current slot; a sentinel
    /// slot starts from zero. Saturates at the numeric limits rather
    /// than wrapping.
    pub fn inc_body_length(&mut self, length: i64, mask: i32, active: i32)
        requires
            old(self).wf(),
        ensures
            final(self).wf(),
            !Self::mask_applies(mask, active) ==> *final(self) == *old(self),
            Self::mask_applies(mask, active) ==> {
                let c = old(self).advanced_count();
                &&& final(self).message_count == c
                &&& final(self).body_length@.len() == SLOTS
                &&& (0 <= c < SLOTS ==> {
                    let base = if old(self).body_length@[c] == -1 {
                        0i64
                    } else {
                        old(self).body_length@[c]
                    };
                    final(self).body_length@ == old(self).body_length@.update(
                        c,
                        crate::param::sat_add_i64(base, length),
                    )
                })
                &&& (!(0 <= c < SLOTS) ==> final(self).body_length == old(self).body_length)
                &&& final(self).content_length == old(self).content_length
                &&& final(self).chunked_encoding == old(self).chunked_encoding
                &&& final(self).consumed_length == old(self).consumed_length
                &&& final(self).status == old(self).status
                &&& final(self).message_processed == old(self).advanced_processed()
                &&& final(self).order == old(self).order
            },
    {
        if mask & active == 0 {
            return ;
        }
        self.advance();
        if self.message_count >= 0 && (self.message_count as usize) < self.body_length.len() {
            let idx = self.message_count as usize;
            let mut cur = self.body_length[idx];
            if cur == -1 {
                cur = 0;
            }
            self.body_length[idx] = sat_add(cur, length);
        }
    }

    /// Mark the current message fully processed; the next report call
    /// will open the following slot.
    pub fn mark_message_processed(&mut self, mask: i32, active: i32)
        requires
            old(self).wf(),
        ensures
            final(self).wf(),
            !Self::mask_applies(mask, active) ==> *final(self) == *old(self),
            Self::mask_applies(mask, active) ==> {
                &&& final(self).message_processed == 1
                &&& final(self).message_count == old(self).message_count
                &&& final(self).content_length == old(self).content_length
                &&& final(self).chunked_encoding == old(self).chunked_encoding
                &&& final(self).consumed_length == old(self).consumed_length
                &&& final(self).body_length == old(self).body_length
                &&& final(self).status == old(self).status
                &&& final(self).order == old(self).order
            },
    {
        if mask & active == 0 {
            return ;
        }
        self.message_processed = 1;
    }
}

/// i64 addition clamped to the representable range.
pub fn sat_add(a: i64, b: i64) -> (r: i64)
    ensures
        r == sat_add_i64(a, b),
{
    if b >= 0 {
        if a > i64::MAX - b {
            i64::MAX
        } else {
            a + b
        }
    } else {
        if a < i64::MIN - b {
            i64::MIN
        } else {
            a + b
        }
    }
}

/// i64 addition clamped to the representable range.
pub open spec fn sat_add_i64(a: i64, b: i64) -> i64 {
    if a + b > i64::MAX {
        i64::MAX
    } else if a + b < i64::MIN {
        i64::MIN
    } else {
        (a + b) as i64
    }
}

} // verus!
