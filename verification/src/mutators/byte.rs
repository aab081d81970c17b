//! Byte-level operators: they pick one message of the sequence and one
//! rendered byte position in it, and edit the leaf owning that position.

use crate::message::HttpInput;
use crate::message::HttpSequenceInput;
use crate::mutators::MutationResult;
use vstd::prelude::*;

verus! {

/// The message slot a random word selects.
pub open spec fn pick(r: u64, n: int) -> int {
    (r as int) % n
}

/// Pick a message of the sequence by a random word, hand it to the
/// per-message closure-free editors below, and put it back.
pub(crate) fn take_message(seq: &mut HttpSequenceInput, r_msg: u64) -> (m: HttpInput)
    requires
        old(seq).wf(),
        old(seq).msgs().len() > 0,
    ensures
        final(seq).msgs() == old(seq).msgs().remove(pick(r_msg, old(seq).msgs().len() as int)),
        final(seq).wf(),
        m.wf(),
        m.model() == old(seq).msgs()[pick(r_msg, old(seq).msgs().len() as int)],
        final(seq).msgs().len() == old(seq).msgs().len() - 1,
    {
    let n = seq.inputs.len();
    let k = (r_msg % (n as u64)) as usize;
    proof {
        assert(seq.inputs@[k as int].wf());
    }
    let m = seq.inputs.remove(k);
    proof {
        old(seq).inputs@.remove_ensures(k as int);
        old(seq).msgs().remove_ensures(k as int);
        assert(seq.msgs() =~= old(seq).msgs().remove(k as int));
    }
    m
}

/// Put an edited message back at the slot it was taken from.
pub(crate) fn put_message(seq: &mut HttpSequenceInput, r_msg: u64, m: HttpInput, ghost_n: Ghost<
    int,
>)
    requires
        old(seq).wf(),
        m.wf(),
        ghost_n@ == old(seq).msgs().len() + 1,
        ghost_n@ <= usize::MAX,
        0 <= pick(r_msg, ghost_n@) <= old(seq).msgs().len(),
    ensures
        final(seq).wf(),
        final(seq).msgs() == old(seq).msgs().insert(pick(r_msg, ghost_n@), m.model()),
{
    let k = (r_msg % (ghost_n_to_exec(seq, ghost_n) as u64)) as usize;
    seq.inputs.insert(k, m);
    proof {
        assert(seq.msgs() =~= old(seq).msgs().insert(k as int, m.model()));
    }
}

/// The original length the sequence had before one message was taken.
fn ghost_n_to_exec(seq: &HttpSequenceInput, ghost_n: Ghost<int>) -> (r: usize)
    requires
        ghost_n@ == seq.msgs().len() + 1,
        ghost_n@ <= usize::MAX,
    ensures
        r == ghost_n@,
{
    seq.inputs.len() + 1
}

/// Insert one random byte at a random rendered position of a randomly
/// chosen message; no-op on an empty sequence, a zero-length message, or
/// a message already at the machine's size limit.
pub struct ByteInsertMutator;

impl ByteInsertMutator {
    pub fn new() -> Self {
        Self
    }

    /// Apply the operator: `r_msg` picks the message, `r_pos` the byte
    /// position, `byte` is the value inserted.
    pub fn mutate(&self, seq: &mut HttpSequenceInput, r_msg: u64, r_pos: u64, byte: u8) -> (r:
        MutationResult)
        requires
            old(seq).wf(),
        ensures
            final(seq).wf(),
            final(seq).msgs().len() == old(seq).msgs().len(),
            old(seq).msgs().len() == 0 ==> r == MutationResult::Skipped && final(seq).msgs()
                == old(seq).msgs(),
            old(seq).msgs().len() > 0 ==> ({
                let k = pick(r_msg, old(seq).msgs().len() as int);
                let m = old(seq).msgs()[k];
                let n = m.render().len() as int;
                if n == 0 || n >= usize::MAX {
                    r == MutationResult::Skipped && final(seq).msgs() == old(seq).msgs()
                } else {
                    &&& r == MutationResult::Mutated
                    &&& (forall|j: int|
                        0 <= j < old(seq).msgs().len() && j != k ==> final(seq).msgs()[j] == old(
                            seq,
                        ).msgs()[j])
                    &&& m.same_skeleton(final(seq).msgs()[k])
                    &&& final(seq).msgs()[k].render() == m.render().insert(
                        (r_pos as int) % n,
                        byte,
                    )
                }
            }),
    {
        let cnt = seq.count();
        if cnt == 0 {
            return MutationResult::Skipped;
        }
        let ghost n0 = seq.msgs().len() as int;
        let ghost k = pick(r_msg, n0);
        let mut m = take_message(seq, r_msg);
        let len = m.len();
        if len == 0 || len == usize::MAX {
            put_message(seq, r_msg, m, Ghost(n0));
            proof {
                lemma_remove_insert_same(old(seq).msgs(), k);
                assert(seq.msgs() == old(seq).msgs());
            }
            return MutationResult::Skipped;
        }
        let pos = (r_pos % (len as u64)) as usize;
        m.insert_byte(pos, byte);
        let ghost mm = m.model();
        put_message(seq, r_msg, m, Ghost(n0));
        proof {
            lemma_remove_insert_update(old(seq).msgs(), k, mm);
        }
        MutationResult::Mutated
    }
}

/// Putting an element back where it was taken from restores the list.
pub(crate) proof fn lemma_remove_insert_same(s: Seq<crate::node::NodeView>, k: int)
    requires
        0 <= k < s.len(),
    ensures
        s.remove(k).insert(k, s[k]) == s,
{
    s.remove_ensures(k);
    s.remove(k).insert_ensures(k, s[k]);
    assert(s.remove(k).insert(k, s[k]) =~= s);
}

/// Taking an element out and putting another back in its place is a
/// pointwise update.
pub(crate) proof fn lemma_remove_insert_update(
    s: Seq<crate::node::NodeView>,
    k: int,
    v: crate::node::NodeView,
)
    requires
        0 <= k < s.len(),
    ensures
        s.remove(k).insert(k, v) == s.update(k, v),
{
    s.remove_ensures(k);
    s.remove(k).insert_ensures(k, v);
    assert(s.remove(k).insert(k, v) =~= s.update(k, v));
}

/// Delete the byte at a random rendered position of a randomly chosen
/// message; no-op on an empty sequence or a zero-length message.
pub struct ByteRemoveMutator;

impl ByteRemoveMutator {
    pub fn new() -> Self {
        Self
    }

    /// Apply the operator: `r_msg` picks the message, `r_pos` the byte
    /// position to delete.
    pub fn mutate(&self, seq: &mut HttpSequenceInput, r_msg: u64, r_pos: u64) -> (r:
        MutationResult)
        requires
            old(seq).wf(),
        ensures
            final(seq).wf(),
            final(seq).msgs().len() == old(seq).msgs().len(),
            old(seq).msgs().len() == 0 ==> r == MutationResult::Skipped && final(seq).msgs()
                == old(seq).msgs(),
            old(seq).msgs().len() > 0 ==> ({
                let k = pick(r_msg, old(seq).msgs().len() as int);
                let m = old(seq).msgs()[k];
                let n = m.render().len() as int;
                if n == 0 {
                    r == MutationResult::Skipped && final(seq).msgs() == old(seq).msgs()
                } else {
                    &&& r == MutationResult::Mutated
                    &&& (forall|j: int|
                        0 <= j < old(seq).msgs().len() && j != k ==> final(seq).msgs()[j] == old(
                            seq,
                        ).msgs()[j])
                    &&& m.same_skeleton(final(seq).msgs()[k])
                    &&& final(seq).msgs()[k].render() == m.render().remove((r_pos as int) % n)
                }
            }),
    {
        let cnt = seq.count();
        if cnt == 0 {
            return MutationResult::Skipped;
        }
        let ghost n0 = seq.msgs().len() as int;
        let ghost k = pick(r_msg, n0);
        let mut m = take_message(seq, r_msg);
        let len = m.len();
        if len == 0 {
            put_message(seq, r_msg, m, Ghost(n0));
            proof {
                lemma_remove_insert_same(old(seq).msgs(), k);
                assert(seq.msgs() == old(seq).msgs());
            }
            return MutationResult::Skipped;
        }
        let pos = (r_pos % (len as u64)) as usize;
        m.remove_byte(pos);
        let ghost mm = m.model();
        put_message(seq, r_msg, m, Ghost(n0));
        proof {
            lemma_remove_insert_update(old(seq).msgs(), k, mm);
        }
        MutationResult::Mutated
    }
}

/// Duplicate the byte at a random rendered position immediately after
/// itself; no-op on an empty sequence, a zero-length message, or a
/// message already at the machine's size limit.
pub struct ByteDuplicateMutator;

impl ByteDuplicateMutator {
    pub fn new() -> Self {
        Self
    }

    /// Apply the operator: `r_msg` picks the message, `r_pos` the byte
    /// position to duplicate.
    pub fn mutate(&self, seq: &mut HttpSequenceInput, r_msg: u64, r_pos: u64) -> (r:
        MutationResult)
        requires
            old(seq).wf(),
        ensures
            final(seq).wf(),
            final(seq).msgs().len() == old(seq).msgs().len(),
            old(seq).msgs().len() == 0 ==> r == MutationResult::Skipped && final(seq).msgs()
                == old(seq).msgs(),
            old(seq).msgs().len() > 0 ==> ({
                let k = pick(r_msg, old(seq).msgs().len() as int);
                let m = old(seq).msgs()[k];
                let n = m.render().len() as int;
                if n == 0 || n >= usize::MAX {
                    r == MutationResult::Skipped && final(seq).msgs() == old(seq).msgs()
                } else {
                    &&& r == MutationResult::Mutated
                    &&& (forall|j: int|
                        0 <= j < old(seq).msgs().len() && j != k ==> final(seq).msgs()[j] == old(
                            seq,
                        ).msgs()[j])
                    &&& m.same_skeleton(final(seq).msgs()[k])
                    &&& final(seq).msgs()[k].render() == m.render().insert(
                        (r_pos as int) % n,
                        m.render()[(r_pos as int) % n],
                    )
                }
            }),
    {
        let cnt = seq.count();
        if cnt == 0 {
            return MutationResult::Skipped;
        }
        let ghost n0 = seq.msgs().len() as int;
        let ghost k = pick(r_msg, n0);
        let mut m = take_message(seq, r_msg);
        let len = m.len();
        if len == 0 || len == usize::MAX {
            put_message(seq, r_msg, m, Ghost(n0));
            proof {
                lemma_remove_insert_same(old(seq).msgs(), k);
                assert(seq.msgs() == old(seq).msgs());
            }
            return MutationResult::Skipped;
        }
        let pos = (r_pos % (len as u64)) as usize;
        let b = m.byte_at(pos);
        m.insert_byte(pos, b);
        let ghost mm = m.model();
        put_message(seq, r_msg, m, Ghost(n0));
        proof {
            lemma_remove_insert_update(old(seq).msgs(), k, mm);
        }
        MutationResult::Mutated
    }
}

/// Copy a random contiguous run of a donor's rendered bytes into a
/// random position of a randomly chosen message, bounded so the message
/// never exceeds the configured maximum size.
pub struct ByteSpliceMutator;

impl ByteSpliceMutator {
    pub fn new() -> Self {
        Self
    }

    /// Apply the operator: `donor` is another corpus entry's rendered
    /// bytes; the run length never exceeds what `max_size` leaves free.
    pub fn mutate(
        &self,
        seq: &mut HttpSequenceInput,
        r_msg: u64,
        r_pos: u64,
        r_start: u64,
        r_len: u64,
        donor: &[u8],
        max_size: usize,
    ) -> (r: MutationResult)
        requires
            old(seq).wf(),
        ensures
            final(seq).wf(),
            final(seq).msgs().len() == old(seq).msgs().len(),
            old(seq).msgs().len() == 0 ==> r == MutationResult::Skipped && final(seq).msgs()
                == old(seq).msgs(),
            old(seq).msgs().len() > 0 ==> ({
                let k = pick(r_msg, old(seq).msgs().len() as int);
                let m = old(seq).msgs()[k];
                let n = m.render().len() as int;
                let cap = if max_size >= n {
                    max_size - n
                } else {
                    0
                };
                let lim = if donor@.len() <= cap {
                    donor@.len() as int
                } else {
                    cap
                };
                if n == 0 || donor@.len() == 0 || lim == 0 {
                    r == MutationResult::Skipped && final(seq).msgs() == old(seq).msgs()
                } else {
                    let run = 1 + (r_len as int) % lim;
                    let start = (r_start as int) % (donor@.len() - run + 1);
                    let pos = (r_pos as int) % n;
                    &&& r == MutationResult::Mutated
                    &&& (forall|j: int|
                        0 <= j < old(seq).msgs().len() && j != k ==> final(seq).msgs()[j] == old(
                            seq,
                        ).msgs()[j])
                    &&& m.same_skeleton(final(seq).msgs()[k])
                    &&& final(seq).msgs()[k].render() == m.render().take(pos) + donor@.subrange(
                        start,
                        start + run,
                    ) + m.render().skip(pos)
                }
            }),
    {
        let cnt = seq.count();
        if cnt == 0 {
            return MutationResult::Skipped;
        }
        let ghost n0 = seq.msgs().len() as int;
        let ghost k = pick(r_msg, n0);
        let mut m = take_message(seq, r_msg);
        let len = m.len();
        let cap = if max_size >= len {
            max_size - len
        } else {
            0
        };
        let lim = if donor.len() <= cap {
            donor.len()
        } else {
            cap
        };
        if len == 0 || donor.len() == 0 || lim == 0 {
            put_message(seq, r_msg, m, Ghost(n0));
            proof {
                lemma_remove_insert_same(old(seq).msgs(), k);
                assert(seq.msgs() == old(seq).msgs());
            }
            return MutationResult::Skipped;
        }
        let run = 1 + (r_len % (lim as u64)) as usize;
        let start = (r_start % ((donor.len() - run + 1) as u64)) as usize;
        let pos = (r_pos % (len as u64)) as usize;
        let piece = slice_range_to_vec(donor, start, run);
        m.splice_bytes(pos, piece.as_slice());
        let ghost mm = m.model();
        put_message(seq, r_msg, m, Ghost(n0));
        proof {
            lemma_remove_insert_update(old(seq).msgs(), k, mm);
        }
        MutationResult::Mutated
    }
}

/// Copy `n` bytes of a slice starting at `start` into a fresh vector.
pub(crate) fn slice_range_to_vec(s: &[u8], start: usize, n: usize) -> (r: Vec<u8>)
    requires
        start + n <= s@.len(),
    ensures
        r@ == s@.subrange(start as int, start as int + n),
{
    let slen = s.len();
    let mut r: Vec<u8> = Vec::new();
    let mut i: usize = 0;
    while i < n
        invariant
            slen == s@.len(),
            start + n <= s@.len(),
            0 <= i <= n,
            r@.len() == i,
            forall|j: int| 0 <= j < i ==> r@[j] == s@[start + j],
        decreases n - i,
    {
        r.push(s[start + i]);
        i = i + 1;
    }
    proof {
        assert(r@ =~= s@.subrange(start as int, start as int + n));
    }
    r
}

} // verus!
