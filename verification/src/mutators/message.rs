//! Message-structural operators: they duplicate, remove or splice whole
//! field lines, always leaving the grammar shape intact.

use crate::message::HttpInput;
use crate::message::HttpSequenceInput;
use crate::mutators::byte::lemma_remove_insert_same;
use crate::mutators::byte::lemma_remove_insert_update;
use crate::mutators::byte::pick;
use crate::mutators::byte::put_message;
use crate::mutators::byte::take_message;
use crate::mutators::MutationResult;
use crate::node::NodeView;
use vstd::prelude::*;

verus! {

/// The replacement byte-strings a campaign supplies once, one bucket
/// per coarse label. The symbol label reads its own bucket, kept
/// deliberately separate from the number bucket.
pub struct TokenMetadata {
    pub string: Vec<String>,
    pub number: Vec<String>,
    pub symbol: Vec<String>,
}

impl TokenMetadata {
    /// Empty dictionaries for every label.
    pub fn new() -> (r: TokenMetadata)
        ensures
            r.string@.len() == 0,
            r.number@.len() == 0,
            r.symbol@.len() == 0,
    {
        TokenMetadata { string: Vec::new(), number: Vec::new(), symbol: Vec::new() }
    }
}

/// Clone a random field line of a random message and reinsert it
/// adjacent; no-op when the message has no field line or twenty or
/// more of them already, or at the machine's size limit.
pub struct MessageFieldLineDuplicateMutator;

impl MessageFieldLineDuplicateMutator {
    pub fn new() -> Self {
        Self
    }

    /// Apply the operator: `r_msg` picks the message, `r_line` the field
    /// line duplicated.
    pub fn mutate(&self, seq: &mut HttpSequenceInput, r_msg: u64, r_line: u64) -> (r:
        MutationResult)
        requires
            old(seq).wf(),
        ensures
            final(seq).wf(),
            final(seq).msgs().len() == old(seq).msgs().len(),
            old(seq).msgs().len() == 0 ==> r == MutationResult::Skipped && final(seq).msgs()
                == old(seq).msgs(),
            old(seq).msgs().len() > 0 ==> ({
                let k = pick(r_msg, old(seq).msgs().len() as int);
                let m = old(seq).msgs()[k];
                let fl = m.children[1].children;
                if fl.len() == 0 || fl.len() >= 20 {
                    r == MutationResult::Skipped && final(seq).msgs() == old(seq).msgs()
                } else {
                    let idx = (r_line as int) % (fl.len() as int);
                    let fits = {
                        &&& m.render().len() + fl[idx].render().len() <= usize::MAX
                        &&& m.leaf_count() + fl[idx].leaf_count() <= usize::MAX
                        &&& m.node_count() + 1 + fl[idx].node_count() <= usize::MAX
                    };
                    if fits {
                        r == MutationResult::Mutated && final(seq).msgs() == old(
                            seq,
                        ).msgs().update(k, m.with_child_children(1, fl.insert(idx, fl[idx])))
                    } else {
                        r == MutationResult::Skipped && final(seq).msgs() == old(seq).msgs()
                    }
                }
            }),
    {
        let cnt = seq.count();
        if cnt == 0 {
            return MutationResult::Skipped;
        }
        let ghost n0 = seq.msgs().len() as int;
        let ghost k = pick(r_msg, n0);
        let mut m = take_message(seq, r_msg);
        let flc = m.field_line_count();
        if flc == 0 || flc >= 20 {
            put_message(seq, r_msg, m, Ghost(n0));
            proof {
                lemma_remove_insert_same(old(seq).msgs(), k);
            }
            return MutationResult::Skipped;
        }
        let idx = (r_line % (flc as u64)) as usize;
        // a duplicate that would overflow the machine's aggregate caches
        // is reported as nothing-to-do rather than attempted
        let room = fits_one_more_line(&m, idx);
        if !room {
            put_message(seq, r_msg, m, Ghost(n0));
            proof {
                lemma_remove_insert_same(old(seq).msgs(), k);
            }
            return MutationResult::Skipped;
        }
        m.duplicate_field_line(idx);
        let ghost mm = m.model();
        put_message(seq, r_msg, m, Ghost(n0));
        proof {
            lemma_remove_insert_update(old(seq).msgs(), k, mm);
        }
        MutationResult::Mutated
    }
}

/// Whether duplicating field line `idx` keeps every aggregate within
/// the machine's limits.
fn fits_one_more_line(m: &HttpInput, idx: usize) -> (r: bool)
    requires
        m.wf(),
        idx < m.field_lines_model().len(),
    ensures
        r == {
            let fl = m.field_lines_model()[idx as int];
            &&& m.model().render().len() + fl.render().len() <= usize::MAX
            &&& m.model().leaf_count() + fl.leaf_count() <= usize::MAX
            &&& m.model().node_count() + 1 + fl.node_count() <= usize::MAX
        },
{
    proof {
        m.lemma_shape();
    }
    let fl = m.field_lines();
    let line = match fl.child(idx) {
        Some(c) => c,
        None => {
            proof {
                assert(false);
            }
            return false;
        },
    };
    let node = m.node();
    let v_ok = node.value_size() <= usize::MAX - line.value_size();
    let l_ok = node.leaf_size() <= usize::MAX - line.leaf_size();
    let n_ok = node.node_size() < usize::MAX - line.node_size();
    v_ok && l_ok && n_ok
}

/// Delete a random field line of a random message; no-op when none
/// exist.
pub struct MessageFieldLineRemoveMutator;

impl MessageFieldLineRemoveMutator {
    pub fn new() -> Self {
        Self
    }

    /// Apply the operator: `r_msg` picks the message, `r_line` the field
    /// line removed.
    pub fn mutate(&self, seq: &mut HttpSequenceInput, r_msg: u64, r_line: u64) -> (r:
        MutationResult)
        requires
            old(seq).wf(),
        ensures
            final(seq).wf(),
            final(seq).msgs().len() == old(seq).msgs().len(),
            old(seq).msgs().len() == 0 ==> r == MutationResult::Skipped && final(seq).msgs()
                == old(seq).msgs(),
            old(seq).msgs().len() > 0 ==> ({
                let k = pick(r_msg, old(seq).msgs().len() as int);
                let m = old(seq).msgs()[k];
                let fl = m.children[1].children;
                if fl.len() == 0 {
                    r == MutationResult::Skipped && final(seq).msgs() == old(seq).msgs()
                } else {
                    let idx = (r_line as int) % (fl.len() as int);
                    &&& r == MutationResult::Mutated
                    &&& final(seq).msgs() == old(seq).msgs().update(
                        k,
                        m.with_child_children(1, fl.remove(idx)),
                    )
                }
            }),
    {
        let cnt = seq.count();
        if cnt == 0 {
            return MutationResult::Skipped;
        }
        let ghost n0 = seq.msgs().len() as int;
        let ghost k = pick(r_msg, n0);
        let mut m = take_message(seq, r_msg);
        let flc = m.field_line_count();
        if flc == 0 {
            put_message(seq, r_msg, m, Ghost(n0));
            proof {
                lemma_remove_insert_same(old(seq).msgs(), k);
            }
            return MutationResult::Skipped;
        }
        let idx = (r_line % (flc as u64)) as usize;
        m.remove_field_line(idx);
        let ghost mm = m.model();
        put_message(seq, r_msg, m, Ghost(n0));
        proof {
            lemma_remove_insert_update(old(seq).msgs(), k, mm);
        }
        MutationResult::Mutated
    }
}

/// Copy a random run of a donor message's field lines into a random
/// position of a random message's header; no-op when the message has no
/// field line or twenty or more, or the donor has none.
pub struct MessageFieldLineSpliceMutator;

impl MessageFieldLineSpliceMutator {
    pub fn new() -> Self {
        Self
    }

    /// Apply the operator: the donor run starts at `r_start` and spans
    /// `r_len`-many lines (at least one), inserted at `r_pos`.
    pub fn mutate(
        &self,
        seq: &mut HttpSequenceInput,
        donor: &HttpInput,
        r_msg: u64,
        r_pos: u64,
        r_start: u64,
        r_len: u64,
    ) -> (r: MutationResult)
        requires
            old(seq).wf(),
            donor.wf(),
        ensures
            final(seq).wf(),
            final(seq).msgs().len() == old(seq).msgs().len(),
            old(seq).msgs().len() == 0 ==> r == MutationResult::Skipped && final(seq).msgs()
                == old(seq).msgs(),
            old(seq).msgs().len() > 0 ==> ({
                let k = pick(r_msg, old(seq).msgs().len() as int);
                let m = old(seq).msgs()[k];
                let fl = m.children[1].children;
                let dfl = donor.field_lines_model();
                if fl.len() == 0 || fl.len() >= 20 || dfl.len() == 0 {
                    r == MutationResult::Skipped && final(seq).msgs() == old(seq).msgs()
                } else {
                    let n = 1 + (r_len as int) % (dfl.len() as int);
                    let start = (r_start as int) % (dfl.len() - n + 1);
                    let pos = (r_pos as int) % (fl.len() as int);
                    let dsub = dfl.subrange(start, start + n);
                    let fits = {
                        &&& m.render().len() + NodeView::render_all(dsub).len() <= usize::MAX
                        &&& m.leaf_count() + NodeView::leaf_count_all(dsub) <= usize::MAX
                        &&& m.node_count() + n + NodeView::node_count_all(dsub) <= usize::MAX
                    };
                    if fits {
                        r == MutationResult::Mutated && final(seq).msgs() == old(
                            seq,
                        ).msgs().update(
                            k,
                            m.with_child_children(1, fl.take(pos) + dsub + fl.skip(pos)),
                        )
                    } else {
                        r == MutationResult::Skipped && final(seq).msgs() == old(seq).msgs()
                    }
                }
            }),
    {
        let cnt = seq.count();
        if cnt == 0 {
            return MutationResult::Skipped;
        }
        let ghost n0 = seq.msgs().len() as int;
        let ghost k = pick(r_msg, n0);
        let mut m = take_message(seq, r_msg);
        let flc = m.field_line_count();
        let dflc = donor.field_line_count();
        if flc == 0 || flc >= 20 || dflc == 0 {
            put_message(seq, r_msg, m, Ghost(n0));
            proof {
                lemma_remove_insert_same(old(seq).msgs(), k);
            }
            return MutationResult::Skipped;
        }
        let n = 1 + (r_len % (dflc as u64)) as usize;
        let start = (r_start % ((dflc - n + 1) as u64)) as usize;
        let pos = (r_pos % (flc as u64)) as usize;
        if !fits_spliced_lines(&m, donor, start, n) {
            put_message(seq, r_msg, m, Ghost(n0));
            proof {
                lemma_remove_insert_same(old(seq).msgs(), k);
            }
            return MutationResult::Skipped;
        }
        m.splice_field_lines(pos, donor, start, n);
        let ghost mm = m.model();
        put_message(seq, r_msg, m, Ghost(n0));
        proof {
            lemma_remove_insert_update(old(seq).msgs(), k, mm);
        }
        MutationResult::Mutated
    }
}

/// Whether splicing the donor run keeps every aggregate within the
/// machine's limits.
fn fits_spliced_lines(m: &HttpInput, donor: &HttpInput, start: usize, n: usize) -> (r: bool)
    requires
        m.wf(),
        donor.wf(),
        start + n <= donor.field_lines_model().len(),
    ensures
        r == {
            let dsub = donor.field_lines_model().subrange(start as int, start as int + n);
            &&& m.model().render().len() + NodeView::render_all(dsub).len() <= usize::MAX
            &&& m.model().leaf_count() + NodeView::leaf_count_all(dsub) <= usize::MAX
            &&& m.model().node_count() + n + NodeView::node_count_all(dsub) <= usize::MAX
        },
{
    proof {
        m.lemma_shape();
        donor.lemma_shape();
    }
    let ghost dsub = donor.field_lines_model().subrange(start as int, start as int + n);
    let dfl = donor.field_lines();
    let mut sv: usize = 0;
    let mut sl: usize = 0;
    let mut sn: usize = 0;
    let mut i: usize = 0;
    while i < n
        invariant
            m.wf(),
            donor.wf(),
            start + n <= donor.field_lines_model().len(),
            dfl.wf(),
            dfl.model() == donor.model().children[1],
            dsub == donor.field_lines_model().subrange(start as int, start as int + n),
            0 <= i <= n,
            sv == NodeView::render_all(dsub.take(i as int)).len(),
            sl == NodeView::leaf_count_all(dsub.take(i as int)),
            sn == NodeView::node_count_all(dsub.take(i as int)),
        decreases n - i,
    {
        let line = match dfl.child(start + i) {
            Some(c) => c,
            None => {
                proof {
                    assert(false);
                }
                return false;
            },
        };
        proof {
            assert(dsub[i as int] == donor.field_lines_model()[start + i]);
            NodeView::lemma_all_take_succ(dsub, i as int);
            NodeView::lemma_all_prefix_le(dsub, i as int + 1);
        }
        sv = match sv.checked_add(line.value_size()) {
            Some(x) => x,
            None => {
                proof {
                    assert(NodeView::render_all(dsub).len() > usize::MAX);
                }
                return false;
            },
        };
        sl = match sl.checked_add(line.leaf_size()) {
            Some(x) => x,
            None => {
                proof {
                    assert(NodeView::leaf_count_all(dsub) > usize::MAX);
                }
                return false;
            },
        };
        sn = match sn.checked_add(line.node_size()) {
            Some(x) => x,
            None => {
                proof {
                    assert(NodeView::node_count_all(dsub) > usize::MAX);
                }
                return false;
            },
        };
        i = i + 1;
    }
    proof {
        assert(dsub.take(n as int) =~= dsub);
    }
    let node = m.node();
    let v_ok = node.value_size() <= usize::MAX - sv;
    let l_ok = node.leaf_size() <= usize::MAX - sl;
    if node.node_size() > usize::MAX - n {
        return false;
    }
    let n_ok = node.node_size() + n <= usize::MAX - sn;
    v_ok && l_ok && n_ok
}

/// Replace the trailer section of a chunked body with a deep copy of a
/// donor message's field lines; no-op unless the picked message has a
/// chunked body and the donor has field lines.
pub struct MessageTrailerSectionReplaceMutator;

impl MessageTrailerSectionReplaceMutator {
    pub fn new() -> Self {
        Self
    }

    /// Apply the operator: `r_msg` picks the message, `donor` supplies
    /// the field lines copied into the trailer section.
    pub fn mutate(&self, seq: &mut HttpSequenceInput, donor: &HttpInput, r_msg: u64) -> (r:
        MutationResult)
        requires
            old(seq).wf(),
            donor.wf(),
        ensures
            final(seq).wf(),
            final(seq).msgs().len() == old(seq).msgs().len(),
            old(seq).msgs().len() == 0 ==> r == MutationResult::Skipped && final(seq).msgs()
                == old(seq).msgs(),
            old(seq).msgs().len() > 0 ==> ({
                let k = pick(r_msg, old(seq).msgs().len() as int);
                let m = old(seq).msgs()[k];
                let dfl = donor.field_lines_model();
                if !crate::message::chunked_body(m) || dfl.len() == 0 {
                    r == MutationResult::Skipped && final(seq).msgs() == old(seq).msgs()
                } else {
                    let fits = {
                        &&& m.render().len() + NodeView::render_all(dfl).len() <= usize::MAX
                        &&& m.leaf_count() + NodeView::leaf_count_all(dfl) <= usize::MAX
                        &&& m.node_count() + dfl.len() + NodeView::node_count_all(dfl)
                            <= usize::MAX
                    };
                    if fits {
                        r == MutationResult::Mutated && final(seq).msgs() == old(
                            seq,
                        ).msgs().update(k, crate::message::with_trailer_view(m, dfl))
                    } else {
                        r == MutationResult::Skipped && final(seq).msgs() == old(seq).msgs()
                    }
                }
            }),
    {
        let cnt = seq.count();
        if cnt == 0 {
            return MutationResult::Skipped;
        }
        let ghost n0 = seq.msgs().len() as int;
        let ghost k = pick(r_msg, n0);
        let mut m = take_message(seq, r_msg);
        let dflc = donor.field_line_count();
        if !m.has_chunked_body() || dflc == 0 {
            put_message(seq, r_msg, m, Ghost(n0));
            proof {
                lemma_remove_insert_same(old(seq).msgs(), k);
            }
            return MutationResult::Skipped;
        }
        if !fits_trailer_lines(&m, donor) {
            put_message(seq, r_msg, m, Ghost(n0));
            proof {
                lemma_remove_insert_same(old(seq).msgs(), k);
            }
            return MutationResult::Skipped;
        }
        m.replace_trailer_section(donor);
        let ghost mm = m.model();
        put_message(seq, r_msg, m, Ghost(n0));
        proof {
            lemma_remove_insert_update(old(seq).msgs(), k, mm);
        }
        MutationResult::Mutated
    }
}

/// Whether installing the donor's field lines as a trailer keeps every
/// aggregate within the machine's limits.
fn fits_trailer_lines(m: &HttpInput, donor: &HttpInput) -> (r: bool)
    requires
        m.wf(),
        donor.wf(),
        donor.field_lines_model().len() > 0,
    ensures
        r == {
            let dfl = donor.field_lines_model();
            &&& m.model().render().len() + NodeView::render_all(dfl).len() <= usize::MAX
            &&& m.model().leaf_count() + NodeView::leaf_count_all(dfl) <= usize::MAX
            &&& m.model().node_count() + dfl.len() + NodeView::node_count_all(dfl) <= usize::MAX
        },
{
    proof {
        m.lemma_shape();
        donor.lemma_shape();
    }
    let dfl = donor.field_lines();
    proof {
        assert(dfl.model().render() == NodeView::render_all(donor.field_lines_model()));
        assert(dfl.model().leaf_count() == NodeView::leaf_count_all(donor.field_lines_model()));
        assert(dfl.model().node_count() == donor.field_lines_model().len()
            + NodeView::node_count_all(donor.field_lines_model()));
    }
    let node = m.node();
    let v_ok = node.value_size() <= usize::MAX - dfl.value_size();
    let l_ok = node.leaf_size() <= usize::MAX - dfl.leaf_size();
    let n_ok = node.node_size() <= usize::MAX - dfl.node_size();
    v_ok && l_ok && n_ok
}

/// The dictionary bucket a coarse label reads.
pub open spec fn bucket_of(tokens: TokenMetadata, label: crate::node::NodeLabel) -> Seq<String> {
    match label {
        crate::node::NodeLabel::Text => tokens.string@,
        crate::node::NodeLabel::Number => tokens.number@,
        crate::node::NodeLabel::Symbol => tokens.symbol@,
    }
}

/// Replace the value of a random leaf of a random message with a
/// dictionary entry matching the leaf's coarse label; no-op when that
/// label's bucket is empty.
pub struct MessageNodeTokenReplaceMutator;

impl MessageNodeTokenReplaceMutator {
    pub fn new() -> Self {
        Self
    }

    /// Apply the operator: `r_msg` picks the message, `r_leaf` the
    /// pre-order leaf, `r_token` the entry of the leaf's bucket.
    pub fn mutate(
        &self,
        seq: &mut HttpSequenceInput,
        tokens: &TokenMetadata,
        r_msg: u64,
        r_leaf: u64,
        r_token: u64,
    ) -> (r: MutationResult)
        requires
            old(seq).wf(),
        ensures
            final(seq).wf(),
            final(seq).msgs().len() == old(seq).msgs().len(),
            old(seq).msgs().len() == 0 ==> r == MutationResult::Skipped && final(seq).msgs()
                == old(seq).msgs(),
            old(seq).msgs().len() > 0 ==> ({
                let k = pick(r_msg, old(seq).msgs().len() as int);
                let m = old(seq).msgs()[k];
                let ld = pick(r_leaf, m.leaf_count() as int);
                let bucket = bucket_of(*tokens, m.leaves()[ld].node_type.spec_label());
                if bucket.len() == 0 {
                    r == MutationResult::Skipped && final(seq).msgs() == old(seq).msgs()
                } else {
                    let tb = vstd::utf8::encode_utf8(bucket[pick(r_token, bucket.len() as int)]@);
                    if m.render().len() + tb.len() <= usize::MAX {
                        r == MutationResult::Mutated && final(seq).msgs() == old(
                            seq,
                        ).msgs().update(k, m.replace_leaf(ld, tb))
                    } else {
                        r == MutationResult::Skipped && final(seq).msgs() == old(seq).msgs()
                    }
                }
            }),
    {
        let cnt = seq.count();
        if cnt == 0 {
            return MutationResult::Skipped;
        }
        let ghost n0 = seq.msgs().len() as int;
        let ghost k = pick(r_msg, n0);
        let mut m = take_message(seq, r_msg);
        proof {
            m.model().lemma_leaf_count_pos();
        }
        let ltotal = m.leaf_total();
        let ld = (r_leaf % (ltotal as u64)) as usize;
        let label = m.node().leaf_type_at(ld).label();
        let bucket_len = match label {
            crate::node::NodeLabel::Text => tokens.string.len(),
            crate::node::NodeLabel::Number => tokens.number.len(),
            crate::node::NodeLabel::Symbol => tokens.symbol.len(),
        };
        if bucket_len == 0 {
            put_message(seq, r_msg, m, Ghost(n0));
            proof {
                lemma_remove_insert_same(old(seq).msgs(), k);
            }
            return MutationResult::Skipped;
        }
        let ti = (r_token % (bucket_len as u64)) as usize;
        let tok = match label {
            crate::node::NodeLabel::Text => &tokens.string[ti],
            crate::node::NodeLabel::Number => &tokens.number[ti],
            crate::node::NodeLabel::Symbol => &tokens.symbol[ti],
        };
        let tb = tok.as_str().as_bytes();
        if m.len() > usize::MAX - tb.len() {
            put_message(seq, r_msg, m, Ghost(n0));
            proof {
                lemma_remove_insert_same(old(seq).msgs(), k);
            }
            return MutationResult::Skipped;
        }
        m.replace_leaf_value(ld, tb);
        let ghost mm = m.model();
        put_message(seq, r_msg, m, Ghost(n0));
        proof {
            lemma_remove_insert_update(old(seq).msgs(), k, mm);
        }
        MutationResult::Mutated
    }
}

/// Whether descendant position `j` can be swapped with position `a`:
/// distinct positions of the same coarse label, neither inside the
/// other's subtree.
pub open spec fn swap_eligible(m: NodeView, a: int, j: int) -> bool {
    &&& 0 <= j < m.node_count()
    &&& j != a
    &&& m.desc()[j].node_type.spec_label() == m.desc()[a].node_type.spec_label()
    &&& !(a < j && j - a <= m.desc()[a].node_count())
    &&& !(j < a && a - j <= m.desc()[j].node_count())
}

/// The first eligible partner position reached from `j`, scanning
/// cyclically for at most `steps` positions.
pub open spec fn swap_scan(m: NodeView, a: int, j: int, steps: nat) -> Option<int>
    decreases steps,
{
    if steps == 0 {
        None
    } else if swap_eligible(m, a, j) {
        Some(j)
    } else {
        swap_scan(
            m,
            a,
            if j + 1 == m.node_count() {
                0
            } else {
                j + 1
            },
            (steps - 1) as nat,
        )
    }
}

/// The tree with the subtrees at positions `lo < hi` exchanged: the
/// later position is filled first, so the earlier position still
/// addresses the same node.
pub open spec fn swapped_view(m: NodeView, lo: int, hi: int) -> NodeView {
    m.replace_desc(hi, m.desc()[lo]).replace_desc(lo, m.desc()[hi])
}

/// Whether one replace keeps the aggregates within the machine.
pub open spec fn swap_fits(total: int, add: int, sub: int) -> bool {
    total + add <= usize::MAX + sub
}

/// Exchange two random same-coarse-label subtrees of a random message;
/// the swap is committed only when the grammar shape still holds, so a
/// cycle or an ill-shaped tree can never result. The reference excluded
/// the MessageBody's sole child from the first pick as a safety rule;
/// here every swap is re-validated against the grammar before
/// committing, which subsumes that rule, so the exclusion is dropped.
pub struct MessageNodeTypedSwapMutator;

impl MessageNodeTypedSwapMutator {
    pub fn new() -> Self {
        Self
    }

    /// Apply the operator: `r_msg` picks the message, `r_node` the first
    /// position, `r_partner` where the cyclic partner scan starts.
    pub fn mutate(&self, seq: &mut HttpSequenceInput, r_msg: u64, r_node: u64, r_partner: u64) -> (r:
        MutationResult)
        requires
            old(seq).wf(),
        ensures
            final(seq).wf(),
            final(seq).msgs().len() == old(seq).msgs().len(),
            old(seq).msgs().len() == 0 ==> r == MutationResult::Skipped && final(seq).msgs()
                == old(seq).msgs(),
            old(seq).msgs().len() > 0 ==> ({
                let k = pick(r_msg, old(seq).msgs().len() as int);
                let m = old(seq).msgs()[k];
                let nn = m.node_count() as int;
                if nn == 0 {
                    r == MutationResult::Skipped && final(seq).msgs() == old(seq).msgs()
                } else {
                    let a = pick(r_node, nn);
                    match swap_scan(m, a, pick(r_partner, nn), nn as nat) {
                        None => r == MutationResult::Skipped && final(seq).msgs() == old(
                            seq,
                        ).msgs(),
                        Some(b) => {
                            let lo = if a < b { a } else { b };
                            let hi = if a < b { b } else { a };
                            let m1 = m.replace_desc(hi, m.desc()[lo]);
                            let committed = {
                                &&& swap_fits(
                                    m.render().len() as int,
                                    m.desc()[lo].render().len() as int,
                                    m.desc()[hi].render().len() as int,
                                )
                                &&& swap_fits(
                                    m.leaf_count() as int,
                                    m.desc()[lo].leaf_count() as int,
                                    m.desc()[hi].leaf_count() as int,
                                )
                                &&& swap_fits(
                                    m.node_count() as int,
                                    m.desc()[lo].node_count() as int,
                                    m.desc()[hi].node_count() as int,
                                )
                                &&& lo < m1.node_count()
                                &&& swap_fits(
                                    m1.render().len() as int,
                                    m.desc()[hi].render().len() as int,
                                    m1.desc()[lo].render().len() as int,
                                )
                                &&& swap_fits(
                                    m1.leaf_count() as int,
                                    m.desc()[hi].leaf_count() as int,
                                    m1.desc()[lo].leaf_count() as int,
                                )
                                &&& swap_fits(
                                    m1.node_count() as int,
                                    m.desc()[hi].node_count() as int,
                                    m1.desc()[lo].node_count() as int,
                                )
                                &&& swapped_view(m, lo, hi).valid()
                            };
                            if committed {
                                r == MutationResult::Mutated && final(seq).msgs() == old(
                                    seq,
                                ).msgs().update(k, swapped_view(m, lo, hi))
                            } else {
                                r == MutationResult::Skipped && final(seq).msgs() == old(
                                    seq,
                                ).msgs()
                            }
                        },
                    }
                }
            }),
    {
        let cnt = seq.count();
        if cnt == 0 {
            return MutationResult::Skipped;
        }
        let ghost n0 = seq.msgs().len() as int;
        let ghost k = pick(r_msg, n0);
        let m = take_message(seq, r_msg);
        let ghost mm = m.model();
        let nn = m.node().node_size();
        if nn == 0 {
            put_message(seq, r_msg, m, Ghost(n0));
            proof {
                lemma_remove_insert_same(old(seq).msgs(), k);
            }
            return MutationResult::Skipped;
        }
        let a = (r_node % (nn as u64)) as usize;
        let sa = m.node().descendant(a);
        let label_a = sa.node_type().label();
        let count_a = sa.node_size();
        proof {
            mm.lemma_desc_len();
        }
        // cyclic scan for the partner position
        let mut j: usize = (r_partner % (nn as u64)) as usize;
        let mut i: usize = 0;
        let mut partner: usize = 0;
        let mut found = false;
        while i < nn
            invariant
                m.wf(),
                mm == m.model(),
                nn == mm.node_count(),
                nn > 0,
                a < nn,
                sa.model() == mm.desc()[a as int],
                count_a == mm.desc()[a as int].node_count(),
                label_a == mm.desc()[a as int].node_type.spec_label(),
                0 <= i <= nn,
                j < nn,
                !found ==> swap_scan(mm, a as int, pick(r_partner, nn as int), nn as nat)
                    == swap_scan(mm, a as int, j as int, (nn - i) as nat),
                found ==> swap_scan(mm, a as int, pick(r_partner, nn as int), nn as nat) == Some(
                    partner as int,
                ) && swap_eligible(mm, a as int, partner as int),
                found ==> i == nn,
            decreases nn - i,
        {
            let sj = m.node().descendant(j);
            let ok = j != a && sj.node_type().label() == label_a && !(a < j && j - a <= count_a)
                && !(j < a && a - j <= sj.node_size());
            proof {
                assert(ok == swap_eligible(mm, a as int, j as int));
            }
            if ok {
                partner = j;
                found = true;
                i = nn;
            } else {
                j = if j + 1 == nn {
                    0
                } else {
                    j + 1
                };
                i = i + 1;
            }
        }
        if !found {
            put_message(seq, r_msg, m, Ghost(n0));
            proof {
                lemma_remove_insert_same(old(seq).msgs(), k);
            }
            return MutationResult::Skipped;
        }
        let b = partner;
        let lo = if a < b {
            a
        } else {
            b
        };
        let hi = if a < b {
            b
        } else {
            a
        };
        let s_lo = m.node().descendant(lo);
        let s_hi = m.node().descendant(hi);
        let root = m.node();
        let f1 = fits3(root.value_size(), s_lo.value_size(), s_hi.value_size()) && fits3(
            root.leaf_size(),
            s_lo.leaf_size(),
            s_hi.leaf_size(),
        ) && fits3(root.node_size(), s_lo.node_size(), s_hi.node_size());
        if !f1 {
            put_message(seq, r_msg, m, Ghost(n0));
            proof {
                lemma_remove_insert_same(old(seq).msgs(), k);
            }
            return MutationResult::Skipped;
        }
        let mut cand = m.node().deep_clone();
        cand.set_descendant(hi, s_lo);
        if lo >= cand.node_size() {
            put_message(seq, r_msg, m, Ghost(n0));
            proof {
                lemma_remove_insert_same(old(seq).msgs(), k);
            }
            return MutationResult::Skipped;
        }
        let t_lo = cand.descendant(lo);
        let f2 = fits3(cand.value_size(), s_hi.value_size(), t_lo.value_size()) && fits3(
            cand.leaf_size(),
            s_hi.leaf_size(),
            t_lo.leaf_size(),
        ) && fits3(cand.node_size(), s_hi.node_size(), t_lo.node_size());
        if !f2 {
            put_message(seq, r_msg, m, Ghost(n0));
            proof {
                lemma_remove_insert_same(old(seq).msgs(), k);
            }
            return MutationResult::Skipped;
        }
        cand.set_descendant(lo, s_hi);
        match crate::message::HttpInput::new(cand) {
            Ok(m2) => {
                let ghost mm2 = m2.model();
                put_message(seq, r_msg, m2, Ghost(n0));
                proof {
                    lemma_remove_insert_update(old(seq).msgs(), k, mm2);
                }
                MutationResult::Mutated
            },
            Err(_) => {
                put_message(seq, r_msg, m, Ghost(n0));
                proof {
                    lemma_remove_insert_same(old(seq).msgs(), k);
                }
                MutationResult::Skipped
            },
        }
    }
}

/// Whether `total + add <= usize::MAX + sub`, computed without overflow.
fn fits3(total: usize, add: usize, sub: usize) -> (r: bool)
    ensures
        r == swap_fits(total as int, add as int, sub as int),
{
    if add <= sub {
        true
    } else {
        total <= usize::MAX - (add - sub)
    }
}

} // verus!
