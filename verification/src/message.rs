//! The message and sequence models: a message owns one grammar tree of
//! type HttpMessage, validated at construction; a sequence owns the
//! ordered messages of one connection's exchange.

use crate::node::Node;
use crate::node::NodeType;
use crate::node::NodeView;
use vstd::prelude::*;

verus! {

/// Raised when a tree does not match the HTTP message grammar shape at
/// construction or after a structural edit; never silently repaired.
#[derive(Clone, Copy, Debug, PartialEq, Eq, Structural)]
pub struct GrammarViolation;

/// Anything that can hand out its underlying message.
pub trait IsHttpInput {
    fn http_input(&self) -> &HttpInput;

    fn http_input_mut(&mut self) -> &mut HttpInput;
}

/// Anything that can hand out its underlying message sequence.
pub trait IsHttpSequenceInput {
    fn http_sequence_input(&self) -> &HttpSequenceInput;

    fn http_sequence_input_mut(&mut self) -> &mut HttpSequenceInput;
}

/// One HTTP message: a grammar-valid tree rooted at an HttpMessage node.
pub struct HttpInput {
    pub(crate) node: Node,
}

impl HttpInput {
    /// The mathematical value of the message tree.
    pub open(crate) spec fn model(self) -> NodeView {
        self.node.model()
    }

    /// The bytes the message renders to.
    pub open(crate) spec fn render(self) -> Seq<u8> {
        self.model().render()
    }

    /// Well-formed: aggregates cached correctly, grammar shape valid,
    /// root symbol HttpMessage.
    pub open(crate) spec fn wf(self) -> bool {
        &&& self.node.wf()
        &&& self.model().valid()
        &&& self.model().node_type == NodeType::HttpMessage
    }

    /// The field-line subtrees of the message's header section.
    pub open(crate) spec fn field_lines_model(self) -> Seq<NodeView> {
        self.model().children[1].children
    }

    /// Take ownership of a tree as a message; rejected with
    /// GrammarViolation unless the root is an HttpMessage and the whole
    /// tree matches the grammar shape.
    pub fn new(node: Node) -> (r: Result<HttpInput, GrammarViolation>)
        requires
            node.wf(),
        ensures
            match r {
                Ok(inp) => {
                    &&& inp.wf()
                    &&& inp.model() == node.model()
                },
                Err(_) => !(node.model().valid() && node.model().node_type
                    == NodeType::HttpMessage),
            },
            (r is Ok) == (node.model().valid() && node.model().node_type == NodeType::HttpMessage),
    {
        if !(node.node_type() == NodeType::HttpMessage) {
            return Err(GrammarViolation);
        }
        if !node.validate() {
            return Err(GrammarViolation);
        }
        Ok(HttpInput { node })
    }

    /// The shape facts a valid message root guarantees.
    pub(crate) proof fn lemma_shape(self)
        requires
            self.wf(),
        ensures
            self.model().children.len() == 4,
            self.model().children[0].node_type == NodeType::StartLine,
            self.model().children[1].node_type == NodeType::FieldLines,
            self.model().children[2].node_type == NodeType::CRLF,
            self.model().children[3].node_type == NodeType::MessageBody,
            forall|i: int| 0 <= i < 4 ==> (#[trigger] self.model().children[i]).valid(),
            forall|i: int|
                0 <= i < self.field_lines_model().len() ==> (
                #[trigger] self.field_lines_model()[i]).node_type == NodeType::FieldLine,
            forall|i: int|
                0 <= i < self.field_lines_model().len() ==> (
                #[trigger] self.field_lines_model()[i]).valid(),
    {
        crate::node::lemma_valid_unfold(self.model());
        crate::node::lemma_valid_unfold(self.model().children[1]);
    }

    /// The start-line slot of the message.
    pub fn first_line(&self) -> (r: &Node)
        requires
            self.wf(),
        ensures
            r.wf(),
            r.model() == self.model().children[0],
    {
        proof {
            self.lemma_shape();
            Node::lemma_models(self.node.children@);
            self.node.lemma_wf_child(0);
        }
        &self.node.children[0]
    }

    /// The field-lines slot of the message.
    pub fn field_lines(&self) -> (r: &Node)
        requires
            self.wf(),
        ensures
            r.wf(),
            r.model() == self.model().children[1],
    {
        proof {
            self.lemma_shape();
            Node::lemma_models(self.node.children@);
            self.node.lemma_wf_child(1);
        }
        &self.node.children[1]
    }

    /// The message-body slot of the message.
    pub fn message_body(&self) -> (r: &Node)
        requires
            self.wf(),
        ensures
            r.wf(),
            r.model() == self.model().children[3],
    {
        proof {
            self.lemma_shape();
            Node::lemma_models(self.node.children@);
            self.node.lemma_wf_child(3);
        }
        &self.node.children[3]
    }

    /// The whole message tree.
    pub fn node(&self) -> (r: &Node)
        ensures
            r.model() == self.model(),
            self.wf() ==> r.wf(),
    {
        &self.node
    }

    /// An independent deep copy of the message.
    pub fn deep_clone(&self) -> (r: HttpInput)
        ensures
            r.model() == self.model(),
            self.wf() ==> r.wf(),
    {
        HttpInput { node: self.node.deep_clone() }
    }

    /// Rendered length of the message, read from the cache in O(1).
    pub fn len(&self) -> (r: usize)
        requires
            self.wf(),
        ensures
            r == self.render().len(),
    {
        self.node.value_size()
    }

    /// Render the message to flat wire bytes.
    pub fn bytes(&self) -> (r: Vec<u8>)
        requires
            self.wf(),
        ensures
            r@ == self.render(),
    {
        self.node.bytes()
    }

    /// Read the byte at a rendered offset.
    pub fn byte_at(&self, offset: usize) -> (r: u8)
        requires
            self.wf(),
            offset < self.render().len(),
        ensures
            r == self.render()[offset as int],
    {
        self.node.byte_at(offset)
    }

    /// Validity follows the skeleton: an edit that keeps the skeleton
    /// keeps the message well-formed.
    proof fn lemma_skeleton_edit(pre: HttpInput, post: HttpInput)
        requires
            pre.wf(),
            post.node.wf(),
            pre.model().same_skeleton(post.model()),
        ensures
            post.wf(),
    {
        NodeView::lemma_same_skeleton_counts(pre.model(), post.model());
        crate::node::lemma_same_skeleton_unfold(pre.model(), post.model());
    }

    /// Insert one byte at a rendered offset; the leaf owning the offset
    /// receives it, the skeleton is unchanged.
    pub fn insert_byte(&mut self, offset: usize, b: u8)
        requires
            old(self).wf(),
            offset < old(self).render().len(),
            old(self).render().len() < usize::MAX,
        ensures
            final(self).wf(),
            old(self).model().same_skeleton(final(self).model()),
            final(self).render() == old(self).render().insert(offset as int, b),
    {
        let ghost pre = *self;
        self.node.insert_byte(offset, b);
        proof {
            Self::lemma_skeleton_edit(pre, *self);
        }
    }

    /// Delete the byte at a rendered offset.
    pub fn remove_byte(&mut self, offset: usize)
        requires
            old(self).wf(),
            offset < old(self).render().len(),
        ensures
            final(self).wf(),
            old(self).model().same_skeleton(final(self).model()),
            final(self).render() == old(self).render().remove(offset as int),
    {
        let ghost pre = *self;
        self.node.remove_byte(offset);
        proof {
            Self::lemma_skeleton_edit(pre, *self);
        }
    }

    /// Copy a run of bytes in just before a rendered offset.
    pub fn splice_bytes(&mut self, offset: usize, data: &[u8])
        requires
            old(self).wf(),
            offset < old(self).render().len(),
            old(self).render().len() + data@.len() <= usize::MAX,
        ensures
            final(self).wf(),
            old(self).model().same_skeleton(final(self).model()),
            final(self).render() == old(self).render().take(offset as int) + data@ + old(
                self,
            ).render().skip(offset as int),
    {
        let ghost pre = *self;
        self.node.splice_bytes(offset, data);
        proof {
            Self::lemma_skeleton_edit(pre, *self);
        }
    }
}

impl IsHttpInput for HttpInput {
    fn http_input(&self) -> &HttpInput {
        self
    }

    fn http_input_mut(&mut self) -> &mut HttpInput {
        self
    }
}

/// One connection's ordered exchange of messages.
pub struct HttpSequenceInput {
    pub(crate) inputs: Vec<HttpInput>,
}

impl HttpSequenceInput {
    /// The mathematical values of the messages, in order.
    pub open(crate) spec fn msgs(self) -> Seq<NodeView> {
        Seq::new(self.inputs@.len(), |i: int| self.inputs@[i].model())
    }

    /// Every message well-formed.
    pub open(crate) spec fn wf(self) -> bool {
        forall|i: int| 0 <= i < self.inputs@.len() ==> (#[trigger] self.inputs@[i]).wf()
    }

    /// The bytes the whole exchange renders to: the messages'
    /// renderings, concatenated in order.
    pub open(crate) spec fn render(self) -> Seq<u8> {
        NodeView::render_all(self.msgs())
    }

    /// Own the given messages as one exchange.
    pub fn new(inputs: Vec<HttpInput>) -> (r: HttpSequenceInput)
        requires
            forall|i: int| 0 <= i < inputs@.len() ==> (#[trigger] inputs@[i]).wf(),
        ensures
            r.wf(),
            r.msgs().len() == inputs@.len(),
            forall|i: int| 0 <= i < inputs@.len() ==> #[trigger] r.msgs()[i]
                == inputs@[i].model(),
    {
        HttpSequenceInput { inputs }
    }

    /// Number of messages in the exchange.
    pub fn count(&self) -> (r: usize)
        ensures
            r == self.msgs().len(),
    {
        self.inputs.len()
    }

    /// The message at the given position.
    pub fn message(&self, idx: usize) -> (r: Option<&HttpInput>)
        ensures
            match r {
                Some(m) => {
                    &&& idx < self.msgs().len()
                    &&& m.model() == self.msgs()[idx as int]
                    &&& (self.wf() ==> m.wf())
                },
                None => idx >= self.msgs().len(),
            },
    {
        if idx >= self.inputs.len() {
            return None;
        }
        Some(&self.inputs[idx])
    }

    /// An independent deep copy of the exchange.
    pub fn deep_clone(&self) -> (r: HttpSequenceInput)
        requires
            self.wf(),
        ensures
            r.wf(),
            r.msgs() == self.msgs(),
    {
        let n = self.inputs.len();
        let mut inputs: Vec<HttpInput> = Vec::new();
        let mut i: usize = 0;
        while i < n
            invariant
                n == self.inputs@.len(),
                self.wf(),
                0 <= i <= n,
                inputs@.len() == i,
                forall|j: int| 0 <= j < i ==> (#[trigger] inputs@[j]).wf(),
                forall|j: int| 0 <= j < i ==> #[trigger] inputs@[j].model()
                    == self.inputs@[j].model(),
            decreases n - i,
        {
            proof {
                assert(self.inputs@[i as int].wf());
            }
            inputs.push(self.inputs[i].deep_clone());
            i = i + 1;
        }
        let r = HttpSequenceInput { inputs };
        proof {
            assert(r.msgs() =~= self.msgs());
        }
        r
    }

    /// Render the whole exchange to wire bytes, message after message.
    pub fn target_bytes(&self) -> (r: Vec<u8>)
        requires
            self.wf(),
        ensures
            r@ == self.render(),
    {
        let n = self.inputs.len();
        let mut out: Vec<u8> = Vec::new();
        let mut i: usize = 0;
        while i < n
            invariant
                n == self.inputs@.len(),
                self.wf(),
                0 <= i <= n,
                self.msgs().len() == n,
                forall|j: int| 0 <= j < n ==> #[trigger] self.msgs()[j]
                    == self.inputs@[j].model(),
                out@ == NodeView::render_all(self.msgs().take(i as int)),
            decreases n - i,
        {
            proof {
                assert(self.inputs@[i as int].wf());
                NodeView::lemma_all_take_succ(self.msgs(), i as int);
            }
            let mut b = self.inputs[i].bytes();
            out.append(&mut b);
            i = i + 1;
        }
        proof {
            assert(self.msgs().take(n as int) =~= self.msgs());
        }
        out
    }
}

impl IsHttpSequenceInput for HttpSequenceInput {
    fn http_sequence_input(&self) -> &HttpSequenceInput {
        self
    }

    fn http_sequence_input_mut(&mut self) -> &mut HttpSequenceInput {
        self
    }
}

impl HttpInput {
    /// The message with the field-line child list replaced by `cs`.
    pub open(crate) spec fn with_field_lines(self, cs: Seq<NodeView>) -> NodeView {
        self.model().with_child_children(1, cs)
    }

    /// Number of field lines in the header section.
    pub fn field_line_count(&self) -> (r: usize)
        requires
            self.wf(),
        ensures
            r == self.field_lines_model().len(),
    {
        self.field_lines().children_len()
    }

    /// Install a rebuilt field-lines node in the header slot.
    fn install_field_lines(&mut self, flc: Node)
        requires
            old(self).wf(),
            flc.wf(),
            flc.model().node_type == NodeType::FieldLines,
            flc.model().value == old(self).model().children[1].value,
            forall|i: int|
                0 <= i < flc.model().children.len() ==> (
                #[trigger] flc.model().children[i]).node_type == NodeType::FieldLine && (
                #[trigger] flc.model().children[i]).valid(),
            old(self).model().render().len() + flc.model().render().len() <= usize::MAX + old(
                self,
            ).model().children[1].render().len(),
            old(self).model().leaf_count() + flc.model().leaf_count() <= usize::MAX + old(
                self,
            ).model().children[1].leaf_count(),
            old(self).model().node_count() + flc.model().node_count() <= usize::MAX + old(
                self,
            ).model().children[1].node_count(),
        ensures
            final(self).wf(),
            final(self).model() == old(self).with_field_lines(flc.model().children),
    {
        proof {
            self.lemma_shape();
        }
        let ghost m0 = self.model();
        let ghost fm = flc.model();
        self.node.replace_child(1, flc);
        proof {
            let m1 = self.model();
            crate::node::lemma_valid_unfold(m0);
            crate::node::lemma_valid_unfold(fm);
            assert forall|i: int| 0 <= i < m1.children.len() implies (
            #[trigger] m1.children[i]).valid() by {
                if i != 1 {
                    assert(m1.children[i] == m0.children[i]);
                }
            }
            assert(m1.shape_ok());
            crate::node::lemma_valid_fold(m1);
            assert(m1 =~= old(self).with_field_lines(fm.children));
        }
    }

    /// Clone one field line and reinsert it immediately adjacent, so the
    /// field-line list gains exactly one copy of line `idx`.
    pub fn duplicate_field_line(&mut self, idx: usize)
        requires
            old(self).wf(),
            idx < old(self).field_lines_model().len(),
            old(self).model().render().len() + old(self).field_lines_model()[idx as int].render().len() <= usize::MAX,
            old(self).model().leaf_count() + old(self).field_lines_model()[idx as int].leaf_count() <= usize::MAX,
            old(self).model().node_count() + 1 + old(self).field_lines_model()[idx as int].node_count() <= usize::MAX,
        ensures
            final(self).wf(),
            final(self).model() == old(self).with_field_lines(
                old(self).field_lines_model().insert(
                    idx as int,
                    old(self).field_lines_model()[idx as int],
                ),
            ),
    {
        proof {
            self.lemma_shape();
            Node::lemma_models(self.node.children@);
            self.node.lemma_wf_child(1);
        }
        let ghost m0 = self.model();
        let ghost flm = self.field_lines_model();
        let fl = &self.node.children[1];
        proof {
            Node::lemma_models(fl.children@);
            assert(fl.model().children.len() == flm.len());
            fl.lemma_wf_child(idx as int);
            NodeView::lemma_all_split(flm, idx as int);
            assert(m0.children[1].render() == NodeView::render_all(flm));
            assert(m0.children[1].leaf_count() == NodeView::leaf_count_all(flm));
            assert(m0.children[1].node_count() == flm.len() + NodeView::node_count_all(flm));
        }
        let mut flc = fl.deep_clone();
        let dup = match flc.child(idx) {
            Some(c) => c.deep_clone(),
            None => {
                proof {
                    assert(false);
                }
                return ;
            },
        };
        flc.insert_child(dup, idx);
        proof {
            flm.insert_ensures(idx as int, flm[idx as int]);
            assert forall|i: int| 0 <= i < flc.model().children.len() implies (
            #[trigger] flc.model().children[i]).node_type == NodeType::FieldLine && (
            #[trigger] flc.model().children[i]).valid() by {
                assert(flc.model().children == flm.insert(idx as int, flm[idx as int]));
            }
            NodeView::lemma_all_insert(flm, idx as int, flm[idx as int]);
            assert(flc.model().render() == NodeView::render_all(flc.model().children));
            assert(flc.model().value =~= m0.children[1].value);
        }
        self.install_field_lines(flc);
    }

    /// Delete the field line at the given position.
    pub fn remove_field_line(&mut self, idx: usize)
        requires
            old(self).wf(),
            idx < old(self).field_lines_model().len(),
        ensures
            final(self).wf(),
            final(self).model() == old(self).with_field_lines(
                old(self).field_lines_model().remove(idx as int),
            ),
    {
        proof {
            self.lemma_shape();
            Node::lemma_models(self.node.children@);
            self.node.lemma_wf_child(1);
        }
        let ghost m0 = self.model();
        let ghost flm = self.field_lines_model();
        proof {
            Node::lemma_models(self.node.children[1].children@);
            assert(m0.children[1].render() == NodeView::render_all(flm));
            assert(m0.children[1].leaf_count() == NodeView::leaf_count_all(flm));
            assert(m0.children[1].node_count() == flm.len() + NodeView::node_count_all(flm));
        }
        let mut flc = self.node.children[1].deep_clone();
        flc.remove_child(idx);
        proof {
            flm.remove_ensures(idx as int);
            assert forall|i: int| 0 <= i < flc.model().children.len() implies (
            #[trigger] flc.model().children[i]).node_type == NodeType::FieldLine && (
            #[trigger] flc.model().children[i]).valid() by {
                assert(flc.model().children == flm.remove(idx as int));
            }
            NodeView::lemma_all_remove(flm, idx as int);
            assert(flc.model().value =~= m0.children[1].value);
            m0.children[1].lemma_leaf_count_pos();
            if flc.model().children.len() > 0 {
                assert(flc.model().render() == NodeView::render_all(flc.model().children));
            }
        }
        self.install_field_lines(flc);
    }

    /// Copy the run of `n` field lines starting at `start` of the
    /// donor's header into this message's header at position `pos`.
    #[verifier::rlimit(100)]
    #[verifier::spinoff_prover]
    pub fn splice_field_lines(&mut self, pos: usize, donor: &HttpInput, start: usize, n: usize)
        requires
            old(self).wf(),
            donor.wf(),
            old(self).field_lines_model().len() > 0,
            pos <= old(self).field_lines_model().len(),
            start + n <= donor.field_lines_model().len(),
            old(self).model().render().len() + NodeView::render_all(
                donor.field_lines_model().subrange(start as int, start as int + n),
            ).len() <= usize::MAX,
            old(self).model().leaf_count() + NodeView::leaf_count_all(
                donor.field_lines_model().subrange(start as int, start as int + n),
            ) <= usize::MAX,
            old(self).model().node_count() + n + NodeView::node_count_all(
                donor.field_lines_model().subrange(start as int, start as int + n),
            ) <= usize::MAX,
        ensures
            final(self).wf(),
            final(self).model() == old(self).with_field_lines(
                old(self).field_lines_model().take(pos as int) + donor.field_lines_model().subrange(
                    start as int,
                    start as int + n,
                ) + old(self).field_lines_model().skip(pos as int),
            ),
    {
        proof {
            self.lemma_shape();
            donor.lemma_shape();
            Node::lemma_models(self.node.children@);
            Node::lemma_models(donor.node.children@);
            self.node.lemma_wf_child(1);
            donor.node.lemma_wf_child(1);
        }
        let ghost m0 = self.model();
        let ghost flm = self.field_lines_model();
        let ghost dsub = donor.field_lines_model().subrange(start as int, start as int + n);
        let ghost target = flm.take(pos as int) + dsub + flm.skip(pos as int);
        let ghost fli = m0.children[1];
        let c = self.node.children[1].children_len();
        let mut pieces = self.node.children[1].clone_children_range(0, pos);
        let mut mid = donor.node.children[1].clone_children_range(start, n);
        let mut tail = self.node.children[1].clone_children_range(pos, c - pos);
        pieces.append(&mut mid);
        pieces.append(&mut tail);
        proof {
            Node::lemma_models(pieces@);
            assert(Node::models(pieces@) =~= target);
            Node::lemma_wf_all(pieces@);
            // the new list fits the caches: it holds the old header plus
            // the donor run, and both are bounded by the premises
            NodeView::lemma_all_concat(flm.take(pos as int) + dsub, flm.skip(pos as int));
            NodeView::lemma_all_concat(flm.take(pos as int), dsub);
            NodeView::lemma_all_concat(flm.take(pos as int), flm.skip(pos as int));
            assert(flm.take(pos as int) + flm.skip(pos as int) =~= flm);
            NodeView::lemma_all_split(m0.children, 1);
            assert(m0.render() == NodeView::render_all(m0.children));
            assert(fli.render() == NodeView::render_all(flm));
            assert(fli.node_count() == flm.len() + NodeView::node_count_all(flm));
            assert(NodeView::render_all(target).len() <= usize::MAX);
            assert(NodeView::leaf_count_all(target) <= usize::MAX);
            assert(target.len() + NodeView::node_count_all(target) <= usize::MAX);
            assert(self.node.children@[1].wf());
            assert(fli.value =~= Seq::<u8>::empty());
        }
        let newfl = match Node::new_with_children(NodeType::FieldLines, pieces) {
            Some(nfl) => nfl,
            None => {
                proof {
                    assert(false);
                }
                return ;
            },
        };
        proof {
            assert forall|i: int| 0 <= i < newfl.model().children.len() implies (
            #[trigger] newfl.model().children[i]).node_type == NodeType::FieldLine && (
            #[trigger] newfl.model().children[i]).valid() by {
                assert(newfl.model().children == target);
                if i < pos {
                    assert(target[i] == flm[i]);
                } else if i < pos + n {
                    assert(target[i] == donor.field_lines_model()[start + (i - pos)]);
                } else {
                    assert(target[i] == flm[i - n]);
                }
            }
        }
        self.install_field_lines(newfl);
    }
}

/// Whether a message's body is chunked: its MessageBody slot holds a
/// ChunkedBody child.
pub open spec fn chunked_body(m: NodeView) -> bool {
    &&& m.children[3].children.len() == 1
    &&& m.children[3].children[0].node_type == NodeType::ChunkedBody
}

/// The message with the trailer section's child list replaced by `cs`
/// (and the section's own raw bytes discarded, as it now holds lines).
pub open spec fn with_trailer_view(m: NodeView, cs: Seq<NodeView>) -> NodeView {
    let body = m.children[3];
    let cb = body.children[0];
    let tr = cb.children[2];
    NodeView {
        node_type: m.node_type,
        value: m.value,
        children: m.children.update(
            3,
            NodeView {
                node_type: body.node_type,
                value: body.value,
                children: body.children.update(
                    0,
                    NodeView {
                        node_type: cb.node_type,
                        value: cb.value,
                        children: cb.children.update(
                            2,
                            NodeView {
                                node_type: tr.node_type,
                                value: Seq::<u8>::empty(),
                                children: cs,
                            },
                        ),
                    },
                ),
            },
        ),
    }
}

impl HttpInput {
    /// Whether this message carries a chunked body.
    pub open(crate) spec fn is_chunked(self) -> bool {
        chunked_body(self.model())
    }

    /// The shape facts a valid chunked message guarantees.
    pub(crate) proof fn lemma_chunked_shape(self)
        requires
            self.wf(),
            self.is_chunked(),
        ensures
            self.model().children.len() == 4,
            self.model().children[3].children.len() == 1,
            self.model().children[3].children[0].node_type == NodeType::ChunkedBody,
            self.model().children[3].children[0].children.len() == 4,
            self.model().children[3].children[0].children[0].node_type == NodeType::Chunks,
            self.model().children[3].children[0].children[1].node_type == NodeType::LastChunk,
            self.model().children[3].children[0].children[2].node_type == NodeType::TrailerSection,
            self.model().children[3].children[0].children[3].node_type == NodeType::CRLF,
            self.model().children[3].valid(),
            self.model().children[3].children[0].valid(),
            forall|i: int|
                0 <= i < 4 ==> (#[trigger] self.model().children[3].children[0].children[
                    i
                ]).valid(),
    {
        self.lemma_shape();
        crate::node::lemma_valid_unfold(self.model().children[3]);
        crate::node::lemma_valid_unfold(self.model().children[3].children[0]);
    }

    /// Exec check for a chunked body.
    pub fn has_chunked_body(&self) -> (r: bool)
        requires
            self.wf(),
        ensures
            r == self.is_chunked(),
    {
        proof {
            self.lemma_shape();
            crate::node::lemma_valid_unfold(self.model());
        }
        let body = self.message_body();
        match body.child(0) {
            Some(c) => c.node_type() == NodeType::ChunkedBody,
            None => false,
        }
    }

    /// Replace the trailer-section child list of a chunked body with a
    /// deep copy of the donor's field lines.
    pub fn replace_trailer_section(&mut self, donor: &HttpInput)
        requires
            old(self).wf(),
            donor.wf(),
            old(self).is_chunked(),
            donor.field_lines_model().len() > 0,
            old(self).model().render().len() + NodeView::render_all(donor.field_lines_model()).len()
                <= usize::MAX,
            old(self).model().leaf_count() + NodeView::leaf_count_all(donor.field_lines_model())
                <= usize::MAX,
            old(self).model().node_count() + donor.field_lines_model().len()
                + NodeView::node_count_all(donor.field_lines_model()) <= usize::MAX,
        ensures
            final(self).wf(),
            final(self).model() == with_trailer_view(old(self).model(), donor.field_lines_model()),
    {
        proof {
            self.lemma_chunked_shape();
            donor.lemma_shape();
            Node::lemma_models(self.node.children@);
            self.node.lemma_wf_child(3);
            Node::lemma_models(donor.node.children@);
            donor.node.lemma_wf_child(1);
        }
        let ghost m0 = self.model();
        let ghost dflm = donor.field_lines_model();
        let ghost body0 = m0.children[3];
        let ghost cb0 = body0.children[0];
        let ghost tr0 = cb0.children[2];

        // the donor's field lines, as a fresh trailer section
        let dflc = donor.field_line_count();
        proof {
            Node::lemma_models(donor.node.children[1 as int].children@);
            assert(donor.model().children[1].render() == NodeView::render_all(dflm));
            assert(donor.model().children[1].leaf_count() == NodeView::leaf_count_all(dflm));
            assert(donor.model().children[1].node_count() == dflm.len()
                + NodeView::node_count_all(dflm));
        }
        let donor_lines = donor.node.children[1].clone_children_range(0, dflc);
        proof {
            Node::lemma_models(donor_lines@);
            assert(Node::models(donor_lines@) =~= dflm);
            Node::lemma_wf_all(donor_lines@);
        }
        let newtr = match Node::new_with_children(NodeType::TrailerSection, donor_lines) {
            Some(t) => t,
            None => {
                proof {
                    assert(false);
                }
                return ;
            },
        };

        // rebuild the chunked body with the new trailer, then the body,
        // then the message root
        let body_ref = &self.node.children[3];
        proof {
            Node::lemma_models(body_ref.children@);
            body_ref.lemma_wf_child(0);
        }
        let mut cbc = body_ref.children[0].deep_clone();
        proof {
            Node::lemma_models(cbc.children@);
            cbc.lemma_wf_child(2);
            NodeView::lemma_all_split(cb0.children, 2);
            assert(cb0.render() == NodeView::render_all(cb0.children));
        }
        cbc.replace_child(2, newtr);
        let mut bodyc = self.node.children[3].deep_clone();
        proof {
            NodeView::lemma_all_split(body0.children, 0);
            assert(body0.render() == NodeView::render_all(body0.children));
            NodeView::lemma_all_update(cb0.children, 2, (NodeView {
                node_type: tr0.node_type,
                value: Seq::<u8>::empty(),
                children: dflm,
            }));
            NodeView::lemma_all_split(m0.children, 3);
            assert(m0.render() == NodeView::render_all(m0.children));
        }
        bodyc.replace_child(0, cbc);
        proof {
            NodeView::lemma_all_update(body0.children, 0, bodyc.model().children[0]);
        }
        self.node.replace_child(3, bodyc);
        proof {
            let m1 = self.model();
            // the rebuilt tree is grammar-valid level by level
            crate::node::lemma_valid_unfold(m0);
            crate::node::lemma_valid_unfold(body0);
            crate::node::lemma_valid_unfold(cb0);
            let ntr = NodeView {
                node_type: tr0.node_type,
                value: Seq::<u8>::empty(),
                children: dflm,
            };
            assert forall|i: int| 0 <= i < ntr.children.len() implies (
            #[trigger] ntr.children[i]).valid() by {
                assert(ntr.children[i] == dflm[i]);
            }
            assert(ntr.shape_ok());
            crate::node::lemma_valid_fold(ntr);
            let ncb = NodeView { node_type: cb0.node_type, value: cb0.value, children: cb0.children.update(2, ntr) };
            assert forall|i: int| 0 <= i < ncb.children.len() implies (
            #[trigger] ncb.children[i]).valid() by {
                if i != 2 {
                    assert(ncb.children[i] == cb0.children[i]);
                }
            }
            assert(ncb.shape_ok());
            crate::node::lemma_valid_fold(ncb);
            let nbody = NodeView {
                node_type: body0.node_type,
                value: body0.value,
                children: body0.children.update(0, ncb),
            };
            assert forall|i: int| 0 <= i < nbody.children.len() implies (
            #[trigger] nbody.children[i]).valid() by {
                if i != 0 {
                    assert(nbody.children[i] == body0.children[i]);
                }
            }
            assert(nbody.shape_ok());
            crate::node::lemma_valid_fold(nbody);
            assert forall|i: int| 0 <= i < m1.children.len() implies (
            #[trigger] m1.children[i]).valid() by {
                if i != 3 {
                    assert(m1.children[i] == m0.children[i]);
                } else {
                    assert(m1.children[3] =~= nbody);
                }
            }
            assert(m1.shape_ok());
            crate::node::lemma_valid_fold(m1);
            assert(m1 =~= with_trailer_view(m0, dflm));
        }
    }
}

impl HttpInput {
    /// Number of leaves of the message tree, read from the cache.
    pub fn leaf_total(&self) -> (r: usize)
        requires
            self.wf(),
        ensures
            r == self.model().leaf_count(),
    {
        self.node.leaf_size()
    }

    /// Replace the value of the pre-order leaf at position `d` with a
    /// copy of `v`; the skeleton, and with it grammar validity, is
    /// unchanged.
    pub fn replace_leaf_value(&mut self, d: usize, v: &[u8])
        requires
            old(self).wf(),
            d < old(self).model().leaf_count(),
            old(self).render().len() + v@.len() <= usize::MAX,
        ensures
            final(self).wf(),
            old(self).model().same_skeleton(final(self).model()),
            final(self).model() == old(self).model().replace_leaf(d as int, v@),
    {
        let ghost pre = *self;
        self.node.replace_leaf_value(d, v);
        proof {
            Self::lemma_skeleton_edit(pre, *self);
        }
    }
}

} // verus!
