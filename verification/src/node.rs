//! The grammar node tree: one node per grammar production or terminal.
//! A leaf holds raw bytes; an internal node holds ordered owned children.
//! Every node caches three subtree aggregates (value-byte length, leaf
//! count, internal-node count) so that aggregate reads are O(1) and edits
//! only recompute the caches along the edited path.

use vstd::prelude::*;

verus! {

/// Coarse grouping of node types, used for type-safe substitution and swap.
#[derive(Clone, Copy, Debug, PartialEq, Eq, Structural)]
pub enum NodeLabel {
    Text,
    Number,
    Symbol,
}

/// The closed set of grammar symbols of the HTTP message grammar.
#[derive(Clone, Copy, Debug, PartialEq, Eq, Structural)]
pub enum NodeType {
    HttpMessage,
    StartLine,
    RequestLine,
    StatusLine,
    FieldLines,
    FieldLine,
    MessageBody,
    ChunkedBody,
    Chunks,
    Chunk,
    ChunkSize,
    LastChunk,
    TrailerSection,
    SP,
    HTAB,
    OWSBWS,
    CRLF,
    HEXDIG,
    COLON,
    RawBytes,
}

impl NodeType {
    /// The coarse label of this grammar symbol.
    pub open spec fn spec_label(self) -> NodeLabel {
        match self {
            NodeType::ChunkSize => NodeLabel::Number,
            NodeType::HEXDIG => NodeLabel::Number,
            NodeType::SP => NodeLabel::Symbol,
            NodeType::HTAB => NodeLabel::Symbol,
            NodeType::OWSBWS => NodeLabel::Symbol,
            NodeType::CRLF => NodeLabel::Symbol,
            NodeType::COLON => NodeLabel::Symbol,
            _ => NodeLabel::Text,
        }
    }

    /// Map a grammar symbol to its coarse label.
    pub fn label(&self) -> (r: NodeLabel)
        ensures
            r == self.spec_label(),
    {
        match self {
            NodeType::ChunkSize => NodeLabel::Number,
            NodeType::HEXDIG => NodeLabel::Number,
            NodeType::SP => NodeLabel::Symbol,
            NodeType::HTAB => NodeLabel::Symbol,
            NodeType::OWSBWS => NodeLabel::Symbol,
            NodeType::CRLF => NodeLabel::Symbol,
            NodeType::COLON => NodeLabel::Symbol,
            _ => NodeLabel::Text,
        }
    }
}

/// The mathematical value of a node: its grammar symbol, its raw bytes
/// (empty on internal nodes), and the ordered sequence of child values.
#[verifier::ext_equal]
pub ghost struct NodeView {
    pub node_type: NodeType,
    pub value: Seq<u8>,
    pub children: Seq<NodeView>,
}

impl NodeView {
    pub open spec fn is_leaf(self) -> bool {
        self.children.len() == 0
    }

    /// The flat bytes this subtree renders to: a leaf renders its value,
    /// an internal node renders the concatenation of its children.
    pub open spec fn render(self) -> Seq<u8>
        decreases self,
    {
        if self.children.len() == 0 {
            self.value
        } else {
            Self::render_all(self.children)
        }
    }

    pub open spec fn render_all(cs: Seq<NodeView>) -> Seq<u8>
        decreases cs,
    {
        if cs.len() == 0 {
            Seq::empty()
        } else {
            Self::render_all(cs.drop_last()) + cs.last().render()
        }
    }

    /// Number of leaves in this subtree (a leaf counts itself as 1).
    pub open spec fn leaf_count(self) -> nat
        decreases self,
    {
        if self.children.len() == 0 {
            1
        } else {
            Self::leaf_count_all(self.children)
        }
    }

    pub open spec fn leaf_count_all(cs: Seq<NodeView>) -> nat
        decreases cs,
    {
        if cs.len() == 0 {
            0
        } else {
            Self::leaf_count_all(cs.drop_last()) + cs.last().leaf_count()
        }
    }

    /// Number of strict descendants of this node.
    pub open spec fn node_count(self) -> nat
        decreases self,
    {
        if self.children.len() == 0 {
            0
        } else {
            self.children.len() + Self::node_count_all(self.children)
        }
    }

    pub open spec fn node_count_all(cs: Seq<NodeView>) -> nat
        decreases cs,
    {
        if cs.len() == 0 {
            0
        } else {
            Self::node_count_all(cs.drop_last()) + cs.last().node_count()
        }
    }

    /// The one-level grammar constraint: which ordered children each
    /// grammar symbol admits. A symbol with a starred production admits
    /// any number of children of the repeated symbol, so such a node with
    /// no children at all is a well-shaped (empty) leaf.
    pub open spec fn shape_ok(self) -> bool {
        let cs = self.children;
        match self.node_type {
            NodeType::HttpMessage => {
                &&& cs.len() == 4
                &&& cs[0].node_type == NodeType::StartLine
                &&& cs[1].node_type == NodeType::FieldLines
                &&& cs[2].node_type == NodeType::CRLF
                &&& cs[3].node_type == NodeType::MessageBody
            },
            NodeType::StartLine => {
                &&& cs.len() == 1
                &&& (cs[0].node_type == NodeType::RequestLine || cs[0].node_type
                    == NodeType::StatusLine)
            },
            NodeType::RequestLine | NodeType::StatusLine => {
                &&& cs.len() == 6
                &&& cs[0].node_type == NodeType::RawBytes
                &&& cs[1].node_type == NodeType::SP
                &&& cs[2].node_type == NodeType::RawBytes
                &&& cs[3].node_type == NodeType::SP
                &&& cs[4].node_type == NodeType::RawBytes
                &&& cs[5].node_type == NodeType::CRLF
            },
            NodeType::FieldLines => forall|i: int|
                0 <= i < cs.len() ==> (#[trigger] cs[i]).node_type == NodeType::FieldLine,
            NodeType::FieldLine => {
                &&& cs.len() == 6
                &&& cs[0].node_type == NodeType::RawBytes
                &&& cs[1].node_type == NodeType::COLON
                &&& cs[2].node_type == NodeType::OWSBWS
                &&& cs[3].node_type == NodeType::RawBytes
                &&& cs[4].node_type == NodeType::OWSBWS
                &&& cs[5].node_type == NodeType::CRLF
            },
            NodeType::MessageBody => {
                &&& cs.len() == 1
                &&& (cs[0].node_type == NodeType::ChunkedBody || cs[0].node_type
                    == NodeType::RawBytes)
            },
            NodeType::ChunkedBody => {
                &&& cs.len() == 4
                &&& cs[0].node_type == NodeType::Chunks
                &&& cs[1].node_type == NodeType::LastChunk
                &&& cs[2].node_type == NodeType::TrailerSection
                &&& cs[3].node_type == NodeType::CRLF
            },
            NodeType::Chunks => forall|i: int|
                0 <= i < cs.len() ==> (#[trigger] cs[i]).node_type == NodeType::Chunk,
            NodeType::Chunk => {
                &&& cs.len() == 5
                &&& cs[0].node_type == NodeType::ChunkSize
                &&& cs[1].node_type == NodeType::RawBytes
                &&& cs[2].node_type == NodeType::CRLF
                &&& cs[3].node_type == NodeType::RawBytes
                &&& cs[4].node_type == NodeType::CRLF
            },
            NodeType::ChunkSize => {
                &&& cs.len() >= 1
                &&& forall|i: int|
                    0 <= i < cs.len() ==> (#[trigger] cs[i]).node_type == NodeType::HEXDIG
            },
            NodeType::LastChunk => {
                &&& cs.len() == 3
                &&& cs[0].node_type == NodeType::ChunkSize
                &&& cs[1].node_type == NodeType::RawBytes
                &&& cs[2].node_type == NodeType::CRLF
            },
            NodeType::TrailerSection => forall|i: int|
                0 <= i < cs.len() ==> (#[trigger] cs[i]).node_type == NodeType::FieldLine,
            NodeType::SP
            | NodeType::HTAB
            | NodeType::OWSBWS
            | NodeType::CRLF
            | NodeType::HEXDIG
            | NodeType::COLON
            | NodeType::RawBytes => cs.len() == 0,
        }
    }

    /// Grammar validity: the shape constraint holds at this node and,
    /// recursively, below it. A ChunkSize node may not be an empty leaf
    /// (the grammar asks for at least one hex digit); every other starred
    /// production admits the empty child list.
    pub open spec fn valid(self) -> bool
        decreases self,
    {
        &&& self.shape_ok()
        &&& forall|i: int|
            0 <= i < self.children.len() ==> (#[trigger] self.children[i]).valid()
    }

    /// Two trees have the same skeleton when they agree on every node's
    /// grammar symbol and child count; only leaf values may differ.
    pub open spec fn same_skeleton(self, other: NodeView) -> bool
        decreases self,
    {
        &&& self.node_type == other.node_type
        &&& self.children.len() == other.children.len()
        &&& forall|i: int|
            0 <= i < self.children.len() ==> (#[trigger] self.children[i]).same_skeleton(
                other.children[i],
            )
    }

    /// Concatenating child lists concatenates their renders and adds
    /// their counts.
    pub proof fn lemma_all_concat(a: Seq<NodeView>, b: Seq<NodeView>)
        ensures
            Self::render_all(a + b) == Self::render_all(a) + Self::render_all(b),
            Self::leaf_count_all(a + b) == Self::leaf_count_all(a) + Self::leaf_count_all(b),
            Self::node_count_all(a + b) == Self::node_count_all(a) + Self::node_count_all(b),
        decreases b,
    {
        if b.len() == 0 {
            assert(a + b =~= a);
            assert(Self::render_all(a) + Self::render_all(b) =~= Self::render_all(a));
        } else {
            Self::lemma_all_concat(a, b.drop_last());
            assert((a + b).drop_last() =~= a + b.drop_last());
            assert((a + b).last() == b.last());
            assert(Self::render_all(a) + Self::render_all(b.drop_last()) + b.last().render()
                =~= Self::render_all(a) + (Self::render_all(b.drop_last()) + b.last().render()));
        }
    }

    pub proof fn lemma_all_singleton(v: NodeView)
        ensures
            Self::render_all(seq![v]) == v.render(),
            Self::leaf_count_all(seq![v]) == v.leaf_count(),
            Self::node_count_all(seq![v]) == v.node_count(),
    {
        assert(seq![v].len() == 1);
        assert(seq![v].last() == v);
        assert(seq![v].drop_last() =~= Seq::<NodeView>::empty());
        assert(Self::render_all(Seq::<NodeView>::empty()) + v.render() =~= v.render());
        assert(Self::leaf_count_all(seq![v].drop_last()) == 0);
        assert(Self::node_count_all(seq![v].drop_last()) == 0);
    }

    /// Splitting a child list at one child splits its render and counts.
    pub proof fn lemma_all_split(cs: Seq<NodeView>, k: int)
        requires
            0 <= k < cs.len(),
        ensures
            Self::render_all(cs) == Self::render_all(cs.take(k)) + cs[k].render()
                + Self::render_all(cs.skip(k + 1)),
            Self::leaf_count_all(cs) == Self::leaf_count_all(cs.take(k)) + cs[k].leaf_count()
                + Self::leaf_count_all(cs.skip(k + 1)),
            Self::node_count_all(cs) == Self::node_count_all(cs.take(k)) + cs[k].node_count()
                + Self::node_count_all(cs.skip(k + 1)),
    {
        assert(cs =~= cs.take(k) + seq![cs[k]] + cs.skip(k + 1));
        Self::lemma_all_concat(cs.take(k) + seq![cs[k]], cs.skip(k + 1));
        Self::lemma_all_concat(cs.take(k), seq![cs[k]]);
        Self::lemma_all_singleton(cs[k]);
    }

    /// Same-skeleton trees have the same leaf and node counts, and one is
    /// grammar-valid exactly when the other is.
    pub proof fn lemma_same_skeleton_counts(a: NodeView, b: NodeView)
        requires
            a.same_skeleton(b),
        ensures
            a.leaf_count() == b.leaf_count(),
            a.node_count() == b.node_count(),
            a.valid() == b.valid(),
        decreases a,
    {
        Self::lemma_same_skeleton_counts_all(a.children, b.children);
        assert forall|i: int| 0 <= i < a.children.len() implies (
        #[trigger] a.children[i]).node_type == b.children[i].node_type by {
            assert(a.children[i].same_skeleton(b.children[i]));
        }
        assert forall|i: int| 0 <= i < b.children.len() implies (
        #[trigger] b.children[i]).node_type == a.children[i].node_type by {
            assert(a.children[i].same_skeleton(b.children[i]));
        }
        assert(a.shape_ok() == b.shape_ok());
    }

    pub proof fn lemma_same_skeleton_counts_all(a: Seq<NodeView>, b: Seq<NodeView>)
        requires
            a.len() == b.len(),
            forall|i: int| 0 <= i < a.len() ==> (#[trigger] a[i]).same_skeleton(b[i]),
        ensures
            Self::leaf_count_all(a) == Self::leaf_count_all(b),
            Self::node_count_all(a) == Self::node_count_all(b),
            (forall|i: int| 0 <= i < a.len() ==> (#[trigger] a[i]).valid()) == (forall|i: int|
                0 <= i < b.len() ==> (#[trigger] b[i]).valid()),
        decreases a,
    {
        if a.len() > 0 {
            assert forall|i: int| 0 <= i < a.drop_last().len() implies (
            #[trigger] a.drop_last()[i]).same_skeleton(b.drop_last()[i]) by {
                assert(a.drop_last()[i] == a[i]);
                assert(b.drop_last()[i] == b[i]);
            }
            Self::lemma_same_skeleton_counts_all(a.drop_last(), b.drop_last());
            Self::lemma_same_skeleton_counts(a.last(), b.last());
        }
        if forall|i: int| 0 <= i < a.len() ==> (#[trigger] a[i]).valid() {
            assert forall|i: int| 0 <= i < b.len() implies (#[trigger] b[i]).valid() by {
                Self::lemma_same_skeleton_counts(a[i], b[i]);
            }
        } else {
            let w = choose|i: int| 0 <= i < a.len() && !(#[trigger] a[i]).valid();
            Self::lemma_same_skeleton_counts(a[w], b[w]);
            assert(!b[w].valid());
        }
    }

    /// Same-skeleton is reflexive.
    pub proof fn lemma_same_skeleton_refl(a: NodeView)
        ensures
            a.same_skeleton(a),
        decreases a,
    {
        assert forall|i: int| 0 <= i < a.children.len() implies (
        #[trigger] a.children[i]).same_skeleton(a.children[i]) by {
            Self::lemma_same_skeleton_refl(a.children[i]);
        }
    }

    /// Same-skeleton is transitive.
    pub proof fn lemma_same_skeleton_trans(a: NodeView, b: NodeView, c: NodeView)
        requires
            a.same_skeleton(b),
            b.same_skeleton(c),
        ensures
            a.same_skeleton(c),
        decreases a,
    {
        assert forall|i: int| 0 <= i < a.children.len() implies (
        #[trigger] a.children[i]).same_skeleton(c.children[i]) by {
            Self::lemma_same_skeleton_trans(a.children[i], b.children[i], c.children[i]);
        }
    }

    /// Appending one more child extends the prefix render and counts.
    pub proof fn lemma_all_take_succ(cs: Seq<NodeView>, i: int)
        requires
            0 <= i < cs.len(),
        ensures
            Self::render_all(cs.take(i + 1)) == Self::render_all(cs.take(i)) + cs[i].render(),
            Self::leaf_count_all(cs.take(i + 1)) == Self::leaf_count_all(cs.take(i))
                + cs[i].leaf_count(),
            Self::node_count_all(cs.take(i + 1)) == Self::node_count_all(cs.take(i))
                + cs[i].node_count(),
    {
        assert(cs.take(i + 1).drop_last() =~= cs.take(i));
        assert(cs.take(i + 1).last() == cs[i]);
    }

    /// A prefix never renders more bytes, nor counts more nodes, than the
    /// whole child list.
    pub proof fn lemma_all_prefix_le(cs: Seq<NodeView>, i: int)
        requires
            0 <= i <= cs.len(),
        ensures
            Self::render_all(cs.take(i)).len() <= Self::render_all(cs).len(),
            Self::leaf_count_all(cs.take(i)) <= Self::leaf_count_all(cs),
            Self::node_count_all(cs.take(i)) <= Self::node_count_all(cs),
    {
        assert(cs =~= cs.take(i) + cs.skip(i));
        Self::lemma_all_concat(cs.take(i), cs.skip(i));
    }
}

/// One node of the grammar tree. Exactly one of the raw value and the
/// child list is populated: a node with children always has an empty
/// value, and a node without children is a leaf carrying its value.
pub struct Node {
    pub(crate) node_type: NodeType,
    pub(crate) value: Vec<u8>,
    pub(crate) children: Vec<Node>,
    pub(crate) value_total: usize,
    pub(crate) leaf_total: usize,
    pub(crate) node_total: usize,
}

impl Node {
    /// The mathematical value of this node.
    pub open(crate) spec fn model(self) -> NodeView
        decreases self,
    {
        NodeView {
            node_type: self.node_type,
            value: self.value@,
            children: Self::models(self.children@),
        }
    }

    pub open(crate) spec fn models(cs: Seq<Node>) -> Seq<NodeView>
        decreases cs,
    {
        if cs.len() == 0 {
            Seq::empty()
        } else {
            Self::models(cs.drop_last()).push(cs.last().model())
        }
    }

    /// The cached aggregates agree with the model, recursively, and
    /// internal nodes carry no value bytes of their own.
    pub open(crate) spec fn wf(self) -> bool
        decreases self,
    {
        &&& Self::wf_all(self.children@)
        &&& (self.children@.len() > 0 ==> self.value@.len() == 0)
        &&& self.value_total == self.model().render().len()
        &&& self.leaf_total == self.model().leaf_count()
        &&& self.node_total == self.model().node_count()
    }

    pub open(crate) spec fn wf_all(cs: Seq<Node>) -> bool
        decreases cs,
    {
        cs.len() == 0 || (Self::wf_all(cs.drop_last()) && cs.last().wf())
    }

    /// Build a leaf node carrying the given raw bytes.
    pub fn new_with_value(node_type: NodeType, value: Vec<u8>) -> (r: Node)
        ensures
            r.wf(),
            r.model() == (NodeView {
                node_type,
                value: value@,
                children: Seq::<NodeView>::empty(),
            }),
    {
        let value_total = value.len();
        let r = Node { node_type, value, children: Vec::new(), value_total, leaf_total: 1, node_total: 0 };
        proof {
            assert(Self::models(r.children@) =~= Seq::<NodeView>::empty());
        }
        r
    }

    /// Whether this node is a leaf (has no children).
    pub fn is_leaf(&self) -> (r: bool)
        ensures
            r == self.model().is_leaf(),
    {
        proof {
            Self::lemma_models_len(self.children@);
        }
        self.children.len() == 0
    }

    pub proof fn lemma_models_len(cs: Seq<Node>)
        ensures
            Self::models(cs).len() == cs.len(),
        decreases cs,
    {
        if cs.len() > 0 {
            Self::lemma_models_len(cs.drop_last());
        }
    }

    pub proof fn lemma_models_index(cs: Seq<Node>, i: int)
        requires
            0 <= i < cs.len(),
        ensures
            Self::models(cs).len() == cs.len(),
            Self::models(cs)[i] == cs[i].model(),
        decreases cs,
    {
        Self::lemma_models_len(cs);
        if i < cs.len() - 1 {
            Self::lemma_models_index(cs.drop_last(), i);
        }
    }

    /// The model children are the children's models, pointwise.
    pub proof fn lemma_models(cs: Seq<Node>)
        ensures
            Self::models(cs).len() == cs.len(),
            forall|i: int| 0 <= i < cs.len() ==> #[trigger] Self::models(cs)[i] == cs[i].model(),
    {
        Self::lemma_models_len(cs);
        assert forall|i: int| 0 <= i < cs.len() implies #[trigger] Self::models(cs)[i]
            == cs[i].model() by {
            Self::lemma_models_index(cs, i);
        }
    }

    /// A child list is well-formed exactly when each child is.
    pub(crate) proof fn lemma_wf_all(cs: Seq<Node>)
        ensures
            Self::wf_all(cs) == (forall|i: int| 0 <= i < cs.len() ==> #[trigger] cs[i].wf()),
        decreases cs,
    {
        if cs.len() > 0 {
            Self::lemma_wf_all(cs.drop_last());
            if Self::wf_all(cs) {
                assert forall|i: int| 0 <= i < cs.len() implies #[trigger] cs[i].wf() by {
                    if i < cs.len() - 1 {
                        assert(cs.drop_last()[i] == cs[i]);
                    }
                }
            }
            if forall|i: int| 0 <= i < cs.len() ==> #[trigger] cs[i].wf() {
                assert forall|i: int| 0 <= i < cs.drop_last().len() implies (
                #[trigger] cs.drop_last()[i]).wf() by {
                    assert(cs.drop_last()[i] == cs[i]);
                }
                assert(cs[cs.len() - 1].wf());
                assert(cs.last() == cs[cs.len() - 1]);
                assert(Self::wf_all(cs));
            }
        }
    }

    /// Every child of a well-formed node is well-formed, and its share of
    /// the aggregates is bounded by the parent's.
    pub(crate) proof fn lemma_wf_child(self, k: int)
        requires
            self.wf(),
            0 <= k < self.children@.len(),
        ensures
            self.children@[k].wf(),
            self.model().children.len() == self.children@.len(),
            self.model().children[k] == self.children@[k].model(),
            self.children@[k].model().render().len() <= self.model().render().len(),
            self.children@[k].model().leaf_count() <= self.model().leaf_count(),
            self.children@[k].model().node_count() < self.model().node_count(),
    {
        Self::lemma_wf_all(self.children@);
        Self::lemma_models(self.children@);
        NodeView::lemma_all_split(self.model().children, k);
    }

    /// Number of children of this node.
    pub fn children_len(&self) -> (r: usize)
        ensures
            r == self.model().children.len(),
    {
        proof {
            Self::lemma_models(self.children@);
        }
        self.children.len()
    }

    /// The child at the given slot, if there is one.
    pub fn child(&self, idx: usize) -> (r: Option<&Node>)
        ensures
            match r {
                Some(c) => {
                    &&& idx < self.model().children.len()
                    &&& c.model() == self.model().children[idx as int]
                    &&& (self.wf() ==> c.wf())
                },
                None => idx >= self.model().children.len(),
            },
    {
        proof {
            Self::lemma_models(self.children@);
        }
        if idx >= self.children.len() {
            return None;
        }
        proof {
            if self.wf() {
                self.lemma_wf_child(idx as int);
            }
        }
        Some(&self.children[idx])
    }

    /// The grammar symbol of this node.
    pub fn node_type(&self) -> (r: NodeType)
        ensures
            r == self.model().node_type,
    {
        self.node_type
    }

    /// A copy of the raw bytes this node carries itself (empty on an
    /// internal node).
    pub fn value_bytes(&self) -> (r: Vec<u8>)
        ensures
            r@ == self.model().value,
    {
        self.value.clone()
    }

    /// Total rendered length of the subtree, read from the cache in O(1).
    /// For any well-formed node the cached aggregate equals the length of
    /// the bytes `render` would produce.
    pub fn value_size(&self) -> (r: usize)
        requires
            self.wf(),
        ensures
            r == self.model().render().len(),
    {
        self.value_total
    }

    /// Number of leaves of the subtree, read from the cache in O(1).
    pub fn leaf_size(&self) -> (r: usize)
        requires
            self.wf(),
        ensures
            r == self.model().leaf_count(),
    {
        self.leaf_total
    }

    /// Number of strict descendants of the subtree, read from the cache
    /// in O(1).
    pub fn node_size(&self) -> (r: usize)
        requires
            self.wf(),
        ensures
            r == self.model().node_count(),
    {
        self.node_total
    }

    /// Append this subtree's rendered bytes to `out`.
    fn append_render(&self, out: &mut Vec<u8>)
        ensures
            final(out)@ == old(out)@ + self.model().render(),
        decreases self,
    {
        proof {
            Self::lemma_models(self.children@);
        }
        if self.children.len() == 0 {
            out.extend_from_slice(self.value.as_slice());
            proof {
                assert(out@ =~= old(out)@ + self.model().render());
            }
        } else {
            let ghost m = self.model();
            let ghost out0 = out@;
            let n = self.children.len();
            let mut i: usize = 0;
            while i < n
                invariant
                    n == self.children.len(),
                    0 <= i <= n,
                    m == self.model(),
                    m.children.len() == n,
                    forall|j: int| 0 <= j < n ==> #[trigger] m.children[j]
                        == self.children@[j].model(),
                    out@ == out0 + NodeView::render_all(m.children.take(i as int)),
                decreases n - i,
            {
                self.children[i].append_render(out);
                proof {
                    NodeView::lemma_all_take_succ(m.children, i as int);
                }
                i = i + 1;
            }
            proof {
                assert(m.children.take(n as int) =~= m.children);
            }
        }
    }

    /// Render the subtree to flat bytes, in one pass over the tree.
    pub fn bytes(&self) -> (r: Vec<u8>)
        ensures
            r@ == self.model().render(),
    {
        let mut out: Vec<u8> = Vec::new();
        self.append_render(&mut out);
        proof {
            assert(out@ =~= self.model().render());
        }
        out
    }

    /// Check the one-level shape constraint of this node.
    #[verifier::rlimit(100)]
    #[verifier::spinoff_prover]
    fn shape_check(&self) -> (r: bool)
        ensures
            r == self.model().shape_ok(),
    {
        proof {
            Self::lemma_models(self.children@);
        }
        let cs = &self.children;
        match self.node_type {
            NodeType::HttpMessage => cs.len() == 4 && cs[0].node_type == NodeType::StartLine
                && cs[1].node_type == NodeType::FieldLines && cs[2].node_type == NodeType::CRLF
                && cs[3].node_type == NodeType::MessageBody,
            NodeType::StartLine => cs.len() == 1 && (cs[0].node_type == NodeType::RequestLine
                || cs[0].node_type == NodeType::StatusLine),
            NodeType::RequestLine | NodeType::StatusLine => cs.len() == 6 && cs[0].node_type
                == NodeType::RawBytes && cs[1].node_type == NodeType::SP && cs[2].node_type
                == NodeType::RawBytes && cs[3].node_type == NodeType::SP && cs[4].node_type
                == NodeType::RawBytes && cs[5].node_type == NodeType::CRLF,
            NodeType::FieldLines => self.children_all_of_type(NodeType::FieldLine),
            NodeType::FieldLine => cs.len() == 6 && cs[0].node_type == NodeType::RawBytes
                && cs[1].node_type == NodeType::COLON && cs[2].node_type == NodeType::OWSBWS
                && cs[3].node_type == NodeType::RawBytes && cs[4].node_type == NodeType::OWSBWS
                && cs[5].node_type == NodeType::CRLF,
            NodeType::MessageBody => cs.len() == 1 && (cs[0].node_type == NodeType::ChunkedBody
                || cs[0].node_type == NodeType::RawBytes),
            NodeType::ChunkedBody => cs.len() == 4 && cs[0].node_type == NodeType::Chunks
                && cs[1].node_type == NodeType::LastChunk && cs[2].node_type
                == NodeType::TrailerSection && cs[3].node_type == NodeType::CRLF,
            NodeType::Chunks => self.children_all_of_type(NodeType::Chunk),
            NodeType::Chunk => cs.len() == 5 && cs[0].node_type == NodeType::ChunkSize
                && cs[1].node_type == NodeType::RawBytes && cs[2].node_type == NodeType::CRLF
                && cs[3].node_type == NodeType::RawBytes && cs[4].node_type == NodeType::CRLF,
            NodeType::ChunkSize => cs.len() >= 1 && self.children_all_of_type(NodeType::HEXDIG),
            NodeType::LastChunk => cs.len() == 3 && cs[0].node_type == NodeType::ChunkSize
                && cs[1].node_type == NodeType::RawBytes && cs[2].node_type == NodeType::CRLF,
            NodeType::TrailerSection => self.children_all_of_type(NodeType::FieldLine),
            NodeType::SP
            | NodeType::HTAB
            | NodeType::OWSBWS
            | NodeType::CRLF
            | NodeType::HEXDIG
            | NodeType::COLON
            | NodeType::RawBytes => cs.len() == 0,
        }
    }

    /// Check that every child has the given grammar symbol.
    fn children_all_of_type(&self, t: NodeType) -> (r: bool)
        ensures
            r == forall|i: int|
                0 <= i < self.model().children.len() ==> (
                #[trigger] self.model().children[i]).node_type == t,
    {
        proof {
            Self::lemma_models(self.children@);
        }
        let n = self.children.len();
        let mut i: usize = 0;
        while i < n
            invariant
                n == self.children.len(),
                0 <= i <= n,
                self.model().children.len() == n,
                forall|j: int| 0 <= j < n ==> #[trigger] self.model().children[j]
                    == self.children@[j].model(),
                forall|j: int| 0 <= j < i ==> (#[trigger] self.model().children[j]).node_type == t,
            decreases n - i,
        {
            if !(self.children[i].node_type == t) {
                proof {
                    assert(self.model().children[i as int].node_type != t);
                }
                return false;
            }
            i = i + 1;
        }
        true
    }

    /// Check the grammar shape of the whole subtree: the construction-time
    /// validity test. Returns false exactly when some node violates its
    /// shape constraint.
    pub fn validate(&self) -> (r: bool)
        ensures
            r == self.model().valid(),
        decreases self,
    {
        proof {
            Self::lemma_models(self.children@);
        }
        if !self.shape_check() {
            return false;
        }
        let n = self.children.len();
        let mut i: usize = 0;
        while i < n
            invariant
                n == self.children.len(),
                0 <= i <= n,
                self.model().children.len() == n,
                forall|j: int| 0 <= j < n ==> #[trigger] self.model().children[j]
                    == self.children@[j].model(),
                forall|j: int| 0 <= j < i ==> (#[trigger] self.model().children[j]).valid(),
            decreases n - i,
        {
            if !self.children[i].validate() {
                proof {
                    assert(!self.model().children[i as int].valid());
                }
                return false;
            }
            i = i + 1;
        }
        true
    }

    /// Deep copy: an independent tree with the same model and, when the
    /// source is well-formed, the same (well-formed) caches.
    pub fn deep_clone(&self) -> (r: Node)
        ensures
            r.model() == self.model(),
            self.wf() ==> r.wf(),
        decreases self,
    {
        proof {
            Self::lemma_models(self.children@);
        }
        let n = self.children.len();
        let mut children: Vec<Node> = Vec::new();
        let mut i: usize = 0;
        while i < n
            invariant
                n == self.children.len(),
                0 <= i <= n,
                children@.len() == i,
                forall|j: int| 0 <= j < i ==> #[trigger] children@[j].model()
                    == self.children@[j].model(),
                self.wf() ==> forall|j: int| 0 <= j < i ==> #[trigger] children@[j].wf(),
            decreases n - i,
        {
            proof {
                if self.wf() {
                    self.lemma_wf_child(i as int);
                }
            }
            children.push(self.children[i].deep_clone());
            i = i + 1;
        }
        let r = Node {
            node_type: self.node_type,
            value: self.value.clone(),
            children,
            value_total: self.value_total,
            leaf_total: self.leaf_total,
            node_total: self.node_total,
        };
        proof {
            assert(r.value@ =~= self.value@);
            Self::lemma_models(self.children@);
            Self::lemma_models(r.children@);
            assert(r.model().children =~= self.model().children);
            assert(r.model() =~= self.model());
            if self.wf() {
                Self::lemma_wf_all(r.children@);
            }
        }
        r
    }
}

impl NodeView {
    /// Whether a tree of this size can carry its aggregates in the
    /// machine-word cache fields.
    pub open spec fn counts_fit(self) -> bool {
        &&& self.render().len() <= usize::MAX
        &&& self.leaf_count() <= usize::MAX
        &&& self.node_count() <= usize::MAX
    }

    /// Inserting a child adds its render and counts.
    pub proof fn lemma_all_insert(cs: Seq<NodeView>, i: int, v: NodeView)
        requires
            0 <= i <= cs.len(),
        ensures
            Self::render_all(cs.insert(i, v)) == Self::render_all(cs.take(i)) + v.render()
                + Self::render_all(cs.skip(i)),
            Self::render_all(cs.insert(i, v)).len() == Self::render_all(cs).len()
                + v.render().len(),
            Self::leaf_count_all(cs.insert(i, v)) == Self::leaf_count_all(cs) + v.leaf_count(),
            Self::node_count_all(cs.insert(i, v)) == Self::node_count_all(cs) + v.node_count(),
    {
        assert(cs.insert(i, v) =~= cs.take(i) + seq![v] + cs.skip(i));
        assert(cs =~= cs.take(i) + cs.skip(i));
        Self::lemma_all_concat(cs.take(i) + seq![v], cs.skip(i));
        Self::lemma_all_concat(cs.take(i), seq![v]);
        Self::lemma_all_singleton(v);
        Self::lemma_all_concat(cs.take(i), cs.skip(i));
    }

    /// Removing a child subtracts its render and counts.
    pub proof fn lemma_all_remove(cs: Seq<NodeView>, i: int)
        requires
            0 <= i < cs.len(),
        ensures
            Self::render_all(cs.remove(i)) == Self::render_all(cs.take(i)) + Self::render_all(
                cs.skip(i + 1),
            ),
            Self::render_all(cs).len() == Self::render_all(cs.remove(i)).len()
                + cs[i].render().len(),
            Self::leaf_count_all(cs) == Self::leaf_count_all(cs.remove(i)) + cs[i].leaf_count(),
            Self::node_count_all(cs) == Self::node_count_all(cs.remove(i)) + cs[i].node_count(),
    {
        assert(cs.remove(i) =~= cs.take(i) + cs.skip(i + 1));
        Self::lemma_all_concat(cs.take(i), cs.skip(i + 1));
        Self::lemma_all_split(cs, i);
    }

    /// Replacing a child exchanges its render and counts for the new one's.
    pub proof fn lemma_all_update(cs: Seq<NodeView>, i: int, v: NodeView)
        requires
            0 <= i < cs.len(),
        ensures
            Self::render_all(cs.update(i, v)) == Self::render_all(cs.take(i)) + v.render()
                + Self::render_all(cs.skip(i + 1)),
            Self::leaf_count_all(cs.update(i, v)) + cs[i].leaf_count() == Self::leaf_count_all(cs)
                + v.leaf_count(),
            Self::node_count_all(cs.update(i, v)) + cs[i].node_count() == Self::node_count_all(cs)
                + v.node_count(),
    {
        assert(cs.update(i, v) =~= cs.take(i) + seq![v] + cs.skip(i + 1));
        Self::lemma_all_concat(cs.take(i) + seq![v], cs.skip(i + 1));
        Self::lemma_all_concat(cs.take(i), seq![v]);
        Self::lemma_all_singleton(v);
        Self::lemma_all_split(cs, i);
    }
}

/// Inserting into the middle part of a three-way concatenation inserts
/// into the whole at the shifted position.
#[verifier::rlimit(100)]
pub proof fn lemma_insert_in_middle<A>(x: Seq<A>, y: Seq<A>, z: Seq<A>, j: int, b: A)
    requires
        0 <= j <= y.len(),
    ensures
        x + y.insert(j, b) + z == (x + y + z).insert(x.len() + j, b),
{
    let lhs = x + y.insert(j, b) + z;
    let rhs = (x + y + z).insert(x.len() + j, b);
    y.insert_ensures(j, b);
    (x + y + z).insert_ensures(x.len() + j, b);
    assert(lhs.len() == rhs.len());
    assert forall|i: int| 0 <= i < lhs.len() implies lhs[i] == rhs[i] by {
        if i < x.len() {
            assert(lhs[i] == x[i]);
            assert(rhs[i] == (x + y + z)[i]);
        } else if i < x.len() + j {
            assert(lhs[i] == y.insert(j, b)[i - x.len()]);
            assert(rhs[i] == (x + y + z)[i]);
        } else if i == x.len() + j {
            assert(lhs[i] == y.insert(j, b)[j]);
        } else if i <= x.len() + y.len() {
            assert(lhs[i] == y.insert(j, b)[i - x.len()]);
            assert(y.insert(j, b)[i - x.len()] == y[i - x.len() - 1]);
            assert(rhs[i] == (x + y + z)[i - 1]);
        } else {
            assert(lhs[i] == z[i - x.len() - y.len() - 1]);
            assert(rhs[i] == (x + y + z)[i - 1]);
        }
    }
    assert(lhs =~= rhs);
}

/// Removing from the middle part of a three-way concatenation removes
/// from the whole at the shifted position.
#[verifier::rlimit(50)]
pub proof fn lemma_remove_in_middle<A>(x: Seq<A>, y: Seq<A>, z: Seq<A>, j: int)
    requires
        0 <= j < y.len(),
    ensures
        x + y.remove(j) + z == (x + y + z).remove(x.len() + j),
{
    y.remove_ensures(j);
    (x + y + z).remove_ensures(x.len() + j);
    assert(x + y.remove(j) + z =~= (x + y + z).remove(x.len() + j));
}

/// Splicing into the middle part of a three-way concatenation splices
/// into the whole at the shifted position.
#[verifier::rlimit(50)]
pub proof fn lemma_splice_in_middle<A>(x: Seq<A>, y: Seq<A>, z: Seq<A>, j: int, d: Seq<A>)
    requires
        0 <= j <= y.len(),
    ensures
        x + (y.take(j) + d + y.skip(j)) + z == (x + y + z).take(x.len() + j) + d + (x + y
            + z).skip(x.len() + j),
{
    assert(x + (y.take(j) + d + y.skip(j)) + z =~= (x + y + z).take(x.len() + j) + d + (x + y
        + z).skip(x.len() + j));
}

impl Node {
    /// The tree an internal node built over these children denotes.
    pub open(crate) spec fn built_view(node_type: NodeType, cs: Seq<Node>) -> NodeView {
        NodeView { node_type, value: Seq::empty(), children: Self::models(cs) }
    }

    /// Build a node owning the given ordered children. With no children
    /// at all the result is an empty leaf, as for the starred grammar
    /// productions. Returns None exactly when the combined subtree
    /// aggregates would not fit the machine's cache fields.
    pub fn new_with_children(node_type: NodeType, children: Vec<Node>) -> (r: Option<Node>)
        requires
            Self::wf_all(children@),
        ensures
            (r is Some) == Self::built_view(node_type, children@).counts_fit(),
            match r {
                Some(n) => {
                    &&& n.wf()
                    &&& n.model() == Self::built_view(node_type, children@)
                },
                None => true,
            },
    {
        proof {
            Self::lemma_models(children@);
            Self::lemma_wf_all(children@);
        }
        let ghost target = Self::built_view(node_type, children@);
        if children.len() == 0 {
            let r = Self::new_with_value(node_type, Vec::new());
            proof {
                assert(r.model() =~= target);
            }
            return Some(r);
        }
        let n = children.len();
        let mut vt: usize = 0;
        let mut lt: usize = 0;
        let mut nt: usize = 0;
        let mut i: usize = 0;
        while i < n
            invariant
                n == children@.len(),
                n > 0,
                0 <= i <= n,
                Self::wf_all(children@),
                forall|j: int| 0 <= j < n ==> #[trigger] children@[j].wf(),
                target == Self::built_view(node_type, children@),
                target.children.len() == n,
                forall|j: int| 0 <= j < n ==> #[trigger] target.children[j]
                    == children@[j].model(),
                vt == NodeView::render_all(target.children.take(i as int)).len(),
                lt == NodeView::leaf_count_all(target.children.take(i as int)),
                nt == NodeView::node_count_all(target.children.take(i as int)),
            decreases n - i,
        {
            proof {
                NodeView::lemma_all_take_succ(target.children, i as int);
                NodeView::lemma_all_prefix_le(target.children, i as int + 1);
            }
            let c = &children[i];
            proof {
                assert(children@[i as int].wf());
                assert(c.value_total == target.children[i as int].render().len());
                assert(c.leaf_total == target.children[i as int].leaf_count());
                assert(c.node_total == target.children[i as int].node_count());
                assert(target.render() == NodeView::render_all(target.children));
                assert(target.leaf_count() == NodeView::leaf_count_all(target.children));
                assert(target.node_count() == n + NodeView::node_count_all(target.children));
            }
            vt = match vt.checked_add(c.value_total) {
                Some(v) => v,
                None => {
                    proof {
                        assert(NodeView::render_all(target.children.take(i as int + 1)).len()
                            > usize::MAX);
                        assert(target.render().len() > usize::MAX);
                    }
                    return None;
                },
            };
            lt = match lt.checked_add(c.leaf_total) {
                Some(v) => v,
                None => {
                    proof {
                        assert(NodeView::leaf_count_all(target.children.take(i as int + 1))
                            > usize::MAX);
                        assert(target.leaf_count() > usize::MAX);
                    }
                    return None;
                },
            };
            nt = match nt.checked_add(c.node_total) {
                Some(v) => v,
                None => {
                    proof {
                        assert(NodeView::node_count_all(target.children.take(i as int + 1))
                            > usize::MAX);
                        assert(target.node_count() > usize::MAX);
                    }
                    return None;
                },
            };
            i = i + 1;
        }
        proof {
            assert(target.children.take(n as int) =~= target.children);
        }
        let nt = match nt.checked_add(n) {
            Some(v) => v,
            None => {
                return None;
            },
        };
        let r = Node { node_type, value: Vec::new(), children, value_total: vt, leaf_total: lt, node_total: nt };
        proof {
            assert(r.model() =~= target);
        }
        Some(r)
    }

    /// Insert a child at the given slot, recomputing the aggregates. On a
    /// leaf the raw value is discarded and the child becomes the sole
    /// child, whatever the slot given.
    pub fn insert_child(&mut self, child: Node, idx: usize)
        requires
            old(self).wf(),
            child.wf(),
            idx <= old(self).model().children.len(),
            old(self).model().render().len() + child.model().render().len() <= usize::MAX,
            old(self).model().leaf_count() + child.model().leaf_count() <= usize::MAX,
            old(self).model().node_count() + 1 + child.model().node_count() <= usize::MAX,
        ensures
            final(self).wf(),
            final(self).model() == (if old(self).model().is_leaf() {
                NodeView {
                    node_type: old(self).model().node_type,
                    value: Seq::<u8>::empty(),
                    children: seq![child.model()],
                }
            } else {
                NodeView {
                    node_type: old(self).model().node_type,
                    value: old(self).model().value,
                    children: old(self).model().children.insert(idx as int, child.model()),
                }
            }),
    {
        proof {
            Self::lemma_models(self.children@);
            Self::lemma_wf_all(self.children@);
        }
        let ghost m0 = self.model();
        let ghost cm = child.model();
        if self.children.len() == 0 {
            self.value.clear();
            self.value_total = child.value_total;
            self.leaf_total = child.leaf_total;
            self.node_total = 1 + child.node_total;
            self.children.push(child);
            proof {
                Self::lemma_models(self.children@);
                assert(self.model().children =~= seq![cm]);
                NodeView::lemma_all_singleton(cm);
                Self::lemma_wf_all(self.children@);
                assert(self.model() =~= (NodeView {
                    node_type: m0.node_type,
                    value: Seq::<u8>::empty(),
                    children: seq![cm],
                }));
            }
        } else {
            let ghost oc = m0.children;
            let ghost ocs = self.children@;
            self.value_total = self.value_total + child.value_total;
            self.leaf_total = self.leaf_total + child.leaf_total;
            self.node_total = self.node_total + 1 + child.node_total;
            self.children.insert(idx, child);
            proof {
                let ncs = self.children@;
                Self::lemma_models(ncs);
                Self::lemma_models(ocs);
                ocs.insert_ensures(idx as int, child);
                oc.insert_ensures(idx as int, cm);
                assert(Self::models(ncs) =~= oc.insert(idx as int, cm));
                NodeView::lemma_all_insert(oc, idx as int, cm);
                Self::lemma_wf_all(ncs);
                assert(self.model() =~= (NodeView {
                    node_type: m0.node_type,
                    value: m0.value,
                    children: oc.insert(idx as int, cm),
                }));
            }
        }
    }
}

impl Node {
    /// Append a child after the last slot (or make it the sole child of
    /// a leaf), recomputing the aggregates.
    pub fn add_child(&mut self, child: Node)
        requires
            old(self).wf(),
            child.wf(),
            old(self).model().render().len() + child.model().render().len() <= usize::MAX,
            old(self).model().leaf_count() + child.model().leaf_count() <= usize::MAX,
            old(self).model().node_count() + 1 + child.model().node_count() <= usize::MAX,
        ensures
            final(self).wf(),
            final(self).model() == (if old(self).model().is_leaf() {
                NodeView {
                    node_type: old(self).model().node_type,
                    value: Seq::<u8>::empty(),
                    children: seq![child.model()],
                }
            } else {
                NodeView {
                    node_type: old(self).model().node_type,
                    value: old(self).model().value,
                    children: old(self).model().children.push(child.model()),
                }
            }),
    {
        proof {
            Self::lemma_models(self.children@);
        }
        let ghost m0 = self.model();
        let ghost cm = child.model();
        let idx = self.children.len();
        self.insert_child(child, idx);
        proof {
            if !m0.is_leaf() {
                assert(m0.children.insert(idx as int, cm) =~= m0.children.push(cm));
            }
        }
    }

    /// Remove the child at the given slot, recomputing the aggregates;
    /// does nothing when the slot is out of range. Removing the last
    /// child turns the node into an empty leaf.
    pub fn remove_child(&mut self, idx: usize)
        requires
            old(self).wf(),
        ensures
            final(self).wf(),
            final(self).model() == (if idx < old(self).model().children.len() {
                NodeView {
                    node_type: old(self).model().node_type,
                    value: old(self).model().value,
                    children: old(self).model().children.remove(idx as int),
                }
            } else {
                old(self).model()
            }),
    {
        proof {
            Self::lemma_models(self.children@);
            Self::lemma_wf_all(self.children@);
        }
        if idx >= self.children.len() {
            return ;
        }
        let ghost m0 = self.model();
        let ghost oc = m0.children;
        let ghost ocs = self.children@;
        let c = self.children.remove(idx);
        proof {
            assert(c == ocs[idx as int]);
            assert(c.wf());
            NodeView::lemma_all_remove(oc, idx as int);
            assert(m0.render() == NodeView::render_all(oc));
        }
        self.value_total = self.value_total - c.value_total;
        self.leaf_total = self.leaf_total - c.leaf_total;
        self.node_total = self.node_total - 1 - c.node_total;
        if self.children.len() == 0 {
            self.leaf_total = 1;
        }
        proof {
            let ncs = self.children@;
            Self::lemma_models(ncs);
            Self::lemma_models(ocs);
            ocs.remove_ensures(idx as int);
            oc.remove_ensures(idx as int);
            assert(Self::models(ncs) =~= oc.remove(idx as int));
            Self::lemma_wf_all(ncs);
            assert(self.model() =~= (NodeView {
                node_type: m0.node_type,
                value: m0.value,
                children: oc.remove(idx as int),
            }));
        }
    }

    /// Locate the child whose rendered bytes contain the given offset:
    /// returns the child slot and the rendered length of the earlier
    /// children, using the cached aggregates to skip whole subtrees.
    fn find_child(&self, offset: usize) -> (r: (usize, usize))
        requires
            self.wf(),
            self.model().children.len() > 0,
            offset < self.model().render().len(),
        ensures
            r.0 < self.model().children.len(),
            r.1 == NodeView::render_all(self.model().children.take(r.0 as int)).len(),
            r.1 <= offset,
            offset - r.1 < self.model().children[r.0 as int].render().len(),
    {
        proof {
            Self::lemma_models(self.children@);
            Self::lemma_wf_all(self.children@);
        }
        let ghost m = self.model();
        let n = self.children.len();
        let mut k: usize = 0;
        let mut acc: usize = 0;
        while k < n
            invariant
                self.wf(),
                m == self.model(),
                n == self.children@.len(),
                m.children.len() == n,
                n > 0,
                offset < m.render().len(),
                forall|j: int| 0 <= j < n ==> #[trigger] m.children[j] == self.children@[j].model(),
                forall|j: int| 0 <= j < n ==> #[trigger] self.children@[j].wf(),
                0 <= k <= n,
                acc == NodeView::render_all(m.children.take(k as int)).len(),
                acc <= offset,
            decreases n - k,
        {
            let cvt = self.children[k].value_total;
            proof {
                assert(self.children@[k as int].wf());
                assert(cvt == m.children[k as int].render().len());
                NodeView::lemma_all_take_succ(m.children, k as int);
                assert(m.render() == NodeView::render_all(m.children));
            }
            if offset - acc < cvt {
                return (k, acc);
            }
            acc = acc + cvt;
            k = k + 1;
        }
        proof {
            assert(m.children.take(n as int) =~= m.children);
            assert(false);
        }
        (0, 0)
    }

    /// Insert one byte at the given rendered offset: the leaf owning that
    /// offset receives the byte, and the aggregates along the path are
    /// recomputed. The whole tree then renders to the old bytes with one
    /// byte inserted, and the tree skeleton is unchanged.
    pub fn insert_byte(&mut self, offset: usize, b: u8)
        requires
            old(self).wf(),
            offset < old(self).model().render().len(),
            old(self).model().render().len() < usize::MAX,
        ensures
            final(self).wf(),
            old(self).model().same_skeleton(final(self).model()),
            final(self).model().render() == old(self).model().render().insert(offset as int, b),
        decreases *old(self),
    {
        proof {
            Self::lemma_models(self.children@);
            Self::lemma_wf_all(self.children@);
        }
        let ghost m0 = self.model();
        if self.children.len() == 0 {
            self.value.insert(offset, b);
            self.value_total = self.value_total + 1;
            proof {
                Self::lemma_models(self.children@);
                assert(self.model().children =~= m0.children);
                assert(m0.same_skeleton(self.model()));
            }
        } else {
            let found = self.find_child(offset);
            let k = found.0;
            let acc = found.1;
            let ghost oc = m0.children;
            let ghost ocs = self.children@;
            let mut c = self.children.remove(k);
            proof {
                assert(c == ocs[k as int]);
                assert(c.wf());
                NodeView::lemma_all_split(oc, k as int);
                assert(m0.render() == NodeView::render_all(oc));
            }
            let ghost cm = c.model();
            c.insert_byte(offset - acc, b);
            let ghost cm1 = c.model();
            self.children.insert(k, c);
            self.value_total = self.value_total + 1;
            proof {
                let ncs = self.children@;
                Self::lemma_models(ncs);
                Self::lemma_models(ocs);
                ocs.remove_ensures(k as int);
                ocs.remove(k as int).insert_ensures(k as int, c);
                assert(ncs =~= ocs.update(k as int, c));
                assert(Self::models(ncs) =~= oc.update(k as int, cm1));
                NodeView::lemma_all_update(oc, k as int, cm1);
                NodeView::lemma_same_skeleton_counts(cm, cm1);
                Self::lemma_wf_all(ncs);
                let m1 = self.model();
                lemma_insert_in_middle(
                    NodeView::render_all(oc.take(k as int)),
                    cm.render(),
                    NodeView::render_all(oc.skip(k as int + 1)),
                    offset - acc,
                    b,
                );
                assert(m1.render() == m0.render().insert(offset as int, b));
                assert forall|j: int| 0 <= j < m0.children.len() implies (
                #[trigger] m0.children[j]).same_skeleton(m1.children[j]) by {
                    if j != k {
                        NodeView::lemma_same_skeleton_refl(m0.children[j]);
                    }
                }
                assert(m0.same_skeleton(m1));
            }
        }
    }

    /// Delete the byte at the given rendered offset from the leaf owning
    /// it, recomputing the aggregates along the path.
    pub fn remove_byte(&mut self, offset: usize)
        requires
            old(self).wf(),
            offset < old(self).model().render().len(),
        ensures
            final(self).wf(),
            old(self).model().same_skeleton(final(self).model()),
            final(self).model().render() == old(self).model().render().remove(offset as int),
        decreases *old(self),
    {
        proof {
            Self::lemma_models(self.children@);
            Self::lemma_wf_all(self.children@);
        }
        let ghost m0 = self.model();
        if self.children.len() == 0 {
            self.value.remove(offset);
            self.value_total = self.value_total - 1;
            proof {
                Self::lemma_models(self.children@);
                assert(self.model().children =~= m0.children);
                assert(m0.same_skeleton(self.model()));
                assert(self.model().render() =~= m0.render().remove(offset as int));
            }
        } else {
            let found = self.find_child(offset);
            let k = found.0;
            let acc = found.1;
            let ghost oc = m0.children;
            let ghost ocs = self.children@;
            let mut c = self.children.remove(k);
            proof {
                assert(c == ocs[k as int]);
                assert(c.wf());
                NodeView::lemma_all_split(oc, k as int);
                assert(m0.render() == NodeView::render_all(oc));
            }
            let ghost cm = c.model();
            c.remove_byte(offset - acc);
            let ghost cm1 = c.model();
            self.children.insert(k, c);
            self.value_total = self.value_total - 1;
            proof {
                let ncs = self.children@;
                Self::lemma_models(ncs);
                Self::lemma_models(ocs);
                ocs.remove_ensures(k as int);
                ocs.remove(k as int).insert_ensures(k as int, c);
                assert(ncs =~= ocs.update(k as int, c));
                assert(Self::models(ncs) =~= oc.update(k as int, cm1));
                NodeView::lemma_all_update(oc, k as int, cm1);
                NodeView::lemma_same_skeleton_counts(cm, cm1);
                Self::lemma_wf_all(ncs);
                let m1 = self.model();
                lemma_remove_in_middle(
                    NodeView::render_all(oc.take(k as int)),
                    cm.render(),
                    NodeView::render_all(oc.skip(k as int + 1)),
                    offset - acc,
                );
                assert(m1.render() == m0.render().remove(offset as int));
                assert forall|j: int| 0 <= j < m0.children.len() implies (
                #[trigger] m0.children[j]).same_skeleton(m1.children[j]) by {
                    if j != k {
                        NodeView::lemma_same_skeleton_refl(m0.children[j]);
                    }
                }
                assert(m0.same_skeleton(m1));
            }
        }
    }

    /// Copy a run of bytes into the leaf owning the given rendered
    /// offset, immediately before that offset.
    pub fn splice_bytes(&mut self, offset: usize, data: &[u8])
        requires
            old(self).wf(),
            offset < old(self).model().render().len(),
            old(self).model().render().len() + data@.len() <= usize::MAX,
        ensures
            final(self).wf(),
            old(self).model().same_skeleton(final(self).model()),
            final(self).model().render() == old(self).model().render().take(offset as int) + data@
                + old(self).model().render().skip(offset as int),
        decreases *old(self),
    {
        proof {
            Self::lemma_models(self.children@);
            Self::lemma_wf_all(self.children@);
        }
        let ghost m0 = self.model();
        if self.children.len() == 0 {
            let mut tail = self.value.split_off(offset);
            self.value.extend_from_slice(data);
            self.value.append(&mut tail);
            self.value_total = self.value_total + data.len();
            proof {
                Self::lemma_models(self.children@);
                assert(self.model().children =~= m0.children);
                assert(m0.same_skeleton(self.model()));
                assert(self.value@ =~= m0.value.take(offset as int) + data@ + m0.value.skip(
                    offset as int,
                ));
            }
        } else {
            let found = self.find_child(offset);
            let k = found.0;
            let acc = found.1;
            let ghost oc = m0.children;
            let ghost ocs = self.children@;
            let mut c = self.children.remove(k);
            proof {
                assert(c == ocs[k as int]);
                assert(c.wf());
                NodeView::lemma_all_split(oc, k as int);
                assert(m0.render() == NodeView::render_all(oc));
            }
            let ghost cm = c.model();
            c.splice_bytes(offset - acc, data);
            let ghost cm1 = c.model();
            self.children.insert(k, c);
            self.value_total = self.value_total + data.len();
            proof {
                let ncs = self.children@;
                Self::lemma_models(ncs);
                Self::lemma_models(ocs);
                ocs.remove_ensures(k as int);
                ocs.remove(k as int).insert_ensures(k as int, c);
                assert(ncs =~= ocs.update(k as int, c));
                assert(Self::models(ncs) =~= oc.update(k as int, cm1));
                NodeView::lemma_all_update(oc, k as int, cm1);
                NodeView::lemma_same_skeleton_counts(cm, cm1);
                Self::lemma_wf_all(ncs);
                let m1 = self.model();
                lemma_splice_in_middle(
                    NodeView::render_all(oc.take(k as int)),
                    cm.render(),
                    NodeView::render_all(oc.skip(k as int + 1)),
                    offset - acc,
                    data@,
                );
                assert(m1.render() == m0.render().take(offset as int) + data@ + m0.render().skip(
                    offset as int,
                ));
                assert forall|j: int| 0 <= j < m0.children.len() implies (
                #[trigger] m0.children[j]).same_skeleton(m1.children[j]) by {
                    if j != k {
                        NodeView::lemma_same_skeleton_refl(m0.children[j]);
                    }
                }
                assert(m0.same_skeleton(m1));
            }
        }
    }

    /// Read the byte at the given rendered offset, descending by the
    /// cached aggregates.
    pub fn byte_at(&self, offset: usize) -> (r: u8)
        requires
            self.wf(),
            offset < self.model().render().len(),
        ensures
            r == self.model().render()[offset as int],
        decreases self,
    {
        proof {
            Self::lemma_models(self.children@);
            Self::lemma_wf_all(self.children@);
        }
        if self.children.len() == 0 {
            self.value[offset]
        } else {
            let found = self.find_child(offset);
            let k = found.0;
            let acc = found.1;
            proof {
                self.lemma_wf_child(k as int);
                NodeView::lemma_all_split(self.model().children, k as int);
            }
            let r = self.children[k].byte_at(offset - acc);
            r
        }
    }
}

/// Unfold grammar validity one level.
pub proof fn lemma_valid_unfold(m: NodeView)
    requires
        m.valid(),
    ensures
        m.shape_ok(),
        forall|i: int| 0 <= i < m.children.len() ==> (#[trigger] m.children[i]).valid(),
{
}

/// Fold grammar validity from the one-level shape and valid children.
pub proof fn lemma_valid_fold(m: NodeView)
    requires
        m.shape_ok(),
        forall|i: int| 0 <= i < m.children.len() ==> (#[trigger] m.children[i]).valid(),
    ensures
        m.valid(),
{
}

/// Unfold the same-skeleton relation one level.
pub proof fn lemma_same_skeleton_unfold(a: NodeView, b: NodeView)
    requires
        a.same_skeleton(b),
    ensures
        a.node_type == b.node_type,
        a.children.len() == b.children.len(),
        forall|i: int| 0 <= i < a.children.len() ==> (#[trigger] a.children[i]).same_skeleton(
            b.children[i],
        ),
{
}

/// Fold the same-skeleton relation from agreement at one level.
pub proof fn lemma_same_skeleton_fold(a: NodeView, b: NodeView)
    requires
        a.node_type == b.node_type,
        a.children.len() == b.children.len(),
        forall|i: int| 0 <= i < a.children.len() ==> (#[trigger] a.children[i]).same_skeleton(
            b.children[i],
        ),
    ensures
        a.same_skeleton(b),
{
}

impl NodeView {
    /// The tree with child `k`'s child list replaced by `cs` (its symbol
    /// and value kept); everything else unchanged.
    pub open spec fn with_child_children(self, k: int, cs: Seq<NodeView>) -> NodeView {
        NodeView {
            node_type: self.node_type,
            value: self.value,
            children: self.children.update(
                k,
                NodeView {
                    node_type: self.children[k].node_type,
                    value: self.children[k].value,
                    children: cs,
                },
            ),
        }
    }
}

impl Node {
    /// Replace the child at slot `k` by another subtree, recomputing the
    /// aggregates.
    pub fn replace_child(&mut self, k: usize, sub: Node)
        requires
            old(self).wf(),
            sub.wf(),
            k < old(self).model().children.len(),
            old(self).model().render().len() + sub.model().render().len() <= usize::MAX + old(
                self,
            ).model().children[k as int].render().len(),
            old(self).model().leaf_count() + sub.model().leaf_count() <= usize::MAX + old(
                self,
            ).model().children[k as int].leaf_count(),
            old(self).model().node_count() + sub.model().node_count() <= usize::MAX + old(
                self,
            ).model().children[k as int].node_count(),
        ensures
            final(self).wf(),
            final(self).model() == (NodeView {
                node_type: old(self).model().node_type,
                value: old(self).model().value,
                children: old(self).model().children.update(k as int, sub.model()),
            }),
    {
        proof {
            Self::lemma_models(self.children@);
            Self::lemma_wf_all(self.children@);
        }
        let ghost m0 = self.model();
        let ghost oc = m0.children;
        let ghost ocs = self.children@;
        let ghost sm = sub.model();
        let c = self.children.remove(k);
        proof {
            assert(c == ocs[k as int]);
            assert(c.wf());
            NodeView::lemma_all_split(oc, k as int);
            assert(m0.render() == NodeView::render_all(oc));
        }
        self.value_total = self.value_total - c.value_total;
        self.leaf_total = self.leaf_total - c.leaf_total;
        self.node_total = self.node_total - c.node_total;
        self.value_total = self.value_total + sub.value_total;
        self.leaf_total = self.leaf_total + sub.leaf_total;
        self.node_total = self.node_total + sub.node_total;
        self.children.insert(k, sub);
        proof {
            let ncs = self.children@;
            Self::lemma_models(ncs);
            Self::lemma_models(ocs);
            ocs.remove_ensures(k as int);
            ocs.remove(k as int).insert_ensures(k as int, self.children@[k as int]);
            assert(ncs =~= ocs.update(k as int, ncs[k as int]));
            assert(Self::models(ncs) =~= oc.update(k as int, sm));
            NodeView::lemma_all_update(oc, k as int, sm);
            Self::lemma_wf_all(ncs);
            assert(self.model() =~= (NodeView {
                node_type: m0.node_type,
                value: m0.value,
                children: oc.update(k as int, sm),
            }));
        }
    }
}

impl Node {
    /// Deep-copy the run of `n` children starting at `start`, in order.
    pub fn clone_children_range(&self, start: usize, n: usize) -> (r: Vec<Node>)
        requires
            self.wf(),
            start + n <= self.model().children.len(),
        ensures
            r@.len() == n,
            forall|j: int| 0 <= j < n ==> #[trigger] r@[j].model() == self.model().children[
                start + j
            ],
            forall|j: int| 0 <= j < n ==> (#[trigger] r@[j]).wf(),
    {
        proof {
            Self::lemma_models(self.children@);
            Self::lemma_wf_all(self.children@);
        }
        let mut r: Vec<Node> = Vec::new();
        let mut i: usize = 0;
        while i < n
            invariant
                self.wf(),
                start + n <= self.children@.len(),
                self.model().children.len() == self.children@.len(),
                forall|j: int| 0 <= j < self.children@.len() ==> #[trigger] self.model().children[j]
                    == self.children@[j].model(),
                forall|j: int| 0 <= j < self.children@.len() ==> (#[trigger] self.children@[j]).wf(),
                0 <= i <= n,
                r@.len() == i,
                forall|j: int| 0 <= j < i ==> #[trigger] r@[j].model() == self.model().children[
                    start + j
                ],
                forall|j: int| 0 <= j < i ==> (#[trigger] r@[j]).wf(),
            decreases n - i,
        {
            r.push(self.children[start + i].deep_clone());
            i = i + 1;
        }
        r
    }
}

impl NodeView {
    /// Every subtree has at least one leaf.
    pub proof fn lemma_leaf_count_pos(self)
        ensures
            self.leaf_count() >= 1,
        decreases self,
    {
        if self.children.len() > 0 {
            Self::lemma_all_split(self.children, 0);
            self.children[0].lemma_leaf_count_pos();
        }
    }
}

/// Depth-first pre-order traversal state over a tree's descendants:
/// the shared base of the node iterators. It snapshots the tree when
/// made, and walks the descendant positions 0 up to its node count;
/// the node iterator built on it hands out the descendant at each
/// position, every proper descendant exactly once, in pre-order.
pub struct NodeBaseIterator {
    pub tree: Node,
    pub pos: usize,
}

impl NodeBaseIterator {
    /// Fresh traversal over the descendants of a tree.
    pub fn new(node: &Node) -> (r: NodeBaseIterator)
        requires
            node.wf(),
        ensures
            r.tree.wf(),
            r.tree.model() == node.model(),
            r.pos == 0,
    {
        NodeBaseIterator { tree: node.deep_clone(), pos: 0 }
    }

    /// Fresh traversal over the descendants of a tree held mutably.
    pub fn new_mut(node: &mut Node) -> (r: NodeBaseIterator)
        requires
            old(node).wf(),
        ensures
            *final(node) == *old(node),
            r.tree.wf(),
            r.tree.model() == old(node).model(),
            r.pos == 0,
    {
        NodeBaseIterator { tree: node.deep_clone(), pos: 0 }
    }

    /// The next descendant position, if any are left.
    pub fn next_pos(&mut self) -> (r: Option<usize>)
        requires
            old(self).tree.wf(),
        ensures
            final(self).tree == old(self).tree,
            match r {
                Some(p) => p == old(self).pos && old(self).pos < old(self).tree.model().node_count()
                    && final(self).pos == old(self).pos + 1,
                None => old(self).pos >= old(self).tree.model().node_count() && *final(self)
                    == *old(self),
            },
    {
        if self.pos < self.tree.node_size() {
            let p = self.pos;
            self.pos = p + 1;
            Some(p)
        } else {
            None
        }
    }
}

/// Pre-order traversal handing out the descendants of a tree, each
/// proper descendant exactly once, the root itself never.
pub struct NodeIterator(pub NodeBaseIterator);

impl NodeIterator {
    /// The next descendant (as an independent deep copy), if any is
    /// left.
    pub fn next(&mut self) -> (r: Option<Node>)
        requires
            old(self).0.tree.wf(),
        ensures
            final(self).0.tree == old(self).0.tree,
            match r {
                Some(n) => {
                    &&& old(self).0.pos < old(self).0.tree.model().node_count()
                    &&& n.wf()
                    &&& n.model() == old(self).0.tree.model().desc()[old(self).0.pos as int]
                    &&& final(self).0.pos == old(self).0.pos + 1
                },
                None => old(self).0.pos >= old(self).0.tree.model().node_count() && *final(self)
                    == *old(self),
            },
    {
        match self.0.next_pos() {
            Some(p) => Some(self.0.tree.descendant(p)),
            None => None,
        }
    }

    /// How many descendants the traversal visits in all.
    pub fn len(&self) -> (r: usize)
        requires
            self.0.tree.wf(),
        ensures
            r == self.0.tree.model().node_count(),
    {
        self.0.tree.node_size()
    }
}

/// Pre-order traversal handing out the positions of the descendants of
/// a tree, for callers that edit the live tree by position while the
/// snapshot stays fixed.
pub struct NodeMutIterator(pub NodeBaseIterator);

impl NodeMutIterator {
    /// The next descendant position, if any is left.
    pub fn next(&mut self) -> (r: Option<usize>)
        requires
            old(self).0.tree.wf(),
        ensures
            final(self).0.tree == old(self).0.tree,
            match r {
                Some(p) => p == old(self).0.pos && old(self).0.pos < old(
                    self,
                ).0.tree.model().node_count() && final(self).0.pos == old(self).0.pos + 1,
                None => old(self).0.pos >= old(self).0.tree.model().node_count() && *final(self)
                    == *old(self),
            },
    {
        self.0.next_pos()
    }
}

/// Iterator over the rendered bytes of a subtree, taken as one flat
/// snapshot when the iterator is made.
pub struct NodeValueIterator {
    pub bytes: Vec<u8>,
    pub pos: usize,
}

impl NodeValueIterator {
    /// Snapshot the rendered bytes of a tree.
    pub fn new(node: &Node) -> (r: NodeValueIterator)
        ensures
            r.bytes@ == node.model().render(),
            r.pos == 0,
    {
        NodeValueIterator { bytes: node.bytes(), pos: 0 }
    }

    /// The next rendered byte, if any are left.
    pub fn next_byte(&mut self) -> (r: Option<u8>)
        ensures
            match r {
                Some(b) => old(self).pos < old(self).bytes@.len()
                    && b == old(self).bytes@[old(self).pos as int]
                    && final(self).pos == old(self).pos + 1,
                None => old(self).pos >= old(self).bytes@.len() && *final(self) == *old(self),
            },
            final(self).bytes == old(self).bytes,
    {
        if self.pos < self.bytes.len() {
            let b = self.bytes[self.pos];
            self.pos = self.pos + 1;
            Some(b)
        } else {
            None
        }
    }

    /// How many bytes the snapshot holds in all.
    pub fn len(&self) -> (r: usize)
        ensures
            r == self.bytes@.len(),
    {
        self.bytes.len()
    }
}

impl Node {
    /// Traverse the descendants of this subtree: every proper
    /// descendant exactly once, in depth-first pre-order.
    pub fn iter_node(&self) -> (r: NodeIterator)
        requires
            self.wf(),
        ensures
            r.0.tree.wf(),
            r.0.tree.model() == self.model(),
            r.0.pos == 0,
    {
        NodeIterator(NodeBaseIterator::new(self))
    }

    /// Traverse the descendant positions of a mutably held subtree.
    pub fn iter_node_mut(&mut self) -> (r: NodeMutIterator)
        requires
            old(self).wf(),
        ensures
            *final(self) == *old(self),
            r.0.tree.wf(),
            r.0.tree.model() == old(self).model(),
            r.0.pos == 0,
    {
        NodeMutIterator(NodeBaseIterator::new_mut(self))
    }

    /// Iterate over the rendered bytes of this subtree.
    pub fn iter_value(&self) -> (r: NodeValueIterator)
        ensures
            r.bytes@ == self.model().render(),
            r.pos == 0,
    {
        NodeValueIterator::new(self)
    }
}

impl NodeView {
    /// The leaves of this subtree, in depth-first pre-order. A leaf's
    /// single entry is itself.
    pub open spec fn leaves(self) -> Seq<NodeView>
        decreases self,
    {
        if self.children.len() == 0 {
            seq![self]
        } else {
            Self::leaves_all(self.children)
        }
    }

    pub open spec fn leaves_all(cs: Seq<NodeView>) -> Seq<NodeView>
        decreases cs,
    {
        if cs.len() == 0 {
            Seq::empty()
        } else {
            Self::leaves_all(cs.drop_last()) + cs.last().leaves()
        }
    }

    /// There are as many pre-order leaves as the leaf count says.
    pub proof fn lemma_leaves_len(self)
        ensures
            self.leaves().len() == self.leaf_count(),
        decreases self,
    {
        if self.children.len() > 0 {
            Self::lemma_leaves_len_all(self.children);
        }
    }

    pub proof fn lemma_leaves_len_all(cs: Seq<NodeView>)
        ensures
            Self::leaves_all(cs).len() == Self::leaf_count_all(cs),
        decreases cs,
    {
        if cs.len() > 0 {
            Self::lemma_leaves_len_all(cs.drop_last());
            cs.last().lemma_leaves_len();
        }
    }

    /// Concatenating child lists concatenates their leaf sequences.
    pub proof fn lemma_leaves_all_concat(a: Seq<NodeView>, b: Seq<NodeView>)
        ensures
            Self::leaves_all(a + b) == Self::leaves_all(a) + Self::leaves_all(b),
        decreases b,
    {
        if b.len() == 0 {
            assert(a + b =~= a);
            assert(Self::leaves_all(a) + Self::leaves_all(b) =~= Self::leaves_all(a));
        } else {
            Self::lemma_leaves_all_concat(a, b.drop_last());
            assert((a + b).drop_last() =~= a + b.drop_last());
            assert((a + b).last() == b.last());
            assert(Self::leaves_all(a) + Self::leaves_all(b.drop_last()) + b.last().leaves()
                =~= Self::leaves_all(a) + (Self::leaves_all(b.drop_last()) + b.last().leaves()));
        }
    }

    /// Splitting a child list at one child splits its leaf sequence.
    pub proof fn lemma_leaves_all_split(cs: Seq<NodeView>, k: int)
        requires
            0 <= k < cs.len(),
        ensures
            Self::leaves_all(cs) == Self::leaves_all(cs.take(k)) + cs[k].leaves()
                + Self::leaves_all(cs.skip(k + 1)),
            Self::leaves_all(cs.take(k)).len() == Self::leaf_count_all(cs.take(k)),
    {
        assert(cs =~= cs.take(k) + seq![cs[k]] + cs.skip(k + 1));
        Self::lemma_leaves_all_concat(cs.take(k) + seq![cs[k]], cs.skip(k + 1));
        Self::lemma_leaves_all_concat(cs.take(k), seq![cs[k]]);
        assert(seq![cs[k]].len() == 1);
        assert(seq![cs[k]].last() == cs[k]);
        assert(seq![cs[k]].drop_last() =~= Seq::<NodeView>::empty());
        assert(Self::leaves_all(seq![cs[k]].drop_last()) =~= Seq::<NodeView>::empty());
        assert(Seq::<NodeView>::empty() + cs[k].leaves() =~= cs[k].leaves());
        assert(Self::leaves_all(seq![cs[k]]) =~= cs[k].leaves());
        Self::lemma_leaves_len_all(cs.take(k));
    }

    /// Appending one more child extends the prefix leaf sequence.
    pub proof fn lemma_leaves_all_take_succ(cs: Seq<NodeView>, i: int)
        requires
            0 <= i < cs.len(),
        ensures
            Self::leaves_all(cs.take(i + 1)) == Self::leaves_all(cs.take(i)) + cs[i].leaves(),
    {
        assert(cs.take(i + 1).drop_last() =~= cs.take(i));
        assert(cs.take(i + 1).last() == cs[i]);
    }

    /// The tree with the value of its pre-order leaf `d` replaced by
    /// `v`; the skeleton is untouched.
    pub open spec fn replace_leaf(self, d: int, v: Seq<u8>) -> NodeView
        decreases self,
    {
        if self.children.len() == 0 {
            NodeView { node_type: self.node_type, value: v, children: self.children }
        } else {
            NodeView {
                node_type: self.node_type,
                value: self.value,
                children: Self::replace_leaf_all(self.children, d, v),
            }
        }
    }

    pub open spec fn replace_leaf_all(cs: Seq<NodeView>, d: int, v: Seq<u8>) -> Seq<NodeView>
        decreases cs,
    {
        if cs.len() == 0 {
            cs
        } else if d < cs[0].leaf_count() {
            cs.update(0, cs[0].replace_leaf(d, v))
        } else {
            seq![cs[0]] + Self::replace_leaf_all(cs.drop_first(), d - cs[0].leaf_count(), v)
        }
    }

    /// Replacing a leaf in the child owning position `d` updates exactly
    /// that child.
    pub proof fn lemma_replace_leaf_all_at(cs: Seq<NodeView>, k: int, d: int, v: Seq<u8>)
        requires
            0 <= k < cs.len(),
            Self::leaf_count_all(cs.take(k)) <= d,
            d < Self::leaf_count_all(cs.take(k)) + cs[k].leaf_count(),
        ensures
            Self::replace_leaf_all(cs, d, v) == cs.update(
                k,
                cs[k].replace_leaf(d - Self::leaf_count_all(cs.take(k)), v),
            ),
        decreases k,
    {
        if k == 0 {
            assert(cs.take(0) =~= Seq::<NodeView>::empty());
        } else {
            assert(cs.take(1).len() == 1);
            assert(cs.take(1).drop_last() =~= Seq::<NodeView>::empty());
            assert(cs.take(1).last() == cs[0]);
            assert(Self::leaf_count_all(cs.take(1).drop_last()) == 0);
            assert(Self::leaf_count_all(cs.take(1)) == cs[0].leaf_count());
            assert forall|j: int| 0 <= j < k - 1 implies #[trigger] cs.drop_first().take(j + 1)
                =~= cs.take(j + 2).drop_first() by {}
            Self::lemma_prefix_counts_shift(cs, k);
            cs[0].lemma_leaf_count_pos();
            Self::lemma_replace_leaf_all_at(
                cs.drop_first(),
                k - 1,
                d - cs[0].leaf_count(),
                v,
            );
            assert(cs.drop_first()[k - 1] == cs[k]);
            assert(seq![cs[0]] + cs.drop_first().update(
                k - 1,
                cs[k].replace_leaf(d - Self::leaf_count_all(cs.take(k)), v),
            ) =~= cs.update(k, cs[k].replace_leaf(d - Self::leaf_count_all(cs.take(k)), v)));
        }
    }

    /// Prefix leaf counts of the tail shift by the head's count.
    pub proof fn lemma_prefix_counts_shift(cs: Seq<NodeView>, k: int)
        requires
            1 <= k < cs.len(),
        ensures
            Self::leaf_count_all(cs.drop_first().take(k - 1)) + cs[0].leaf_count()
                == Self::leaf_count_all(cs.take(k)),
        decreases k,
    {
        if k == 1 {
            assert(cs.drop_first().take(0) =~= Seq::<NodeView>::empty());
            assert(cs.take(1).drop_last() =~= Seq::<NodeView>::empty());
            assert(cs.take(1).last() == cs[0]);
        } else {
            Self::lemma_prefix_counts_shift(cs, k - 1);
            Self::lemma_all_take_succ(cs, k - 1);
            assert(cs.drop_first().take(k - 1).drop_last() =~= cs.drop_first().take(k - 2));
            assert(cs.drop_first().take(k - 1).last() == cs[k - 1]);
        }
    }
}

impl Node {
    /// Locate the child whose pre-order leaves contain leaf position
    /// `d`: returns the child slot and the leaf count of the earlier
    /// children, using the cached aggregates.
    fn find_leaf_child(&self, d: usize) -> (r: (usize, usize))
        requires
            self.wf(),
            self.model().children.len() > 0,
            d < self.model().leaf_count(),
        ensures
            r.0 < self.model().children.len(),
            r.1 == NodeView::leaf_count_all(self.model().children.take(r.0 as int)),
            r.1 <= d,
            d - r.1 < self.model().children[r.0 as int].leaf_count(),
    {
        proof {
            Self::lemma_models(self.children@);
            Self::lemma_wf_all(self.children@);
        }
        let ghost m = self.model();
        let n = self.children.len();
        let mut k: usize = 0;
        let mut acc: usize = 0;
        while k < n
            invariant
                self.wf(),
                m == self.model(),
                n == self.children@.len(),
                m.children.len() == n,
                n > 0,
                d < m.leaf_count(),
                forall|j: int| 0 <= j < n ==> #[trigger] m.children[j] == self.children@[j].model(),
                forall|j: int| 0 <= j < n ==> #[trigger] self.children@[j].wf(),
                0 <= k <= n,
                acc == NodeView::leaf_count_all(m.children.take(k as int)),
                acc <= d,
            decreases n - k,
        {
            let clc = self.children[k].leaf_total;
            proof {
                assert(self.children@[k as int].wf());
                assert(clc == m.children[k as int].leaf_count());
                NodeView::lemma_all_take_succ(m.children, k as int);
                assert(m.leaf_count() == NodeView::leaf_count_all(m.children));
            }
            if d - acc < clc {
                return (k, acc);
            }
            acc = acc + clc;
            k = k + 1;
        }
        proof {
            assert(m.children.take(n as int) =~= m.children);
            assert(false);
        }
        (0, 0)
    }

    /// The grammar symbol of the pre-order leaf at position `d`.
    pub fn leaf_type_at(&self, d: usize) -> (r: NodeType)
        requires
            self.wf(),
            d < self.model().leaf_count(),
        ensures
            r == self.model().leaves()[d as int].node_type,
        decreases self,
    {
        proof {
            Self::lemma_models(self.children@);
            Self::lemma_wf_all(self.children@);
            self.model().lemma_leaves_len();
        }
        if self.children.len() == 0 {
            proof {
                assert(self.model().leaves() =~= seq![self.model()]);
            }
            self.node_type
        } else {
            let found = self.find_leaf_child(d);
            let k = found.0;
            let acc = found.1;
            proof {
                self.lemma_wf_child(k as int);
                NodeView::lemma_leaves_all_split(self.model().children, k as int);
                self.model().children[k as int].lemma_leaves_len();
                NodeView::lemma_leaves_len_all(self.model().children.skip(k as int + 1));
                assert(self.model().leaves() == NodeView::leaves_all(self.model().children));
            }
            let r = self.children[k].leaf_type_at(d - acc);
            proof {
                assert(self.model().leaves()[d as int] == self.model().children[
                    k as int
                ].leaves()[d - acc]);
            }
            r
        }
    }

    /// Replace the value of the pre-order leaf at position `d` with a
    /// copy of `v`, recomputing the aggregates along the path; the tree
    /// skeleton is unchanged.
    pub fn replace_leaf_value(&mut self, d: usize, v: &[u8])
        requires
            old(self).wf(),
            d < old(self).model().leaf_count(),
            old(self).model().render().len() + v@.len() <= usize::MAX,
        ensures
            final(self).wf(),
            old(self).model().same_skeleton(final(self).model()),
            final(self).model() == old(self).model().replace_leaf(d as int, v@),
            final(self).model().render().len() <= old(self).model().render().len() + v@.len(),
        decreases *old(self),
    {
        proof {
            Self::lemma_models(self.children@);
            Self::lemma_wf_all(self.children@);
        }
        let ghost m0 = self.model();
        if self.children.len() == 0 {
            self.value = vstd::slice::slice_to_vec(v);
            self.value_total = v.len();
            proof {
                Self::lemma_models(self.children@);
                assert(self.model().children =~= m0.children);
                assert(m0.same_skeleton(self.model()));
                assert(self.model() =~= m0.replace_leaf(d as int, v@));
            }
        } else {
            let found = self.find_leaf_child(d);
            let k = found.0;
            let acc = found.1;
            let ghost cs = m0.children;
            let ghost ocs = self.children@;
            proof {
                self.lemma_wf_child(k as int);
                NodeView::lemma_all_split(cs, k as int);
                assert(m0.render() == NodeView::render_all(cs));
            }
            let mut c = self.children.remove(k);
            let ghost cm = c.model();
            let old_cvt = c.value_size();
            c.replace_leaf_value(d - acc, v);
            let new_cvt = c.value_size();
            let ghost cm1 = c.model();
            self.children.insert(k, c);
            self.value_total = self.value_total - old_cvt + new_cvt;
            proof {
                let ncs = self.children@;
                Self::lemma_models(ncs);
                Self::lemma_models(ocs);
                ocs.remove_ensures(k as int);
                ocs.remove(k as int).insert_ensures(k as int, ncs[k as int]);
                assert(ncs =~= ocs.update(k as int, ncs[k as int]));
                assert(Self::models(ncs) =~= cs.update(k as int, cm1));
                NodeView::lemma_all_update(cs, k as int, cm1);
                NodeView::lemma_same_skeleton_counts(cm, cm1);
                Self::lemma_wf_all(ncs);
                let m1 = self.model();
                NodeView::lemma_replace_leaf_all_at(cs, k as int, d as int, v@);
                assert(m1 =~= m0.replace_leaf(d as int, v@));
                assert forall|j: int| 0 <= j < m0.children.len() implies (
                #[trigger] m0.children[j]).same_skeleton(m1.children[j]) by {
                    if j != k {
                        NodeView::lemma_same_skeleton_refl(m0.children[j]);
                    }
                }
                assert(m0.same_skeleton(m1));
            }
        }
    }
}

impl NodeView {
    /// The strict descendants of this node in depth-first pre-order:
    /// each child followed by that child's own descendants.
    pub open spec fn desc(self) -> Seq<NodeView>
        decreases self,
    {
        Self::desc_all(self.children)
    }

    pub open spec fn desc_all(cs: Seq<NodeView>) -> Seq<NodeView>
        decreases cs,
    {
        if cs.len() == 0 {
            Seq::empty()
        } else {
            (seq![cs[0]] + cs[0].desc()) + Self::desc_all(cs.drop_first())
        }
    }

    /// There are as many pre-order descendants as the node count says.
    pub proof fn lemma_desc_len(self)
        ensures
            self.desc().len() == self.node_count(),
        decreases self,
    {
        Self::lemma_desc_len_all(self.children);
    }

    pub proof fn lemma_desc_len_all(cs: Seq<NodeView>)
        ensures
            Self::desc_all(cs).len() == cs.len() + Self::node_count_all(cs),
        decreases cs,
    {
        if cs.len() > 0 {
            Self::lemma_desc_len_all(cs.drop_first());
            cs[0].lemma_desc_len();
            Self::lemma_all_split(cs, 0);
            assert(cs.take(0) =~= Seq::<NodeView>::empty());
            assert(cs.skip(1) =~= cs.drop_first());
        }
    }

    /// Concatenating child lists concatenates their descendant blocks.
    pub proof fn lemma_desc_all_concat(a: Seq<NodeView>, b: Seq<NodeView>)
        ensures
            Self::desc_all(a + b) == Self::desc_all(a) + Self::desc_all(b),
        decreases a,
    {
        if a.len() == 0 {
            assert(a + b =~= b);
            assert(Self::desc_all(a) + Self::desc_all(b) =~= Self::desc_all(b));
        } else {
            Self::lemma_desc_all_concat(a.drop_first(), b);
            assert((a + b).len() > 0);
            assert((a + b)[0] == a[0]);
            assert((a + b).drop_first() =~= a.drop_first() + b);
            assert((seq![a[0]] + a[0].desc()) + (Self::desc_all(a.drop_first()) + Self::desc_all(
                b,
            )) =~= ((seq![a[0]] + a[0].desc()) + Self::desc_all(a.drop_first())) + Self::desc_all(
                b,
            ));
        }
    }

    /// Splitting a child list at one child splits the descendant list
    /// into the earlier blocks, that child's block, and the later blocks.
    pub proof fn lemma_desc_all_split(cs: Seq<NodeView>, k: int)
        requires
            0 <= k < cs.len(),
        ensures
            Self::desc_all(cs) == Self::desc_all(cs.take(k)) + (seq![cs[k]] + cs[k].desc())
                + Self::desc_all(cs.skip(k + 1)),
            Self::desc_all(cs.take(k)).len() == k + Self::node_count_all(cs.take(k)),
    {
        assert(cs =~= cs.take(k) + seq![cs[k]] + cs.skip(k + 1));
        Self::lemma_desc_all_concat(cs.take(k) + seq![cs[k]], cs.skip(k + 1));
        Self::lemma_desc_all_concat(cs.take(k), seq![cs[k]]);
        assert(seq![cs[k]].len() == 1);
        assert(seq![cs[k]][0] == cs[k]);
        assert(seq![cs[k]].drop_first() =~= Seq::<NodeView>::empty());
        assert(Self::desc_all(seq![cs[k]].drop_first()) =~= Seq::<NodeView>::empty());
        assert((seq![cs[k]] + cs[k].desc()) + Seq::<NodeView>::empty() =~= seq![cs[k]]
            + cs[k].desc());
        Self::lemma_desc_len_all(cs.take(k));
    }

    /// The tree with its pre-order descendant `d` replaced by `s`.
    pub open spec fn replace_desc(self, d: int, s: NodeView) -> NodeView
        decreases self,
    {
        NodeView {
            node_type: self.node_type,
            value: self.value,
            children: Self::replace_desc_all(self.children, d, s),
        }
    }

    pub open spec fn replace_desc_all(cs: Seq<NodeView>, d: int, s: NodeView) -> Seq<NodeView>
        decreases cs,
    {
        if cs.len() == 0 {
            cs
        } else if d == 0 {
            cs.update(0, s)
        } else if d < 1 + cs[0].node_count() {
            cs.update(0, cs[0].replace_desc(d - 1, s))
        } else {
            seq![cs[0]] + Self::replace_desc_all(cs.drop_first(), d - 1 - cs[0].node_count(), s)
        }
    }

    /// Prefix block lengths of the tail shift by the head's block.
    pub proof fn lemma_prefix_blocks_shift(cs: Seq<NodeView>, k: int)
        requires
            1 <= k < cs.len(),
        ensures
            Self::node_count_all(cs.drop_first().take(k - 1)) + cs[0].node_count()
                == Self::node_count_all(cs.take(k)),
        decreases k,
    {
        if k == 1 {
            assert(cs.drop_first().take(0) =~= Seq::<NodeView>::empty());
            assert(cs.take(1).len() == 1);
            assert(cs.take(1).drop_last() =~= Seq::<NodeView>::empty());
            assert(cs.take(1).last() == cs[0]);
            assert(Self::node_count_all(cs.take(1).drop_last()) == 0);
        } else {
            Self::lemma_prefix_blocks_shift(cs, k - 1);
            Self::lemma_all_take_succ(cs, k - 1);
            assert(cs.drop_first().take(k - 1).drop_last() =~= cs.drop_first().take(k - 2));
            assert(cs.drop_first().take(k - 1).last() == cs[k - 1]);
        }
    }

    /// Replacing a descendant in the child block owning position `d`
    /// updates exactly that child.
    pub proof fn lemma_replace_desc_all_at(cs: Seq<NodeView>, k: int, d: int, s: NodeView)
        requires
            0 <= k < cs.len(),
            k + Self::node_count_all(cs.take(k)) <= d,
            d < k + Self::node_count_all(cs.take(k)) + 1 + cs[k].node_count(),
        ensures
            Self::replace_desc_all(cs, d, s) == (if d == k + Self::node_count_all(cs.take(k)) {
                cs.update(k, s)
            } else {
                cs.update(
                    k,
                    cs[k].replace_desc(d - (k + Self::node_count_all(cs.take(k))) - 1, s),
                )
            }),
        decreases k,
    {
        if k == 0 {
            assert(cs.take(0) =~= Seq::<NodeView>::empty());
        } else {
            assert(cs.take(1).len() == 1);
            assert(cs.take(1).drop_last() =~= Seq::<NodeView>::empty());
            assert(cs.take(1).last() == cs[0]);
            assert(Self::node_count_all(cs.take(1).drop_last()) == 0);
            assert(Self::node_count_all(cs.take(1)) == cs[0].node_count());
            Self::lemma_prefix_blocks_shift(cs, k);
            Self::lemma_replace_desc_all_at(
                cs.drop_first(),
                k - 1,
                d - 1 - cs[0].node_count(),
                s,
            );
            assert(cs.drop_first()[k - 1] == cs[k]);
            let p = k + Self::node_count_all(cs.take(k));
            if d == p {
                assert(seq![cs[0]] + cs.drop_first().update(k - 1, s) =~= cs.update(k, s));
            } else {
                assert(seq![cs[0]] + cs.drop_first().update(
                    k - 1,
                    cs[k].replace_desc(d - p - 1, s),
                ) =~= cs.update(k, cs[k].replace_desc(d - p - 1, s)));
            }
        }
    }
}

impl Node {
    /// Locate the child whose pre-order block contains descendant
    /// position `d`: returns the child slot and the position of that
    /// child itself, using the cached aggregates.
    fn find_desc_child(&self, d: usize) -> (r: (usize, usize))
        requires
            self.wf(),
            d < self.model().node_count(),
        ensures
            r.0 < self.model().children.len(),
            r.1 == r.0 + NodeView::node_count_all(self.model().children.take(r.0 as int)),
            r.1 <= d,
            d - r.1 < 1 + self.model().children[r.0 as int].node_count(),
    {
        proof {
            Self::lemma_models(self.children@);
            Self::lemma_wf_all(self.children@);
        }
        let ghost m = self.model();
        let n = self.children.len();
        let mut k: usize = 0;
        let mut acc: usize = 0;
        while k < n
            invariant
                self.wf(),
                m == self.model(),
                n == self.children@.len(),
                m.children.len() == n,
                d < m.node_count(),
                forall|j: int| 0 <= j < n ==> #[trigger] m.children[j] == self.children@[j].model(),
                forall|j: int| 0 <= j < n ==> #[trigger] self.children@[j].wf(),
                0 <= k <= n,
                acc == k + NodeView::node_count_all(m.children.take(k as int)),
                acc <= d,
            decreases n - k,
        {
            let cnc = self.children[k].node_total;
            proof {
                assert(self.children@[k as int].wf());
                assert(cnc == m.children[k as int].node_count());
                NodeView::lemma_all_take_succ(m.children, k as int);
                NodeView::lemma_all_prefix_le(m.children, k as int + 1);
                assert(m.node_count() == n + NodeView::node_count_all(m.children));
            }
            if d - acc < 1 + cnc {
                return (k, acc);
            }
            acc = acc + 1 + cnc;
            k = k + 1;
        }
        proof {
            assert(m.children.take(n as int) =~= m.children);
            assert(false);
        }
        (0, 0)
    }

    /// A deep copy of the pre-order descendant at position `d`.
    pub fn descendant(&self, d: usize) -> (r: Node)
        requires
            self.wf(),
            d < self.model().node_count(),
        ensures
            r.wf(),
            r.model() == self.model().desc()[d as int],
        decreases self,
    {
        proof {
            Self::lemma_models(self.children@);
            Self::lemma_wf_all(self.children@);
            self.model().lemma_desc_len();
        }
        let found = self.find_desc_child(d);
        let k = found.0;
        let acc = found.1;
        proof {
            self.lemma_wf_child(k as int);
            NodeView::lemma_desc_all_split(self.model().children, k as int);
            self.model().children[k as int].lemma_desc_len();
            NodeView::lemma_desc_len_all(self.model().children.skip(k as int + 1));
            assert(self.model().desc() == NodeView::desc_all(self.model().children));
        }
        if d == acc {
            let r = self.children[k].deep_clone();
            proof {
                assert(self.model().desc()[d as int] == self.model().children[k as int]);
            }
            r
        } else {
            let r = self.children[k].descendant(d - acc - 1);
            proof {
                assert(self.model().desc()[d as int] == self.model().children[
                    k as int
                ].desc()[d - acc - 1]);
            }
            r
        }
    }

    /// Replace the pre-order descendant at position `d` by another
    /// subtree, recomputing the aggregates along the path.
    #[verifier::rlimit(100)]
    #[verifier::spinoff_prover]
    pub fn set_descendant(&mut self, d: usize, sub: Node)
        requires
            old(self).wf(),
            sub.wf(),
            d < old(self).model().node_count(),
            old(self).model().render().len() + sub.model().render().len() <= usize::MAX + old(
                self,
            ).model().desc()[d as int].render().len(),
            old(self).model().leaf_count() + sub.model().leaf_count() <= usize::MAX + old(
                self,
            ).model().desc()[d as int].leaf_count(),
            old(self).model().node_count() + sub.model().node_count() <= usize::MAX + old(
                self,
            ).model().desc()[d as int].node_count(),
        ensures
            final(self).wf(),
            final(self).model() == old(self).model().replace_desc(d as int, sub.model()),
            final(self).model().render().len() == old(self).model().render().len() - old(
                self,
            ).model().desc()[d as int].render().len() + sub.model().render().len(),
            final(self).model().leaf_count() == old(self).model().leaf_count() - old(
                self,
            ).model().desc()[d as int].leaf_count() + sub.model().leaf_count(),
            final(self).model().node_count() == old(self).model().node_count() - old(
                self,
            ).model().desc()[d as int].node_count() + sub.model().node_count(),
        decreases *old(self),
    {
        proof {
            Self::lemma_models(self.children@);
            Self::lemma_wf_all(self.children@);
            self.model().lemma_desc_len();
        }
        let ghost m0 = self.model();
        let ghost sm = sub.model();
        let found = self.find_desc_child(d);
        let k = found.0;
        let acc = found.1;
        let ghost cs = m0.children;
        let ghost ocs = self.children@;
        proof {
            self.lemma_wf_child(k as int);
            NodeView::lemma_desc_all_split(cs, k as int);
            cs[k as int].lemma_desc_len();
            NodeView::lemma_desc_len_all(cs.skip(k as int + 1));
            assert(m0.desc() == NodeView::desc_all(cs));
            NodeView::lemma_all_split(cs, k as int);
            assert(m0.render() == NodeView::render_all(cs));
            NodeView::lemma_replace_desc_all_at(cs, k as int, d as int, sm);
        }
        if d == acc {
            proof {
                assert(m0.desc()[d as int] == cs[k as int]);
            }
            let c = self.children.remove(k);
            self.value_total = self.value_total - c.value_size();
            self.leaf_total = self.leaf_total - c.leaf_size();
            self.node_total = self.node_total - c.node_size();
            self.value_total = self.value_total + sub.value_size();
            self.leaf_total = self.leaf_total + sub.leaf_size();
            self.node_total = self.node_total + sub.node_size();
            self.children.insert(k, sub);
            proof {
                let ncs = self.children@;
                Self::lemma_models(ncs);
                Self::lemma_models(ocs);
                ocs.remove_ensures(k as int);
                ocs.remove(k as int).insert_ensures(k as int, ncs[k as int]);
                assert(ncs =~= ocs.update(k as int, ncs[k as int]));
                assert(Self::models(ncs) =~= cs.update(k as int, sm));
                NodeView::lemma_all_update(cs, k as int, sm);
                Self::lemma_wf_all(ncs);
                assert(self.model() =~= m0.replace_desc(d as int, sm));
            }
        } else {
            proof {
                assert(m0.desc()[d as int] == cs[k as int].desc()[d - acc - 1]);
                cs[k as int].lemma_desc_len();
                NodeView::lemma_desc_all_split(cs[k as int].children, 0);
            }
            let mut c = self.children.remove(k);
            let old_cvt = c.value_size();
            let old_clt = c.leaf_size();
            let old_cnt = c.node_size();
            c.set_descendant(d - acc - 1, sub);
            let new_cvt = c.value_size();
            let new_clt = c.leaf_size();
            let new_cnt = c.node_size();
            let ghost cm1 = c.model();
            proof {
                assert(new_cvt == old_cvt - m0.desc()[d as int].render().len()
                    + sm.render().len());
                assert(new_clt == old_clt - m0.desc()[d as int].leaf_count() + sm.leaf_count());
                assert(new_cnt == old_cnt - m0.desc()[d as int].node_count() + sm.node_count());
            }
            self.children.insert(k, c);
            self.value_total = self.value_total - old_cvt + new_cvt;
            self.leaf_total = self.leaf_total - old_clt + new_clt;
            self.node_total = self.node_total - old_cnt + new_cnt;
            proof {
                let ncs = self.children@;
                Self::lemma_models(ncs);
                Self::lemma_models(ocs);
                ocs.remove_ensures(k as int);
                ocs.remove(k as int).insert_ensures(k as int, ncs[k as int]);
                assert(ncs =~= ocs.update(k as int, ncs[k as int]));
                assert(Self::models(ncs) =~= cs.update(k as int, cm1));
                NodeView::lemma_all_update(cs, k as int, cm1);
                Self::lemma_wf_all(ncs);
                assert(self.model() =~= m0.replace_desc(d as int, sm));
            }
        }
    }
}

} // verus!
