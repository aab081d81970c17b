use hdhunter::mutators::byte::ByteDuplicateMutator;
use hdhunter::mutators::byte::ByteInsertMutator;
use hdhunter::mutators::byte::ByteRemoveMutator;
use hdhunter::mutators::byte::ByteSpliceMutator;
use hdhunter::mutators::message::MessageFieldLineDuplicateMutator;
use hdhunter::mutators::message::MessageFieldLineRemoveMutator;
use hdhunter::mutators::message::MessageFieldLineSpliceMutator;
use hdhunter::mutators::message::MessageNodeTokenReplaceMutator;
use hdhunter::mutators::message::MessageNodeTypedSwapMutator;
use hdhunter::mutators::message::MessageTrailerSectionReplaceMutator;
use hdhunter::mutators::message::TokenMetadata;
use hdhunter::mutators::sequence::SequenceRemoveMutator;
use hdhunter::mutators::sequence::SequenceSpliceMutator;
use hdhunter::mutators::MutationResult;
use hdhunter::HttpInput;
use hdhunter::HttpSequenceInput;
use hdhunter::Node;
use hdhunter::NodeType;
use similar::capture_diff_slices;
use similar::Algorithm;
use similar::DiffTag;

fn leaf(t: NodeType, v: &[u8]) -> Node {
    Node::new_with_value(t, v.to_vec())
}

fn inner(t: NodeType, children: Vec<Node>) -> Node {
    Node::new_with_children(t, children).unwrap()
}

fn field_line(name: &[u8], value: &[u8]) -> Node {
    inner(
        NodeType::FieldLine,
        vec![
            leaf(NodeType::RawBytes, name),
            leaf(NodeType::COLON, b":"),
            leaf(NodeType::OWSBWS, b" "),
            leaf(NodeType::RawBytes, value),
            leaf(NodeType::OWSBWS, b""),
            leaf(NodeType::CRLF, b"\r\n"),
        ],
    )
}

fn message(host: &[u8], body: &[u8]) -> HttpInput {
    let root = inner(
        NodeType::HttpMessage,
        vec![
            inner(
                NodeType::StartLine,
                vec![inner(
                    NodeType::RequestLine,
                    vec![
                        leaf(NodeType::RawBytes, b"GET"),
                        leaf(NodeType::SP, b" "),
                        leaf(NodeType::RawBytes, b"/"),
                        leaf(NodeType::SP, b" "),
                        leaf(NodeType::RawBytes, b"HTTP/1.1"),
                        leaf(NodeType::CRLF, b"\r\n"),
                    ],
                )],
            ),
            inner(NodeType::FieldLines, vec![field_line(b"Host", host)]),
            leaf(NodeType::CRLF, b"\r\n"),
            inner(NodeType::MessageBody, vec![leaf(NodeType::RawBytes, body)]),
        ],
    );
    HttpInput::new(root).unwrap()
}

fn base() -> HttpSequenceInput {
    HttpSequenceInput::new(vec![message(b"any.com", b"random message"), message(b"one.com", b"some message")])
}

struct Rng(u64);

impl Rng {
    fn next(&mut self) -> u64 {
        self.0 = self.0.wrapping_mul(6364136223846793005).wrapping_add(1442695040888963407);
        self.0 >> 8
    }
}

#[test]
fn test_byte_insert() {
    let mut rng = Rng(1337);
    for _ in 0..100 {
        let mut mutated = base();
        if ByteInsertMutator::new().mutate(&mut mutated, rng.next(), rng.next(), rng.next() as u8)
            == MutationResult::Skipped
        {
            continue;
        }
        let ops = capture_diff_slices(Algorithm::Myers, &base().target_bytes(), &mutated.target_bytes());
        assert_eq!(ops.iter().filter(|x| x.tag() == DiffTag::Insert).count(), 1);
    }
}

#[test]
fn test_byte_remove() {
    let mut rng = Rng(1337);
    for _ in 0..100 {
        let mut mutated = base();
        if ByteRemoveMutator::new().mutate(&mut mutated, rng.next(), rng.next())
            == MutationResult::Skipped
        {
            continue;
        }
        let ops = capture_diff_slices(Algorithm::Myers, &base().target_bytes(), &mutated.target_bytes());
        assert_eq!(ops.iter().filter(|x| x.tag() == DiffTag::Delete).count(), 1);
    }
}

#[test]
fn test_byte_duplicate() {
    let mut rng = Rng(1337);
    for _ in 0..100 {
        let mut mutated = base();
        if ByteDuplicateMutator::new().mutate(&mut mutated, rng.next(), rng.next())
            == MutationResult::Skipped
        {
            continue;
        }
        let old = base().target_bytes();
        let new = mutated.target_bytes();
        let ops = capture_diff_slices(Algorithm::Myers, &old, &new);
        let inserts: Vec<_> = ops.iter().filter(|x| x.tag() == DiffTag::Insert).collect();
        assert_eq!(inserts.len(), 1);
        let (_, _old_range, new_range) = inserts[0].as_tag_tuple();
        assert_eq!(new[new_range.start - 1], new[new_range.start]);
    }
}

#[test]
fn test_byte_splice() {
    let mut rng = Rng(1337);
    let donor = message(b"donor.com", b"donor-bytes").bytes();
    for _ in 0..100 {
        let mut mutated = base();
        if ByteSpliceMutator::new().mutate(
            &mut mutated,
            rng.next(),
            rng.next(),
            rng.next(),
            rng.next(),
            &donor,
            4096,
        ) == MutationResult::Skipped
        {
            continue;
        }
        let ops = capture_diff_slices(Algorithm::Myers, &base().target_bytes(), &mutated.target_bytes());
        assert_eq!(ops.iter().filter(|x| x.tag() == DiffTag::Insert).count(), 1);
    }
}

fn field_line_bytes(seq: &HttpSequenceInput) -> Vec<Vec<u8>> {
    let mut out = Vec::new();
    for i in 0..seq.count() {
        let m = seq.message(i).unwrap();
        let fl = m.field_lines();
        for j in 0..fl.children_len() {
            out.push(fl.child(j).unwrap().bytes());
        }
    }
    out
}

#[test]
fn test_message_field_line_duplicate() {
    let mut rng = Rng(1337);
    for _ in 0..100 {
        let mut mutated = base();
        if MessageFieldLineDuplicateMutator::new().mutate(&mut mutated, rng.next(), rng.next())
            == MutationResult::Skipped
        {
            continue;
        }
        let ops = capture_diff_slices(
            Algorithm::Myers,
            &field_line_bytes(&base()),
            &field_line_bytes(&mutated),
        );
        assert_eq!(ops.iter().filter(|x| x.tag() == DiffTag::Insert).count(), 1);
    }
}

#[test]
fn test_message_field_line_remove() {
    let mut rng = Rng(1337);
    for _ in 0..100 {
        let mut mutated = base();
        if MessageFieldLineRemoveMutator::new().mutate(&mut mutated, rng.next(), rng.next())
            == MutationResult::Skipped
        {
            continue;
        }
        let ops = capture_diff_slices(
            Algorithm::Myers,
            &field_line_bytes(&base()),
            &field_line_bytes(&mutated),
        );
        assert_eq!(ops.iter().filter(|x| x.tag() == DiffTag::Delete).count(), 1);
    }
}

#[test]
fn test_message_field_line_splice() {
    let mut rng = Rng(1337);
    let donor = message(b"donor.com", b"");
    for _ in 0..100 {
        let mut mutated = base();
        if MessageFieldLineSpliceMutator::new().mutate(
            &mut mutated,
            &donor,
            rng.next(),
            rng.next(),
            rng.next(),
            rng.next(),
        ) == MutationResult::Skipped
        {
            continue;
        }
        let ops = capture_diff_slices(
            Algorithm::Myers,
            &field_line_bytes(&base()),
            &field_line_bytes(&mutated),
        );
        assert_eq!(ops.iter().filter(|x| x.tag() == DiffTag::Insert).count(), 1);
    }
}

#[test]
fn test_sequence_splice() {
    let mut rng = Rng(1337);
    let donor = message(b"donor.com", b"");
    for _ in 0..100 {
        let mut mutated = base();
        if SequenceSpliceMutator::new().mutate(&mut mutated, &donor, rng.next())
            == MutationResult::Skipped
        {
            continue;
        }
        assert_eq!(mutated.count(), 3);
        assert!(mutated.count() <= 3);
    }
    // a sequence at the bound reports no-op instead of growing
    let mut full = HttpSequenceInput::new(vec![
        message(b"a.com", b""),
        message(b"b.com", b""),
        message(b"c.com", b""),
    ]);
    assert_eq!(
        SequenceSpliceMutator::new().mutate(&mut full, &donor, 7),
        MutationResult::Skipped
    );
    assert_eq!(full.count(), 3);
}

#[test]
fn test_sequence_remove() {
    let mut rng = Rng(1337);
    for _ in 0..100 {
        let mut mutated = base();
        if SequenceRemoveMutator::new().mutate(&mut mutated, rng.next())
            == MutationResult::Skipped
        {
            continue;
        }
        assert_eq!(mutated.count(), 1);
    }
    // a single-message sequence reports no-op instead of going empty
    let mut single = HttpSequenceInput::new(vec![message(b"a.com", b"")]);
    assert_eq!(SequenceRemoveMutator::new().mutate(&mut single, 3), MutationResult::Skipped);
    assert_eq!(single.count(), 1);
}

fn chunked_message() -> HttpInput {
    let root = inner(
        NodeType::HttpMessage,
        vec![
            inner(
                NodeType::StartLine,
                vec![inner(
                    NodeType::RequestLine,
                    vec![
                        leaf(NodeType::RawBytes, b"POST"),
                        leaf(NodeType::SP, b" "),
                        leaf(NodeType::RawBytes, b"/"),
                        leaf(NodeType::SP, b" "),
                        leaf(NodeType::RawBytes, b"HTTP/1.1"),
                        leaf(NodeType::CRLF, b"\r\n"),
                    ],
                )],
            ),
            inner(
                NodeType::FieldLines,
                vec![field_line(b"Host", b"any.com"), field_line(b"Transfer-Encoding", b"chunked")],
            ),
            leaf(NodeType::CRLF, b"\r\n"),
            inner(
                NodeType::MessageBody,
                vec![inner(
                    NodeType::ChunkedBody,
                    vec![
                        inner(
                            NodeType::Chunks,
                            vec![inner(
                                NodeType::Chunk,
                                vec![
                                    inner(
                                        NodeType::ChunkSize,
                                        vec![leaf(NodeType::HEXDIG, b"1"), leaf(NodeType::HEXDIG, b"0")],
                                    ),
                                    leaf(NodeType::RawBytes, b""),
                                    leaf(NodeType::CRLF, b"\r\n"),
                                    leaf(NodeType::RawBytes, b"1234567890abcdef"),
                                    leaf(NodeType::CRLF, b"\r\n"),
                                ],
                            )],
                        ),
                        inner(
                            NodeType::LastChunk,
                            vec![
                                inner(NodeType::ChunkSize, vec![leaf(NodeType::HEXDIG, b"0")]),
                                leaf(NodeType::RawBytes, b""),
                                leaf(NodeType::CRLF, b"\r\n"),
                            ],
                        ),
                        Node::new_with_children(NodeType::TrailerSection, vec![]).unwrap(),
                        leaf(NodeType::CRLF, b"\r\n"),
                    ],
                )],
            ),
        ],
    );
    HttpInput::new(root).unwrap()
}

#[test]
fn test_message_trailer_section_replace() {
    let mut rng = Rng(1337);
    let donor = message(b"donor.com", b"");
    let mut hits = 0;
    for _ in 0..100 {
        let mut mutated = HttpSequenceInput::new(vec![chunked_message()]);
        if MessageTrailerSectionReplaceMutator::new().mutate(&mut mutated, &donor, rng.next())
            == MutationResult::Skipped
        {
            continue;
        }
        hits += 1;
        let m = mutated.message(0).unwrap();
        let trailer = m.message_body().child(0).unwrap().child(2).unwrap().bytes();
        assert_eq!(trailer, b"Host: donor.com\r\n".to_vec());
        assert!(m.node().validate());
        assert_eq!(m.bytes().len(), m.len());
    }
    assert!(hits > 0);
    // a message without a chunked body reports no-op
    let mut plain = HttpSequenceInput::new(vec![message(b"a.com", b"body")]);
    assert_eq!(
        MessageTrailerSectionReplaceMutator::new().mutate(&mut plain, &donor, 5),
        MutationResult::Skipped
    );
}

#[test]
fn test_message_node_token_replace() {
    let mut rng = Rng(1337);
    let mut tokens = TokenMetadata::new();
    tokens.string = vec!["Content-Encoding".to_string(), "Random".to_string()];
    tokens.number = vec!["1".to_string(), "2".to_string()];
    tokens.symbol = vec!["!".to_string(), "?".to_string()];
    let mut hits = 0;
    for _ in 0..100 {
        let mut mutated = base();
        if MessageNodeTokenReplaceMutator::new().mutate(
            &mut mutated,
            &tokens,
            rng.next(),
            rng.next(),
            rng.next(),
        ) == MutationResult::Skipped
        {
            continue;
        }
        hits += 1;
        for i in 0..mutated.count() {
            let m = mutated.message(i).unwrap();
            assert!(m.node().validate());
            assert_eq!(m.bytes().len(), m.len());
        }
    }
    assert!(hits > 0);
    // empty dictionaries always report no-op
    let empty = TokenMetadata::new();
    let mut seq = base();
    assert_eq!(
        MessageNodeTokenReplaceMutator::new().mutate(&mut seq, &empty, 1, 2, 3),
        MutationResult::Skipped
    );
}

#[test]
fn test_message_node_typed_swap() {
    let mut rng = Rng(1337);
    let mut seq = HttpSequenceInput::new(vec![chunked_message(), message(b"any.com", b"x")]);
    let mutator = MessageNodeTypedSwapMutator::new();
    for _ in 0..100 {
        let before: Vec<usize> = (0..seq.count())
            .map(|i| seq.message(i).unwrap().node().node_size())
            .collect();
        let r = mutator.mutate(&mut seq, rng.next(), rng.next(), rng.next());
        for i in 0..seq.count() {
            let m = seq.message(i).unwrap();
            // the tree stays grammar-valid and every node stays
            // reachable exactly once: the counts and caches agree with
            // a recomputation from the rendered bytes
            assert!(m.node().validate());
            assert_eq!(m.bytes().len(), m.len());
            if r == MutationResult::Mutated {
                assert_eq!(m.node().node_size(), before[i]);
            }
        }
    }
}

#[test]
fn test_typed_swap_many_rounds() {
    let mut rng = Rng(99);
    let mut seq = HttpSequenceInput::new(vec![chunked_message()]);
    let mutator = MessageNodeTypedSwapMutator::new();
    for _ in 0..10000 {
        mutator.mutate(&mut seq, rng.next(), rng.next(), rng.next());
    }
    let m = seq.message(0).unwrap();
    assert!(m.node().validate());
    assert_eq!(m.bytes().len(), m.len());
}
