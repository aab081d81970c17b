use hdhunter::HttpInput;
use hdhunter::HttpSequenceInput;
use hdhunter::Node;
use hdhunter::NodeType;

fn leaf(t: NodeType, v: &[u8]) -> Node {
    Node::new_with_value(t, v.to_vec())
}

fn inner(t: NodeType, children: Vec<Node>) -> Node {
    Node::new_with_children(t, children).unwrap()
}

fn request_line(method: &[u8], path: &[u8]) -> Node {
    inner(
        NodeType::StartLine,
        vec![inner(
            NodeType::RequestLine,
            vec![
                leaf(NodeType::RawBytes, method),
                leaf(NodeType::SP, b" "),
                leaf(NodeType::RawBytes, path),
                leaf(NodeType::SP, b" "),
                leaf(NodeType::RawBytes, b"HTTP/1.1"),
                leaf(NodeType::CRLF, b"\r\n"),
            ],
        )],
    )
}

fn field_line(name: &[u8], value: &[u8]) -> Node {
    inner(
        NodeType::FieldLine,
        vec![
            leaf(NodeType::RawBytes, name),
            leaf(NodeType::COLON, b":"),
            leaf(NodeType::OWSBWS, b" "),
            leaf(NodeType::RawBytes, value),
            leaf(NodeType::OWSBWS, b""),
            leaf(NodeType::CRLF, b"\r\n"),
        ],
    )
}

fn simple_message(host: &[u8], body: &[u8]) -> HttpInput {
    let root = inner(
        NodeType::HttpMessage,
        vec![
            request_line(b"GET", b"/index.html"),
            inner(NodeType::FieldLines, vec![field_line(b"Host", host)]),
            leaf(NodeType::CRLF, b"\r\n"),
            inner(NodeType::MessageBody, vec![leaf(NodeType::RawBytes, body)]),
        ],
    );
    HttpInput::new(root).unwrap()
}

#[test]
fn test_http_sequence_input() {
    let input = simple_message(b"example.com", b"");
    let sequence = HttpSequenceInput::new(vec![input.deep_clone(), input.deep_clone()]);
    let sequence2 = sequence.deep_clone();
    assert_eq!(sequence.target_bytes(), sequence2.target_bytes());
    assert_eq!(sequence.count(), 2);
    assert_eq!(
        sequence.target_bytes(),
        b"GET /index.html HTTP/1.1\r\nHost: example.com\r\n\r\nGET /index.html HTTP/1.1\r\nHost: example.com\r\n\r\n".to_vec()
    );
}

#[test]
fn test_render_matches_aggregate() {
    let msg = simple_message(b"a.com", b"hello");
    assert_eq!(msg.bytes().len(), msg.len());
    let node = msg.node();
    assert_eq!(node.bytes().len(), node.value_size());
    assert!(node.validate());
}

#[test]
fn test_aggregates_after_random_edits() {
    // a thousand randomized byte edits keep the cached aggregate equal
    // to a recomputation from scratch
    let mut seq = HttpSequenceInput::new(vec![simple_message(b"rand.com", b"payload")]);
    let mut r: u64 = 0x12345678;
    for step in 0..1000 {
        r = r.wrapping_mul(6364136223846793005).wrapping_add(1442695040888963407);
        let r2 = r >> 16;
        match step % 3 {
            0 => {
                hdhunter::mutators::byte::ByteInsertMutator::new().mutate(&mut seq, r, r2, (r >> 8) as u8);
            }
            1 => {
                hdhunter::mutators::byte::ByteRemoveMutator::new().mutate(&mut seq, r, r2);
            }
            _ => {
                hdhunter::mutators::byte::ByteDuplicateMutator::new().mutate(&mut seq, r, r2);
            }
        }
        let m = seq.message(0).unwrap();
        assert_eq!(m.bytes().len(), m.len());
        assert!(m.node().validate());
    }
}
