use dirsync::codec::{
    decode_file_tree, decode_message, decode_requests, encode_file_tree, encode_message,
    encode_requests,
};
use dirsync::file_tree::{FileTree, FileTreeNode, FileTreeNodeType};
use dirsync::message::{FileChangeMessage, RequestMessage};

fn file_node(path: &[u8], contents: &[u8]) -> FileTreeNode {
    FileTreeNode::file(path.to_vec(), &contents.to_vec())
}

#[test]
fn manifest_round_trip() {
    let tree = FileTree::new(vec![
        file_node(b"a.txt", b"hi"),
        FileTreeNode::dir(b"d".to_vec()),
        file_node(b"d/b.txt", b"x"),
    ]);
    let bytes = encode_file_tree(&tree);
    let back = decode_file_tree(&bytes).expect("well-formed frame");
    assert_eq!(back.nodes, tree.nodes);
}

#[test]
fn empty_manifest_encodes_to_count_zero() {
    let tree = FileTree::new(Vec::new());
    let bytes = encode_file_tree(&tree);
    assert_eq!(bytes, vec![0u8; 8]);
    let back = decode_file_tree(&bytes).expect("well-formed frame");
    assert!(back.nodes.is_empty());
}

#[test]
fn dir_manifest_exact_bytes() {
    let tree = FileTree { nodes: vec![FileTreeNode::dir(b"d".to_vec())] };
    let bytes = encode_file_tree(&tree);
    let expected: Vec<u8> = vec![
        1, 0, 0, 0, 0, 0, 0, 0, // node count
        1, 0, 0, 0, 0, 0, 0, 0, // path length
        b'd', // path
        1, 0, 0, 0, // directory tag
    ];
    assert_eq!(bytes, expected);
}

#[test]
fn truncated_manifest_is_rejected() {
    let tree = FileTree::new(vec![file_node(b"a", b"x")]);
    let mut bytes = encode_file_tree(&tree);
    bytes.pop();
    assert!(decode_file_tree(&bytes).is_none());
}

#[test]
fn trailing_garbage_is_rejected() {
    let tree = FileTree::new(vec![file_node(b"a", b"x")]);
    let mut bytes = encode_file_tree(&tree);
    bytes.push(0);
    assert!(decode_file_tree(&bytes).is_none());
}

#[test]
fn unknown_node_tag_is_rejected() {
    let bytes: Vec<u8> = vec![
        1, 0, 0, 0, 0, 0, 0, 0, // node count
        1, 0, 0, 0, 0, 0, 0, 0, // path length
        b'd', // path
        9, 0, 0, 0, // no such kind
    ];
    assert!(decode_file_tree(&bytes).is_none());
}

#[test]
fn overlong_length_prefix_is_rejected() {
    let bytes: Vec<u8> = vec![
        1, 0, 0, 0, 0, 0, 0, 0, // node count
        255, 255, 255, 255, 255, 255, 255, 255, // absurd path length
        b'd',
    ];
    assert!(decode_file_tree(&bytes).is_none());
}

#[test]
fn requests_round_trip() {
    let reqs = vec![
        RequestMessage::Dir(b"d".to_vec()),
        RequestMessage::File(b"a.txt".to_vec()),
        RequestMessage::File(b"d/b.txt".to_vec()),
    ];
    let bytes = encode_requests(&reqs);
    let back = decode_requests(&bytes).expect("well-formed frame");
    assert_eq!(back, reqs);
}

#[test]
fn requests_exact_bytes() {
    let reqs = vec![RequestMessage::File(b"a".to_vec())];
    let bytes = encode_requests(&reqs);
    let expected: Vec<u8> = vec![
        1, 0, 0, 0, 0, 0, 0, 0, // request count
        0, 0, 0, 0, // file tag
        1, 0, 0, 0, 0, 0, 0, 0, // path length
        b'a',
    ];
    assert_eq!(bytes, expected);
}

#[test]
fn empty_request_list_round_trip() {
    let reqs: Vec<RequestMessage> = Vec::new();
    let bytes = encode_requests(&reqs);
    assert_eq!(bytes, vec![0u8; 8]);
    let back = decode_requests(&bytes).expect("well-formed frame");
    assert!(back.is_empty());
}

#[test]
fn unknown_request_tag_is_rejected() {
    let bytes: Vec<u8> = vec![
        1, 0, 0, 0, 0, 0, 0, 0, // request count
        2, 0, 0, 0, // no such tag
        1, 0, 0, 0, 0, 0, 0, 0, b'a',
    ];
    assert!(decode_requests(&bytes).is_none());
}

#[test]
fn file_created_exact_bytes() {
    let m = FileChangeMessage::FileCreated(b"a".to_vec());
    let bytes = encode_message(&m);
    let expected: Vec<u8> = vec![
        0, 0, 0, 0, // tag
        1, 0, 0, 0, 0, 0, 0, 0, // path length
        b'a',
    ];
    assert_eq!(bytes, expected);
}

#[test]
fn every_message_variant_round_trips() {
    let p = b"some/path.txt".to_vec();
    let q = b"other".to_vec();
    let payload = b"\x00\x01\x02payload".to_vec();
    let messages = vec![
        FileChangeMessage::FileCreated(p.clone()),
        FileChangeMessage::FileDeleted(p.clone()),
        FileChangeMessage::FileEdited(p.clone(), payload.clone()),
        FileChangeMessage::EmptyDirectoryCreated(p.clone()),
        FileChangeMessage::DirectoryCreated(p.clone(), payload.clone()),
        FileChangeMessage::DirectoryDeleted(p.clone()),
        FileChangeMessage::Rename(p.clone(), q.clone()),
        FileChangeMessage::DirectoryContentsEdited(p.clone()),
    ];
    for m in messages {
        let bytes = encode_message(&m);
        let back = decode_message(&bytes).expect("well-formed frame");
        assert_eq!(back, m);
    }
}

#[test]
fn message_with_unknown_tag_is_rejected() {
    let bytes: Vec<u8> = vec![8, 0, 0, 0, 1, 0, 0, 0, 0, 0, 0, 0, b'a'];
    assert!(decode_message(&bytes).is_none());
}

#[test]
fn truncated_message_is_rejected() {
    let m = FileChangeMessage::FileEdited(b"a".to_vec(), b"xyz".to_vec());
    let mut bytes = encode_message(&m);
    bytes.pop();
    assert!(decode_message(&bytes).is_none());
}

#[test]
fn empty_frame_is_rejected() {
    assert!(decode_message(&Vec::new()).is_none());
    assert!(decode_file_tree(&Vec::new()).is_none());
    assert!(decode_requests(&Vec::new()).is_none());
}

#[test]
fn file_kind_needs_twenty_digest_bytes() {
    let tree = FileTree::new(vec![file_node(b"a", b"contents")]);
    let bytes = encode_file_tree(&tree);
    // drop one digest byte from the tail
    let short: Vec<u8> = bytes[..bytes.len() - 1].to_vec();
    assert!(decode_file_tree(&short).is_none());
    // the digest sits raw at the tail: 8 + (8 + 1) + 4 + 20 bytes in all
    assert_eq!(bytes.len(), 41);
    match &tree.nodes[0].typ {
        FileTreeNodeType::File { sha1 } => {
            assert_eq!(&bytes[21..41], sha1.as_slice());
        },
        FileTreeNodeType::Dir => panic!("expected a file node"),
    }
}
