use dirsync::codec::encode_file_tree;
use dirsync::file_tree::{FileTree, FileTreeNode};
use dirsync::message::{FileChangeMessage, Frame, RequestMessage};
use dirsync::receiver::{handshake, Receiver};
use dirsync::sender::Sender;
use dirsync::SyncError;

fn file_node(path: &[u8], contents: &[u8]) -> FileTreeNode {
    FileTreeNode::file(path.to_vec(), &contents.to_vec())
}

#[test]
fn receiver_new_keeps_configuration() {
    let r = Receiver::new(8040, b"out".to_vec());
    assert_eq!(r.port, 8040);
    assert_eq!(r.out_dir, b"out".to_vec());
}

#[test]
fn sender_new_keeps_configuration() {
    let s = Sender::new(b"src_dir".to_vec(), b"ws://127.0.0.1:8040".to_vec());
    assert_eq!(s.dir_path, b"src_dir".to_vec());
    assert_eq!(s.listener_addr, b"ws://127.0.0.1:8040".to_vec());
}

#[test]
fn handshake_requests_what_differs() {
    // receiver holds v1, sender announces v2 for the same path
    let local = FileTree::new(vec![file_node(b"a.txt", b"v1")]);
    let remote = FileTree::new(vec![file_node(b"a.txt", b"v2")]);
    let frame = Frame::Binary(encode_file_tree(&remote));
    let h = handshake(&local, frame).expect("valid handshake");
    assert_eq!(h.requests, vec![RequestMessage::File(b"a.txt".to_vec())]);
    assert_eq!(h.remote_tree.nodes, remote.nodes);
    // the reply frame carries exactly those requests back to the sender
    let parsed = Sender::parse_request_frame(Frame::Binary(h.reply)).expect("valid reply");
    assert_eq!(parsed, vec![RequestMessage::File(b"a.txt".to_vec())]);
}

#[test]
fn handshake_on_identical_trees_requests_nothing() {
    let local = FileTree::new(vec![file_node(b"a.txt", b"hi"), FileTreeNode::dir(b"d".to_vec())]);
    let remote = FileTree::new(vec![file_node(b"a.txt", b"hi"), FileTreeNode::dir(b"d".to_vec())]);
    let frame = Frame::Binary(encode_file_tree(&remote));
    let h = handshake(&local, frame).expect("valid handshake");
    assert!(h.requests.is_empty());
    let parsed = Sender::parse_request_frame(Frame::Binary(h.reply)).expect("valid reply");
    assert!(parsed.is_empty());
}

#[test]
fn handshake_cold_start_orders_dirs_before_files() {
    let local = FileTree::new(Vec::new());
    let remote = FileTree::new(vec![
        file_node(b"a.txt", b"hi"),
        FileTreeNode::dir(b"d".to_vec()),
        file_node(b"d/b.txt", b"x"),
    ]);
    let frame = Frame::Binary(encode_file_tree(&remote));
    let h = handshake(&local, frame).expect("valid handshake");
    assert_eq!(
        h.requests,
        vec![
            RequestMessage::Dir(b"d".to_vec()),
            RequestMessage::File(b"a.txt".to_vec()),
        ]
    );
}

#[test]
fn handshake_rejects_non_binary_frames() {
    let local = FileTree::new(Vec::new());
    assert_eq!(handshake(&local, Frame::Close).unwrap_err(), SyncError::ProtocolViolation);
    assert_eq!(handshake(&local, Frame::Other).unwrap_err(), SyncError::ProtocolViolation);
}

#[test]
fn handshake_rejects_undecodable_frames() {
    let local = FileTree::new(Vec::new());
    let err = handshake(&local, Frame::Binary(b"not a manifest".to_vec())).unwrap_err();
    assert_eq!(err, SyncError::ProtocolViolation);
}

#[test]
fn handshake_rejects_invalid_manifests() {
    let local = FileTree::new(Vec::new());
    // decodes fine but is out of order
    let unsorted = FileTree { nodes: vec![file_node(b"b", b"1"), file_node(b"a", b"2")] };
    let err = handshake(&local, Frame::Binary(encode_file_tree(&unsorted))).unwrap_err();
    assert_eq!(err, SyncError::InvalidManifest);
}

#[test]
fn request_frame_must_be_binary() {
    assert_eq!(
        Sender::parse_request_frame(Frame::Close).unwrap_err(),
        SyncError::ProtocolViolation
    );
    assert_eq!(
        Sender::parse_request_frame(Frame::Other).unwrap_err(),
        SyncError::ProtocolViolation
    );
    assert_eq!(
        Sender::parse_request_frame(Frame::Binary(b"junk".to_vec())).unwrap_err(),
        SyncError::ProtocolViolation
    );
}

#[test]
fn fulfillment_builds_the_right_mutations() {
    let m = Sender::fulfillment_message(
        RequestMessage::File(b"a.txt".to_vec()),
        b"contents".to_vec(),
    );
    assert_eq!(m, FileChangeMessage::FileEdited(b"a.txt".to_vec(), b"contents".to_vec()));
    let m = Sender::fulfillment_message(RequestMessage::Dir(b"d".to_vec()), b"archive".to_vec());
    assert_eq!(m, FileChangeMessage::DirectoryCreated(b"d".to_vec(), b"archive".to_vec()));
}
