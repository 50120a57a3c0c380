use dirsync::file_tree::{FileTree, FileTreeNode, FileTreeNodeType};

fn file_node(path: &[u8], contents: &[u8]) -> FileTreeNode {
    FileTreeNode::file(path.to_vec(), &contents.to_vec())
}

#[test]
fn builder_sorts_walked_entries() {
    let nodes = vec![
        file_node(b"d/b.txt", b"x"),
        FileTreeNode::dir(b"d".to_vec()),
        file_node(b"a.txt", b"hi"),
    ];
    let tree = FileTree::new(nodes);
    assert_eq!(tree.nodes.len(), 3);
    assert_eq!(tree.nodes[0].path, b"a.txt".to_vec());
    assert_eq!(tree.nodes[1].path, b"d".to_vec());
    assert_eq!(tree.nodes[2].path, b"d/b.txt".to_vec());
    assert!(tree.is_valid());
}

#[test]
fn empty_manifest_is_valid() {
    let tree = FileTree::new(Vec::new());
    assert!(tree.is_valid());
    assert_eq!(tree.nodes.len(), 0);
}

#[test]
fn duplicate_paths_make_manifest_invalid() {
    let nodes = vec![file_node(b"a.txt", b"one"), file_node(b"a.txt", b"two")];
    let tree = FileTree::new(nodes);
    assert!(!tree.is_valid());
}

#[test]
fn root_entry_makes_manifest_invalid() {
    let nodes = vec![FileTreeNode::dir(Vec::new()), file_node(b"a.txt", b"hi")];
    let tree = FileTree::new(nodes);
    assert!(!tree.is_valid());
}

#[test]
fn unsorted_manifest_is_rejected() {
    // built by hand, bypassing the sorting constructor
    let tree = FileTree { nodes: vec![file_node(b"b.txt", b"1"), file_node(b"a.txt", b"2")] };
    assert!(!tree.is_valid());
}

#[test]
fn directory_sorts_before_its_descendants() {
    let nodes = vec![
        file_node(b"a/b", b"deep"),
        FileTreeNode::dir(b"a".to_vec()),
        file_node(b"a.txt", b"sib"),
    ];
    let tree = FileTree::new(nodes);
    // the separator ranks lowest: "a" < "a/b" < "a.txt", so the directory's
    // descendants directly follow it, before the sibling "a.txt"
    assert_eq!(tree.nodes[0].path, b"a".to_vec());
    assert_eq!(tree.nodes[1].path, b"a/b".to_vec());
    assert_eq!(tree.nodes[2].path, b"a.txt".to_vec());
    assert!(tree.is_valid());
}

#[test]
fn file_node_carries_sha1_of_contents() {
    // SHA-1 of "abc" is a9993e364706816aba3e25717850c26c9cd0d89d
    let node = file_node(b"a.txt", b"abc");
    let expected: Vec<u8> = vec![
        0xa9, 0x99, 0x3e, 0x36, 0x47, 0x06, 0x81, 0x6a, 0xba, 0x3e, 0x25, 0x71, 0x78, 0x50, 0xc2,
        0x6c, 0x9c, 0xd0, 0xd8, 0x9d,
    ];
    assert_eq!(node.typ, FileTreeNodeType::File { sha1: expected });
    assert_eq!(node.path, b"a.txt".to_vec());
}

#[test]
fn empty_contents_sha1() {
    // SHA-1 of "" is da39a3ee5e6b4b0d3255bfef95601890afd80709
    let node = file_node(b"e", b"");
    let expected: Vec<u8> = vec![
        0xda, 0x39, 0xa3, 0xee, 0x5e, 0x6b, 0x4b, 0x0d, 0x32, 0x55, 0xbf, 0xef, 0x95, 0x60, 0x18,
        0x90, 0xaf, 0xd8, 0x07, 0x09,
    ];
    assert_eq!(node.typ, FileTreeNodeType::File { sha1: expected });
}

#[test]
fn dir_node_has_dir_kind() {
    let node = FileTreeNode::dir(b"sub".to_vec());
    assert_eq!(node.typ, FileTreeNodeType::Dir);
    assert_eq!(node.path, b"sub".to_vec());
}
