use dirsync::file_tree::{FileTree, FileTreeNode};
use dirsync::file_tree_diff::TreeDiff;
use dirsync::message::RequestMessage;

fn file_node(path: &[u8], contents: &[u8]) -> FileTreeNode {
    FileTreeNode::file(path.to_vec(), &contents.to_vec())
}

fn tree(nodes: Vec<FileTreeNode>) -> FileTree {
    let t = FileTree::new(nodes);
    assert!(t.is_valid());
    t
}

#[test]
fn identical_trees_give_empty_diff() {
    let a = tree(vec![
        file_node(b"a.txt", b"hi"),
        FileTreeNode::dir(b"d".to_vec()),
        file_node(b"d/b.txt", b"x"),
    ]);
    let b = tree(vec![
        file_node(b"a.txt", b"hi"),
        FileTreeNode::dir(b"d".to_vec()),
        file_node(b"d/b.txt", b"x"),
    ]);
    let diff = TreeDiff::from(&a, &b);
    assert!(diff.created_dirs.is_empty());
    assert!(diff.deleted_dirs.is_empty());
    assert!(diff.created_files.is_empty());
    assert!(diff.deleted_files.is_empty());
    assert!(diff.edited_files.is_empty());
    assert!(diff.requests().is_empty());
}

#[test]
fn cold_start_requests_dirs_then_files() {
    // receiver empty; sender has a.txt and d/b.txt
    let local = tree(Vec::new());
    let remote = tree(vec![
        file_node(b"a.txt", b"hi"),
        FileTreeNode::dir(b"d".to_vec()),
        file_node(b"d/b.txt", b"x"),
    ]);
    let diff = TreeDiff::from(&local, &remote);
    assert_eq!(diff.created_files, vec![b"a.txt".to_vec()]);
    assert_eq!(diff.created_dirs, vec![b"d".to_vec()]);
    assert!(diff.deleted_dirs.is_empty());
    assert!(diff.deleted_files.is_empty());
    assert!(diff.edited_files.is_empty());
    let reqs = diff.requests();
    assert_eq!(
        reqs,
        vec![
            RequestMessage::Dir(b"d".to_vec()),
            RequestMessage::File(b"a.txt".to_vec()),
        ]
    );
}

#[test]
fn edited_file_is_requested() {
    let local = tree(vec![file_node(b"a.txt", b"v1")]);
    let remote = tree(vec![file_node(b"a.txt", b"v2")]);
    let diff = TreeDiff::from(&local, &remote);
    assert_eq!(diff.edited_files, vec![b"a.txt".to_vec()]);
    assert!(diff.created_files.is_empty());
    assert!(diff.deleted_files.is_empty());
    assert_eq!(diff.requests(), vec![RequestMessage::File(b"a.txt".to_vec())]);
}

#[test]
fn same_contents_are_not_edited() {
    let local = tree(vec![file_node(b"a.txt", b"same")]);
    let remote = tree(vec![file_node(b"a.txt", b"same")]);
    let diff = TreeDiff::from(&local, &remote);
    assert!(diff.edited_files.is_empty());
    assert!(diff.requests().is_empty());
}

#[test]
fn deleted_subtree_collapses_to_its_root() {
    let local = tree(vec![
        FileTreeNode::dir(b"sub".to_vec()),
        file_node(b"sub/a", b"1"),
        file_node(b"sub/b", b"2"),
    ]);
    let remote = tree(Vec::new());
    let diff = TreeDiff::from(&local, &remote);
    assert_eq!(diff.deleted_dirs, vec![b"sub".to_vec()]);
    assert!(diff.deleted_files.is_empty());
    assert!(diff.requests().is_empty());
}

#[test]
fn created_subtree_collapses_to_its_root() {
    let local = tree(Vec::new());
    let remote = tree(vec![
        FileTreeNode::dir(b"pop".to_vec()),
        file_node(b"pop/f.txt", b"k"),
    ]);
    let diff = TreeDiff::from(&local, &remote);
    assert_eq!(diff.created_dirs, vec![b"pop".to_vec()]);
    assert!(diff.created_files.is_empty());
    assert_eq!(diff.requests(), vec![RequestMessage::Dir(b"pop".to_vec())]);
}

#[test]
fn sibling_with_subtree_prefix_is_not_collapsed() {
    // "subx" begins with "sub" but is not inside it
    let local = tree(vec![
        FileTreeNode::dir(b"sub".to_vec()),
        file_node(b"sub/a", b"1"),
        file_node(b"subx", b"2"),
    ]);
    let remote = tree(vec![file_node(b"subx", b"2")]);
    let diff = TreeDiff::from(&local, &remote);
    // the mixed-kind head rule re-creates "subx" on the remote side first,
    // and the later subtree collapse must not swallow it: "subx" is not
    // inside "sub"
    assert_eq!(diff.deleted_dirs, vec![b"sub".to_vec()]);
    assert_eq!(diff.created_files, vec![b"subx".to_vec()]);
    assert_eq!(diff.deleted_files, vec![b"subx".to_vec()]);
    assert!(diff.edited_files.is_empty());
}

#[test]
fn file_replaced_by_directory() {
    let local = tree(vec![file_node(b"a", b"old")]);
    let remote = tree(vec![
        FileTreeNode::dir(b"a".to_vec()),
        file_node(b"a/inner", b"new"),
    ]);
    let diff = TreeDiff::from(&local, &remote);
    assert_eq!(diff.deleted_files, vec![b"a".to_vec()]);
    assert_eq!(diff.created_dirs, vec![b"a".to_vec()]);
}

#[test]
fn created_dirs_keep_parents_before_children() {
    let local = tree(vec![FileTreeNode::dir(b"a".to_vec())]);
    let remote = tree(vec![
        FileTreeNode::dir(b"a".to_vec()),
        FileTreeNode::dir(b"a/b".to_vec()),
        file_node(b"a/b/c", b"1"),
        FileTreeNode::dir(b"z".to_vec()),
    ]);
    let diff = TreeDiff::from(&local, &remote);
    assert_eq!(diff.created_dirs, vec![b"a/b".to_vec(), b"z".to_vec()]);
    assert!(diff.created_files.is_empty());
}

#[test]
fn sibling_file_does_not_split_a_created_subtree() {
    // "d.txt" sits next to directory "d"; the subtree of "d" is one
    // contiguous run, so "d/x" travels in d's archive, not as its own
    // request
    let local = tree(Vec::new());
    let remote = tree(vec![
        FileTreeNode::dir(b"d".to_vec()),
        file_node(b"d.txt", b"sib"),
        file_node(b"d/x", b"inner"),
    ]);
    let diff = TreeDiff::from(&local, &remote);
    assert_eq!(diff.created_dirs, vec![b"d".to_vec()]);
    assert_eq!(diff.created_files, vec![b"d.txt".to_vec()]);
}

#[test]
fn disjoint_trees_delete_and_create() {
    let local = tree(vec![file_node(b"only_local", b"l")]);
    let remote = tree(vec![file_node(b"only_remote", b"r")]);
    let diff = TreeDiff::from(&local, &remote);
    assert_eq!(diff.deleted_files, vec![b"only_local".to_vec()]);
    assert_eq!(diff.created_files, vec![b"only_remote".to_vec()]);
}
