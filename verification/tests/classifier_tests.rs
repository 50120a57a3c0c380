use dirsync::file_change::{ClassifyStep, FileChange, FileChangeKind, SortedFileChanges};
use dirsync::message::FileChangeMessage;

fn event(
    name: &[u8],
    exists: bool,
    is_new: bool,
    ctime: u64,
    mtime: u64,
    typ: FileChangeKind,
    ino: u64,
) -> FileChange {
    FileChange { name: name.to_vec(), exists, is_new, ctime, mtime, typ, ino }
}

fn drain(batch: &mut SortedFileChanges) -> Vec<ClassifyStep> {
    let mut steps = Vec::new();
    while let Some(step) = batch.next_step() {
        steps.push(step);
    }
    steps
}

#[test]
fn rename_pair_consolidates_to_one_message() {
    // the watcher reports a rename as delete-old/create-new on one inode,
    // the new side with the greater change time
    let batch = vec![
        event(b"x.txt", false, false, 5, 5, FileChangeKind::File, 77),
        event(b"y.txt", true, true, 10, 10, FileChangeKind::File, 77),
    ];
    let mut sorted = SortedFileChanges::from(b".".to_vec(), batch);
    let steps = drain(&mut sorted);
    assert_eq!(
        steps,
        vec![ClassifyStep::Message(FileChangeMessage::Rename(
            b"x.txt".to_vec(),
            b"y.txt".to_vec(),
        ))]
    );
}

#[test]
fn unpaired_delete_stays_a_delete() {
    let batch = vec![event(b"gone.txt", false, false, 5, 5, FileChangeKind::File, 3)];
    let mut sorted = SortedFileChanges::from(b".".to_vec(), batch);
    let steps = drain(&mut sorted);
    assert_eq!(
        steps,
        vec![ClassifyStep::Message(FileChangeMessage::FileDeleted(b"gone.txt".to_vec()))]
    );
}

#[test]
fn deleted_directory_message() {
    let batch = vec![event(b"sub", false, false, 5, 5, FileChangeKind::Directory, 4)];
    let mut sorted = SortedFileChanges::from(b".".to_vec(), batch);
    let steps = drain(&mut sorted);
    assert_eq!(
        steps,
        vec![ClassifyStep::Message(FileChangeMessage::DirectoryDeleted(b"sub".to_vec()))]
    );
}

#[test]
fn new_file_becomes_file_created() {
    let batch = vec![event(b"n.txt", true, true, 9, 9, FileChangeKind::File, 8)];
    let mut sorted = SortedFileChanges::from(b".".to_vec(), batch);
    let steps = drain(&mut sorted);
    assert_eq!(
        steps,
        vec![ClassifyStep::Message(FileChangeMessage::FileCreated(b"n.txt".to_vec()))]
    );
}

#[test]
fn existing_file_needs_its_contents() {
    let batch = vec![event(b"e.txt", true, false, 9, 9, FileChangeKind::File, 8)];
    let mut sorted = SortedFileChanges::from(b".".to_vec(), batch);
    let steps = drain(&mut sorted);
    assert_eq!(steps, vec![ClassifyStep::NeedsFileContents(b"e.txt".to_vec())]);
    // the caller reads the file and completes the decision
    let m = FileChangeMessage::file_edited(b"e.txt".to_vec(), b"v2".to_vec());
    assert_eq!(m, FileChangeMessage::FileEdited(b"e.txt".to_vec(), b"v2".to_vec()));
}

#[test]
fn new_directory_needs_inspection() {
    let batch = vec![event(b"pop", true, true, 9, 9, FileChangeKind::Directory, 8)];
    let mut sorted = SortedFileChanges::from(b".".to_vec(), batch);
    let steps = drain(&mut sorted);
    assert_eq!(steps, vec![ClassifyStep::NeedsDirectory(b"pop".to_vec())]);
    // an empty directory on disk
    let empty = FileChangeMessage::directory_created(b"pop".to_vec(), None);
    assert_eq!(empty, FileChangeMessage::EmptyDirectoryCreated(b"pop".to_vec()));
    // a populated one carries its archive in one message
    let full = FileChangeMessage::directory_created(b"pop".to_vec(), Some(b"tarbytes".to_vec()));
    assert_eq!(
        full,
        FileChangeMessage::DirectoryCreated(b"pop".to_vec(), b"tarbytes".to_vec())
    );
}

#[test]
fn edited_directory_is_informational() {
    let batch = vec![event(b"sub", true, false, 9, 9, FileChangeKind::Directory, 8)];
    let mut sorted = SortedFileChanges::from(b".".to_vec(), batch);
    let steps = drain(&mut sorted);
    assert_eq!(
        steps,
        vec![ClassifyStep::Message(FileChangeMessage::DirectoryContentsEdited(b"sub".to_vec()))]
    );
}

#[test]
fn batch_is_sorted_by_inode_then_times_descending() {
    let batch = vec![
        event(b"low", true, true, 1, 1, FileChangeKind::File, 1),
        event(b"high", true, true, 1, 1, FileChangeKind::File, 9),
        event(b"mid_old", true, true, 2, 2, FileChangeKind::File, 5),
        event(b"mid_new", true, true, 7, 7, FileChangeKind::File, 5),
    ];
    let sorted = SortedFileChanges::from(b".".to_vec(), batch);
    let names: Vec<Vec<u8>> = sorted.inner.iter().map(|c| c.name.clone()).collect();
    assert_eq!(
        names,
        vec![b"high".to_vec(), b"mid_new".to_vec(), b"mid_old".to_vec(), b"low".to_vec()]
    );
}

#[test]
fn same_batch_classifies_identically_twice() {
    let make = || {
        vec![
            event(b"x.txt", false, false, 5, 5, FileChangeKind::File, 77),
            event(b"y.txt", true, true, 10, 10, FileChangeKind::File, 77),
            event(b"n.txt", true, true, 9, 9, FileChangeKind::File, 8),
            event(b"gone", false, false, 2, 2, FileChangeKind::File, 3),
        ]
    };
    let mut first = SortedFileChanges::from(b".".to_vec(), make());
    let mut second = SortedFileChanges::from(b".".to_vec(), make());
    assert_eq!(drain(&mut first), drain(&mut second));
}

#[test]
fn rename_in_larger_batch_touches_only_its_paths() {
    let batch = vec![
        event(b"other.txt", true, true, 20, 20, FileChangeKind::File, 90),
        event(b"x.txt", false, false, 5, 5, FileChangeKind::File, 77),
        event(b"y.txt", true, true, 10, 10, FileChangeKind::File, 77),
        event(b"gone", false, false, 2, 2, FileChangeKind::File, 3),
    ];
    let mut sorted = SortedFileChanges::from(b".".to_vec(), batch);
    let steps = drain(&mut sorted);
    let rename =
        ClassifyStep::Message(FileChangeMessage::Rename(b"x.txt".to_vec(), b"y.txt".to_vec()));
    assert_eq!(steps.iter().filter(|s| **s == rename).count(), 1);
    for step in &steps {
        if *step != rename {
            match step {
                ClassifyStep::Message(FileChangeMessage::Rename(a, b)) => {
                    assert!(a != &b"x.txt".to_vec() && b != &b"y.txt".to_vec());
                },
                _ => {},
            }
        }
    }
    assert_eq!(steps.len(), 3);
}

#[test]
fn empty_batch_yields_no_steps() {
    let mut sorted = SortedFileChanges::from(b".".to_vec(), Vec::new());
    assert_eq!(sorted.next_step(), None);
}
