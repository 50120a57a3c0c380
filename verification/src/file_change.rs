//! The change classifier: raw watcher events are sorted by (inode, change
//! time, modification time) descending and consumed from the tail, so that
//! the two halves of a rename meet and collapse into a single rename step.
use vstd::prelude::*;

use crate::message::{FileChangeMessage, MsgV};

verus! {

/// Kind of a changed entry as the watcher reports it.
#[derive(Clone, Copy, PartialEq, Eq, Structural, Debug)]
pub enum FileChangeKind {
    File,
    Directory,
}

/// Mathematical model of a raw change event.
pub ghost struct FileChangeV {
    pub name: Seq<u8>,
    pub exists: bool,
    pub is_new: bool,
    pub ctime: u64,
    pub mtime: u64,
    pub typ: FileChangeKind,
    pub ino: u64,
}

/// A raw change event from the filesystem watcher: the relative path,
/// whether the entry now exists, whether it is newly created, its change and
/// modification times, its kind and its inode number.
#[derive(Debug)]
pub struct FileChange {
    pub name: Vec<u8>,
    pub exists: bool,
    pub is_new: bool,
    pub ctime: u64,
    pub mtime: u64,
    pub typ: FileChangeKind,
    pub ino: u64,
}

impl View for FileChange {
    type V = FileChangeV;

    open spec fn view(&self) -> FileChangeV {
        FileChangeV {
            name: self.name@,
            exists: self.exists,
            is_new: self.is_new,
            ctime: self.ctime,
            mtime: self.mtime,
            typ: self.typ,
            ino: self.ino,
        }
    }
}

/// The model of an event list.
pub open spec fn changes_view(v: Seq<FileChange>) -> Seq<FileChangeV> {
    v.map(|i: int, c: FileChange| c@)
}

/// `a` sorts no later than `b`: descending by inode, then change time, then
/// modification time.
pub open spec fn change_le(a: FileChangeV, b: FileChangeV) -> bool {
    ||| a.ino > b.ino
    ||| (a.ino == b.ino && a.ctime > b.ctime)
    ||| (a.ino == b.ino && a.ctime == b.ctime && a.mtime >= b.mtime)
}

/// Adjacent events are ordered by the descending sort key.
pub open spec fn sorted_changes(s: Seq<FileChangeV>) -> bool {
    forall|i: int| 0 <= i < s.len() - 1 ==> change_le(#[trigger] s[i], s[i + 1])
}

/// Inserts an event into an already sorted sequence, after every event that
/// sorts no later than it.
pub open spec fn insert_change(x: FileChangeV, s: Seq<FileChangeV>) -> Seq<FileChangeV>
    decreases s.len(),
{
    if s.len() == 0 {
        seq![x]
    } else if change_le(s[0], x) {
        seq![s[0]] + insert_change(x, s.skip(1))
    } else {
        seq![x] + s
    }
}

/// Insertion sort by the descending change key, front to back.
pub open spec fn sort_changes(s: Seq<FileChangeV>) -> Seq<FileChangeV>
    decreases s.len(),
{
    if s.len() == 0 {
        Seq::empty()
    } else {
        insert_change(s[0], sort_changes(s.skip(1)))
    }
}

proof fn lemma_insert_change_len(x: FileChangeV, s: Seq<FileChangeV>)
    ensures
        insert_change(x, s).len() == s.len() + 1,
    decreases s.len(),
{
    if s.len() > 0 && change_le(s[0], x) {
        lemma_insert_change_len(x, s.skip(1));
    }
}

proof fn lemma_insert_change_sorted(x: FileChangeV, s: Seq<FileChangeV>)
    requires
        sorted_changes(s),
    ensures
        sorted_changes(insert_change(x, s)),
    decreases s.len(),
{
    lemma_insert_change_len(x, s);
    if s.len() == 0 {
    } else if change_le(s[0], x) {
        assert(sorted_changes(s.skip(1))) by {
            assert(forall|i: int|
                0 <= i < s.skip(1).len() - 1 ==> (#[trigger] s.skip(1)[i]) == s[i + 1] && s.skip(
                    1,
                )[i + 1] == s[i + 2]);
        }
        lemma_insert_change_sorted(x, s.skip(1));
        let t = insert_change(x, s.skip(1));
        let r = seq![s[0]] + t;
        lemma_insert_change_len(x, s.skip(1));
        assert forall|i: int| 0 <= i < r.len() - 1 implies change_le(#[trigger] r[i], r[i + 1]) by {
            if i == 0 {
                assert(r[0] == s[0]);
                assert(r[1] == t[0]);
                if s.skip(1).len() == 0 {
                    assert(t[0] == x);
                } else if change_le(s.skip(1)[0], x) {
                    assert(t[0] == s.skip(1)[0]);
                    assert(s.skip(1)[0] == s[1]);
                } else {
                    assert(t[0] == x);
                }
            } else {
                assert(r[i] == t[i - 1]);
                assert(r[i + 1] == t[i]);
            }
        }
    } else {
        let r = seq![x] + s;
        assert forall|i: int| 0 <= i < r.len() - 1 implies change_le(#[trigger] r[i], r[i + 1]) by {
            if i == 0 {
                assert(r[0] == x);
                assert(r[1] == s[0]);
            } else {
                assert(r[i] == s[i - 1]);
                assert(r[i + 1] == s[i]);
            }
        }
    }
}

/// Sorting yields a sorted sequence of the same length.
pub proof fn lemma_sort_changes_sorted(s: Seq<FileChangeV>)
    ensures
        sorted_changes(sort_changes(s)),
        sort_changes(s).len() == s.len(),
    decreases s.len(),
{
    if s.len() > 0 {
        lemma_sort_changes_sorted(s.skip(1));
        lemma_insert_change_sorted(s[0], sort_changes(s.skip(1)));
        lemma_insert_change_len(s[0], sort_changes(s.skip(1)));
    }
}

/// A batch of raw change events, sorted so that the classifier can consume
/// them from the tail.
#[derive(Debug)]
pub struct SortedFileChanges {
    pub root_path: Vec<u8>,
    pub inner: Vec<FileChange>,
}

/// Where the scan stopped is where the specification-level insert places the
/// event.
proof fn lemma_insert_change_at(x: FileChangeV, s: Seq<FileChangeV>, j: int)
    requires
        0 <= j <= s.len(),
        forall|k: int| 0 <= k < j ==> change_le(#[trigger] s[k], x),
        j < s.len() ==> !change_le(s[j], x),
    ensures
        insert_change(x, s) == s.take(j) + seq![x] + s.skip(j),
    decreases j,
{
    if j == 0 {
        assert(insert_change(x, s) =~= s.take(0) + seq![x] + s.skip(0));
    } else {
        assert(forall|k: int| 0 <= k < j - 1 ==> (#[trigger] s.skip(1)[k]) == s[k + 1]);
        lemma_insert_change_at(x, s.skip(1), j - 1);
        assert(insert_change(x, s) == seq![s[0]] + insert_change(x, s.skip(1)));
        assert(s.skip(1).take(j - 1) =~= s.take(j).skip(1));
        assert(s.skip(1).skip(j - 1) =~= s.skip(j));
        assert(seq![s[0]] + (s.take(j).skip(1) + seq![x] + s.skip(j)) =~= s.take(j) + seq![x]
            + s.skip(j)) by {
            assert(s.take(j)[0] == s[0]);
        }
    }
}

/// Compares two events by the descending change key.
fn change_before(a: &FileChange, b: &FileChange) -> (r: bool)
    ensures
        r == change_le(a@, b@),
{
    if a.ino != b.ino {
        a.ino > b.ino
    } else if a.ctime != b.ctime {
        a.ctime > b.ctime
    } else {
        a.mtime >= b.mtime
    }
}

/// Inserts an event into a key-sorted vector, matching the
/// specification-level insertion exactly.
fn insert_change_sorted(acc: &mut Vec<FileChange>, x: FileChange)
    ensures
        changes_view(final(acc)@) == insert_change(x@, changes_view(old(acc)@)),
{
    let ghost s = changes_view(acc@);
    let mut j: usize = 0;
    while j < acc.len()
        invariant
            j <= acc@.len(),
            acc@ == old(acc)@,
            s == changes_view(acc@),
            forall|k: int| 0 <= k < j ==> change_le(#[trigger] s[k], x@),
        ensures
            j <= acc@.len(),
            acc@ == old(acc)@,
            forall|k: int| 0 <= k < j ==> change_le(#[trigger] s[k], x@),
            j < acc@.len() ==> !change_le(s[j as int], x@),
        decreases acc@.len() - j,
    {
        let c = change_before(&acc[j], &x);
        proof {
            assert(s[j as int] == acc@[j as int]@);
        }
        if !c {
            break ;
        }
        j = j + 1;
    }
    proof {
        lemma_insert_change_at(x@, s, j as int);
    }
    acc.insert(j, x);
    proof {
        assert(changes_view(acc@) =~= s.take(j as int) + seq![x@] + s.skip(j as int)) by {
            assert(acc@ == old(acc)@.insert(j as int, x));
            assert(forall|k: int|
                0 <= k < j ==> (#[trigger] changes_view(acc@)[k]) == acc@[k]@ && acc@[k] == old(
                    acc,
                )@[k]);
            assert(forall|k: int|
                j < k < acc@.len() ==> (#[trigger] changes_view(acc@)[k]) == acc@[k]@ && acc@[k]
                    == old(acc)@[k - 1]);
            assert(acc@[j as int] == x);
            assert(changes_view(acc@)[j as int] == x@);
        }
    }
}

/// One classifier decision: a complete mutation message, or a request for
/// the outside work (a file read, a directory inspection) that must finish
/// it.
#[derive(Debug, PartialEq, Eq)]
pub enum ClassifyStep {
    Message(FileChangeMessage),
    NeedsFileContents(Vec<u8>),
    NeedsDirectory(Vec<u8>),
}

/// Mathematical model of a classifier decision.
pub ghost enum StepV {
    Message(MsgV),
    NeedsFileContents(Seq<u8>),
    NeedsDirectory(Seq<u8>),
}

impl View for ClassifyStep {
    type V = StepV;

    open spec fn view(&self) -> StepV {
        match self {
            ClassifyStep::Message(m) => StepV::Message(m@),
            ClassifyStep::NeedsFileContents(p) => StepV::NeedsFileContents(p@),
            ClassifyStep::NeedsDirectory(p) => StepV::NeedsDirectory(p@),
        }
    }
}

/// The decision for the event at the tail of the sorted batch.
pub open spec fn head_step(s: Seq<FileChangeV>) -> StepV
    recommends
        s.len() > 0,
{
    let e = s.last();
    if e.exists {
        if e.typ == FileChangeKind::Directory && !e.is_new {
            StepV::Message(MsgV::DirectoryContentsEdited(e.name))
        } else if e.typ == FileChangeKind::File && e.is_new {
            StepV::Message(MsgV::FileCreated(e.name))
        } else if e.typ == FileChangeKind::File {
            StepV::NeedsFileContents(e.name)
        } else {
            StepV::NeedsDirectory(e.name)
        }
    } else {
        if s.len() >= 2 && s[s.len() - 2].ino == e.ino {
            StepV::Message(MsgV::Rename(e.name, s[s.len() - 2].name))
        } else if e.typ == FileChangeKind::Directory {
            StepV::Message(MsgV::DirectoryDeleted(e.name))
        } else {
            StepV::Message(MsgV::FileDeleted(e.name))
        }
    }
}

/// How many events the tail decision consumes: two for a consolidated
/// rename, one otherwise.
pub open spec fn consumed(s: Seq<FileChangeV>) -> nat
    recommends
        s.len() > 0,
{
    let e = s.last();
    if !e.exists && s.len() >= 2 && s[s.len() - 2].ino == e.ino {
        2
    } else {
        1
    }
}

/// The batch that remains after the tail decision.
pub open spec fn rest_after(s: Seq<FileChangeV>) -> Seq<FileChangeV>
    recommends
        s.len() > 0,
{
    s.take(s.len() - consumed(s))
}

/// The full decision sequence for a sorted batch, consumed from the tail.
pub open spec fn spec_steps(s: Seq<FileChangeV>) -> Seq<StepV>
    decreases s.len(),
{
    if s.len() == 0 {
        Seq::empty()
    } else {
        seq![head_step(s)] + spec_steps(rest_after(s))
    }
}

impl SortedFileChanges {
    /// Sorts a raw watcher batch by (inode, change time, modification time)
    /// descending, so that the two halves of a rename sit together with the
    /// surviving side first.
    pub fn from(root_path: Vec<u8>, inner: Vec<FileChange>) -> (r: SortedFileChanges)
        ensures
            r.root_path@ == root_path@,
            changes_view(r.inner@) == sort_changes(changes_view(inner@)),
            sorted_changes(changes_view(r.inner@)),
    {
        let ghost input = changes_view(inner@);
        let mut rest = inner;
        let mut acc: Vec<FileChange> = Vec::new();
        proof {
            assert(changes_view(rest@) =~= input.take(rest@.len() as int));
            assert(input.skip(rest@.len() as int) =~= Seq::<FileChangeV>::empty());
            assert(changes_view(acc@) =~= Seq::<FileChangeV>::empty());
        }
        loop
            invariant
                rest@.len() <= input.len(),
                changes_view(rest@) == input.take(rest@.len() as int),
                changes_view(acc@) == sort_changes(input.skip(rest@.len() as int)),
            ensures
                changes_view(acc@) == sort_changes(input),
            decreases rest@.len(),
        {
            let ghost m = rest@.len() as int;
            let ghost pre = rest@;
            let x = match rest.pop() {
                Some(x) => x,
                None => {
                    proof {
                        assert(input.skip(rest@.len() as int) =~= input);
                    }
                    break ;
                },
            };
            proof {
                assert(changes_view(rest@) =~= input.take(m - 1)) by {
                    assert(forall|k: int|
                        0 <= k < m - 1 ==> (#[trigger] rest@[k])@ == input.take(m)[k]);
                }
                assert(x@ == input[m - 1]) by {
                    assert(changes_view(pre)[m - 1] == input.take(m)[m - 1]);
                }
                let t = input.skip(m - 1);
                assert(t[0] == input[m - 1]);
                assert(t.skip(1) =~= input.skip(m));
                assert(sort_changes(t) == insert_change(x@, sort_changes(input.skip(m))));
            }
            insert_change_sorted(&mut acc, x);
        }
        proof {
            lemma_sort_changes_sorted(input);
        }
        SortedFileChanges { root_path, inner: acc }
    }

    /// Pops the tail event of the sorted batch and decides what it means:
    /// an existing entry becomes a creation, an edit-in-progress or a
    /// directory decision; a vanished entry whose inode matches the next
    /// event becomes a rename consuming both; any other vanished entry
    /// becomes a deletion.
    pub fn next_step(&mut self) -> (r: Option<ClassifyStep>)
        ensures
            final(self).root_path@ == old(self).root_path@,
            ({
                let pre = changes_view(old(self).inner@);
                match r {
                    None => pre.len() == 0 && final(self).inner@ == old(self).inner@,
                    Some(st) => pre.len() > 0 && st@ == head_step(pre) && changes_view(
                        final(self).inner@,
                    ) == rest_after(pre),
                }
            }),
    {
        let ghost pre = changes_view(self.inner@);
        let ghost n = pre.len() as int;
        let e = match self.inner.pop() {
            Some(e) => e,
            None => {
                return None;
            },
        };
        proof {
            assert(e@ == pre.last()) by {
                assert(changes_view(old(self).inner@)[n - 1] == old(self).inner@[n - 1]@);
            }
            assert(changes_view(self.inner@) =~= pre.take(n - 1)) by {
                assert(forall|k: int|
                    0 <= k < n - 1 ==> (#[trigger] self.inner@[k])@ == old(self).inner@[k]@);
            }
        }
        if e.exists {
            let st = if e.typ == FileChangeKind::Directory && !e.is_new {
                ClassifyStep::Message(FileChangeMessage::DirectoryContentsEdited(e.name))
            } else if e.typ == FileChangeKind::File && e.is_new {
                ClassifyStep::Message(FileChangeMessage::FileCreated(e.name))
            } else if e.typ == FileChangeKind::File {
                ClassifyStep::NeedsFileContents(e.name)
            } else {
                ClassifyStep::NeedsDirectory(e.name)
            };
            proof {
                assert(consumed(pre) == 1);
                assert(rest_after(pre) == pre.take(n - 1));
            }
            Some(st)
        } else {
            let paired = if self.inner.len() > 0 {
                let last = &self.inner[self.inner.len() - 1];
                proof {
                    assert(changes_view(self.inner@)[self.inner@.len() - 1] == self.inner@[
                        self.inner@.len() - 1
                    ]@);
                    assert(pre.take(n - 1)[n - 2] == pre[n - 2]);
                }
                last.ino == e.ino
            } else {
                false
            };
            if paired {
                let next = match self.inner.pop() {
                    Some(x) => x,
                    None => {
                        return None;
                    },
                };
                proof {
                    assert(next@ == pre[n - 2]) by {
                        assert(changes_view(old(self).inner@)[n - 2] == old(self).inner@[n - 2]@);
                    }
                    assert(changes_view(self.inner@) =~= pre.take(n - 2)) by {
                        assert(forall|k: int|
                            0 <= k < n - 2 ==> (#[trigger] self.inner@[k])@ == old(
                                self,
                            ).inner@[k]@);
                    }
                    assert(consumed(pre) == 2);
                    assert(rest_after(pre) == pre.take(n - 2));
                }
                Some(ClassifyStep::Message(FileChangeMessage::Rename(e.name, next.name)))
            } else {
                proof {
                    assert(consumed(pre) == 1);
                    assert(rest_after(pre) == pre.take(n - 1));
                }
                let st = if e.typ == FileChangeKind::Directory {
                    ClassifyStep::Message(FileChangeMessage::DirectoryDeleted(e.name))
                } else {
                    ClassifyStep::Message(FileChangeMessage::FileDeleted(e.name))
                };
                Some(st)
            }
        }
    }
}

impl FileChangeMessage {
    /// Completes an edited-file decision with the bytes read from disk.
    pub fn file_edited(path: Vec<u8>, contents: Vec<u8>) -> (m: FileChangeMessage)
        ensures
            m@ == MsgV::FileEdited(path@, contents@),
    {
        FileChangeMessage::FileEdited(path, contents)
    }

    /// Completes a new-directory decision: a directory that was empty on
    /// disk becomes an empty-directory creation; one with contents carries
    /// its archive.
    pub fn directory_created(path: Vec<u8>, archive: Option<Vec<u8>>) -> (m: FileChangeMessage)
        ensures
            match archive {
                None => m@ == MsgV::EmptyDirectoryCreated(path@),
                Some(a) => m@ == MsgV::DirectoryCreated(path@, a@),
            },
    {
        match archive {
            None => FileChangeMessage::EmptyDirectoryCreated(path),
            Some(a) => FileChangeMessage::DirectoryCreated(path, a),
        }
    }
}

/// Classifier determinism: sorting then consuming two equal batches yields
/// equal decision sequences, because both stages are functions of the batch
/// alone.
pub proof fn lemma_classifier_deterministic(b1: Seq<FileChangeV>, b2: Seq<FileChangeV>)
    requires
        b1 == b2,
    ensures
        spec_steps(sort_changes(b1)) == spec_steps(sort_changes(b2)),
{
}

/// Whether a mutation message mentions the path `p`.
pub open spec fn msg_refs(m: MsgV, p: Seq<u8>) -> bool {
    match m {
        MsgV::FileCreated(q) => q == p,
        MsgV::FileDeleted(q) => q == p,
        MsgV::FileEdited(q, b) => q == p,
        MsgV::EmptyDirectoryCreated(q) => q == p,
        MsgV::DirectoryCreated(q, b) => q == p,
        MsgV::DirectoryDeleted(q) => q == p,
        MsgV::Rename(a, b) => a == p || b == p,
        MsgV::DirectoryContentsEdited(q) => q == p,
    }
}

/// Whether a classifier decision mentions the path `p`.
pub open spec fn step_refs(st: StepV, p: Seq<u8>) -> bool {
    match st {
        StepV::Message(m) => msg_refs(m, p),
        StepV::NeedsFileContents(q) => q == p,
        StepV::NeedsDirectory(q) => q == p,
    }
}

/// If no event in the batch carries the path, no decision mentions it.
proof fn lemma_no_ref(s: Seq<FileChangeV>, p: Seq<u8>)
    requires
        forall|j: int| 0 <= j < s.len() ==> (#[trigger] s[j]).name != p,
    ensures
        forall|k: int|
            0 <= k < spec_steps(s).len() ==> !step_refs(#[trigger] spec_steps(s)[k], p),
    decreases s.len(),
{
    if s.len() > 0 {
        let rest = rest_after(s);
        assert(forall|j: int| 0 <= j < rest.len() ==> (#[trigger] rest[j]) == s[j]);
        lemma_no_ref(rest, p);
        assert(!step_refs(head_step(s), p)) by {
            assert(s.last() == s[s.len() - 1]);
        }
        assert forall|k: int|
            0 <= k < spec_steps(s).len() implies !step_refs(#[trigger] spec_steps(s)[k], p) by {
            if k == 0 {
                assert(spec_steps(s)[0] == head_step(s));
            } else {
                assert(spec_steps(s)[k] == spec_steps(rest)[k - 1]);
            }
        }
    }
}

/// Rename consolidation: when exactly two events of the sorted batch share
/// an inode — the surviving side directly before the vanished side — and no
/// other event carries either path, the classifier emits exactly one
/// decision mentioning those paths, and it is the single rename from the
/// vanished path to the surviving one.
pub proof fn lemma_rename_consolidation(s: Seq<FileChangeV>, i: int)
    requires
        0 <= i,
        i + 1 < s.len(),
        s[i].exists,
        !s[i + 1].exists,
        s[i].ino == s[i + 1].ino,
        forall|j: int|
            0 <= j < s.len() && j != i && j != i + 1 ==> (#[trigger] s[j]).ino != s[i].ino,
        forall|j: int|
            0 <= j < s.len() && j != i && j != i + 1 ==> (#[trigger] s[j]).name != s[i].name && s[
                j
            ].name != s[i + 1].name,
    ensures
        exists|k: int|
            0 <= k < spec_steps(s).len() && #[trigger] spec_steps(s)[k] == StepV::Message(
                MsgV::Rename(s[i + 1].name, s[i].name),
            ) && (forall|k2: int|
                0 <= k2 < spec_steps(s).len() && k2 != k ==> !step_refs(
                    #[trigger] spec_steps(s)[k2],
                    s[i].name,
                ) && !step_refs(spec_steps(s)[k2], s[i + 1].name)),
    decreases s.len(),
{
    let n = s.len() as int;
    let steps = spec_steps(s);
    if i + 1 == n - 1 {
        // the pair is at the tail and is consumed as one rename
        let e = s.last();
        assert(e == s[i + 1]);
        assert(s[n - 2] == s[i]);
        assert(head_step(s) == StepV::Message(MsgV::Rename(s[i + 1].name, s[i].name)));
        assert(consumed(s) == 2);
        let rest = rest_after(s);
        assert(rest =~= s.take(i));
        assert(forall|j: int| 0 <= j < rest.len() ==> (#[trigger] rest[j]) == s[j]);
        lemma_no_ref(rest, s[i].name);
        lemma_no_ref(rest, s[i + 1].name);
        assert(steps[0] == head_step(s));
        assert forall|k2: int| 0 <= k2 < steps.len() && k2 != 0 implies !step_refs(
            #[trigger] steps[k2],
            s[i].name,
        ) && !step_refs(steps[k2], s[i + 1].name) by {
            assert(steps[k2] == spec_steps(rest)[k2 - 1]);
        }
    } else {
        // the tail decision consumes one or two events beyond the pair
        let e = s.last();
        assert(e == s[n - 1]);
        let c = consumed(s) as int;
        assert(c == 1 || c == 2);
        if c == 2 {
            // the tail paired with its neighbour; that neighbour is not the
            // vanished half, else the tail would share the pair's inode
            assert(n - 2 != i + 1) by {
                if n - 2 == i + 1 {
                    assert(s[n - 1].ino != s[i].ino);
                    assert(s[n - 2].ino == s[n - 1].ino);
                }
            }
        }
        let rest = rest_after(s);
        assert(rest =~= s.take(n - c));
        assert(forall|j: int| 0 <= j < rest.len() ==> (#[trigger] rest[j]) == s[j]);
        assert(i + 1 < n - c);
        lemma_rename_consolidation(rest, i);
        let sub = spec_steps(rest);
        let k0 = choose|k: int|
            0 <= k < sub.len() && #[trigger] sub[k] == StepV::Message(
                MsgV::Rename(rest[i + 1].name, rest[i].name),
            ) && (forall|k2: int|
                0 <= k2 < sub.len() && k2 != k ==> !step_refs(#[trigger] sub[k2], rest[i].name)
                    && !step_refs(sub[k2], rest[i + 1].name));
        assert(rest[i] == s[i] && rest[i + 1] == s[i + 1]);
        assert(steps[k0 + 1] == sub[k0]);
        // the tail decision itself mentions only paths of the consumed events
        assert(!step_refs(head_step(s), s[i].name) && !step_refs(head_step(s), s[i + 1].name)) by {
            assert(s.last() == s[n - 1]);
            assert(s[n - 1].name != s[i].name && s[n - 1].name != s[i + 1].name);
            if consumed(s) == 2 {
                assert(s[n - 2].name != s[i].name && s[n - 2].name != s[i + 1].name);
            }
        }
        assert forall|k2: int| 0 <= k2 < steps.len() && k2 != k0 + 1 implies !step_refs(
            #[trigger] steps[k2],
            s[i].name,
        ) && !step_refs(steps[k2], s[i + 1].name) by {
            if k2 == 0 {
                assert(steps[0] == head_step(s));
            } else {
                assert(steps[k2] == sub[k2 - 1]);
            }
        }
        assert(0 <= k0 + 1 < steps.len() && steps[k0 + 1] == StepV::Message(
            MsgV::Rename(s[i + 1].name, s[i].name),
        ));
    }
}


/// How many events of `s` satisfy `f`.
pub open spec fn pcount(s: Seq<FileChangeV>, f: spec_fn(FileChangeV) -> bool) -> nat
    decreases s.len(),
{
    if s.len() == 0 {
        0
    } else {
        (if f(s[0]) {
            1nat
        } else {
            0nat
        }) + pcount(s.skip(1), f)
    }
}

proof fn lemma_pcount_concat(a: Seq<FileChangeV>, b: Seq<FileChangeV>, f: spec_fn(FileChangeV) -> bool)
    ensures
        pcount(a + b, f) == pcount(a, f) + pcount(b, f),
    decreases a.len(),
{
    if a.len() == 0 {
        assert(a + b =~= b);
    } else {
        assert((a + b)[0] == a[0]);
        assert((a + b).skip(1) =~= a.skip(1) + b);
        lemma_pcount_concat(a.skip(1), b, f);
    }
}

proof fn lemma_pcount_single(x: FileChangeV, f: spec_fn(FileChangeV) -> bool)
    ensures
        pcount(seq![x], f) == if f(x) {
            1nat
        } else {
            0nat
        },
{
    assert(seq![x].skip(1) =~= Seq::<FileChangeV>::empty());
    assert(pcount(Seq::<FileChangeV>::empty(), f) == 0);
    assert(seq![x][0] == x);
}

proof fn lemma_pcount_insert(x: FileChangeV, s: Seq<FileChangeV>, f: spec_fn(FileChangeV) -> bool)
    ensures
        pcount(insert_change(x, s), f) == pcount(seq![x], f) + pcount(s, f),
    decreases s.len(),
{
    lemma_pcount_single(x, f);
    if s.len() == 0 {
        assert(insert_change(x, s) == seq![x]);
    } else if change_le(s[0], x) {
        lemma_pcount_insert(x, s.skip(1), f);
        lemma_pcount_concat(seq![s[0]], insert_change(x, s.skip(1)), f);
        lemma_pcount_single(s[0], f);
        assert(pcount(seq![s[0]], f) + pcount(s.skip(1), f) == pcount(s, f));
    } else {
        lemma_pcount_concat(seq![x], s, f);
    }
}

/// Sorting keeps every event count.
pub proof fn lemma_pcount_sort(s: Seq<FileChangeV>, f: spec_fn(FileChangeV) -> bool)
    ensures
        pcount(sort_changes(s), f) == pcount(s, f),
    decreases s.len(),
{
    if s.len() > 0 {
        lemma_pcount_sort(s.skip(1), f);
        lemma_pcount_insert(s[0], sort_changes(s.skip(1)), f);
        lemma_pcount_single(s[0], f);
    }
}

/// An event at an index contributes to the count of its predicate.
proof fn lemma_pcount_at_least_one(s: Seq<FileChangeV>, f: spec_fn(FileChangeV) -> bool, i: int)
    requires
        0 <= i < s.len(),
        f(s[i]),
    ensures
        pcount(s, f) >= 1,
    decreases i,
{
    if i > 0 {
        assert(s.skip(1)[i - 1] == s[i]);
        lemma_pcount_at_least_one(s.skip(1), f, i - 1);
    }
}

proof fn lemma_pcount_at_least_two(
    s: Seq<FileChangeV>,
    f: spec_fn(FileChangeV) -> bool,
    i: int,
    j: int,
)
    requires
        0 <= i < j < s.len(),
        f(s[i]),
        f(s[j]),
    ensures
        pcount(s, f) >= 2,
    decreases i,
{
    if i == 0 {
        assert(s.skip(1)[j - 1] == s[j]);
        lemma_pcount_at_least_one(s.skip(1), f, j - 1);
    } else {
        assert(s.skip(1)[i - 1] == s[i]);
        assert(s.skip(1)[j - 1] == s[j]);
        lemma_pcount_at_least_two(s.skip(1), f, i - 1, j - 1);
    }
}

proof fn lemma_pcount_at_least_three(
    s: Seq<FileChangeV>,
    f: spec_fn(FileChangeV) -> bool,
    i: int,
    j: int,
    m: int,
)
    requires
        0 <= i < j < m < s.len(),
        f(s[i]),
        f(s[j]),
        f(s[m]),
    ensures
        pcount(s, f) >= 3,
    decreases i,
{
    if i == 0 {
        assert(s.skip(1)[j - 1] == s[j]);
        assert(s.skip(1)[m - 1] == s[m]);
        lemma_pcount_at_least_two(s.skip(1), f, j - 1, m - 1);
    } else {
        assert(s.skip(1)[i - 1] == s[i]);
        assert(s.skip(1)[j - 1] == s[j]);
        assert(s.skip(1)[m - 1] == s[m]);
        lemma_pcount_at_least_three(s.skip(1), f, i - 1, j - 1, m - 1);
    }
}

/// A positive count names an index.
proof fn lemma_pcount_find(s: Seq<FileChangeV>, f: spec_fn(FileChangeV) -> bool)
    requires
        pcount(s, f) >= 1,
    ensures
        exists|i: int| 0 <= i < s.len() && f(#[trigger] s[i]),
    decreases s.len(),
{
    if s.len() > 0 {
        if f(s[0]) {
        } else {
            lemma_pcount_find(s.skip(1), f);
            let i = choose|i: int| 0 <= i < s.skip(1).len() && f(#[trigger] s.skip(1)[i]);
            assert(s[i + 1] == s.skip(1)[i]);
        }
    }
}

/// The sort key is transitive along a sorted batch.
proof fn lemma_sorted_changes_global(s: Seq<FileChangeV>, i: int, j: int)
    requires
        sorted_changes(s),
        0 <= i < j < s.len(),
    ensures
        change_le(s[i], s[j]),
    decreases j - i,
{
    if j > i + 1 {
        lemma_sorted_changes_global(s, i, j - 1);
    }
}

/// Rename consolidation over a raw watcher batch: when the batch holds the
/// two halves of a rename — one vanished event and one surviving event on
/// the same inode, the surviving side with the greater change time — and
/// nothing else in the batch shares that inode or either path, then sorting
/// and consuming the batch emits exactly one decision mentioning those
/// paths: the single rename from the vanished path to the surviving one.
pub proof fn lemma_batch_rename_consolidation(
    b: Seq<FileChangeV>,
    e_new: FileChangeV,
    e_del: FileChangeV,
)
    requires
        pcount(b, |e: FileChangeV| e == e_new) == 1,
        pcount(b, |e: FileChangeV| e == e_del) == 1,
        pcount(b, |e: FileChangeV| e.ino == e_new.ino) == 2,
        pcount(b, |e: FileChangeV| e.name == e_new.name) == 1,
        pcount(b, |e: FileChangeV| e.name == e_del.name) == 1,
        e_new.exists,
        !e_del.exists,
        e_new.ino == e_del.ino,
        e_new.ctime > e_del.ctime,
        e_new.name != e_del.name,
    ensures
        ({
            let steps = spec_steps(sort_changes(b));
            exists|k: int|
                0 <= k < steps.len() && #[trigger] steps[k] == StepV::Message(
                    MsgV::Rename(e_del.name, e_new.name),
                ) && (forall|k2: int|
                    0 <= k2 < steps.len() && k2 != k ==> !step_refs(
                        #[trigger] steps[k2],
                        e_new.name,
                    ) && !step_refs(steps[k2], e_del.name))
        }),
{
    let s = sort_changes(b);
    lemma_sort_changes_sorted(b);
    let is_new = |e: FileChangeV| e == e_new;
    let is_del = |e: FileChangeV| e == e_del;
    let has_ino = |e: FileChangeV| e.ino == e_new.ino;
    let has_new_name = |e: FileChangeV| e.name == e_new.name;
    let has_del_name = |e: FileChangeV| e.name == e_del.name;
    lemma_pcount_sort(b, is_new);
    lemma_pcount_sort(b, is_del);
    lemma_pcount_sort(b, has_ino);
    lemma_pcount_sort(b, has_new_name);
    lemma_pcount_sort(b, has_del_name);
    lemma_pcount_find(s, is_new);
    lemma_pcount_find(s, is_del);
    let i = choose|i: int| 0 <= i < s.len() && is_new(#[trigger] s[i]);
    let j = choose|j: int| 0 <= j < s.len() && is_del(#[trigger] s[j]);
    assert(s[i] == e_new && s[j] == e_del);
    assert(i != j);
    // the surviving side sorts first: on equal inodes the greater change
    // time comes first, and the vanished side's is smaller
    assert(i < j) by {
        if j < i {
            lemma_sorted_changes_global(s, j, i);
            assert(change_le(e_del, e_new));
        }
    }
    // nothing else shares the inode
    assert forall|m: int| 0 <= m < s.len() && m != i && m != j implies (#[trigger] s[m]).ino
        != e_new.ino by {
        if s[m].ino == e_new.ino {
            if m < i {
                lemma_pcount_at_least_three(s, has_ino, m, i, j);
            } else if m < j {
                lemma_pcount_at_least_three(s, has_ino, i, m, j);
            } else {
                lemma_pcount_at_least_three(s, has_ino, i, j, m);
            }
        }
    }
    // the pair is adjacent: anything between them would share the inode
    assert(j == i + 1) by {
        if j > i + 1 {
            let m = i + 1;
            lemma_sorted_changes_global(s, i, m);
            lemma_sorted_changes_global(s, m, j);
            assert(change_le(e_new, s[m]) && change_le(s[m], e_del));
            assert(s[m].ino == e_new.ino);
        }
    }
    // nothing else carries either path
    assert forall|m: int| 0 <= m < s.len() && m != i && m != j implies (#[trigger] s[m]).name
        != e_new.name && s[m].name != e_del.name by {
        if s[m].name == e_new.name {
            if m < i {
                lemma_pcount_at_least_two(s, has_new_name, m, i);
            } else {
                lemma_pcount_at_least_two(s, has_new_name, i, m);
            }
            assert(pcount(s, has_new_name) >= 2);
        }
        if s[m].name == e_del.name {
            if m < j {
                lemma_pcount_at_least_two(s, has_del_name, m, j);
            } else {
                lemma_pcount_at_least_two(s, has_del_name, j, m);
            }
            assert(pcount(s, has_del_name) >= 2);
        }
    }
    assert(pcount(s, has_new_name) >= 1) by {
        lemma_pcount_at_least_one(s, has_new_name, i);
    }
    lemma_rename_consolidation(s, i);
}

} // verus!
