//! The tree differ: a two-pointer merge over two ordered manifests that
//! yields the five lists of paths needed to transform the local tree into
//! the remote one, collapsing whole subtrees that exist on only one side.
use vstd::prelude::*;

use crate::file_tree::{strictly_sorted, FileTree, NodeKindV, NodeV};
use crate::message::{reqs_view, ReqV, RequestMessage};
use crate::order::{in_subtree, is_under, lex_lt, path_cmp, path_in_subtree, PathCmp};

verus! {

broadcast use vstd::seq_lib::lemma_seq_concat_contains_all_elements;


/// Mathematical model of a tree diff: five lists of relative paths, each in
/// discovery order of the merge walk.
pub ghost struct DiffV {
    pub created_dirs: Seq<Seq<u8>>,
    pub deleted_dirs: Seq<Seq<u8>>,
    pub created_files: Seq<Seq<u8>>,
    pub deleted_files: Seq<Seq<u8>>,
    pub edited_files: Seq<Seq<u8>>,
}

impl DiffV {
    pub open spec fn empty() -> DiffV {
        DiffV {
            created_dirs: Seq::empty(),
            deleted_dirs: Seq::empty(),
            created_files: Seq::empty(),
            deleted_files: Seq::empty(),
            edited_files: Seq::empty(),
        }
    }

    pub open spec fn with_created_dir(self, p: Seq<u8>) -> DiffV {
        DiffV { created_dirs: seq![p] + self.created_dirs, ..self }
    }

    pub open spec fn with_deleted_dir(self, p: Seq<u8>) -> DiffV {
        DiffV { deleted_dirs: seq![p] + self.deleted_dirs, ..self }
    }

    pub open spec fn with_created_file(self, p: Seq<u8>) -> DiffV {
        DiffV { created_files: seq![p] + self.created_files, ..self }
    }

    pub open spec fn with_deleted_file(self, p: Seq<u8>) -> DiffV {
        DiffV { deleted_files: seq![p] + self.deleted_files, ..self }
    }

    pub open spec fn with_edited_file(self, p: Seq<u8>) -> DiffV {
        DiffV { edited_files: seq![p] + self.edited_files, ..self }
    }

    /// Fieldwise concatenation.
    pub open spec fn concat(self, o: DiffV) -> DiffV {
        DiffV {
            created_dirs: self.created_dirs + o.created_dirs,
            deleted_dirs: self.deleted_dirs + o.deleted_dirs,
            created_files: self.created_files + o.created_files,
            deleted_files: self.deleted_files + o.deleted_files,
            edited_files: self.edited_files + o.edited_files,
        }
    }
}

/// Length of the contiguous prefix of `s` that lies inside the directory
/// `dir`: the entries a collapsed subtree swallows.
pub open spec fn subtree_extent(s: Seq<NodeV>, dir: Seq<u8>) -> nat
    decreases s.len(),
{
    if s.len() > 0 && in_subtree(dir, s[0].path) {
        1 + subtree_extent(s.skip(1), dir)
    } else {
        0
    }
}

pub proof fn lemma_extent_le(s: Seq<NodeV>, dir: Seq<u8>)
    ensures
        subtree_extent(s, dir) <= s.len(),
    decreases s.len(),
{
    if s.len() > 0 && in_subtree(dir, s[0].path) {
        lemma_extent_le(s.skip(1), dir);
    }
}

/// Every entry the extent covers lies inside the directory.
pub proof fn lemma_extent_members(s: Seq<NodeV>, dir: Seq<u8>)
    ensures
        subtree_extent(s, dir) <= s.len(),
        forall|m: int|
            0 <= m < subtree_extent(s, dir) ==> in_subtree(dir, (#[trigger] s[m]).path),
    decreases s.len(),
{
    lemma_extent_le(s, dir);
    if s.len() > 0 && in_subtree(dir, s[0].path) {
        lemma_extent_members(s.skip(1), dir);
        assert forall|m: int|
            0 <= m < subtree_extent(s, dir) implies in_subtree(dir, (#[trigger] s[m]).path) by {
            if m > 0 {
                assert(s.skip(1)[m - 1] == s[m]);
            }
        }
    }
}

/// The extent is exactly the scan boundary: everything before it is inside
/// the directory and the entry at it (if any) is not.
pub proof fn lemma_extent_at(s: Seq<NodeV>, dir: Seq<u8>, t: int)
    requires
        0 <= t <= s.len(),
        forall|m: int| 0 <= m < t ==> in_subtree(dir, (#[trigger] s[m]).path),
        t < s.len() ==> !in_subtree(dir, s[t].path),
    ensures
        subtree_extent(s, dir) == t,
    decreases t,
{
    if t == 0 {
    } else {
        assert(in_subtree(dir, s[0].path));
        assert(forall|m: int| 0 <= m < t - 1 ==> (#[trigger] s.skip(1)[m]) == s[m + 1]);
        lemma_extent_at(s.skip(1), dir, t - 1);
    }
}

/// The structured difference between two manifests, as the merge walk of the
/// differ discovers it. Heads are compared by kind and path; a directory
/// present on only one side is recorded once and its whole contiguous
/// subtree is skipped.
pub open spec fn spec_diff(local: Seq<NodeV>, remote: Seq<NodeV>) -> DiffV
    decreases local.len() + remote.len(),
    via spec_diff_decreases
{
    if local.len() == 0 && remote.len() == 0 {
        DiffV::empty()
    } else if local.len() == 0 {
        match remote[0].kind {
            NodeKindV::File(h) => spec_diff(local, remote.skip(1)).with_created_file(
                remote[0].path,
            ),
            NodeKindV::Dir => spec_diff(
                local,
                remote.skip((1 + subtree_extent(remote.skip(1), remote[0].path)) as int),
            ).with_created_dir(remote[0].path),
        }
    } else if remote.len() == 0 {
        match local[0].kind {
            NodeKindV::File(h) => spec_diff(local.skip(1), remote).with_deleted_file(
                local[0].path,
            ),
            NodeKindV::Dir => spec_diff(
                local.skip((1 + subtree_extent(local.skip(1), local[0].path)) as int),
                remote,
            ).with_deleted_dir(local[0].path),
        }
    } else {
        match (local[0].kind, remote[0].kind) {
            (NodeKindV::File(lh), NodeKindV::File(rh)) => {
                if lex_lt(local[0].path, remote[0].path) {
                    spec_diff(local.skip(1), remote).with_deleted_file(local[0].path)
                } else if lex_lt(remote[0].path, local[0].path) {
                    spec_diff(local, remote.skip(1)).with_created_file(remote[0].path)
                } else if lh != rh {
                    spec_diff(local.skip(1), remote.skip(1)).with_edited_file(local[0].path)
                } else {
                    spec_diff(local.skip(1), remote.skip(1))
                }
            },
            (NodeKindV::File(lh), NodeKindV::Dir) => spec_diff(
                local.skip(1),
                remote,
            ).with_deleted_file(local[0].path),
            (NodeKindV::Dir, NodeKindV::File(rh)) => spec_diff(
                local,
                remote.skip(1),
            ).with_created_file(remote[0].path),
            (NodeKindV::Dir, NodeKindV::Dir) => {
                if lex_lt(local[0].path, remote[0].path) {
                    spec_diff(
                        local.skip((1 + subtree_extent(local.skip(1), local[0].path)) as int),
                        remote,
                    ).with_deleted_dir(local[0].path)
                } else if lex_lt(remote[0].path, local[0].path) {
                    spec_diff(
                        local,
                        remote.skip((1 + subtree_extent(remote.skip(1), remote[0].path)) as int),
                    ).with_created_dir(remote[0].path)
                } else {
                    spec_diff(local.skip(1), remote.skip(1))
                }
            },
        }
    }
}

#[via_fn]
proof fn spec_diff_decreases(local: Seq<NodeV>, remote: Seq<NodeV>) {
    if local.len() > 0 {
        lemma_extent_le(local.skip(1), local[0].path);
    }
    if remote.len() > 0 {
        lemma_extent_le(remote.skip(1), remote[0].path);
    }
}

/// Differ idempotence: diffing a manifest against itself is empty in all
/// five lists, whatever the manifest holds.
pub proof fn lemma_diff_self_empty(m: Seq<NodeV>)
    ensures
        spec_diff(m, m) == DiffV::empty(),
    decreases m.len(),
{
    if m.len() == 0 {
    } else {
        crate::order::lemma_lex_irrefl(m[0].path);
        lemma_diff_self_empty(m.skip(1));
        match m[0].kind {
            NodeKindV::File(h) => {
            },
            NodeKindV::Dir => {
            },
        }
    }
}

/// The model of a path list.
pub open spec fn paths_view(v: Seq<Vec<u8>>) -> Seq<Seq<u8>> {
    v.map(|i: int, p: Vec<u8>| p@)
}

/// The structured difference between two manifests: five disjoint lists of
/// relative paths, each in lexicographic discovery order.
#[derive(Debug)]
pub struct TreeDiff {
    pub created_dirs: Vec<Vec<u8>>,
    pub deleted_dirs: Vec<Vec<u8>>,
    pub created_files: Vec<Vec<u8>>,
    pub deleted_files: Vec<Vec<u8>>,
    pub edited_files: Vec<Vec<u8>>,
}

impl View for TreeDiff {
    type V = DiffV;

    open spec fn view(&self) -> DiffV {
        DiffV {
            created_dirs: paths_view(self.created_dirs@),
            deleted_dirs: paths_view(self.deleted_dirs@),
            created_files: paths_view(self.created_files@),
            deleted_files: paths_view(self.deleted_files@),
            edited_files: paths_view(self.edited_files@),
        }
    }
}

/// Copies a path buffer.
fn copy_path(p: &Vec<u8>) -> (r: Vec<u8>)
    ensures
        r@ == p@,
{
    let r = p.clone();
    proof {
        assert forall|i: int| 0 <= i < p@.len() implies r@[i] == p@[i] by {
            assert(cloned::<u8>(p@[i], r@[i]));
        }
        assert(r@ =~= p@);
    }
    r
}

/// A sequence push in the middle of a fieldwise concatenation.
proof fn lemma_shift(a: Seq<Seq<u8>>, p: Seq<u8>, b: Seq<Seq<u8>>)
    ensures
        a + (seq![p] + b) == a.push(p) + b,
{
    assert(a + (seq![p] + b) =~= a.push(p) + b);
}

/// Pushing a path commutes with taking the view of the list.
proof fn lemma_paths_push(v: Seq<Vec<u8>>, x: Vec<u8>)
    ensures
        paths_view(v.push(x)) == paths_view(v).push(x@),
{
    assert(paths_view(v.push(x)) =~= paths_view(v).push(x@));
}

/// The transfer requests a diff calls for: every created directory as a Dir
/// request, then every created file and every edited file as File requests.
pub open spec fn spec_requests(d: DiffV) -> Seq<ReqV> {
    d.created_dirs.map(|k: int, p: Seq<u8>| ReqV::Dir(p)) + d.created_files.map(
        |k: int, p: Seq<u8>| ReqV::File(p),
    ) + d.edited_files.map(|k: int, p: Seq<u8>| ReqV::File(p))
}

impl TreeDiff {
    /// Merges two ordered manifests into the structured difference that
    /// turns `local_tree` into `remote_tree`.
    pub fn from(local_tree: &FileTree, remote_tree: &FileTree) -> (diff: TreeDiff)
        ensures
            diff@ == spec_diff(local_tree@, remote_tree@),
    {
        let ghost lv = local_tree@;
        let ghost rv = remote_tree@;
        let local = &local_tree.nodes;
        let remote = &remote_tree.nodes;
        let mut diff = TreeDiff {
            created_dirs: Vec::new(),
            deleted_dirs: Vec::new(),
            created_files: Vec::new(),
            deleted_files: Vec::new(),
            edited_files: Vec::new(),
        };
        let mut i: usize = 0;
        let mut j: usize = 0;
        proof {
            assert(lv.skip(0) =~= lv);
            assert(rv.skip(0) =~= rv);
            assert(diff@.concat(spec_diff(lv, rv)) == spec_diff(lv, rv)) by {
                assert(Seq::<Seq<u8>>::empty() + spec_diff(lv, rv).created_dirs =~= spec_diff(
                    lv,
                    rv,
                ).created_dirs);
                assert(Seq::<Seq<u8>>::empty() + spec_diff(lv, rv).deleted_dirs =~= spec_diff(
                    lv,
                    rv,
                ).deleted_dirs);
                assert(Seq::<Seq<u8>>::empty() + spec_diff(lv, rv).created_files =~= spec_diff(
                    lv,
                    rv,
                ).created_files);
                assert(Seq::<Seq<u8>>::empty() + spec_diff(lv, rv).deleted_files =~= spec_diff(
                    lv,
                    rv,
                ).deleted_files);
                assert(Seq::<Seq<u8>>::empty() + spec_diff(lv, rv).edited_files =~= spec_diff(
                    lv,
                    rv,
                ).edited_files);
            }
        }
        while i < local.len() || j < remote.len()
            invariant
                i <= lv.len(),
                j <= rv.len(),
                lv == local_tree@,
                rv == remote_tree@,
                local == &local_tree.nodes,
                remote == &remote_tree.nodes,
                lv.len() == local@.len(),
                rv.len() == remote@.len(),
                spec_diff(lv, rv) == diff@.concat(spec_diff(lv.skip(i as int), rv.skip(j as int))),
            decreases lv.len() - i + rv.len() - j,
        {
            let ghost lrest = lv.skip(i as int);
            let ghost rrest = rv.skip(j as int);
            proof {
                if i < local@.len() {
                    assert(lrest[0] == lv[i as int]);
                    assert(lv[i as int] == local@[i as int]@);
                }
                if j < remote@.len() {
                    assert(rrest[0] == rv[j as int]);
                    assert(rv[j as int] == remote@[j as int]@);
                }
            }
            if i < local.len() && j < remote.len() {
                let lnode = &local[i];
                let rnode = &remote[j];
                match (&lnode.typ, &rnode.typ) {
                    (
                        crate::file_tree::FileTreeNodeType::File { sha1: lh },
                        crate::file_tree::FileTreeNodeType::File { sha1: rh },
                    ) => {
                        let c = path_cmp(&lnode.path, &rnode.path);
                        if c == PathCmp::Less {
                            proof {
                                assert(lrest.skip(1) =~= lv.skip(i as int + 1));
                                assert(spec_diff(lrest, rrest) == spec_diff(
                                    lv.skip(i as int + 1),
                                    rrest,
                                ).with_deleted_file(lrest[0].path));
                                lemma_shift(
                                    diff@.deleted_files,
                                    lrest[0].path,
                                    spec_diff(lv.skip(i as int + 1), rrest).deleted_files,
                                );
                            }
                            let p = copy_path(&local[i].path);
                            proof {
                                lemma_paths_push(diff.deleted_files@, p);
                            }
                            diff.deleted_files.push(p);
                            i = i + 1;
                        } else if c == PathCmp::Greater {
                            proof {
                                assert(rrest.skip(1) =~= rv.skip(j as int + 1));
                                assert(spec_diff(lrest, rrest) == spec_diff(
                                    lrest,
                                    rv.skip(j as int + 1),
                                ).with_created_file(rrest[0].path));
                                lemma_shift(
                                    diff@.created_files,
                                    rrest[0].path,
                                    spec_diff(lrest, rv.skip(j as int + 1)).created_files,
                                );
                            }
                            let p = copy_path(&remote[j].path);
                            proof {
                                lemma_paths_push(diff.created_files@, p);
                            }
                            diff.created_files.push(p);
                            j = j + 1;
                        } else {
                            let same = path_cmp(lh, rh) == PathCmp::Equal;
                            proof {
                                assert(lrest.skip(1) =~= lv.skip(i as int + 1));
                                assert(rrest.skip(1) =~= rv.skip(j as int + 1));
                            }
                            if !same {
                                proof {
                                    assert(spec_diff(lrest, rrest) == spec_diff(
                                        lv.skip(i as int + 1),
                                        rv.skip(j as int + 1),
                                    ).with_edited_file(lrest[0].path));
                                    lemma_shift(
                                        diff@.edited_files,
                                        lrest[0].path,
                                        spec_diff(
                                            lv.skip(i as int + 1),
                                            rv.skip(j as int + 1),
                                        ).edited_files,
                                    );
                                }
                                let p = copy_path(&local[i].path);
                                proof {
                                    lemma_paths_push(diff.edited_files@, p);
                                }
                                diff.edited_files.push(p);
                            } else {
                                proof {
                                    assert(spec_diff(lrest, rrest) == spec_diff(
                                        lv.skip(i as int + 1),
                                        rv.skip(j as int + 1),
                                    ));
                                }
                            }
                            i = i + 1;
                            j = j + 1;
                        }
                    },
                    (
                        crate::file_tree::FileTreeNodeType::File { sha1: lh },
                        crate::file_tree::FileTreeNodeType::Dir,
                    ) => {
                        proof {
                            assert(lrest.skip(1) =~= lv.skip(i as int + 1));
                            assert(spec_diff(lrest, rrest) == spec_diff(
                                lv.skip(i as int + 1),
                                rrest,
                            ).with_deleted_file(lrest[0].path));
                            lemma_shift(
                                diff@.deleted_files,
                                lrest[0].path,
                                spec_diff(lv.skip(i as int + 1), rrest).deleted_files,
                            );
                        }
                        let p = copy_path(&local[i].path);
                        proof {
                            lemma_paths_push(diff.deleted_files@, p);
                        }
                        diff.deleted_files.push(p);
                        i = i + 1;
                    },
                    (
                        crate::file_tree::FileTreeNodeType::Dir,
                        crate::file_tree::FileTreeNodeType::File { sha1: rh },
                    ) => {
                        proof {
                            assert(rrest.skip(1) =~= rv.skip(j as int + 1));
                            assert(spec_diff(lrest, rrest) == spec_diff(
                                lrest,
                                rv.skip(j as int + 1),
                            ).with_created_file(rrest[0].path));
                            lemma_shift(
                                diff@.created_files,
                                rrest[0].path,
                                spec_diff(lrest, rv.skip(j as int + 1)).created_files,
                            );
                        }
                        let p = copy_path(&remote[j].path);
                        proof {
                            lemma_paths_push(diff.created_files@, p);
                        }
                        diff.created_files.push(p);
                        j = j + 1;
                    },
                    (
                        crate::file_tree::FileTreeNodeType::Dir,
                        crate::file_tree::FileTreeNodeType::Dir,
                    ) => {
                        let c = path_cmp(&lnode.path, &rnode.path);
                        if c == PathCmp::Less {
                            let k = skip_subtree(local_tree, i);
                            proof {
                                assert(spec_diff(lrest, rrest) == spec_diff(
                                    lv.skip(k as int),
                                    rrest,
                                ).with_deleted_dir(lrest[0].path)) by {
                                    assert(lrest.skip(
                                        (1 + subtree_extent(lrest.skip(1), lrest[0].path)) as int,
                                    ) =~= lv.skip(k as int)) by {
                                        assert(lrest.skip(1) =~= lv.skip(i as int + 1));
                                        assert(subtree_extent(lv.skip(i as int + 1), lv[i as int].path)
                                            == k - i - 1);
                                    }
                                }
                                lemma_shift(
                                    diff@.deleted_dirs,
                                    lrest[0].path,
                                    spec_diff(lv.skip(k as int), rrest).deleted_dirs,
                                );
                            }
                            let p = copy_path(&local[i].path);
                            proof {
                                lemma_paths_push(diff.deleted_dirs@, p);
                            }
                            diff.deleted_dirs.push(p);
                            i = k;
                        } else if c == PathCmp::Greater {
                            let k = skip_subtree(remote_tree, j);
                            proof {
                                assert(spec_diff(lrest, rrest) == spec_diff(
                                    lrest,
                                    rv.skip(k as int),
                                ).with_created_dir(rrest[0].path)) by {
                                    assert(rrest.skip(
                                        (1 + subtree_extent(rrest.skip(1), rrest[0].path)) as int,
                                    ) =~= rv.skip(k as int)) by {
                                        assert(rrest.skip(1) =~= rv.skip(j as int + 1));
                                        assert(subtree_extent(rv.skip(j as int + 1), rv[j as int].path)
                                            == k - j - 1);
                                    }
                                }
                                lemma_shift(
                                    diff@.created_dirs,
                                    rrest[0].path,
                                    spec_diff(lrest, rv.skip(k as int)).created_dirs,
                                );
                            }
                            let p = copy_path(&remote[j].path);
                            proof {
                                lemma_paths_push(diff.created_dirs@, p);
                            }
                            diff.created_dirs.push(p);
                            j = k;
                        } else {
                            proof {
                                assert(lrest.skip(1) =~= lv.skip(i as int + 1));
                                assert(rrest.skip(1) =~= rv.skip(j as int + 1));
                                assert(spec_diff(lrest, rrest) == spec_diff(
                                    lv.skip(i as int + 1),
                                    rv.skip(j as int + 1),
                                ));
                            }
                            i = i + 1;
                            j = j + 1;
                        }
                    },
                }
            } else if i < local.len() {
                let lnode = &local[i];
                match &lnode.typ {
                    crate::file_tree::FileTreeNodeType::File { sha1: lh } => {
                        proof {
                            assert(lrest.skip(1) =~= lv.skip(i as int + 1));
                            assert(spec_diff(lrest, rrest) == spec_diff(
                                lv.skip(i as int + 1),
                                rrest,
                            ).with_deleted_file(lrest[0].path));
                            lemma_shift(
                                diff@.deleted_files,
                                lrest[0].path,
                                spec_diff(lv.skip(i as int + 1), rrest).deleted_files,
                            );
                        }
                        let p = copy_path(&local[i].path);
                        proof {
                            lemma_paths_push(diff.deleted_files@, p);
                        }
                        diff.deleted_files.push(p);
                        i = i + 1;
                    },
                    crate::file_tree::FileTreeNodeType::Dir => {
                        let k = skip_subtree(local_tree, i);
                        proof {
                            assert(spec_diff(lrest, rrest) == spec_diff(
                                lv.skip(k as int),
                                rrest,
                            ).with_deleted_dir(lrest[0].path)) by {
                                assert(lrest.skip(
                                    (1 + subtree_extent(lrest.skip(1), lrest[0].path)) as int,
                                ) =~= lv.skip(k as int)) by {
                                    assert(lrest.skip(1) =~= lv.skip(i as int + 1));
                                    assert(subtree_extent(lv.skip(i as int + 1), lv[i as int].path)
                                        == k - i - 1);
                                }
                            }
                            lemma_shift(
                                diff@.deleted_dirs,
                                lrest[0].path,
                                spec_diff(lv.skip(k as int), rrest).deleted_dirs,
                            );
                        }
                        let p = copy_path(&local[i].path);
                        proof {
                            lemma_paths_push(diff.deleted_dirs@, p);
                        }
                        diff.deleted_dirs.push(p);
                        i = k;
                    },
                }
            } else {
                let rnode = &remote[j];
                match &rnode.typ {
                    crate::file_tree::FileTreeNodeType::File { sha1: rh } => {
                        proof {
                            assert(rrest.skip(1) =~= rv.skip(j as int + 1));
                            assert(spec_diff(lrest, rrest) == spec_diff(
                                lrest,
                                rv.skip(j as int + 1),
                            ).with_created_file(rrest[0].path));
                            lemma_shift(
                                diff@.created_files,
                                rrest[0].path,
                                spec_diff(lrest, rv.skip(j as int + 1)).created_files,
                            );
                        }
                        let p = copy_path(&remote[j].path);
                        proof {
                            lemma_paths_push(diff.created_files@, p);
                        }
                        diff.created_files.push(p);
                        j = j + 1;
                    },
                    crate::file_tree::FileTreeNodeType::Dir => {
                        let k = skip_subtree(remote_tree, j);
                        proof {
                            assert(spec_diff(lrest, rrest) == spec_diff(
                                lrest,
                                rv.skip(k as int),
                            ).with_created_dir(rrest[0].path)) by {
                                assert(rrest.skip(
                                    (1 + subtree_extent(rrest.skip(1), rrest[0].path)) as int,
                                ) =~= rv.skip(k as int)) by {
                                    assert(rrest.skip(1) =~= rv.skip(j as int + 1));
                                    assert(subtree_extent(rv.skip(j as int + 1), rv[j as int].path)
                                        == k - j - 1);
                                }
                            }
                            lemma_shift(
                                diff@.created_dirs,
                                rrest[0].path,
                                spec_diff(lrest, rv.skip(k as int)).created_dirs,
                            );
                        }
                        let p = copy_path(&remote[j].path);
                        proof {
                            lemma_paths_push(diff.created_dirs@, p);
                        }
                        diff.created_dirs.push(p);
                        j = k;
                    },
                }
            }
        }
        proof {
            assert(lv.skip(i as int).len() == 0);
            assert(rv.skip(j as int).len() == 0);
            assert(spec_diff(lv.skip(i as int), rv.skip(j as int)) == DiffV::empty());
            assert(diff@.concat(DiffV::empty()) == diff@) by {
                assert(diff@.created_dirs + Seq::<Seq<u8>>::empty() =~= diff@.created_dirs);
                assert(diff@.deleted_dirs + Seq::<Seq<u8>>::empty() =~= diff@.deleted_dirs);
                assert(diff@.created_files + Seq::<Seq<u8>>::empty() =~= diff@.created_files);
                assert(diff@.deleted_files + Seq::<Seq<u8>>::empty() =~= diff@.deleted_files);
                assert(diff@.edited_files + Seq::<Seq<u8>>::empty() =~= diff@.edited_files);
            }
        }
        diff
    }

    /// Builds the transfer-request list the receiver sends after applying
    /// the deletions: every created directory as a Dir request, then every
    /// created file and every edited file as File requests, in order.
    #[verifier::loop_isolation(false)]
    pub fn requests(&self) -> (r: Vec<RequestMessage>)
        ensures
            reqs_view(r@) == spec_requests(self@),
    {
        let mut r: Vec<RequestMessage> = Vec::new();
        let mut i: usize = 0;
        while i < self.created_dirs.len()
            invariant
                i <= self.created_dirs@.len(),
                r@.len() == i,
                forall|k: int| 0 <= k < i ==> (#[trigger] r@[k])@ == ReqV::Dir(
                    self@.created_dirs[k],
                ),
            decreases self.created_dirs@.len() - i,
        {
            let p = copy_path(&self.created_dirs[i]);
            let ghost pv = p@;
            let ghost rpre = r@;
            r.push(RequestMessage::Dir(p));
            proof {
                assert(forall|k: int| 0 <= k < rpre.len() ==> #[trigger] r@[k] == rpre[k]);
                assert(r@[i as int]@ == ReqV::Dir(pv));
                assert(self@.created_dirs[i as int] == pv);
            }
            i = i + 1;
        }
        let ghost n1 = self.created_dirs@.len() as int;
        let mut i: usize = 0;
        while i < self.created_files.len()
            invariant
                i <= self.created_files@.len(),
                r@.len() == n1 + i,
                forall|k: int| 0 <= k < n1 ==> (#[trigger] r@[k])@ == ReqV::Dir(
                    self@.created_dirs[k],
                ),
                forall|k: int| n1 <= k < n1 + i ==> (#[trigger] r@[k])@ == ReqV::File(
                    self@.created_files[k - n1],
                ),
            decreases self.created_files@.len() - i,
        {
            let p = copy_path(&self.created_files[i]);
            let ghost pv = p@;
            let ghost rpre = r@;
            r.push(RequestMessage::File(p));
            proof {
                assert(forall|k: int| 0 <= k < rpre.len() ==> #[trigger] r@[k] == rpre[k]);
                assert(r@[n1 + i as int]@ == ReqV::File(pv));
                assert(self@.created_files[i as int] == pv);
            }
            i = i + 1;
        }
        let ghost n2 = n1 + self.created_files@.len() as int;
        let mut i: usize = 0;
        while i < self.edited_files.len()
            invariant
                i <= self.edited_files@.len(),
                r@.len() == n2 + i,
                forall|k: int| 0 <= k < n1 ==> (#[trigger] r@[k])@ == ReqV::Dir(
                    self@.created_dirs[k],
                ),
                forall|k: int| n1 <= k < n2 ==> (#[trigger] r@[k])@ == ReqV::File(
                    self@.created_files[k - n1],
                ),
                forall|k: int| n2 <= k < n2 + i ==> (#[trigger] r@[k])@ == ReqV::File(
                    self@.edited_files[k - n2],
                ),
            decreases self.edited_files@.len() - i,
        {
            let p = copy_path(&self.edited_files[i]);
            let ghost pv = p@;
            let ghost rpre = r@;
            r.push(RequestMessage::File(p));
            proof {
                assert(forall|k: int| 0 <= k < rpre.len() ==> #[trigger] r@[k] == rpre[k]);
                assert(r@[n2 + i as int]@ == ReqV::File(pv));
                assert(self@.edited_files[i as int] == pv);
            }
            i = i + 1;
        }
        proof {
            assert(reqs_view(r@) =~= self@.created_dirs.map(|k: int, p: Seq<u8>| ReqV::Dir(p))
                + self@.created_files.map(|k: int, p: Seq<u8>| ReqV::File(p))
                + self@.edited_files.map(|k: int, p: Seq<u8>| ReqV::File(p)));
        }
        r
    }
}

/// Advances past the contiguous subtree rooted at the directory entry at
/// `start`, returning the index of the first entry outside it.
fn skip_subtree(tree: &FileTree, start: usize) -> (k: usize)
    requires
        start < tree@.len(),
    ensures
        start < k <= tree@.len(),
        subtree_extent(tree@.skip(start as int + 1), tree@[start as int].path) == k - start - 1,
{
    let n = tree.nodes.len();
    proof {
        assert(tree@.len() == tree.nodes@.len());
        assert(start < n);
    }
    let mut k = start + 1;
    while k < tree.nodes.len()
        invariant
            start < k <= tree@.len(),
            tree@.len() == tree.nodes@.len(),
            forall|m: int| start < m < k ==> in_subtree(
                tree@[start as int].path,
                (#[trigger] tree@[m]).path,
            ),
        ensures
            start < k <= tree@.len(),
            forall|m: int| start < m < k ==> in_subtree(
                tree@[start as int].path,
                (#[trigger] tree@[m]).path,
            ),
            k < tree@.len() ==> !in_subtree(tree@[start as int].path, tree@[k as int].path),
        decreases tree.nodes@.len() - k,
    {
        if !path_in_subtree(&tree.nodes[start].path, &tree.nodes[k].path) {
            proof {
                assert(tree@[k as int] == tree.nodes@[k as int]@);
                assert(tree@[start as int] == tree.nodes@[start as int]@);
            }
            break ;
        }
        proof {
            assert(tree@[k as int] == tree.nodes@[k as int]@);
            assert(tree@[start as int] == tree.nodes@[start as int]@);
        }
        k = k + 1;
    }
    proof {
        let s = tree@.skip(start as int + 1);
        assert(forall|m: int| 0 <= m < k - start - 1 ==> (#[trigger] s[m]) == tree@[
            start as int + 1 + m
        ]);
        if k < tree@.len() {
            assert(s[k - start - 1] == tree@[k as int]);
        }
        lemma_extent_at(s, tree@[start as int].path, k - start - 1);
    }
    k
}


/// Everything a suffix holds, the whole sequence holds.
proof fn lemma_skip_contains_all(s: Seq<NodeV>, k: int)
    requires
        0 <= k <= s.len(),
    ensures
        forall|n: NodeV| s.skip(k).contains(n) ==> s.contains(n),
{
    assert forall|n: NodeV| s.skip(k).contains(n) implies s.contains(n) by {
        let m = choose|m: int| 0 <= m < s.skip(k).len() && s.skip(k)[m] == n;
        assert(s[m + k] == n);
    }
}

/// A remote node is accounted for by the diff: it survives unchanged from
/// the local manifest, is requested as a created or an edited file, or lies
/// in a created directory's subtree and is carried by that directory's
/// archive.
pub open spec fn remote_covered(d: DiffV, local: Seq<NodeV>, n: NodeV) -> bool {
    ||| local.contains(n)
    ||| (n.kind matches NodeKindV::File(h) && d.created_files.contains(n.path))
    ||| (n.kind matches NodeKindV::File(h) && d.edited_files.contains(n.path))
    ||| (exists|dir: Seq<u8>| #[trigger] d.created_dirs.contains(dir) && in_subtree(dir, n.path))
}

/// A local node is accounted for by the diff: it survives unchanged into
/// the remote manifest, is deleted or overwritten as an edited file, or
/// lies in a deleted directory's subtree and goes with it.
pub open spec fn local_covered(d: DiffV, remote: Seq<NodeV>, n: NodeV) -> bool {
    ||| remote.contains(n)
    ||| (n.kind matches NodeKindV::File(h) && d.deleted_files.contains(n.path))
    ||| (n.kind matches NodeKindV::File(h) && d.edited_files.contains(n.path))
    ||| (exists|dir: Seq<u8>| #[trigger] d.deleted_dirs.contains(dir) && in_subtree(dir, n.path))
}

/// Coverage carries from a recursive diff to the diff it is part of,
/// whenever the lists only grow and the reference manifest only grows.
proof fn lemma_remote_covered_lift(
    subd: DiffV,
    d: DiffV,
    sublocal: Seq<NodeV>,
    local: Seq<NodeV>,
    n: NodeV,
)
    requires
        remote_covered(subd, sublocal, n),
        forall|m: NodeV| sublocal.contains(m) ==> local.contains(m),
        forall|q: Seq<u8>| subd.created_files.contains(q) ==> d.created_files.contains(q),
        forall|q: Seq<u8>| subd.edited_files.contains(q) ==> d.edited_files.contains(q),
        forall|q: Seq<u8>| #[trigger] subd.created_dirs.contains(q) ==> d.created_dirs.contains(q),
    ensures
        remote_covered(d, local, n),
{
    if exists|dir: Seq<u8>| #[trigger] subd.created_dirs.contains(dir) && in_subtree(dir, n.path) {
        let dir = choose|dir: Seq<u8>|
            #[trigger] subd.created_dirs.contains(dir) && in_subtree(dir, n.path);
        assert(d.created_dirs.contains(dir));
    }
}

proof fn lemma_local_covered_lift(
    subd: DiffV,
    d: DiffV,
    subremote: Seq<NodeV>,
    remote: Seq<NodeV>,
    n: NodeV,
)
    requires
        local_covered(subd, subremote, n),
        forall|m: NodeV| subremote.contains(m) ==> remote.contains(m),
        forall|q: Seq<u8>| subd.deleted_files.contains(q) ==> d.deleted_files.contains(q),
        forall|q: Seq<u8>| subd.edited_files.contains(q) ==> d.edited_files.contains(q),
        forall|q: Seq<u8>| #[trigger] subd.deleted_dirs.contains(q) ==> d.deleted_dirs.contains(q),
    ensures
        local_covered(d, remote, n),
{
    if exists|dir: Seq<u8>| #[trigger] subd.deleted_dirs.contains(dir) && in_subtree(dir, n.path) {
        let dir = choose|dir: Seq<u8>|
            #[trigger] subd.deleted_dirs.contains(dir) && in_subtree(dir, n.path);
        assert(d.deleted_dirs.contains(dir));
    }
}

/// A list grown by one path in front still holds everything it held.
proof fn lemma_cons_contains(p: Seq<u8>, f: Seq<Seq<u8>>)
    ensures
        forall|q: Seq<u8>| f.contains(q) ==> (seq![p] + f).contains(q),
        (seq![p] + f).contains(p),
{
    assert forall|q: Seq<u8>| f.contains(q) implies (seq![p] + f).contains(q) by {
        assert((seq![p] + f).contains(q) <==> seq![p].contains(q) || f.contains(q));
    }
    assert((seq![p] + f)[0] == p);
}

/// Differ completeness, creation side: every node of the remote manifest is
/// accounted for by the diff, whatever the two manifests hold. Together
/// with the deletion side and the request list this is what makes applying
/// a diff (plus the transfers it requests) reproduce the remote manifest.
pub proof fn lemma_diff_covers_remote(local: Seq<NodeV>, remote: Seq<NodeV>)
    ensures
        forall|k: int|
            0 <= k < remote.len() ==> remote_covered(
                spec_diff(local, remote),
                local,
                #[trigger] remote[k],
            ),
    decreases local.len() + remote.len(),
{
    let d = spec_diff(local, remote);
    if local.len() == 0 && remote.len() == 0 {
    } else if local.len() == 0 {
        match remote[0].kind {
            NodeKindV::File(h) => {
                let sub = spec_diff(local, remote.skip(1));
                lemma_diff_covers_remote(local, remote.skip(1));
                lemma_cons_contains(remote[0].path, sub.created_files);
                assert(remote_covered(d, local, remote[0]));
                assert forall|k: int|
                    1 <= k < remote.len() implies remote_covered(d, local, #[trigger] remote[k]) by {
                    assert(remote.skip(1)[k - 1] == remote[k]);
                    lemma_remote_covered_lift(sub, d, local, local, remote[k]);
                }
            },
            NodeKindV::Dir => {
                let skipn = 1 + subtree_extent(remote.skip(1), remote[0].path) as int;
                lemma_extent_members(remote.skip(1), remote[0].path);
                let sub = spec_diff(local, remote.skip(skipn));
                lemma_diff_covers_remote(local, remote.skip(skipn));
                lemma_cons_contains(remote[0].path, sub.created_dirs);
                assert(d == sub.with_created_dir(remote[0].path));
                assert(d.created_dirs == seq![remote[0].path] + sub.created_dirs);
                assert(d.created_dirs.contains(remote[0].path));
                assert forall|k: int|
                    0 <= k < remote.len() implies remote_covered(d, local, #[trigger] remote[k]) by {
                    if k == 0 {
                        assert(in_subtree(remote[0].path, remote[0].path));
                        assert(remote_covered(d, local, remote[0]));
                    } else if k < skipn {
                        assert(remote.skip(1)[k - 1] == remote[k]);
                        assert(in_subtree(remote[0].path, remote[k].path));
                        assert(remote_covered(d, local, remote[k]));
                    } else {
                        assert(remote.skip(skipn)[k - skipn] == remote[k]);
                        lemma_remote_covered_lift(sub, d, local, local, remote[k]);
                    }
                }
            },
        }
    } else if remote.len() == 0 {
        match local[0].kind {
            NodeKindV::File(h) => {
                lemma_diff_covers_remote(local.skip(1), remote);
            },
            NodeKindV::Dir => {
                let skipn = 1 + subtree_extent(local.skip(1), local[0].path) as int;
                lemma_extent_le(local.skip(1), local[0].path);
                lemma_diff_covers_remote(local.skip(skipn), remote);
            },
        }
    } else {
        match (local[0].kind, remote[0].kind) {
            (NodeKindV::File(lh), NodeKindV::File(rh)) => {
                if lex_lt(local[0].path, remote[0].path) {
                    let sub = spec_diff(local.skip(1), remote);
                    lemma_diff_covers_remote(local.skip(1), remote);
                    lemma_skip_contains_all(local, 1);
                    assert forall|k: int|
                        0 <= k < remote.len() implies remote_covered(
                        d,
                        local,
                        #[trigger] remote[k],
                    ) by {
                        lemma_remote_covered_lift(sub, d, local.skip(1), local, remote[k]);
                    }
                } else if lex_lt(remote[0].path, local[0].path) {
                    let sub = spec_diff(local, remote.skip(1));
                    lemma_diff_covers_remote(local, remote.skip(1));
                    lemma_cons_contains(remote[0].path, sub.created_files);
                    assert(remote_covered(d, local, remote[0]));
                    assert forall|k: int|
                        1 <= k < remote.len() implies remote_covered(
                        d,
                        local,
                        #[trigger] remote[k],
                    ) by {
                        assert(remote.skip(1)[k - 1] == remote[k]);
                        lemma_remote_covered_lift(sub, d, local, local, remote[k]);
                    }
                } else {
                    crate::order::lemma_lex_trichotomy(local[0].path, remote[0].path);
                    assert(local[0].path == remote[0].path);
                    let sub = spec_diff(local.skip(1), remote.skip(1));
                    lemma_diff_covers_remote(local.skip(1), remote.skip(1));
                    lemma_skip_contains_all(local, 1);
                    if lh != rh {
                        lemma_cons_contains(local[0].path, sub.edited_files);
                        assert(remote_covered(d, local, remote[0]));
                        assert forall|k: int|
                            1 <= k < remote.len() implies remote_covered(
                            d,
                            local,
                            #[trigger] remote[k],
                        ) by {
                            assert(remote.skip(1)[k - 1] == remote[k]);
                            lemma_remote_covered_lift(
                                sub,
                                d,
                                local.skip(1),
                                local,
                                remote[k],
                            );
                        }
                    } else {
                        assert(remote[0] == local[0]);
                        assert(local.contains(local[0]));
                        assert forall|k: int|
                            1 <= k < remote.len() implies remote_covered(
                            d,
                            local,
                            #[trigger] remote[k],
                        ) by {
                            assert(remote.skip(1)[k - 1] == remote[k]);
                            lemma_remote_covered_lift(
                                sub,
                                d,
                                local.skip(1),
                                local,
                                remote[k],
                            );
                        }
                    }
                }
            },
            (NodeKindV::File(lh), NodeKindV::Dir) => {
                let sub = spec_diff(local.skip(1), remote);
                lemma_diff_covers_remote(local.skip(1), remote);
                lemma_skip_contains_all(local, 1);
                assert forall|k: int|
                    0 <= k < remote.len() implies remote_covered(d, local, #[trigger] remote[k]) by {
                    lemma_remote_covered_lift(sub, d, local.skip(1), local, remote[k]);
                }
            },
            (NodeKindV::Dir, NodeKindV::File(rh)) => {
                let sub = spec_diff(local, remote.skip(1));
                lemma_diff_covers_remote(local, remote.skip(1));
                lemma_cons_contains(remote[0].path, sub.created_files);
                assert(remote_covered(d, local, remote[0]));
                assert forall|k: int|
                    1 <= k < remote.len() implies remote_covered(d, local, #[trigger] remote[k]) by {
                    assert(remote.skip(1)[k - 1] == remote[k]);
                    lemma_remote_covered_lift(sub, d, local, local, remote[k]);
                }
            },
            (NodeKindV::Dir, NodeKindV::Dir) => {
                if lex_lt(local[0].path, remote[0].path) {
                    let skipn = 1 + subtree_extent(local.skip(1), local[0].path) as int;
                    lemma_extent_le(local.skip(1), local[0].path);
                    let sub = spec_diff(local.skip(skipn), remote);
                    lemma_diff_covers_remote(local.skip(skipn), remote);
                    lemma_skip_contains_all(local, skipn);
                    assert forall|k: int|
                        0 <= k < remote.len() implies remote_covered(
                        d,
                        local,
                        #[trigger] remote[k],
                    ) by {
                        lemma_remote_covered_lift(sub, d, local.skip(skipn), local, remote[k]);
                    }
                } else if lex_lt(remote[0].path, local[0].path) {
                    let skipn = 1 + subtree_extent(remote.skip(1), remote[0].path) as int;
                    lemma_extent_members(remote.skip(1), remote[0].path);
                    let sub = spec_diff(local, remote.skip(skipn));
                    lemma_diff_covers_remote(local, remote.skip(skipn));
                    lemma_cons_contains(remote[0].path, sub.created_dirs);
                    assert(d == sub.with_created_dir(remote[0].path));
                    assert(d.created_dirs == seq![remote[0].path] + sub.created_dirs);
                    assert(d.created_dirs.contains(remote[0].path));
                    assert forall|k: int|
                        0 <= k < remote.len() implies remote_covered(
                        d,
                        local,
                        #[trigger] remote[k],
                    ) by {
                        if k == 0 {
                            assert(in_subtree(remote[0].path, remote[0].path));
                            assert(remote_covered(d, local, remote[0]));
                        } else if k < skipn {
                            assert(remote.skip(1)[k - 1] == remote[k]);
                            assert(in_subtree(remote[0].path, remote[k].path));
                            assert(remote_covered(d, local, remote[k]));
                        } else {
                            assert(remote.skip(skipn)[k - skipn] == remote[k]);
                            lemma_remote_covered_lift(sub, d, local, local, remote[k]);
                        }
                    }
                } else {
                    crate::order::lemma_lex_trichotomy(local[0].path, remote[0].path);
                    assert(local[0].path == remote[0].path);
                    let sub = spec_diff(local.skip(1), remote.skip(1));
                    lemma_diff_covers_remote(local.skip(1), remote.skip(1));
                    lemma_skip_contains_all(local, 1);
                    assert(remote[0] == local[0]);
                    assert(local.contains(local[0]));
                    assert forall|k: int|
                        1 <= k < remote.len() implies remote_covered(
                        d,
                        local,
                        #[trigger] remote[k],
                    ) by {
                        assert(remote.skip(1)[k - 1] == remote[k]);
                        lemma_remote_covered_lift(sub, d, local.skip(1), local, remote[k]);
                    }
                }
            },
        }
    }
}

/// Differ completeness, deletion side: every node of the local manifest is
/// accounted for by the diff, whatever the two manifests hold.
pub proof fn lemma_diff_covers_local(local: Seq<NodeV>, remote: Seq<NodeV>)
    ensures
        forall|k: int|
            0 <= k < local.len() ==> local_covered(
                spec_diff(local, remote),
                remote,
                #[trigger] local[k],
            ),
    decreases local.len() + remote.len(),
{
    let d = spec_diff(local, remote);
    if local.len() == 0 && remote.len() == 0 {
    } else if local.len() == 0 {
        match remote[0].kind {
            NodeKindV::File(h) => {
                lemma_diff_covers_local(local, remote.skip(1));
                let sub = spec_diff(local, remote.skip(1));
                lemma_skip_contains_all(remote, 1);
                assert forall|k: int|
                    0 <= k < local.len() implies local_covered(d, remote, #[trigger] local[k]) by {
                    lemma_local_covered_lift(sub, d, remote.skip(1), remote, local[k]);
                }
            },
            NodeKindV::Dir => {
                let skipn = 1 + subtree_extent(remote.skip(1), remote[0].path) as int;
                lemma_extent_le(remote.skip(1), remote[0].path);
                let sub = spec_diff(local, remote.skip(skipn));
                lemma_diff_covers_local(local, remote.skip(skipn));
                lemma_skip_contains_all(remote, skipn);
                assert forall|k: int|
                    0 <= k < local.len() implies local_covered(d, remote, #[trigger] local[k]) by {
                    lemma_local_covered_lift(sub, d, remote.skip(skipn), remote, local[k]);
                }
            },
        }
    } else if remote.len() == 0 {
        match local[0].kind {
            NodeKindV::File(h) => {
                let sub = spec_diff(local.skip(1), remote);
                lemma_diff_covers_local(local.skip(1), remote);
                lemma_cons_contains(local[0].path, sub.deleted_files);
                assert(local_covered(d, remote, local[0]));
                assert forall|k: int|
                    1 <= k < local.len() implies local_covered(d, remote, #[trigger] local[k]) by {
                    assert(local.skip(1)[k - 1] == local[k]);
                    lemma_local_covered_lift(sub, d, remote, remote, local[k]);
                }
            },
            NodeKindV::Dir => {
                let skipn = 1 + subtree_extent(local.skip(1), local[0].path) as int;
                lemma_extent_members(local.skip(1), local[0].path);
                let sub = spec_diff(local.skip(skipn), remote);
                lemma_diff_covers_local(local.skip(skipn), remote);
                lemma_cons_contains(local[0].path, sub.deleted_dirs);
                assert(d == sub.with_deleted_dir(local[0].path));
                assert(d.deleted_dirs == seq![local[0].path] + sub.deleted_dirs);
                assert(d.deleted_dirs.contains(local[0].path));
                assert forall|k: int|
                    0 <= k < local.len() implies local_covered(d, remote, #[trigger] local[k]) by {
                    if k == 0 {
                        assert(in_subtree(local[0].path, local[0].path));
                        assert(local_covered(d, remote, local[0]));
                    } else if k < skipn {
                        assert(local.skip(1)[k - 1] == local[k]);
                        assert(in_subtree(local[0].path, local[k].path));
                        assert(local_covered(d, remote, local[k]));
                    } else {
                        assert(local.skip(skipn)[k - skipn] == local[k]);
                        lemma_local_covered_lift(sub, d, remote, remote, local[k]);
                    }
                }
            },
        }
    } else {
        match (local[0].kind, remote[0].kind) {
            (NodeKindV::File(lh), NodeKindV::File(rh)) => {
                if lex_lt(local[0].path, remote[0].path) {
                    let sub = spec_diff(local.skip(1), remote);
                    lemma_diff_covers_local(local.skip(1), remote);
                    lemma_cons_contains(local[0].path, sub.deleted_files);
                    assert(local_covered(d, remote, local[0]));
                    assert forall|k: int|
                        1 <= k < local.len() implies local_covered(
                        d,
                        remote,
                        #[trigger] local[k],
                    ) by {
                        assert(local.skip(1)[k - 1] == local[k]);
                        lemma_local_covered_lift(sub, d, remote, remote, local[k]);
                    }
                } else if lex_lt(remote[0].path, local[0].path) {
                    let sub = spec_diff(local, remote.skip(1));
                    lemma_diff_covers_local(local, remote.skip(1));
                    lemma_skip_contains_all(remote, 1);
                    assert forall|k: int|
                        0 <= k < local.len() implies local_covered(
                        d,
                        remote,
                        #[trigger] local[k],
                    ) by {
                        lemma_local_covered_lift(sub, d, remote.skip(1), remote, local[k]);
                    }
                } else {
                    crate::order::lemma_lex_trichotomy(local[0].path, remote[0].path);
                    assert(local[0].path == remote[0].path);
                    let sub = spec_diff(local.skip(1), remote.skip(1));
                    lemma_diff_covers_local(local.skip(1), remote.skip(1));
                    lemma_skip_contains_all(remote, 1);
                    if lh != rh {
                        lemma_cons_contains(local[0].path, sub.edited_files);
                        assert(local_covered(d, remote, local[0]));
                    } else {
                        assert(local[0] == remote[0]);
                        assert(remote.contains(remote[0]));
                    }
                    assert forall|k: int|
                        1 <= k < local.len() implies local_covered(
                        d,
                        remote,
                        #[trigger] local[k],
                    ) by {
                        assert(local.skip(1)[k - 1] == local[k]);
                        lemma_local_covered_lift(sub, d, remote.skip(1), remote, local[k]);
                    }
                }
            },
            (NodeKindV::File(lh), NodeKindV::Dir) => {
                let sub = spec_diff(local.skip(1), remote);
                lemma_diff_covers_local(local.skip(1), remote);
                lemma_cons_contains(local[0].path, sub.deleted_files);
                assert(local_covered(d, remote, local[0]));
                assert forall|k: int|
                    1 <= k < local.len() implies local_covered(d, remote, #[trigger] local[k]) by {
                    assert(local.skip(1)[k - 1] == local[k]);
                    lemma_local_covered_lift(sub, d, remote, remote, local[k]);
                }
            },
            (NodeKindV::Dir, NodeKindV::File(rh)) => {
                let sub = spec_diff(local, remote.skip(1));
                lemma_diff_covers_local(local, remote.skip(1));
                lemma_skip_contains_all(remote, 1);
                assert forall|k: int|
                    0 <= k < local.len() implies local_covered(d, remote, #[trigger] local[k]) by {
                    lemma_local_covered_lift(sub, d, remote.skip(1), remote, local[k]);
                }
            },
            (NodeKindV::Dir, NodeKindV::Dir) => {
                if lex_lt(local[0].path, remote[0].path) {
                    let skipn = 1 + subtree_extent(local.skip(1), local[0].path) as int;
                    lemma_extent_members(local.skip(1), local[0].path);
                    let sub = spec_diff(local.skip(skipn), remote);
                    lemma_diff_covers_local(local.skip(skipn), remote);
                    lemma_cons_contains(local[0].path, sub.deleted_dirs);
                    assert(d == sub.with_deleted_dir(local[0].path));
                    assert(d.deleted_dirs == seq![local[0].path] + sub.deleted_dirs);
                    assert(d.deleted_dirs.contains(local[0].path));
                    assert forall|k: int|
                        0 <= k < local.len() implies local_covered(
                        d,
                        remote,
                        #[trigger] local[k],
                    ) by {
                        if k == 0 {
                            assert(in_subtree(local[0].path, local[0].path));
                            assert(local_covered(d, remote, local[0]));
                        } else if k < skipn {
                            assert(local.skip(1)[k - 1] == local[k]);
                            assert(in_subtree(local[0].path, local[k].path));
                            assert(local_covered(d, remote, local[k]));
                        } else {
                            assert(local.skip(skipn)[k - skipn] == local[k]);
                            lemma_local_covered_lift(sub, d, remote, remote, local[k]);
                        }
                    }
                } else if lex_lt(remote[0].path, local[0].path) {
                    let skipn = 1 + subtree_extent(remote.skip(1), remote[0].path) as int;
                    lemma_extent_le(remote.skip(1), remote[0].path);
                    let sub = spec_diff(local, remote.skip(skipn));
                    lemma_diff_covers_local(local, remote.skip(skipn));
                    lemma_skip_contains_all(remote, skipn);
                    assert forall|k: int|
                        0 <= k < local.len() implies local_covered(
                        d,
                        remote,
                        #[trigger] local[k],
                    ) by {
                        lemma_local_covered_lift(sub, d, remote.skip(skipn), remote, local[k]);
                    }
                } else {
                    crate::order::lemma_lex_trichotomy(local[0].path, remote[0].path);
                    assert(local[0].path == remote[0].path);
                    let sub = spec_diff(local.skip(1), remote.skip(1));
                    lemma_diff_covers_local(local.skip(1), remote.skip(1));
                    lemma_skip_contains_all(remote, 1);
                    assert(local[0] == remote[0]);
                    assert(remote.contains(remote[0]));
                    assert forall|k: int|
                        1 <= k < local.len() implies local_covered(
                        d,
                        remote,
                        #[trigger] local[k],
                    ) by {
                        assert(local.skip(1)[k - 1] == local[k]);
                        lemma_local_covered_lift(sub, d, remote.skip(1), remote, local[k]);
                    }
                }
            },
        }
    }
}


/// A manifest holds a file node with this path and digest.
pub open spec fn has_file_with(s: Seq<NodeV>, p: Seq<u8>, h: Seq<u8>) -> bool {
    s.contains(NodeV { path: p, kind: NodeKindV::File(h) })
}

/// Edited-path soundness: every path the diff marks edited names a regular
/// file in both manifests, and the two digests differ.
pub proof fn lemma_edited_files_sound(local: Seq<NodeV>, remote: Seq<NodeV>)
    ensures
        forall|p: Seq<u8>| #[trigger]
            spec_diff(local, remote).edited_files.contains(p) ==> (exists|hl: Seq<u8>, hr: Seq<u8>|
                #![trigger has_file_with(local, p, hl), has_file_with(remote, p, hr)]
                hl != hr && has_file_with(local, p, hl) && has_file_with(remote, p, hr)),
    decreases local.len() + remote.len(),
{
    let d = spec_diff(local, remote);
    if local.len() == 0 && remote.len() == 0 {
    } else if local.len() == 0 {
        match remote[0].kind {
            NodeKindV::File(h) => {
                lemma_edited_files_sound(local, remote.skip(1));
                lemma_edited_lift(local, local, remote.skip(1), remote, spec_diff(local, remote.skip(1)).edited_files, d.edited_files);
            },
            NodeKindV::Dir => {
                let skipn = 1 + subtree_extent(remote.skip(1), remote[0].path) as int;
                lemma_extent_le(remote.skip(1), remote[0].path);
                lemma_edited_files_sound(local, remote.skip(skipn));
                lemma_skip_contains_all(remote, skipn);
                lemma_edited_lift(local, local, remote.skip(skipn), remote, spec_diff(local, remote.skip(skipn)).edited_files, d.edited_files);
            },
        }
    } else if remote.len() == 0 {
        match local[0].kind {
            NodeKindV::File(h) => {
                lemma_edited_files_sound(local.skip(1), remote);
                lemma_skip_contains_all(local, 1);
                lemma_edited_lift(local.skip(1), local, remote, remote, spec_diff(local.skip(1), remote).edited_files, d.edited_files);
            },
            NodeKindV::Dir => {
                let skipn = 1 + subtree_extent(local.skip(1), local[0].path) as int;
                lemma_extent_le(local.skip(1), local[0].path);
                lemma_edited_files_sound(local.skip(skipn), remote);
                lemma_skip_contains_all(local, skipn);
                lemma_edited_lift(local.skip(skipn), local, remote, remote, spec_diff(local.skip(skipn), remote).edited_files, d.edited_files);
            },
        }
    } else {
        match (local[0].kind, remote[0].kind) {
            (NodeKindV::File(lh), NodeKindV::File(rh)) => {
                if lex_lt(local[0].path, remote[0].path) {
                    lemma_edited_files_sound(local.skip(1), remote);
                    lemma_skip_contains_all(local, 1);
                    lemma_edited_lift(local.skip(1), local, remote, remote, spec_diff(local.skip(1), remote).edited_files, d.edited_files);
                } else if lex_lt(remote[0].path, local[0].path) {
                    lemma_edited_files_sound(local, remote.skip(1));
                    lemma_skip_contains_all(remote, 1);
                    lemma_edited_lift(local, local, remote.skip(1), remote, spec_diff(local, remote.skip(1)).edited_files, d.edited_files);
                } else {
                    crate::order::lemma_lex_trichotomy(local[0].path, remote[0].path);
                    assert(local[0].path == remote[0].path);
                    let sub = spec_diff(local.skip(1), remote.skip(1));
                    lemma_edited_files_sound(local.skip(1), remote.skip(1));
                    lemma_skip_contains_all(local, 1);
                    lemma_skip_contains_all(remote, 1);
                    if lh != rh {
                        let p0 = local[0].path;
                        assert(d.edited_files == seq![p0] + sub.edited_files);
                        assert forall|p: Seq<u8>| #[trigger] d.edited_files.contains(p) implies (
                        exists|hl: Seq<u8>, hr: Seq<u8>|
                            #![trigger has_file_with(local, p, hl), has_file_with(remote, p, hr)]
                            hl != hr && has_file_with(local, p, hl) && has_file_with(
                                remote,
                                p,
                                hr,
                            )) by {
                            assert((seq![p0] + sub.edited_files).contains(p) <==> seq![
                                p0
                            ].contains(p) || sub.edited_files.contains(p));
                            if seq![p0].contains(p) {
                                let k = choose|k: int|
                                    0 <= k < seq![p0].len() && seq![p0][k] == p;
                                assert(p == p0);
                                assert(local[0] == NodeV { path: p, kind: NodeKindV::File(lh) });
                                assert(remote[0] == NodeV { path: p, kind: NodeKindV::File(rh) });
                                assert(local.contains(local[0]));
                                assert(remote.contains(remote[0]));
                                assert(has_file_with(local, p, lh));
                                assert(has_file_with(remote, p, rh));
                            } else {
                                let (hl, hr) = choose|hl: Seq<u8>, hr: Seq<u8>|
                                    #![trigger has_file_with(local.skip(1), p, hl), has_file_with(remote.skip(1), p, hr)]
                                    hl != hr && has_file_with(local.skip(1), p, hl)
                                        && has_file_with(remote.skip(1), p, hr);
                                assert(has_file_with(local, p, hl));
                                assert(has_file_with(remote, p, hr));
                            }
                        }
                    } else {
                        lemma_edited_lift(local.skip(1), local, remote.skip(1), remote, sub.edited_files, d.edited_files);
                    }
                }
            },
            (NodeKindV::File(lh), NodeKindV::Dir) => {
                lemma_edited_files_sound(local.skip(1), remote);
                lemma_skip_contains_all(local, 1);
                lemma_edited_lift(local.skip(1), local, remote, remote, spec_diff(local.skip(1), remote).edited_files, d.edited_files);
            },
            (NodeKindV::Dir, NodeKindV::File(rh)) => {
                lemma_edited_files_sound(local, remote.skip(1));
                lemma_skip_contains_all(remote, 1);
                lemma_edited_lift(local, local, remote.skip(1), remote, spec_diff(local, remote.skip(1)).edited_files, d.edited_files);
            },
            (NodeKindV::Dir, NodeKindV::Dir) => {
                if lex_lt(local[0].path, remote[0].path) {
                    let skipn = 1 + subtree_extent(local.skip(1), local[0].path) as int;
                    lemma_extent_le(local.skip(1), local[0].path);
                    lemma_edited_files_sound(local.skip(skipn), remote);
                    lemma_skip_contains_all(local, skipn);
                    lemma_edited_lift(local.skip(skipn), local, remote, remote, spec_diff(local.skip(skipn), remote).edited_files, d.edited_files);
                } else if lex_lt(remote[0].path, local[0].path) {
                    let skipn = 1 + subtree_extent(remote.skip(1), remote[0].path) as int;
                    lemma_extent_le(remote.skip(1), remote[0].path);
                    lemma_edited_files_sound(local, remote.skip(skipn));
                    lemma_skip_contains_all(remote, skipn);
                    lemma_edited_lift(local, local, remote.skip(skipn), remote, spec_diff(local, remote.skip(skipn)).edited_files, d.edited_files);
                } else {
                    lemma_edited_files_sound(local.skip(1), remote.skip(1));
                    lemma_skip_contains_all(local, 1);
                    lemma_skip_contains_all(remote, 1);
                    lemma_edited_lift(local.skip(1), local, remote.skip(1), remote, spec_diff(local.skip(1), remote.skip(1)).edited_files, d.edited_files);
                }
            },
        }
    }
}

/// Edited-path soundness carries to larger manifests and a list that holds
/// at least the same paths.
proof fn lemma_edited_lift(
    sublocal: Seq<NodeV>,
    local: Seq<NodeV>,
    subremote: Seq<NodeV>,
    remote: Seq<NodeV>,
    subedited: Seq<Seq<u8>>,
    edited: Seq<Seq<u8>>,
)
    requires
        forall|p: Seq<u8>| #[trigger] subedited.contains(p) ==> (exists|hl: Seq<u8>, hr: Seq<u8>|
            #![trigger has_file_with(sublocal, p, hl), has_file_with(subremote, p, hr)]
            hl != hr && has_file_with(sublocal, p, hl) && has_file_with(subremote, p, hr)),
        forall|p: Seq<u8>| #[trigger] edited.contains(p) ==> subedited.contains(p),
        forall|n: NodeV| sublocal.contains(n) ==> local.contains(n),
        forall|n: NodeV| subremote.contains(n) ==> remote.contains(n),
    ensures
        forall|p: Seq<u8>| #[trigger]
            edited.contains(p) ==> (exists|hl: Seq<u8>, hr: Seq<u8>|
                #![trigger has_file_with(local, p, hl), has_file_with(remote, p, hr)]
                hl != hr && has_file_with(local, p, hl) && has_file_with(remote, p, hr)),
{
    assert forall|p: Seq<u8>| #[trigger] edited.contains(p) implies (exists|hl: Seq<u8>, hr: Seq<u8>|
        #![trigger has_file_with(local, p, hl), has_file_with(remote, p, hr)]
        hl != hr && has_file_with(local, p, hl) && has_file_with(remote, p, hr)) by {
        let (hl, hr) = choose|hl: Seq<u8>, hr: Seq<u8>|
            #![trigger has_file_with(sublocal, p, hl), has_file_with(subremote, p, hr)]
            hl != hr && has_file_with(sublocal, p, hl) && has_file_with(subremote, p, hr);
        assert(has_file_with(local, p, hl));
        assert(has_file_with(remote, p, hr));
    }
}


/// A one-path sequence contains exactly that path.
proof fn lemma_path_singleton(p: Seq<u8>)
    ensures
        forall|q: Seq<u8>| seq![p].contains(q) <==> q == p,
{
    assert(seq![p][0] == p);
    assert(seq![p].contains(p));
    assert forall|q: Seq<u8>| seq![p].contains(q) implies q == p by {
        let k = choose|k: int| 0 <= k < seq![p].len() && seq![p][k] == q;
    }
}

/// A path occurs among the nodes of `s`.
pub open spec fn has_path(s: Seq<NodeV>, p: Seq<u8>) -> bool {
    exists|i: int| 0 <= i < s.len() && (#[trigger] s[i]).path == p
}

/// Every recorded path originates in one of the two manifests: created
/// paths in the remote one, deleted paths in the local one, edited paths in
/// both heads' shared position, here attributed to the local side.
proof fn lemma_diff_origins(local: Seq<NodeV>, remote: Seq<NodeV>)
    ensures
        forall|p: Seq<u8>| #[trigger] spec_diff(local, remote).created_dirs.contains(p)
            ==> has_path(remote, p),
        forall|p: Seq<u8>| #[trigger] spec_diff(local, remote).created_files.contains(p)
            ==> has_path(remote, p),
        forall|p: Seq<u8>| #[trigger] spec_diff(local, remote).deleted_dirs.contains(p)
            ==> has_path(local, p),
        forall|p: Seq<u8>| #[trigger] spec_diff(local, remote).deleted_files.contains(p)
            ==> has_path(local, p),
        forall|p: Seq<u8>| #[trigger] spec_diff(local, remote).edited_files.contains(p)
            ==> has_path(local, p),
    decreases local.len() + remote.len(), 1int,
{
    let d = spec_diff(local, remote);
    if local.len() == 0 && remote.len() == 0 {
    } else {
        assert(local.skip(0) =~= local);
        assert(remote.skip(0) =~= remote);
        if local.len() > 0 {
            lemma_path_singleton(local[0].path);
            assert(has_path(local, local[0].path)) by {
                assert(local[0].path == local[0].path);
            }
        }
        if remote.len() > 0 {
            lemma_path_singleton(remote[0].path);
            assert(has_path(remote, remote[0].path)) by {
                assert(remote[0].path == remote[0].path);
            }
        }
        let lskip: int = if local.len() > 0 {
            match local[0].kind {
                NodeKindV::File(h) => 1int,
                NodeKindV::Dir => 1 + subtree_extent(local.skip(1), local[0].path) as int,
            }
        } else {
            0int
        };
        let rskip: int = if remote.len() > 0 {
            match remote[0].kind {
                NodeKindV::File(h) => 1int,
                NodeKindV::Dir => 1 + subtree_extent(remote.skip(1), remote[0].path) as int,
            }
        } else {
            0int
        };
        if local.len() > 0 {
            lemma_extent_le(local.skip(1), local[0].path);
        }
        if remote.len() > 0 {
            lemma_extent_le(remote.skip(1), remote[0].path);
        }
        // consider every split the merge can take at this step
        if local.len() > 0 {
            lemma_diff_origins_lift(local, remote, 1, 0);
            lemma_diff_origins_lift(local, remote, lskip, 0);
        }
        if remote.len() > 0 {
            lemma_diff_origins_lift(local, remote, 0, 1);
            lemma_diff_origins_lift(local, remote, 0, rskip);
        }
        if local.len() > 0 && remote.len() > 0 {
            lemma_diff_origins_lift(local, remote, 1, 1);
            crate::order::lemma_lex_trichotomy(local[0].path, remote[0].path);
        }
        // name the two concatenations a step can produce on the created side
        if remote.len() > 0 {
            let subf = spec_diff(local, remote.skip(1)).created_files;
            let subd = spec_diff(local, remote.skip(rskip)).created_dirs;
            assert forall|p: Seq<u8>| #[trigger] (seq![remote[0].path] + subf).contains(p) implies
                has_path(remote, p) by {
                assert((seq![remote[0].path] + subf).contains(p) <==> seq![
                    remote[0].path
                ].contains(p) || subf.contains(p));
            }
            assert forall|p: Seq<u8>| #[trigger] (seq![remote[0].path] + subd).contains(p) implies
                has_path(remote, p) by {
                assert((seq![remote[0].path] + subd).contains(p) <==> seq![
                    remote[0].path
                ].contains(p) || subd.contains(p));
            }
        }
        // and on the deleted and edited side
        if local.len() > 0 {
            let subf = spec_diff(local.skip(1), remote).deleted_files;
            let subd = spec_diff(local.skip(lskip), remote).deleted_dirs;
            assert forall|p: Seq<u8>| #[trigger] (seq![local[0].path] + subf).contains(p) implies
                has_path(local, p) by {
                assert((seq![local[0].path] + subf).contains(p) <==> seq![
                    local[0].path
                ].contains(p) || subf.contains(p));
            }
            assert forall|p: Seq<u8>| #[trigger] (seq![local[0].path] + subd).contains(p) implies
                has_path(local, p) by {
                assert((seq![local[0].path] + subd).contains(p) <==> seq![
                    local[0].path
                ].contains(p) || subd.contains(p));
            }
        }
        if local.len() > 0 && remote.len() > 0 {
            let sube = spec_diff(local.skip(1), remote.skip(1)).edited_files;
            assert forall|p: Seq<u8>| #[trigger] (seq![local[0].path] + sube).contains(p) implies
                has_path(local, p) by {
                assert((seq![local[0].path] + sube).contains(p) <==> seq![
                    local[0].path
                ].contains(p) || sube.contains(p));
            }
        }
    }
}

/// Origin facts for one recursive split, lifted to the full manifests, with
/// the head paths accounted for.
proof fn lemma_diff_origins_lift(local: Seq<NodeV>, remote: Seq<NodeV>, ls: int, rs: int)
    requires
        0 <= ls <= local.len(),
        0 <= rs <= remote.len(),
        ls + rs > 0,
    ensures
        forall|p: Seq<u8>| #[trigger]
            spec_diff(local.skip(ls), remote.skip(rs)).created_dirs.contains(p) ==> has_path(
                remote,
                p,
            ),
        forall|p: Seq<u8>| #[trigger]
            spec_diff(local.skip(ls), remote.skip(rs)).created_files.contains(p) ==> has_path(
                remote,
                p,
            ),
        forall|p: Seq<u8>| #[trigger]
            spec_diff(local.skip(ls), remote.skip(rs)).deleted_dirs.contains(p) ==> has_path(
                local,
                p,
            ),
        forall|p: Seq<u8>| #[trigger]
            spec_diff(local.skip(ls), remote.skip(rs)).deleted_files.contains(p) ==> has_path(
                local,
                p,
            ),
        forall|p: Seq<u8>| #[trigger]
            spec_diff(local.skip(ls), remote.skip(rs)).edited_files.contains(p) ==> has_path(
                local,
                p,
            ),
    decreases local.len() + remote.len() - ls - rs + 1, 0int,
{
    lemma_diff_origins(local.skip(ls), remote.skip(rs));
    assert forall|p: Seq<u8>| has_path(local.skip(ls), p) implies has_path(local, p) by {
        let i = choose|i: int| 0 <= i < local.skip(ls).len() && (#[trigger] local.skip(ls)[i]).path == p;
        assert(local[i + ls].path == p);
    }
    assert forall|p: Seq<u8>| has_path(remote.skip(rs), p) implies has_path(remote, p) by {
        let i = choose|i: int|
            0 <= i < remote.skip(rs).len() && (#[trigger] remote.skip(rs)[i]).path == p;
        assert(remote[i + rs].path == p);
    }
}

/// A path list is strictly ascending.
pub open spec fn paths_ascending(l: Seq<Seq<u8>>) -> bool {
    forall|i: int, j: int| 0 <= i < j < l.len() ==> lex_lt(#[trigger] l[i], #[trigger] l[j])
}

/// Prepending a path below everything in an ascending list keeps it
/// ascending.
proof fn lemma_ascending_cons(p: Seq<u8>, l: Seq<Seq<u8>>)
    requires
        paths_ascending(l),
        forall|q: Seq<u8>| l.contains(q) ==> lex_lt(p, q),
    ensures
        paths_ascending(seq![p] + l),
{
    let r = seq![p] + l;
    assert forall|i: int, j: int| 0 <= i < j < r.len() implies lex_lt(
        #[trigger] r[i],
        #[trigger] r[j],
    ) by {
        if i == 0 {
            assert(r[j] == l[j - 1]);
            assert(l.contains(l[j - 1]));
        } else {
            assert(r[i] == l[i - 1]);
            assert(r[j] == l[j - 1]);
        }
    }
}

/// List ordering: between strictly sorted manifests, each of the five diff
/// lists is strictly ascending in discovery order. In particular every
/// directory in `created_dirs` precedes the directories inside it, which
/// the apply engine relies on when it creates them in order.
pub proof fn lemma_diff_lists_ordered(local: Seq<NodeV>, remote: Seq<NodeV>)
    requires
        strictly_sorted(local),
        strictly_sorted(remote),
    ensures
        paths_ascending(spec_diff(local, remote).created_dirs),
        paths_ascending(spec_diff(local, remote).deleted_dirs),
        paths_ascending(spec_diff(local, remote).created_files),
        paths_ascending(spec_diff(local, remote).deleted_files),
        paths_ascending(spec_diff(local, remote).edited_files),
    decreases local.len() + remote.len(), 1int,
{
    let d = spec_diff(local, remote);
    if local.len() == 0 && remote.len() == 0 {
    } else {
        assert(local.skip(0) =~= local);
        assert(remote.skip(0) =~= remote);
        let lskip: int = if local.len() > 0 {
            match local[0].kind {
                NodeKindV::File(h) => 1int,
                NodeKindV::Dir => 1 + subtree_extent(local.skip(1), local[0].path) as int,
            }
        } else {
            0int
        };
        let rskip: int = if remote.len() > 0 {
            match remote[0].kind {
                NodeKindV::File(h) => 1int,
                NodeKindV::Dir => 1 + subtree_extent(remote.skip(1), remote[0].path) as int,
            }
        } else {
            0int
        };
        if local.len() > 0 {
            lemma_extent_le(local.skip(1), local[0].path);
        }
        if remote.len() > 0 {
            lemma_extent_le(remote.skip(1), remote[0].path);
        }
        if local.len() > 0 {
            lemma_diff_lists_ordered_step(local, remote, 1, 0);
            lemma_diff_lists_ordered_step(local, remote, lskip, 0);
        }
        if remote.len() > 0 {
            lemma_diff_lists_ordered_step(local, remote, 0, 1);
            lemma_diff_lists_ordered_step(local, remote, 0, rskip);
        }
        if local.len() > 0 && remote.len() > 0 {
            lemma_diff_lists_ordered_step(local, remote, 1, 1);
            crate::order::lemma_lex_trichotomy(local[0].path, remote[0].path);
            lemma_ascending_cons(
                local[0].path,
                spec_diff(local.skip(1), remote.skip(1)).edited_files,
            );
        }
        if local.len() > 0 {
            lemma_ascending_cons(local[0].path, spec_diff(local.skip(1), remote).deleted_files);
            lemma_ascending_cons(
                local[0].path,
                spec_diff(local.skip(lskip), remote).deleted_dirs,
            );
        }
        if remote.len() > 0 {
            lemma_ascending_cons(remote[0].path, spec_diff(local, remote.skip(1)).created_files);
            lemma_ascending_cons(
                remote[0].path,
                spec_diff(local, remote.skip(rskip)).created_dirs,
            );
        }
    }
}

/// One recursive split: its lists are ascending and sit strictly above the
/// heads of the manifests it came from.
proof fn lemma_diff_lists_ordered_step(local: Seq<NodeV>, remote: Seq<NodeV>, ls: int, rs: int)
    requires
        strictly_sorted(local),
        strictly_sorted(remote),
        0 <= ls <= local.len(),
        0 <= rs <= remote.len(),
        ls + rs > 0,
    ensures
        paths_ascending(spec_diff(local.skip(ls), remote.skip(rs)).created_dirs),
        paths_ascending(spec_diff(local.skip(ls), remote.skip(rs)).deleted_dirs),
        paths_ascending(spec_diff(local.skip(ls), remote.skip(rs)).created_files),
        paths_ascending(spec_diff(local.skip(ls), remote.skip(rs)).deleted_files),
        paths_ascending(spec_diff(local.skip(ls), remote.skip(rs)).edited_files),
        local.len() > 0 && ls > 0 ==> (forall|q: Seq<u8>|
            #[trigger] spec_diff(local.skip(ls), remote.skip(rs)).deleted_dirs.contains(q)
                ==> lex_lt(local[0].path, q)),
        local.len() > 0 && ls > 0 ==> (forall|q: Seq<u8>|
            #[trigger] spec_diff(local.skip(ls), remote.skip(rs)).deleted_files.contains(q)
                ==> lex_lt(local[0].path, q)),
        local.len() > 0 && ls > 0 ==> (forall|q: Seq<u8>|
            #[trigger] spec_diff(local.skip(ls), remote.skip(rs)).edited_files.contains(q)
                ==> lex_lt(local[0].path, q)),
        remote.len() > 0 && rs > 0 ==> (forall|q: Seq<u8>|
            #[trigger] spec_diff(local.skip(ls), remote.skip(rs)).created_dirs.contains(q)
                ==> lex_lt(remote[0].path, q)),
        remote.len() > 0 && rs > 0 ==> (forall|q: Seq<u8>|
            #[trigger] spec_diff(local.skip(ls), remote.skip(rs)).created_files.contains(q)
                ==> lex_lt(remote[0].path, q)),
    decreases local.len() + remote.len() - ls - rs + 1, 0int,
{
    let lt = local.skip(ls);
    let rt = remote.skip(rs);
    assert(strictly_sorted(lt)) by {
        assert(forall|i: int| 0 <= i < lt.len() ==> (#[trigger] lt[i]) == local[i + ls]);
    }
    assert(strictly_sorted(rt)) by {
        assert(forall|i: int| 0 <= i < rt.len() ==> (#[trigger] rt[i]) == remote[i + rs]);
    }
    lemma_diff_lists_ordered(lt, rt);
    lemma_diff_origins(lt, rt);
    if local.len() > 0 && ls > 0 {
        assert forall|q: Seq<u8>| has_path(lt, q) implies lex_lt(local[0].path, q) by {
            let i = choose|i: int| 0 <= i < lt.len() && (#[trigger] lt[i]).path == q;
            assert(lt[i] == local[i + ls]);
        }
    }
    if remote.len() > 0 && rs > 0 {
        assert forall|q: Seq<u8>| has_path(rt, q) implies lex_lt(remote[0].path, q) by {
            let i = choose|i: int| 0 <= i < rt.len() && (#[trigger] rt[i]).path == q;
            assert(rt[i] == remote[i + rs]);
        }
    }
}

/// Parents first: when one created directory lies inside another, the outer
/// one stands earlier in `created_dirs`.
pub proof fn lemma_created_dirs_parent_first(
    local: Seq<NodeV>,
    remote: Seq<NodeV>,
    i: int,
    j: int,
)
    requires
        strictly_sorted(local),
        strictly_sorted(remote),
        0 <= i < spec_diff(local, remote).created_dirs.len(),
        0 <= j < spec_diff(local, remote).created_dirs.len(),
        is_under(
            spec_diff(local, remote).created_dirs[j],
            spec_diff(local, remote).created_dirs[i],
        ),
    ensures
        j < i,
{
    let cd = spec_diff(local, remote).created_dirs;
    lemma_diff_lists_ordered(local, remote);
    crate::order::lemma_under_implies_lt(cd[j], cd[i]);
    if i < j {
        crate::order::lemma_lex_trichotomy(cd[i], cd[j]);
    }
    if i == j {
        crate::order::lemma_lex_irrefl(cd[i]);
    }
}


/// Differ completeness at the request level: every node of the remote
/// manifest is already present unchanged in the local manifest, or is
/// covered by the transfer requests the diff calls for — its path is
/// requested as a file, or it lies inside a directory whose archive is
/// requested. With the deletion side this is what makes a session converge:
/// nothing of the remote tree is left unrequested.
pub proof fn lemma_requests_cover_remote(local: Seq<NodeV>, remote: Seq<NodeV>)
    ensures
        forall|k: int|
            0 <= k < remote.len() ==> ({
                let n = #[trigger] remote[k];
                let reqs = spec_requests(spec_diff(local, remote));
                ||| local.contains(n)
                ||| (n.kind matches NodeKindV::File(h) && reqs.contains(ReqV::File(n.path)))
                ||| (exists|dir: Seq<u8>| #[trigger] reqs.contains(ReqV::Dir(dir)) && in_subtree(
                    dir,
                    n.path,
                ))
            }),
{
    lemma_diff_covers_remote(local, remote);
    let d = spec_diff(local, remote);
    let reqs = spec_requests(d);
    let dirs = d.created_dirs.map(|k: int, p: Seq<u8>| ReqV::Dir(p));
    let files = d.created_files.map(|k: int, p: Seq<u8>| ReqV::File(p));
    let edits = d.edited_files.map(|k: int, p: Seq<u8>| ReqV::File(p));
    assert forall|p: Seq<u8>| #[trigger] d.created_dirs.contains(p) implies reqs.contains(
        ReqV::Dir(p),
    ) by {
        let i = choose|i: int| 0 <= i < d.created_dirs.len() && (#[trigger] d.created_dirs[i]) == p;
        assert(dirs[i] == ReqV::Dir(p));
        assert(reqs[i] == ReqV::Dir(p)) by {
            assert((dirs + files)[i] == dirs[i]);
        }
    }
    assert forall|p: Seq<u8>| #[trigger] d.created_files.contains(p) implies reqs.contains(
        ReqV::File(p),
    ) by {
        let i = choose|i: int|
            0 <= i < d.created_files.len() && (#[trigger] d.created_files[i]) == p;
        assert(files[i] == ReqV::File(p));
        let m = dirs.len() + i;
        assert(reqs[m] == ReqV::File(p)) by {
            assert((dirs + files)[m] == files[i]);
        }
    }
    assert forall|p: Seq<u8>| #[trigger] d.edited_files.contains(p) implies reqs.contains(
        ReqV::File(p),
    ) by {
        let i = choose|i: int| 0 <= i < d.edited_files.len() && (#[trigger] d.edited_files[i]) == p;
        assert(edits[i] == ReqV::File(p));
        let m = dirs.len() + files.len() + i;
        assert(reqs[m] == edits[i]);
    }
    assert forall|k: int| 0 <= k < remote.len() implies ({
        let n = #[trigger] remote[k];
        ||| local.contains(n)
        ||| (n.kind matches NodeKindV::File(h) && reqs.contains(ReqV::File(n.path)))
        ||| (exists|dir: Seq<u8>| #[trigger] reqs.contains(ReqV::Dir(dir)) && in_subtree(
            dir,
            n.path,
        ))
    }) by {
        let n = remote[k];
        assert(remote_covered(d, local, n));
        if exists|dir: Seq<u8>| #[trigger] d.created_dirs.contains(dir) && in_subtree(dir, n.path) {
            let dir = choose|dir: Seq<u8>|
                #[trigger] d.created_dirs.contains(dir) && in_subtree(dir, n.path);
            assert(reqs.contains(ReqV::Dir(dir)));
        }
    }
}


/// The entry at the extent boundary, when there is one, is outside the
/// directory.
proof fn lemma_extent_boundary(s: Seq<NodeV>, dir: Seq<u8>)
    ensures
        subtree_extent(s, dir) < s.len() ==> !in_subtree(
            dir,
            s[subtree_extent(s, dir) as int].path,
        ),
    decreases s.len(),
{
    if s.len() > 0 && in_subtree(dir, s[0].path) {
        lemma_extent_boundary(s.skip(1), dir);
        let e = subtree_extent(s.skip(1), dir) as int;
        if e < s.skip(1).len() {
            assert(s.skip(1)[e] == s[e + 1]);
        }
    }
}

/// In a sorted manifest whose head is a directory, nothing at or beyond the
/// collapse boundary lies inside that directory.
proof fn lemma_after_skip_not_under(remote: Seq<NodeV>, m: int)
    requires
        strictly_sorted(remote),
        remote.len() > 0,
        1 + subtree_extent(remote.skip(1), remote[0].path) <= m < remote.len(),
    ensures
        !is_under(remote[0].path, remote[m].path),
{
    let d0 = remote[0].path;
    let rskip = 1 + subtree_extent(remote.skip(1), d0) as int;
    lemma_extent_le(remote.skip(1), d0);
    lemma_extent_boundary(remote.skip(1), d0);
    assert(remote.skip(1)[rskip - 1] == remote[rskip]);
    assert(!in_subtree(d0, remote[rskip].path));
    if is_under(d0, remote[m].path) {
        if m == rskip {
        } else {
            // the boundary sits strictly between the directory and a
            // descendant, so contiguity would put it inside too
            assert(lex_lt(d0, remote[rskip].path));
            assert(lex_lt(remote[rskip].path, remote[m].path));
            crate::order::lemma_subtree_contiguous(d0, remote[rskip].path, remote[m].path);
        }
    }
}

/// No path of the second list lies inside any directory of the first.
pub open spec fn roots_only(dirs: Seq<Seq<u8>>, paths: Seq<Seq<u8>>) -> bool {
    forall|dir: Seq<u8>, p: Seq<u8>|
        #[trigger] dirs.contains(dir) && #[trigger] paths.contains(p) ==> !is_under(dir, p)
}

/// Subtree roots only, creation side: between strictly sorted manifests the
/// diff records a newly present subtree by its root alone. No created
/// directory or created file lies inside another created directory; the
/// descendants travel in the root's archive.
pub proof fn lemma_created_roots_only(local: Seq<NodeV>, remote: Seq<NodeV>)
    requires
        strictly_sorted(local),
        strictly_sorted(remote),
    ensures
        roots_only(
            spec_diff(local, remote).created_dirs,
            spec_diff(local, remote).created_dirs,
        ),
        roots_only(
            spec_diff(local, remote).created_dirs,
            spec_diff(local, remote).created_files,
        ),
    decreases local.len() + remote.len(), 2int,
{
    let d = spec_diff(local, remote);
    if local.len() == 0 && remote.len() == 0 {
    } else {
        assert(local.skip(0) =~= local);
        assert(remote.skip(0) =~= remote);
        let lskip: int = if local.len() > 0 {
            match local[0].kind {
                NodeKindV::File(h) => 1int,
                NodeKindV::Dir => 1 + subtree_extent(local.skip(1), local[0].path) as int,
            }
        } else {
            0int
        };
        let rskip: int = if remote.len() > 0 {
            match remote[0].kind {
                NodeKindV::File(h) => 1int,
                NodeKindV::Dir => 1 + subtree_extent(remote.skip(1), remote[0].path) as int,
            }
        } else {
            0int
        };
        if local.len() > 0 {
            lemma_extent_le(local.skip(1), local[0].path);
        }
        if remote.len() > 0 {
            lemma_extent_le(remote.skip(1), remote[0].path);
        }
        if local.len() > 0 {
            lemma_created_roots_step(local, remote, 1, 0);
            lemma_created_roots_step(local, remote, lskip, 0);
        }
        if remote.len() > 0 {
            lemma_created_roots_step(local, remote, 0, 1);
            lemma_created_roots_step(local, remote, 0, rskip);
        }
        if local.len() > 0 && remote.len() > 0 {
            lemma_created_roots_step(local, remote, 1, 1);
            crate::order::lemma_lex_trichotomy(local[0].path, remote[0].path);
        }
        if remote.len() > 0 {
            let p0 = remote[0].path;
            lemma_path_singleton(p0);
            // a file prepended in front: nothing of the recursive created
            // directories can reach above it
            let subf = spec_diff(local, remote.skip(1));
            assert forall|dir: Seq<u8>, p: Seq<u8>|
                #[trigger] subf.created_dirs.contains(dir) && #[trigger] (seq![p0]
                    + subf.created_files).contains(p) implies !is_under(dir, p) by {
                assert((seq![p0] + subf.created_files).contains(p) <==> seq![p0].contains(p)
                    || subf.created_files.contains(p));
                if p == p0 && is_under(dir, p0) {
                    // the inner directory is a later remote path, above the head
                    lemma_diff_origins(local, remote.skip(1));
                    let i = choose|i: int|
                        0 <= i < remote.skip(1).len() && (#[trigger] remote.skip(1)[i]).path
                            == dir;
                    assert(remote.skip(1)[i] == remote[i + 1]);
                    assert(lex_lt(p0, dir));
                    crate::order::lemma_under_implies_lt(dir, p0);
                    crate::order::lemma_lex_trichotomy(dir, p0);
                }
            }
            // a directory prepended in front: everything recursive comes
            // from at or beyond its collapse boundary
            if remote[0].kind is Dir {
                let subd = spec_diff(local, remote.skip(rskip));
                assert forall|dir: Seq<u8>, p: Seq<u8>|
                    #[trigger] (seq![p0] + subd.created_dirs).contains(dir)
                        && #[trigger] (seq![p0] + subd.created_dirs).contains(p) implies !is_under(
                    dir,
                    p,
                ) by {
                    lemma_dir_head_pair(local, remote, rskip, dir, p);
                }
                assert forall|dir: Seq<u8>, p: Seq<u8>|
                    #[trigger] (seq![p0] + subd.created_dirs).contains(dir)
                        && #[trigger] subd.created_files.contains(p) implies !is_under(
                    dir,
                    p,
                ) by {
                    assert((seq![p0] + subd.created_dirs).contains(dir) <==> seq![p0].contains(dir)
                        || subd.created_dirs.contains(dir));
                    assert((seq![p0] + subd.created_dirs).contains(p) <==> seq![p0].contains(p)
                        || subd.created_dirs.contains(p));
                    if dir == p0 {
                        if p != p0 && is_under(p0, p) {
                            assert(subd.created_dirs.contains(p)
                                || subd.created_files.contains(p));
                            lemma_not_under_head(local, remote, rskip, p);
                        }
                    } else {
                        assert(subd.created_dirs.contains(dir));
                        if p == p0 && is_under(dir, p0) {
                            // the inner directory sorts above the head, so
                            // the head cannot be inside it
                            lemma_diff_origins(local, remote.skip(rskip));
                            let i = choose|i: int|
                                0 <= i < remote.skip(rskip).len() && (#[trigger] remote.skip(
                                    rskip,
                                )[i]).path == dir;
                            assert(remote.skip(rskip)[i] == remote[i + rskip]);
                            assert(lex_lt(p0, dir));
                            crate::order::lemma_under_implies_lt(dir, p0);
                            crate::order::lemma_lex_trichotomy(dir, p0);
                        }
                    }
                }
            }
        }
    }
}

/// One pair of the creation-side claim where a collapsed directory head was
/// just recorded: neither the head nor any later created directory lies
/// inside the other.
proof fn lemma_dir_head_pair(
    local: Seq<NodeV>,
    remote: Seq<NodeV>,
    rskip: int,
    dir: Seq<u8>,
    p: Seq<u8>,
)
    requires
        strictly_sorted(local),
        strictly_sorted(remote),
        remote.len() > 0,
        rskip == 1 + subtree_extent(remote.skip(1), remote[0].path),
        (seq![remote[0].path] + spec_diff(local, remote.skip(rskip)).created_dirs).contains(dir),
        (seq![remote[0].path] + spec_diff(local, remote.skip(rskip)).created_dirs).contains(p),
    ensures
        !is_under(dir, p),
    decreases local.len() + remote.len(), 1int,
{
    let p0 = remote[0].path;
    let subd = spec_diff(local, remote.skip(rskip));
    lemma_extent_le(remote.skip(1), p0);
    lemma_path_singleton(p0);
    assert((seq![p0] + subd.created_dirs).contains(dir) <==> seq![p0].contains(dir)
        || subd.created_dirs.contains(dir));
    assert((seq![p0] + subd.created_dirs).contains(p) <==> seq![p0].contains(p)
        || subd.created_dirs.contains(p));
    assert(strictly_sorted(remote.skip(rskip))) by {
        assert(forall|i: int|
            0 <= i < remote.skip(rskip).len() ==> (#[trigger] remote.skip(rskip)[i]) == remote[i
                + rskip]);
    }
    assert(local.skip(0) =~= local);
    lemma_created_roots_step(local, remote, 0, rskip);
    if dir == p0 {
        if p != p0 && is_under(p0, p) {
            lemma_not_under_head(local, remote, rskip, p);
        }
    } else {
        assert(subd.created_dirs.contains(dir));
        if p == p0 && is_under(dir, p0) {
            lemma_diff_origins(local, remote.skip(rskip));
            let i = choose|i: int|
                0 <= i < remote.skip(rskip).len() && (#[trigger] remote.skip(rskip)[i]).path
                    == dir;
            assert(remote.skip(rskip)[i] == remote[i + rskip]);
            assert(lex_lt(p0, dir));
            crate::order::lemma_under_implies_lt(dir, p0);
            crate::order::lemma_lex_trichotomy(dir, p0);
        }
    }
}

/// A created path of the recursion that follows a collapsed head directory
/// does not lie inside that directory.
proof fn lemma_not_under_head(local: Seq<NodeV>, remote: Seq<NodeV>, rskip: int, p: Seq<u8>)
    requires
        strictly_sorted(remote),
        remote.len() > 0,
        rskip == 1 + subtree_extent(remote.skip(1), remote[0].path),
        spec_diff(local, remote.skip(rskip)).created_dirs.contains(p) || spec_diff(
            local,
            remote.skip(rskip),
        ).created_files.contains(p),
    ensures
        !is_under(remote[0].path, p),
{
    lemma_extent_le(remote.skip(1), remote[0].path);
    lemma_diff_origins(local, remote.skip(rskip));
    let i = choose|i: int|
        0 <= i < remote.skip(rskip).len() && (#[trigger] remote.skip(rskip)[i]).path == p;
    assert(remote.skip(rskip)[i] == remote[i + rskip]);
    lemma_after_skip_not_under(remote, i + rskip);
}

/// One recursive split of the creation-side claim, over sorted suffixes.
proof fn lemma_created_roots_step(local: Seq<NodeV>, remote: Seq<NodeV>, ls: int, rs: int)
    requires
        strictly_sorted(local),
        strictly_sorted(remote),
        0 <= ls <= local.len(),
        0 <= rs <= remote.len(),
        ls + rs > 0,
    ensures
        roots_only(
            spec_diff(local.skip(ls), remote.skip(rs)).created_dirs,
            spec_diff(local.skip(ls), remote.skip(rs)).created_dirs,
        ),
        roots_only(
            spec_diff(local.skip(ls), remote.skip(rs)).created_dirs,
            spec_diff(local.skip(ls), remote.skip(rs)).created_files,
        ),
    decreases local.len() + remote.len() - ls - rs + 1, 0int,
{
    let lt = local.skip(ls);
    let rt = remote.skip(rs);
    assert(strictly_sorted(lt)) by {
        assert(forall|i: int| 0 <= i < lt.len() ==> (#[trigger] lt[i]) == local[i + ls]);
    }
    assert(strictly_sorted(rt)) by {
        assert(forall|i: int| 0 <= i < rt.len() ==> (#[trigger] rt[i]) == remote[i + rs]);
    }
    lemma_created_roots_only(lt, rt);
}


/// Subtree roots only, deletion side: between strictly sorted manifests the
/// diff records a vanished subtree by its root alone. No deleted directory
/// or deleted file lies inside another deleted directory; one recursive
/// removal of the root takes them all.
pub proof fn lemma_deleted_roots_only(local: Seq<NodeV>, remote: Seq<NodeV>)
    requires
        strictly_sorted(local),
        strictly_sorted(remote),
    ensures
        roots_only(
            spec_diff(local, remote).deleted_dirs,
            spec_diff(local, remote).deleted_dirs,
        ),
        roots_only(
            spec_diff(local, remote).deleted_dirs,
            spec_diff(local, remote).deleted_files,
        ),
    decreases local.len() + remote.len(), 2int,
{
    let d = spec_diff(local, remote);
    if local.len() == 0 && remote.len() == 0 {
    } else {
        assert(local.skip(0) =~= local);
        assert(remote.skip(0) =~= remote);
        let lskip: int = if local.len() > 0 {
            match local[0].kind {
                NodeKindV::File(h) => 1int,
                NodeKindV::Dir => 1 + subtree_extent(local.skip(1), local[0].path) as int,
            }
        } else {
            0int
        };
        let rskip: int = if remote.len() > 0 {
            match remote[0].kind {
                NodeKindV::File(h) => 1int,
                NodeKindV::Dir => 1 + subtree_extent(remote.skip(1), remote[0].path) as int,
            }
        } else {
            0int
        };
        if local.len() > 0 {
            lemma_extent_le(local.skip(1), local[0].path);
        }
        if remote.len() > 0 {
            lemma_extent_le(remote.skip(1), remote[0].path);
        }
        if local.len() > 0 {
            lemma_deleted_roots_step(local, remote, 1, 0);
            lemma_deleted_roots_step(local, remote, lskip, 0);
        }
        if remote.len() > 0 {
            lemma_deleted_roots_step(local, remote, 0, 1);
            lemma_deleted_roots_step(local, remote, 0, rskip);
        }
        if local.len() > 0 && remote.len() > 0 {
            lemma_deleted_roots_step(local, remote, 1, 1);
            crate::order::lemma_lex_trichotomy(local[0].path, remote[0].path);
        }
        if local.len() > 0 {
            let p0 = local[0].path;
            lemma_path_singleton(p0);
            // a file deleted in front: no recursive deleted directory can
            // reach above it
            let subf = spec_diff(local.skip(1), remote);
            assert forall|dir: Seq<u8>, p: Seq<u8>|
                #[trigger] subf.deleted_dirs.contains(dir) && #[trigger] (seq![p0]
                    + subf.deleted_files).contains(p) implies !is_under(dir, p) by {
                assert((seq![p0] + subf.deleted_files).contains(p) <==> seq![p0].contains(p)
                    || subf.deleted_files.contains(p));
                if p == p0 && is_under(dir, p0) {
                    // the inner directory is a later local path, above the head
                    lemma_diff_origins(local.skip(1), remote);
                    let i = choose|i: int|
                        0 <= i < local.skip(1).len() && (#[trigger] local.skip(1)[i]).path == dir;
                    assert(local.skip(1)[i] == local[i + 1]);
                    assert(lex_lt(p0, dir));
                    crate::order::lemma_under_implies_lt(dir, p0);
                    crate::order::lemma_lex_trichotomy(dir, p0);
                }
            }
            // a directory deleted in front: everything recursive comes from
            // at or beyond its collapse boundary
            if local[0].kind is Dir {
                let subd = spec_diff(local.skip(lskip), remote);
                assert forall|dir: Seq<u8>, p: Seq<u8>|
                    #[trigger] (seq![p0] + subd.deleted_dirs).contains(dir)
                        && #[trigger] (seq![p0] + subd.deleted_dirs).contains(p) implies !is_under(
                    dir,
                    p,
                ) by {
                    lemma_deleted_dir_head_pair(local, remote, lskip, dir, p);
                }
                assert forall|dir: Seq<u8>, p: Seq<u8>|
                    #[trigger] (seq![p0] + subd.deleted_dirs).contains(dir)
                        && #[trigger] subd.deleted_files.contains(p) implies !is_under(
                    dir,
                    p,
                ) by {
                    assert((seq![p0] + subd.deleted_dirs).contains(dir) <==> seq![p0].contains(dir)
                        || subd.deleted_dirs.contains(dir));
                    if dir == p0 {
                        if is_under(p0, p) {
                            lemma_not_under_head_local(local, remote, lskip, p);
                        }
                    } else {
                        assert(subd.deleted_dirs.contains(dir));
                    }
                }
            }
        }
    }
}

/// One pair of the deletion-side claim where a collapsed directory head was
/// just recorded.
proof fn lemma_deleted_dir_head_pair(
    local: Seq<NodeV>,
    remote: Seq<NodeV>,
    lskip: int,
    dir: Seq<u8>,
    p: Seq<u8>,
)
    requires
        strictly_sorted(local),
        strictly_sorted(remote),
        local.len() > 0,
        lskip == 1 + subtree_extent(local.skip(1), local[0].path),
        (seq![local[0].path] + spec_diff(local.skip(lskip), remote).deleted_dirs).contains(dir),
        (seq![local[0].path] + spec_diff(local.skip(lskip), remote).deleted_dirs).contains(p),
    ensures
        !is_under(dir, p),
    decreases local.len() + remote.len(), 1int,
{
    let p0 = local[0].path;
    let subd = spec_diff(local.skip(lskip), remote);
    lemma_extent_le(local.skip(1), p0);
    lemma_path_singleton(p0);
    assert((seq![p0] + subd.deleted_dirs).contains(dir) <==> seq![p0].contains(dir)
        || subd.deleted_dirs.contains(dir));
    assert((seq![p0] + subd.deleted_dirs).contains(p) <==> seq![p0].contains(p)
        || subd.deleted_dirs.contains(p));
    assert(strictly_sorted(local.skip(lskip))) by {
        assert(forall|i: int|
            0 <= i < local.skip(lskip).len() ==> (#[trigger] local.skip(lskip)[i]) == local[i
                + lskip]);
    }
    assert(remote.skip(0) =~= remote);
    lemma_deleted_roots_step(local, remote, lskip, 0);
    if dir == p0 {
        if p != p0 && is_under(p0, p) {
            lemma_not_under_head_local(local, remote, lskip, p);
        }
    } else {
        assert(subd.deleted_dirs.contains(dir));
        if p == p0 && is_under(dir, p0) {
            lemma_diff_origins(local.skip(lskip), remote);
            let i = choose|i: int|
                0 <= i < local.skip(lskip).len() && (#[trigger] local.skip(lskip)[i]).path == dir;
            assert(local.skip(lskip)[i] == local[i + lskip]);
            assert(lex_lt(p0, dir));
            crate::order::lemma_under_implies_lt(dir, p0);
            crate::order::lemma_lex_trichotomy(dir, p0);
        }
    }
}

/// A deleted path of the recursion that follows a collapsed head directory
/// does not lie inside that directory.
proof fn lemma_not_under_head_local(local: Seq<NodeV>, remote: Seq<NodeV>, lskip: int, p: Seq<u8>)
    requires
        strictly_sorted(local),
        local.len() > 0,
        lskip == 1 + subtree_extent(local.skip(1), local[0].path),
        spec_diff(local.skip(lskip), remote).deleted_dirs.contains(p) || spec_diff(
            local.skip(lskip),
            remote,
        ).deleted_files.contains(p),
    ensures
        !is_under(local[0].path, p),
{
    lemma_extent_le(local.skip(1), local[0].path);
    lemma_diff_origins(local.skip(lskip), remote);
    let i = choose|i: int|
        0 <= i < local.skip(lskip).len() && (#[trigger] local.skip(lskip)[i]).path == p;
    assert(local.skip(lskip)[i] == local[i + lskip]);
    lemma_after_skip_not_under(local, i + lskip);
}

/// One recursive split of the deletion-side claim, over sorted suffixes.
proof fn lemma_deleted_roots_step(local: Seq<NodeV>, remote: Seq<NodeV>, ls: int, rs: int)
    requires
        strictly_sorted(local),
        strictly_sorted(remote),
        0 <= ls <= local.len(),
        0 <= rs <= remote.len(),
        ls + rs > 0,
    ensures
        roots_only(
            spec_diff(local.skip(ls), remote.skip(rs)).deleted_dirs,
            spec_diff(local.skip(ls), remote.skip(rs)).deleted_dirs,
        ),
        roots_only(
            spec_diff(local.skip(ls), remote.skip(rs)).deleted_dirs,
            spec_diff(local.skip(ls), remote.skip(rs)).deleted_files,
        ),
    decreases local.len() + remote.len() - ls - rs + 1, 0int,
{
    let lt = local.skip(ls);
    let rt = remote.skip(rs);
    assert(strictly_sorted(lt)) by {
        assert(forall|i: int| 0 <= i < lt.len() ==> (#[trigger] lt[i]) == local[i + ls]);
    }
    assert(strictly_sorted(rt)) by {
        assert(forall|i: int| 0 <= i < rt.len() ==> (#[trigger] rt[i]) == remote[i + rs]);
    }
    lemma_deleted_roots_only(lt, rt);
}

} // verus!
