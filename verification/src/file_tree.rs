//! Content-hashed manifests of a directory tree: an ordered sequence of
//! path/kind nodes, strictly ascending under byte-wise lexicographic path
//! order, with the root itself not represented.
use vstd::prelude::*;

use crate::order::{lex_lt, lemma_lex_trichotomy, lemma_lex_trans, path_cmp, PathCmp};

verus! {

broadcast use vstd::seq_lib::lemma_seq_concat_contains_all_elements;

/// Mathematical model of a node kind: a regular file with its 20-byte SHA-1
/// digest, or a directory.
pub ghost enum NodeKindV {
    File(Seq<u8>),
    Dir,
}

/// Mathematical model of a manifest node.
pub ghost struct NodeV {
    pub path: Seq<u8>,
    pub kind: NodeKindV,
}

/// Kind of a manifest node.
#[derive(Debug, PartialEq, Eq)]
pub enum FileTreeNodeType {
    File { sha1: Vec<u8> },
    Dir,
}

/// One entry of a manifest: a path relative to the manifest root, in
/// forward-slash wire form, and its kind.
#[derive(Debug, PartialEq, Eq)]
pub struct FileTreeNode {
    pub path: Vec<u8>,
    pub typ: FileTreeNodeType,
}

/// An ordered, content-hashed description of a directory tree.
#[derive(Debug)]
pub struct FileTree {
    pub nodes: Vec<FileTreeNode>,
}

impl View for FileTreeNodeType {
    type V = NodeKindV;

    open spec fn view(&self) -> NodeKindV {
        match self {
            FileTreeNodeType::File { sha1 } => NodeKindV::File(sha1@),
            FileTreeNodeType::Dir => NodeKindV::Dir,
        }
    }
}

impl View for FileTreeNode {
    type V = NodeV;

    open spec fn view(&self) -> NodeV {
        NodeV { path: self.path@, kind: self.typ@ }
    }
}

/// The model of a node sequence.
pub open spec fn nodes_view(v: Seq<FileTreeNode>) -> Seq<NodeV> {
    v.map(|i: int, n: FileTreeNode| n@)
}

impl View for FileTree {
    type V = Seq<NodeV>;

    open spec fn view(&self) -> Seq<NodeV> {
        nodes_view(self.nodes@)
    }
}

/// Paths are strictly ascending: every node sorts before every later one.
pub open spec fn strictly_sorted(s: Seq<NodeV>) -> bool {
    forall|i: int, j: int| 0 <= i < j < s.len() ==> lex_lt(#[trigger] s[i].path, #[trigger] s[j].path)
}

/// A manifest is valid when its paths are strictly ascending and the root
/// itself (the empty relative path) is not represented.
pub open spec fn tree_valid(s: Seq<NodeV>) -> bool {
    &&& strictly_sorted(s)
    &&& forall|i: int| 0 <= i < s.len() ==> (#[trigger] s[i].path).len() > 0
}

/// Strictness of adjacent pairs extends to all pairs, by transitivity.
proof fn lemma_adjacent_sorted(s: Seq<NodeV>)
    requires
        forall|i: int| 0 <= i < s.len() - 1 ==> lex_lt(#[trigger] s[i].path, s[i + 1].path),
    ensures
        strictly_sorted(s),
{
    assert forall|i: int, j: int| 0 <= i < j < s.len() implies lex_lt(
        #[trigger] s[i].path,
        #[trigger] s[j].path,
    ) by {
        lemma_lt_by_steps(s, i, j);
    }
}

proof fn lemma_lt_by_steps(s: Seq<NodeV>, i: int, j: int)
    requires
        forall|k: int| 0 <= k < s.len() - 1 ==> lex_lt(#[trigger] s[k].path, s[k + 1].path),
        0 <= i < j < s.len(),
    ensures
        lex_lt(s[i].path, s[j].path),
    decreases j - i,
{
    if j == i + 1 {
    } else {
        lemma_lt_by_steps(s, i, j - 1);
        lemma_lex_trans(s[i].path, s[j - 1].path, s[j].path);
    }
}

/// Inserts a node into an already sorted sequence, before the first
/// strictly greater path.
pub open spec fn insert_node(x: NodeV, s: Seq<NodeV>) -> Seq<NodeV>
    decreases s.len(),
{
    if s.len() == 0 {
        seq![x]
    } else if lex_lt(x.path, s[0].path) {
        seq![x] + s
    } else {
        seq![s[0]] + insert_node(x, s.skip(1))
    }
}

/// Insertion sort by path, processing the sequence front to back.
pub open spec fn sort_nodes(s: Seq<NodeV>) -> Seq<NodeV>
    decreases s.len(),
{
    if s.len() == 0 {
        Seq::empty()
    } else {
        insert_node(s[0], sort_nodes(s.skip(1)))
    }
}

/// Paths are non-strictly ascending between adjacent nodes.
pub open spec fn sorted_le(s: Seq<NodeV>) -> bool {
    forall|i: int| 0 <= i < s.len() - 1 ==> !lex_lt(s[i + 1].path, #[trigger] s[i].path)
}

proof fn lemma_insert_node_len(x: NodeV, s: Seq<NodeV>)
    ensures
        insert_node(x, s).len() == s.len() + 1,
    decreases s.len(),
{
    if s.len() > 0 && !lex_lt(x.path, s[0].path) {
        lemma_insert_node_len(x, s.skip(1));
    }
}

proof fn lemma_insert_node_sorted(x: NodeV, s: Seq<NodeV>)
    requires
        sorted_le(s),
    ensures
        sorted_le(insert_node(x, s)),
    decreases s.len(),
{
    lemma_insert_node_len(x, s);
    if s.len() == 0 {
    } else if lex_lt(x.path, s[0].path) {
        let r = seq![x] + s;
        assert forall|i: int| 0 <= i < r.len() - 1 implies !lex_lt(r[i + 1].path, #[trigger] r[i].path) by {
            if i == 0 {
                lemma_lex_trichotomy(x.path, s[0].path);
            } else {
                assert(r[i] == s[i - 1]);
                assert(r[i + 1] == s[i]);
            }
        }
    } else {
        assert(sorted_le(s.skip(1))) by {
            assert(forall|i: int|
                0 <= i < s.skip(1).len() - 1 ==> (#[trigger] s.skip(1)[i]) == s[i + 1] && s.skip(
                    1,
                )[i + 1] == s[i + 2]);
        }
        lemma_insert_node_sorted(x, s.skip(1));
        let t = insert_node(x, s.skip(1));
        let r = seq![s[0]] + t;
        lemma_insert_node_len(x, s.skip(1));
        assert forall|i: int| 0 <= i < r.len() - 1 implies !lex_lt(r[i + 1].path, #[trigger] r[i].path) by {
            if i == 0 {
                // head of t is either x (not below s[0]) or s[1] (sorted)
                assert(r[0] == s[0]);
                assert(r[1] == t[0]);
                if s.skip(1).len() == 0 {
                    assert(t[0] == x);
                    lemma_lex_trichotomy(x.path, s[0].path);
                } else if lex_lt(x.path, s.skip(1)[0].path) {
                    assert(t[0] == x);
                    lemma_lex_trichotomy(x.path, s[0].path);
                } else {
                    assert(t[0] == s.skip(1)[0]);
                    assert(s.skip(1)[0] == s[1]);
                }
            } else {
                assert(r[i] == t[i - 1]);
                assert(r[i + 1] == t[i]);
            }
        }
    }
}

/// No two nodes share a path.
pub open spec fn paths_distinct(s: Seq<NodeV>) -> bool {
    forall|i: int, j: int| 0 <= i < j < s.len() ==> (#[trigger] s[i]).path != (#[trigger] s[j]).path
}

/// How many nodes of `s` carry the path `p`.
pub open spec fn path_count(s: Seq<NodeV>, p: Seq<u8>) -> nat
    decreases s.len(),
{
    if s.len() == 0 {
        0
    } else {
        (if s[0].path == p {
            1nat
        } else {
            0nat
        }) + path_count(s.skip(1), p)
    }
}

proof fn lemma_count_concat(a: Seq<NodeV>, b: Seq<NodeV>, p: Seq<u8>)
    ensures
        path_count(a + b, p) == path_count(a, p) + path_count(b, p),
    decreases a.len(),
{
    if a.len() == 0 {
        assert(a + b =~= b);
    } else {
        assert((a + b)[0] == a[0]);
        assert((a + b).skip(1) =~= a.skip(1) + b);
        lemma_count_concat(a.skip(1), b, p);
    }
}

proof fn lemma_count_single(x: NodeV, p: Seq<u8>)
    ensures
        path_count(seq![x], p) == if x.path == p {
            1nat
        } else {
            0nat
        },
{
    assert(seq![x].skip(1) =~= Seq::<NodeV>::empty());
    assert(path_count(Seq::<NodeV>::empty(), p) == 0);
    assert(seq![x][0] == x);
}

proof fn lemma_count_insert(x: NodeV, s: Seq<NodeV>, p: Seq<u8>)
    ensures
        path_count(insert_node(x, s), p) == path_count(seq![x], p) + path_count(s, p),
    decreases s.len(),
{
    lemma_count_single(x, p);
    if s.len() == 0 {
        lemma_count_single(x, p);
        assert(insert_node(x, s) == seq![x]);
    } else if lex_lt(x.path, s[0].path) {
        lemma_count_concat(seq![x], s, p);
    } else {
        lemma_count_insert(x, s.skip(1), p);
        lemma_count_concat(seq![s[0]], insert_node(x, s.skip(1)), p);
        lemma_count_single(s[0], p);
        assert(path_count(seq![s[0]], p) + path_count(s.skip(1), p) == path_count(s, p));
    }
}

proof fn lemma_count_sort(s: Seq<NodeV>, p: Seq<u8>)
    ensures
        path_count(sort_nodes(s), p) == path_count(s, p),
    decreases s.len(),
{
    if s.len() > 0 {
        lemma_count_sort(s.skip(1), p);
        lemma_count_insert(s[0], sort_nodes(s.skip(1)), p);
        lemma_count_single(s[0], p);
    }
}

/// A node at an index contributes to the count of its path.
proof fn lemma_count_at_least_one(s: Seq<NodeV>, i: int)
    requires
        0 <= i < s.len(),
    ensures
        path_count(s, s[i].path) >= 1,
    decreases i,
{
    if i > 0 {
        assert(s.skip(1)[i - 1] == s[i]);
        lemma_count_at_least_one(s.skip(1), i - 1);
    }
}

/// Two nodes sharing a path make the count at least two.
proof fn lemma_count_at_least_two(s: Seq<NodeV>, i: int, j: int)
    requires
        0 <= i < j < s.len(),
        s[i].path == s[j].path,
    ensures
        path_count(s, s[i].path) >= 2,
    decreases i,
{
    if i == 0 {
        assert(s.skip(1)[j - 1] == s[j]);
        lemma_count_at_least_one(s.skip(1), j - 1);
    } else {
        assert(s.skip(1)[i - 1] == s[i]);
        assert(s.skip(1)[j - 1] == s[j]);
        lemma_count_at_least_two(s.skip(1), i - 1, j - 1);
    }
}

/// Distinct paths keep every count at one or below.
proof fn lemma_distinct_counts(s: Seq<NodeV>, p: Seq<u8>)
    requires
        paths_distinct(s),
    ensures
        path_count(s, p) <= 1,
    decreases s.len(),
{
    if s.len() > 0 {
        assert(forall|k: int|
            0 <= k < s.skip(1).len() ==> (#[trigger] s.skip(1)[k]) == s[k + 1]);
        lemma_distinct_counts(s.skip(1), p);
        if s[0].path == p {
            lemma_count_none(s.skip(1), p);
        }
    }
}

/// If no node carries `p`, its count is zero.
proof fn lemma_count_none(s: Seq<NodeV>, p: Seq<u8>)
    requires
        forall|k: int| 0 <= k < s.len() ==> (#[trigger] s[k]).path != p,
    ensures
        path_count(s, p) == 0,
    decreases s.len(),
{
    if s.len() > 0 {
        assert(forall|k: int|
            0 <= k < s.skip(1).len() ==> (#[trigger] s.skip(1)[k]) == s[k + 1]);
        lemma_count_none(s.skip(1), p);
    }
}

/// Every element of the inserted sequence is the new node or one of the old.
/// A one-node sequence contains exactly that node.
proof fn lemma_singleton_contains(x: NodeV, n: NodeV)
    ensures
        seq![x].contains(n) <==> n == x,
{
    assert(seq![x][0] == x);
    assert(seq![x].contains(x));
    if seq![x].contains(n) {
        let k = choose|k: int| 0 <= k < seq![x].len() && seq![x][k] == n;
    }
}

proof fn lemma_insert_contains(x: NodeV, s: Seq<NodeV>, n: NodeV)
    ensures
        insert_node(x, s).contains(n) <==> (n == x || s.contains(n)),
    decreases s.len(),
{
    lemma_singleton_contains(x, n);
    if s.len() == 0 {
        assert(insert_node(x, s) == seq![x]);
    } else if lex_lt(x.path, s[0].path) {
        assert(insert_node(x, s) == seq![x] + s);
        assert((seq![x] + s).contains(n) <==> seq![x].contains(n) || s.contains(n));
    } else {
        lemma_insert_contains(x, s.skip(1), n);
        lemma_singleton_contains(s[0], n);
        assert(s =~= seq![s[0]] + s.skip(1));
        assert(insert_node(x, s) == seq![s[0]] + insert_node(x, s.skip(1)));
        assert((seq![s[0]] + insert_node(x, s.skip(1))).contains(n) <==> seq![s[0]].contains(n)
            || insert_node(x, s.skip(1)).contains(n));
        assert(s.contains(n) == (seq![s[0]] + s.skip(1)).contains(n));
        assert((seq![s[0]] + s.skip(1)).contains(n) <==> seq![s[0]].contains(n) || s.skip(
            1,
        ).contains(n));
    }
}

proof fn lemma_sort_contains(s: Seq<NodeV>, n: NodeV)
    ensures
        sort_nodes(s).contains(n) <==> s.contains(n),
    decreases s.len(),
{
    if s.len() > 0 {
        lemma_sort_contains(s.skip(1), n);
        lemma_insert_contains(s[0], sort_nodes(s.skip(1)), n);
        lemma_singleton_contains(s[0], n);
        assert(s =~= seq![s[0]] + s.skip(1));
        assert(sort_nodes(s) == insert_node(s[0], sort_nodes(s.skip(1))));
        assert(s.contains(n) == (seq![s[0]] + s.skip(1)).contains(n));
        assert((seq![s[0]] + s.skip(1)).contains(n) <==> seq![s[0]].contains(n) || s.skip(
            1,
        ).contains(n));
    }
}

/// Builder validity: sorting any collection of distinct, non-empty relative
/// paths yields a valid manifest. The builder sorts whatever the walk
/// produced, so every built manifest whose walk reported each entry once,
/// under a non-empty relative path, is valid.
pub proof fn lemma_sort_nodes_valid(s: Seq<NodeV>)
    requires
        paths_distinct(s),
        forall|i: int| 0 <= i < s.len() ==> (#[trigger] s[i].path).len() > 0,
    ensures
        tree_valid(sort_nodes(s)),
{
    lemma_sort_nodes_sorted(s);
    let r = sort_nodes(s);
    assert forall|i: int| 0 <= i < r.len() implies (#[trigger] r[i].path).len() > 0 by {
        assert(r.contains(r[i]));
        lemma_sort_contains(s, r[i]);
        assert(s.contains(r[i]));
        let k = choose|k: int| 0 <= k < s.len() && s[k] == r[i];
    }
    assert(paths_distinct(r)) by {
        assert forall|i: int, j: int| 0 <= i < j < r.len() implies (#[trigger] r[i]).path != (
        #[trigger] r[j]).path by {
            if r[i].path == r[j].path {
                lemma_count_at_least_two(r, i, j);
                lemma_count_sort(s, r[i].path);
                lemma_distinct_counts(s, r[i].path);
            }
        }
    }
    assert forall|i: int| 0 <= i < r.len() - 1 implies lex_lt(#[trigger] r[i].path, r[i + 1].path) by {
        lemma_lex_trichotomy(r[i].path, r[i + 1].path);
    }
    lemma_adjacent_sorted(r);
}

/// Sorting yields non-strictly ascending paths.
pub proof fn lemma_sort_nodes_sorted(s: Seq<NodeV>)
    ensures
        sorted_le(sort_nodes(s)),
        sort_nodes(s).len() == s.len(),
    decreases s.len(),
{
    if s.len() > 0 {
        lemma_sort_nodes_sorted(s.skip(1));
        lemma_insert_node_sorted(s[0], sort_nodes(s.skip(1)));
        lemma_insert_node_len(s[0], sort_nodes(s.skip(1)));
    }
}

/// The SHA-1 digest of a byte string, as the sha1 crate computes it.
pub uninterp spec fn sha1_of(bytes: Seq<u8>) -> Seq<u8>;

/// Relies on sha1::Sha1 through the digest::Digest trait: the digest is a
/// function of the input bytes alone, and is 20 bytes long.
#[verifier::external_body]
fn sha1_digest(bytes: &Vec<u8>) -> (r: Vec<u8>)
    ensures
        r@ == sha1_of(bytes@),
        r@.len() == 20,
{
    let mut hasher = <sha1::Sha1 as sha1::Digest>::new();
    sha1::Digest::update(&mut hasher, bytes.as_slice());
    let digest = sha1::Digest::finalize(hasher);
    digest.to_vec()
}

impl FileTreeNode {
    /// Makes a regular-file node: the kind carries the SHA-1 digest of the
    /// file's full contents.
    pub fn file(path: Vec<u8>, contents: &Vec<u8>) -> (r: FileTreeNode)
        ensures
            r@.path == path@,
            r@.kind == NodeKindV::File(sha1_of(contents@)),
    {
        let sha1 = sha1_digest(contents);
        FileTreeNode { path, typ: FileTreeNodeType::File { sha1 } }
    }

    /// Makes a directory node.
    pub fn dir(path: Vec<u8>) -> (r: FileTreeNode)
        ensures
            r@.path == path@,
            r@.kind == NodeKindV::Dir,
    {
        FileTreeNode { path, typ: FileTreeNodeType::Dir }
    }
}

impl FileTree {
    /// Builds a manifest from walked entries by sorting them by path.
    /// The walk provides the entries; ordering is guaranteed here.
    pub fn new(nodes: Vec<FileTreeNode>) -> (r: FileTree)
        ensures
            r@ == sort_nodes(nodes_view(nodes@)),
            sorted_le(r@),
            paths_distinct(nodes_view(nodes@)) && (forall|i: int|
                0 <= i < nodes@.len() ==> (#[trigger] nodes@[i]).path@.len() > 0) ==> tree_valid(
                r@,
            ),
    {
        let ghost input = nodes_view(nodes@);
        let mut rest = nodes;
        let mut acc: Vec<FileTreeNode> = Vec::new();
        proof {
            assert(nodes_view(rest@) =~= input.take(rest@.len() as int));
            assert(input.skip(rest@.len() as int) =~= Seq::<NodeV>::empty());
            assert(nodes_view(acc@) =~= Seq::<NodeV>::empty());
        }
        loop
            invariant
                rest@.len() <= input.len(),
                nodes_view(rest@) == input.take(rest@.len() as int),
                nodes_view(acc@) == sort_nodes(input.skip(rest@.len() as int)),
            ensures
                nodes_view(acc@) == sort_nodes(input),
            decreases rest@.len(),
        {
            let ghost m = rest@.len() as int;
            let ghost pre = rest@;
            let x = match rest.pop() {
                Some(x) => x,
                None => {
                    proof {
                        assert(input.skip(rest@.len() as int) =~= input);
                    }
                    break ;
                },
            };
            proof {
                assert(nodes_view(rest@) =~= input.take(m - 1)) by {
                    assert(forall|k: int|
                        0 <= k < m - 1 ==> (#[trigger] rest@[k])@ == input.take(m)[k]);
                }
                assert(x@ == input[m - 1]) by {
                    assert(nodes_view(pre)[m - 1] == input.take(m)[m - 1]);
                }
                let t = input.skip(m - 1);
                assert(t[0] == input[m - 1]);
                assert(t.skip(1) =~= input.skip(m));
                assert(sort_nodes(t) == insert_node(x@, sort_nodes(input.skip(m))));
            }
            insert_sorted(&mut acc, x);
        }
        proof {
            assert(input.skip(0) =~= input);
        }
        let r = FileTree { nodes: acc };
        proof {
            lemma_sort_nodes_sorted(input);
            if paths_distinct(input) && (forall|i: int|
                0 <= i < input.len() ==> (#[trigger] input[i].path).len() > 0) {
                lemma_sort_nodes_valid(input);
            }
            assert forall|i: int|
                0 <= i < nodes@.len() implies (#[trigger] nodes_view(nodes@)[i]).path
                == nodes@[i].path@ by {}
        }
        r
    }

    /// Checks the manifest invariants: strictly ascending paths and no entry
    /// for the root itself.
    pub fn is_valid(&self) -> (r: bool)
        ensures
            r == tree_valid(self@),
    {
        let mut i: usize = 0;
        while i < self.nodes.len()
            invariant
                i <= self.nodes@.len(),
                forall|k: int| 0 <= k < i ==> (#[trigger] self@[k].path).len() > 0,
                forall|k: int| 0 <= k < i ==> k < self@.len() - 1 ==> lex_lt(
                    #[trigger] self@[k].path,
                    self@[k + 1].path,
                ),
            decreases self.nodes@.len() - i,
        {
            if self.nodes[i].path.len() == 0 {
                proof {
                    assert(self@[i as int].path.len() == 0);
                }
                return false;
            }
            if i + 1 < self.nodes.len() {
                let c = path_cmp(&self.nodes[i].path, &self.nodes[i + 1].path);
                if !(c == PathCmp::Less) {
                    proof {
                        assert(!lex_lt(self@[i as int].path, self@[i as int + 1].path));
                        assert(!strictly_sorted(self@));
                    }
                    return false;
                }
            }
            i = i + 1;
        }
        proof {
            lemma_adjacent_sorted(self@);
        }
        true
    }
}

/// Inserts a node into a path-sorted vector, keeping it sorted and matching
/// the specification-level insertion exactly.
fn insert_sorted(acc: &mut Vec<FileTreeNode>, x: FileTreeNode)
    ensures
        nodes_view(final(acc)@) == insert_node(x@, nodes_view(old(acc)@)),
{
    let ghost s = nodes_view(acc@);
    let mut j: usize = 0;
    while j < acc.len()
        invariant
            j <= acc@.len(),
            acc@ == old(acc)@,
            s == nodes_view(acc@),
            forall|k: int| 0 <= k < j ==> !lex_lt(x@.path, (#[trigger] s[k]).path),
        ensures
            j <= acc@.len(),
            acc@ == old(acc)@,
            forall|k: int| 0 <= k < j ==> !lex_lt(x@.path, (#[trigger] s[k]).path),
            j < acc@.len() ==> lex_lt(x@.path, s[j as int].path),
        decreases acc@.len() - j,
    {
        let c = path_cmp(&x.path, &acc[j].path);
        proof {
            assert(s[j as int].path == acc@[j as int].path@);
        }
        if c == PathCmp::Less {
            break ;
        }
        proof {
            lemma_lex_trichotomy(x@.path, s[j as int].path);
        }
        j = j + 1;
    }
    proof {
        lemma_insert_node_at(x@, s, j as int);
    }
    acc.insert(j, x);
    proof {
        assert(nodes_view(acc@) =~= s.take(j as int) + seq![x@] + s.skip(j as int)) by {
            assert(acc@ == old(acc)@.insert(j as int, x));
            assert(forall|k: int|
                0 <= k < j ==> (#[trigger] nodes_view(acc@)[k]) == acc@[k]@ && acc@[k] == old(
                    acc,
                )@[k]);
            assert(forall|k: int|
                j < k < acc@.len() ==> (#[trigger] nodes_view(acc@)[k]) == acc@[k]@ && acc@[k]
                    == old(acc)@[k - 1]);
            assert(acc@[j as int] == x);
            assert(nodes_view(acc@)[j as int] == x@);
        }
    }
}

/// Where the scan stopped is where the specification-level insert places the
/// node.
proof fn lemma_insert_node_at(x: NodeV, s: Seq<NodeV>, j: int)
    requires
        0 <= j <= s.len(),
        forall|k: int| 0 <= k < j ==> !lex_lt(x.path, (#[trigger] s[k]).path),
        j < s.len() ==> lex_lt(x.path, s[j].path),
    ensures
        insert_node(x, s) == s.take(j) + seq![x] + s.skip(j),
    decreases j,
{
    if j == 0 {
        if s.len() == 0 {
            assert(insert_node(x, s) =~= s.take(0) + seq![x] + s.skip(0));
        } else {
            assert(insert_node(x, s) =~= s.take(0) + seq![x] + s.skip(0));
        }
    } else {
        assert(forall|k: int| 0 <= k < j - 1 ==> (#[trigger] s.skip(1)[k]) == s[k + 1]);
        lemma_insert_node_at(x, s.skip(1), j - 1);
        assert(insert_node(x, s) == seq![s[0]] + insert_node(x, s.skip(1)));
        assert(s.skip(1).take(j - 1) =~= s.take(j).skip(1));
        assert(s.skip(1).skip(j - 1) =~= s.skip(j));
        assert(seq![s[0]] + (s.take(j).skip(1) + seq![x] + s.skip(j)) =~= s.take(j) + seq![x]
            + s.skip(j)) by {
            assert(s.take(j)[0] == s[0]);
        }
    }
}

} // verus!
