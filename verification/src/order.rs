//! Lexicographic order on relative paths in forward-slash wire form, and
//! the subtree relation between a directory path and its descendants.
//!
//! The order compares paths byte by byte with the separator ranked below
//! every other byte. That matches a component-wise path comparison: a
//! directory's descendants directly follow it, before any sibling whose
//! name extends the directory's (such as a file `d.txt` next to a
//! directory `d`), which is what the differ's subtree collapse relies on.
use vstd::prelude::*;

verus! {

/// Path separator in wire form.
pub const SLASH: u8 = 47;

/// Three-way outcome of a path comparison.
#[derive(Clone, Copy, PartialEq, Eq, Structural, Debug)]
pub enum PathCmp {
    Less,
    Equal,
    Greater,
}

/// Rank of a byte in path order: the separator sorts below everything else.
pub open spec fn byte_rank(x: u8) -> int {
    if x == SLASH {
        -1
    } else {
        x as int
    }
}

/// Strict path order: `a` sorts before `b`.
pub open spec fn lex_lt(a: Seq<u8>, b: Seq<u8>) -> bool
    decreases a.len(),
{
    if b.len() == 0 {
        false
    } else if a.len() == 0 {
        true
    } else if byte_rank(a[0]) < byte_rank(b[0]) {
        true
    } else if byte_rank(a[0]) > byte_rank(b[0]) {
        false
    } else {
        lex_lt(a.skip(1), b.skip(1))
    }
}

/// `p` names an entry strictly inside the directory `dir`: it extends `dir`
/// with a slash and at least the separator itself.
pub open spec fn is_under(dir: Seq<u8>, p: Seq<u8>) -> bool {
    &&& p.len() > dir.len()
    &&& p.take(dir.len() as int) == dir
    &&& p[dir.len() as int] == SLASH
}

/// `p` is the directory `dir` itself or one of its descendants.
pub open spec fn in_subtree(dir: Seq<u8>, p: Seq<u8>) -> bool {
    p == dir || is_under(dir, p)
}

pub proof fn lemma_lex_irrefl(a: Seq<u8>)
    ensures
        !lex_lt(a, a),
    decreases a.len(),
{
    if a.len() > 0 {
        lemma_lex_irrefl(a.skip(1));
    }
}

/// Exactly one of `a < b`, `a == b`, `b < a` holds.
pub proof fn lemma_lex_trichotomy(a: Seq<u8>, b: Seq<u8>)
    ensures
        lex_lt(a, b) || a == b || lex_lt(b, a),
        lex_lt(a, b) ==> a != b && !lex_lt(b, a),
        a == b ==> !lex_lt(a, b) && !lex_lt(b, a),
    decreases a.len(),
{
    if a.len() == 0 || b.len() == 0 {
        if a.len() == 0 && b.len() == 0 {
            assert(a =~= b);
        }
    } else if a[0] == b[0] {
        lemma_lex_trichotomy(a.skip(1), b.skip(1));
        if a.skip(1) == b.skip(1) {
            assert forall|i: int| 0 <= i < a.len() implies a[i] == b[i] by {
                if i >= 1 {
                    assert(a[i] == a.skip(1)[i - 1]);
                    assert(b[i] == b.skip(1)[i - 1]);
                }
            }
            assert(a =~= b);
        }
        if a == b {
            assert(a.skip(1) =~= b.skip(1));
        }
    } else {
        // distinct bytes have distinct ranks
        assert(byte_rank(a[0]) != byte_rank(b[0]));
    }
}

pub proof fn lemma_lex_trans(a: Seq<u8>, b: Seq<u8>, c: Seq<u8>)
    requires
        lex_lt(a, b),
        lex_lt(b, c),
    ensures
        lex_lt(a, c),
    decreases a.len(),
{
    if a.len() == 0 {
        // c has at least one byte because lex_lt(b, c) forces c nonempty
    } else {
        // lex_lt(a, b) with a nonempty forces b nonempty, hence c nonempty too
        if byte_rank(a[0]) == byte_rank(c[0]) {
            if byte_rank(a[0]) < byte_rank(b[0]) {
                assert(byte_rank(b[0]) > byte_rank(c[0]));
                assert(!lex_lt(b, c));
            } else if byte_rank(b[0]) < byte_rank(c[0]) {
                assert(byte_rank(a[0]) == byte_rank(b[0]));
                assert(byte_rank(b[0]) < byte_rank(b[0]));
            } else {
                lemma_lex_trans(a.skip(1), b.skip(1), c.skip(1));
            }
        } else if byte_rank(a[0]) > byte_rank(c[0]) {
            if byte_rank(a[0]) <= byte_rank(b[0]) && byte_rank(b[0]) <= byte_rank(c[0]) {
            } else if byte_rank(a[0]) > byte_rank(b[0]) {
                assert(!lex_lt(a, b));
            } else {
                assert(byte_rank(b[0]) > byte_rank(c[0]));
                assert(!lex_lt(b, c));
            }
        }
    }
}

/// A proper prefix extended by anything sorts before its extension;
/// in particular a directory sorts before everything under it.
pub proof fn lemma_under_implies_lt(dir: Seq<u8>, p: Seq<u8>)
    requires
        is_under(dir, p),
    ensures
        lex_lt(dir, p),
    decreases dir.len(),
{
    if dir.len() == 0 {
    } else {
        assert(p[0] == dir[0]) by {
            assert(p.take(dir.len() as int)[0] == p[0]);
        }
        assert(is_under(dir.skip(1), p.skip(1))) by {
            assert(p.skip(1).take(dir.len() - 1) =~= dir.skip(1)) by {
                assert(forall|i: int|
                    0 <= i < dir.len() - 1 ==> #[trigger] p.skip(1).take(dir.len() - 1)[i] == p.take(
                        dir.len() as int,
                    )[i + 1]);
            }
        }
        lemma_under_implies_lt(dir.skip(1), p.skip(1));
    }
}

/// Subtree contiguity: with the separator ranked lowest, a directory's
/// descendants form one contiguous run right after it. Everything strictly
/// between the directory and one of its descendants is itself inside the
/// directory.
pub proof fn lemma_subtree_contiguous(dir: Seq<u8>, e: Seq<u8>, f: Seq<u8>)
    requires
        lex_lt(dir, e),
        lex_lt(e, f),
        is_under(dir, f),
    ensures
        is_under(dir, e),
    decreases dir.len(),
{
    assert(f[0] == dir[0] || dir.len() == 0) by {
        if dir.len() > 0 {
            assert(f.take(dir.len() as int)[0] == f[0]);
        }
    }
    if dir.len() == 0 {
        // f starts with the separator, the lowest rank, so e does too
        assert(f[0] == SLASH);
        assert(e.len() > 0);
        assert(e[0] == SLASH) by {
            if e[0] != SLASH {
                assert(byte_rank(e[0]) > byte_rank(f[0]));
                assert(!lex_lt(e, f));
            }
        }
        assert(e.take(0) =~= dir);
    } else {
        assert(e.len() > 0);
        assert(e[0] == dir[0]) by {
            if byte_rank(e[0]) > byte_rank(dir[0]) {
                // then e would also sort after f, which shares dir's head
                assert(byte_rank(e[0]) > byte_rank(f[0]));
                assert(!lex_lt(e, f));
            } else if byte_rank(e[0]) < byte_rank(dir[0]) {
                assert(!lex_lt(dir, e));
            } else {
                assert(byte_rank(e[0]) == byte_rank(dir[0]));
            }
        }
        assert(is_under(dir.skip(1), f.skip(1))) by {
            assert(f.skip(1).take(dir.len() - 1) =~= dir.skip(1)) by {
                assert(forall|i: int|
                    0 <= i < dir.len() - 1 ==> #[trigger] f.skip(1).take(dir.len() - 1)[i] == f.take(
                        dir.len() as int,
                    )[i + 1]);
            }
        }
        lemma_subtree_contiguous(dir.skip(1), e.skip(1), f.skip(1));
        assert(e.take(dir.len() as int) =~= dir) by {
            assert(forall|i: int|
                1 <= i < dir.len() ==> #[trigger] e.take(dir.len() as int)[i] == e.skip(1).take(
                    dir.len() - 1,
                )[i - 1]);
            assert(e.take(dir.len() as int)[0] == e[0]);
        }
        assert(e[dir.len() as int] == e.skip(1)[dir.len() - 1]);
    }
}

/// Compares two paths in separator-lowest byte order.
pub fn path_cmp(a: &Vec<u8>, b: &Vec<u8>) -> (r: PathCmp)
    ensures
        (r == PathCmp::Less) <==> lex_lt(a@, b@),
        (r == PathCmp::Equal) <==> a@ == b@,
        (r == PathCmp::Greater) <==> lex_lt(b@, a@),
{
    proof {
        lemma_lex_trichotomy(a@, b@);
    }
    let n = if a.len() < b.len() {
        a.len()
    } else {
        b.len()
    };
    let mut i: usize = 0;
    while i < n
        invariant
            i <= n,
            n <= a@.len(),
            n <= b@.len(),
            forall|j: int| 0 <= j < i ==> a@[j] == b@[j],
        decreases n - i,
    {
        let x = a[i];
        let y = b[i];
        if x != y {
            let less = if x == SLASH {
                true
            } else if y == SLASH {
                false
            } else {
                x < y
            };
            proof {
                assert(byte_rank(a@[i as int]) != byte_rank(b@[i as int]));
                assert(less == (byte_rank(a@[i as int]) < byte_rank(b@[i as int])));
                assert(a@.skip(i as int)[0] == a@[i as int]);
                assert(b@.skip(i as int)[0] == b@[i as int]);
                lemma_lex_skip_common(a@, b@, i as int);
                lemma_lex_skip_common(b@, a@, i as int);
                lemma_lex_trichotomy(a@, b@);
            }
            if less {
                return PathCmp::Less;
            } else {
                return PathCmp::Greater;
            }
        }
        i = i + 1;
    }
    if a.len() == b.len() {
        proof {
            assert(a@ =~= b@);
            lemma_lex_trichotomy(a@, b@);
        }
        PathCmp::Equal
    } else if a.len() < b.len() {
        proof {
            lemma_lex_skip_common(a@, b@, n as int);
            assert(a@.skip(n as int).len() == 0);
            assert(b@.skip(n as int).len() > 0);
            lemma_lex_trichotomy(a@, b@);
        }
        PathCmp::Less
    } else {
        proof {
            lemma_lex_skip_common(b@, a@, n as int);
            assert(b@.skip(n as int).len() == 0);
            assert(a@.skip(n as int).len() > 0);
            lemma_lex_trichotomy(a@, b@);
        }
        PathCmp::Greater
    }
}

/// If the first `i` bytes agree, the comparison is decided by the tails.
proof fn lemma_lex_skip_common(a: Seq<u8>, b: Seq<u8>, i: int)
    requires
        0 <= i <= a.len(),
        i <= b.len(),
        forall|j: int| 0 <= j < i ==> a[j] == b[j],
    ensures
        lex_lt(a, b) == lex_lt(a.skip(i), b.skip(i)),
    decreases i,
{
    if i == 0 {
        assert(a.skip(0) =~= a);
        assert(b.skip(0) =~= b);
    } else {
        assert(a[0] == b[0]);
        assert(forall|j: int| 0 <= j < i - 1 ==> a.skip(1)[j] == b.skip(1)[j]);
        lemma_lex_skip_common(a.skip(1), b.skip(1), i - 1);
        assert(a.skip(1).skip(i - 1) =~= a.skip(i));
        assert(b.skip(1).skip(i - 1) =~= b.skip(i));
    }
}

/// Tests whether `p` is `dir` itself or lies inside it.
pub fn path_in_subtree(dir: &Vec<u8>, p: &Vec<u8>) -> (r: bool)
    ensures
        r == in_subtree(dir@, p@),
{
    if p.len() < dir.len() {
        proof {
            assert(p@.len() != dir@.len() ==> p@ != dir@);
        }
        return false;
    }
    let mut i: usize = 0;
    while i < dir.len()
        invariant
            i <= dir@.len(),
            dir@.len() <= p@.len(),
            forall|j: int| 0 <= j < i ==> p@[j] == dir@[j],
        decreases dir@.len() - i,
    {
        if p[i] != dir[i] {
            proof {
                assert(p@ != dir@) by {
                    assert(p@[i as int] != dir@[i as int]);
                }
                assert(p@.take(dir@.len() as int)[i as int] == p@[i as int]);
            }
            return false;
        }
        i = i + 1;
    }
    if p.len() == dir.len() {
        proof {
            assert(p@ =~= dir@);
        }
        true
    } else {
        proof {
            assert(p@.take(dir@.len() as int) =~= dir@);
            assert(p@ != dir@);
        }
        p[dir.len()] == SLASH
    }
}

} // verus!
