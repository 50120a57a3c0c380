//! The wire codec: a fixed-schema binary serialization of manifests,
//! request lists and mutation messages. Integers are little-endian; tags are
//! u32; collections and byte strings are u64-length-prefixed; a file node
//! carries its 20-byte digest raw. Both endpoints must agree on this schema
//! exactly, so every encoder is pinned to a specification-level byte string
//! and every decoder to a specification-level parser.
use vstd::prelude::*;

use crate::file_tree::{nodes_view, FileTree, FileTreeNode, FileTreeNodeType, NodeKindV, NodeV};
use crate::message::{reqs_view, FileChangeMessage, MsgV, ReqV, RequestMessage};

verus! {

// --- specification-level encoders ---
pub open spec fn u32_le(x: u32) -> Seq<u8> {
    seq![
        (x & 0xff) as u8,
        ((x >> 8) & 0xff) as u8,
        ((x >> 16) & 0xff) as u8,
        ((x >> 24) & 0xff) as u8,
    ]
}

pub open spec fn u64_le(x: u64) -> Seq<u8> {
    seq![
        (x & 0xff) as u8,
        ((x >> 8) & 0xff) as u8,
        ((x >> 16) & 0xff) as u8,
        ((x >> 24) & 0xff) as u8,
        ((x >> 32) & 0xff) as u8,
        ((x >> 40) & 0xff) as u8,
        ((x >> 48) & 0xff) as u8,
        ((x >> 56) & 0xff) as u8,
    ]
}

pub open spec fn enc_bytes(b: Seq<u8>) -> Seq<u8> {
    u64_le(b.len() as u64) + b
}

pub open spec fn enc_kind(k: NodeKindV) -> Seq<u8> {
    match k {
        NodeKindV::File(h) => u32_le(0) + h,
        NodeKindV::Dir => u32_le(1),
    }
}

pub open spec fn enc_node(n: NodeV) -> Seq<u8> {
    enc_bytes(n.path) + enc_kind(n.kind)
}

pub open spec fn enc_nodes(s: Seq<NodeV>) -> Seq<u8>
    decreases s.len(),
{
    if s.len() == 0 {
        Seq::empty()
    } else {
        enc_node(s[0]) + enc_nodes(s.skip(1))
    }
}

pub open spec fn enc_tree(s: Seq<NodeV>) -> Seq<u8> {
    u64_le(s.len() as u64) + enc_nodes(s)
}

pub open spec fn enc_req(r: ReqV) -> Seq<u8> {
    match r {
        ReqV::File(p) => u32_le(0) + enc_bytes(p),
        ReqV::Dir(p) => u32_le(1) + enc_bytes(p),
    }
}

pub open spec fn enc_req_seq(s: Seq<ReqV>) -> Seq<u8>
    decreases s.len(),
{
    if s.len() == 0 {
        Seq::empty()
    } else {
        enc_req(s[0]) + enc_req_seq(s.skip(1))
    }
}

pub open spec fn enc_requests(s: Seq<ReqV>) -> Seq<u8> {
    u64_le(s.len() as u64) + enc_req_seq(s)
}

pub open spec fn enc_msg(m: MsgV) -> Seq<u8> {
    match m {
        MsgV::FileCreated(p) => u32_le(0) + enc_bytes(p),
        MsgV::FileDeleted(p) => u32_le(1) + enc_bytes(p),
        MsgV::FileEdited(p, b) => u32_le(2) + enc_bytes(p) + enc_bytes(b),
        MsgV::EmptyDirectoryCreated(p) => u32_le(3) + enc_bytes(p),
        MsgV::DirectoryCreated(p, b) => u32_le(4) + enc_bytes(p) + enc_bytes(b),
        MsgV::DirectoryDeleted(p) => u32_le(5) + enc_bytes(p),
        MsgV::Rename(a, b) => u32_le(6) + enc_bytes(a) + enc_bytes(b),
        MsgV::DirectoryContentsEdited(p) => u32_le(7) + enc_bytes(p),
    }
}

// --- specification-level parsers (consuming) ---
pub open spec fn u32_from_le(b: Seq<u8>) -> u32
    recommends
        b.len() == 4,
{
    (b[0] as u32) | ((b[1] as u32) << 8) | ((b[2] as u32) << 16) | ((b[3] as u32) << 24)
}

pub open spec fn u64_from_le(b: Seq<u8>) -> u64
    recommends
        b.len() == 8,
{
    (b[0] as u64) | ((b[1] as u64) << 8) | ((b[2] as u64) << 16) | ((b[3] as u64) << 24) | ((
    b[4] as u64) << 32) | ((b[5] as u64) << 40) | ((b[6] as u64) << 48) | ((b[7] as u64) << 56)
}

pub open spec fn dec_u32(s: Seq<u8>) -> Option<(u32, Seq<u8>)> {
    if s.len() >= 4 {
        Some((u32_from_le(s.take(4)), s.skip(4)))
    } else {
        None
    }
}

pub open spec fn dec_u64(s: Seq<u8>) -> Option<(u64, Seq<u8>)> {
    if s.len() >= 8 {
        Some((u64_from_le(s.take(8)), s.skip(8)))
    } else {
        None
    }
}

pub open spec fn dec_bytes(s: Seq<u8>) -> Option<(Seq<u8>, Seq<u8>)> {
    match dec_u64(s) {
        Some((n, rest)) => if n <= rest.len() {
            Some((rest.take(n as int), rest.skip(n as int)))
        } else {
            None
        },
        None => None,
    }
}

pub open spec fn dec_kind(s: Seq<u8>) -> Option<(NodeKindV, Seq<u8>)> {
    match dec_u32(s) {
        Some((tag, rest)) => if tag == 0 {
            if rest.len() >= 20 {
                Some((NodeKindV::File(rest.take(20)), rest.skip(20)))
            } else {
                None
            }
        } else if tag == 1 {
            Some((NodeKindV::Dir, rest))
        } else {
            None
        },
        None => None,
    }
}

pub open spec fn dec_node(s: Seq<u8>) -> Option<(NodeV, Seq<u8>)> {
    match dec_bytes(s) {
        Some((p, r1)) => match dec_kind(r1) {
            Some((k, r2)) => Some((NodeV { path: p, kind: k }, r2)),
            None => None,
        },
        None => None,
    }
}

pub open spec fn dec_nodes(s: Seq<u8>, count: nat) -> Option<(Seq<NodeV>, Seq<u8>)>
    decreases count,
{
    if count == 0 {
        Some((Seq::empty(), s))
    } else {
        match dec_node(s) {
            Some((n, r)) => match dec_nodes(r, (count - 1) as nat) {
                Some((ns, r2)) => Some((seq![n] + ns, r2)),
                None => None,
            },
            None => None,
        }
    }
}

/// The manifest a whole frame decodes to, if it is well-formed and nothing
/// trails it.
pub open spec fn parse_tree(b: Seq<u8>) -> Option<Seq<NodeV>> {
    match dec_u64(b) {
        Some((c, rest)) => match dec_nodes(rest, c as nat) {
            Some((ns, r2)) => if r2.len() == 0 {
                Some(ns)
            } else {
                None
            },
            None => None,
        },
        None => None,
    }
}

pub open spec fn dec_req(s: Seq<u8>) -> Option<(ReqV, Seq<u8>)> {
    match dec_u32(s) {
        Some((tag, rest)) => if tag == 0 {
            match dec_bytes(rest) {
                Some((p, r2)) => Some((ReqV::File(p), r2)),
                None => None,
            }
        } else if tag == 1 {
            match dec_bytes(rest) {
                Some((p, r2)) => Some((ReqV::Dir(p), r2)),
                None => None,
            }
        } else {
            None
        },
        None => None,
    }
}

pub open spec fn dec_req_seq(s: Seq<u8>, count: nat) -> Option<(Seq<ReqV>, Seq<u8>)>
    decreases count,
{
    if count == 0 {
        Some((Seq::empty(), s))
    } else {
        match dec_req(s) {
            Some((r, rest)) => match dec_req_seq(rest, (count - 1) as nat) {
                Some((rs, r2)) => Some((seq![r] + rs, r2)),
                None => None,
            },
            None => None,
        }
    }
}

/// The request list a whole frame decodes to.
pub open spec fn parse_requests(b: Seq<u8>) -> Option<Seq<ReqV>> {
    match dec_u64(b) {
        Some((c, rest)) => match dec_req_seq(rest, c as nat) {
            Some((rs, r2)) => if r2.len() == 0 {
                Some(rs)
            } else {
                None
            },
            None => None,
        },
        None => None,
    }
}

pub open spec fn dec_msg(s: Seq<u8>) -> Option<(MsgV, Seq<u8>)> {
    match dec_u32(s) {
        Some((tag, rest)) => if tag == 0 {
            match dec_bytes(rest) {
                Some((p, r2)) => Some((MsgV::FileCreated(p), r2)),
                None => None,
            }
        } else if tag == 1 {
            match dec_bytes(rest) {
                Some((p, r2)) => Some((MsgV::FileDeleted(p), r2)),
                None => None,
            }
        } else if tag == 2 {
            match dec_bytes(rest) {
                Some((p, r2)) => match dec_bytes(r2) {
                    Some((b, r3)) => Some((MsgV::FileEdited(p, b), r3)),
                    None => None,
                },
                None => None,
            }
        } else if tag == 3 {
            match dec_bytes(rest) {
                Some((p, r2)) => Some((MsgV::EmptyDirectoryCreated(p), r2)),
                None => None,
            }
        } else if tag == 4 {
            match dec_bytes(rest) {
                Some((p, r2)) => match dec_bytes(r2) {
                    Some((b, r3)) => Some((MsgV::DirectoryCreated(p, b), r3)),
                    None => None,
                },
                None => None,
            }
        } else if tag == 5 {
            match dec_bytes(rest) {
                Some((p, r2)) => Some((MsgV::DirectoryDeleted(p), r2)),
                None => None,
            }
        } else if tag == 6 {
            match dec_bytes(rest) {
                Some((p, r2)) => match dec_bytes(r2) {
                    Some((b, r3)) => Some((MsgV::Rename(p, b), r3)),
                    None => None,
                },
                None => None,
            }
        } else if tag == 7 {
            match dec_bytes(rest) {
                Some((p, r2)) => Some((MsgV::DirectoryContentsEdited(p), r2)),
                None => None,
            }
        } else {
            None
        },
        None => None,
    }
}

/// The mutation message a whole frame decodes to.
pub open spec fn parse_msg(b: Seq<u8>) -> Option<MsgV> {
    match dec_msg(b) {
        Some((m, rest)) => if rest.len() == 0 {
            Some(m)
        } else {
            None
        },
        None => None,
    }
}

// --- exec encoders ---
/// Appends a little-endian u32.
fn push_u32(buf: &mut Vec<u8>, x: u32)
    ensures
        final(buf)@ == old(buf)@ + u32_le(x),
{
    buf.push((x & 0xff) as u8);
    buf.push(((x >> 8) & 0xff) as u8);
    buf.push(((x >> 16) & 0xff) as u8);
    buf.push(((x >> 24) & 0xff) as u8);
    proof {
        assert(buf@ =~= old(buf)@ + u32_le(x));
    }
}

/// Appends a little-endian u64.
fn push_u64(buf: &mut Vec<u8>, x: u64)
    ensures
        final(buf)@ == old(buf)@ + u64_le(x),
{
    buf.push((x & 0xff) as u8);
    buf.push(((x >> 8) & 0xff) as u8);
    buf.push(((x >> 16) & 0xff) as u8);
    buf.push(((x >> 24) & 0xff) as u8);
    buf.push(((x >> 32) & 0xff) as u8);
    buf.push(((x >> 40) & 0xff) as u8);
    buf.push(((x >> 48) & 0xff) as u8);
    buf.push(((x >> 56) & 0xff) as u8);
    proof {
        assert(buf@ =~= old(buf)@ + u64_le(x));
    }
}

/// Appends raw bytes.
fn push_raw(buf: &mut Vec<u8>, b: &Vec<u8>)
    ensures
        final(buf)@ == old(buf)@ + b@,
{
    let mut i: usize = 0;
    while i < b.len()
        invariant
            i <= b@.len(),
            buf@ == old(buf)@ + b@.take(i as int),
        decreases b@.len() - i,
    {
        let ghost pre = buf@;
        buf.push(b[i]);
        proof {
            assert(buf@ =~= old(buf)@ + b@.take(i as int + 1));
        }
        i = i + 1;
    }
    proof {
        assert(b@.take(b@.len() as int) =~= b@);
    }
}

/// Appends a u64-length-prefixed byte string.
fn push_bytes(buf: &mut Vec<u8>, b: &Vec<u8>)
    ensures
        final(buf)@ == old(buf)@ + enc_bytes(b@),
{
    push_u64(buf, b.len() as u64);
    push_raw(buf, b);
    proof {
        assert((old(buf)@ + u64_le(b@.len() as u64)) + b@ =~= old(buf)@ + enc_bytes(b@));
    }
}

/// Appends one encoded manifest node.
fn push_node(buf: &mut Vec<u8>, n: &FileTreeNode)
    ensures
        final(buf)@ == old(buf)@ + enc_node(n@),
{
    push_bytes(buf, &n.path);
    match &n.typ {
        FileTreeNodeType::File { sha1 } => {
            push_u32(buf, 0);
            push_raw(buf, sha1);
            proof {
                assert(((old(buf)@ + enc_bytes(n@.path)) + u32_le(0)) + sha1@ =~= old(buf)@
                    + enc_node(n@));
            }
        },
        FileTreeNodeType::Dir => {
            proof {
                assert((old(buf)@ + enc_bytes(n@.path)) + u32_le(1) =~= old(buf)@ + enc_node(n@));
            }
            push_u32(buf, 1);
        },
    }
}

/// Appending one node extends the encoding of a node sequence.
proof fn lemma_enc_nodes_snoc(a: Seq<NodeV>, x: NodeV)
    ensures
        enc_nodes(a.push(x)) == enc_nodes(a) + enc_node(x),
    decreases a.len(),
{
    if a.len() == 0 {
        assert(a.push(x)[0] == x);
        assert(a.push(x).skip(1) =~= Seq::<NodeV>::empty());
        assert(enc_nodes(Seq::<NodeV>::empty()) == Seq::<u8>::empty());
        assert(enc_nodes(a.push(x)) == enc_node(x) + Seq::<u8>::empty());
        assert(enc_node(x) + Seq::<u8>::empty() =~= enc_node(x));
        assert(Seq::<u8>::empty() + enc_node(x) =~= enc_node(x));
    } else {
        assert(a.push(x)[0] == a[0]);
        assert(a.push(x).skip(1) =~= a.skip(1).push(x));
        lemma_enc_nodes_snoc(a.skip(1), x);
        assert(enc_nodes(a.push(x)) == enc_node(a[0]) + enc_nodes(a.skip(1).push(x)));
        assert(enc_nodes(a) == enc_node(a[0]) + enc_nodes(a.skip(1)));
        assert(enc_node(a[0]) + (enc_nodes(a.skip(1)) + enc_node(x)) =~= (enc_node(a[0])
            + enc_nodes(a.skip(1))) + enc_node(x));
    }
}

/// Encodes a manifest for the wire: the node count, then each node in order.
pub fn encode_file_tree(t: &FileTree) -> (r: Vec<u8>)
    ensures
        r@ == enc_tree(t@),
{
    let mut buf: Vec<u8> = Vec::new();
    push_u64(&mut buf, t.nodes.len() as u64);
    proof {
        assert(t@.len() == t.nodes@.len());
        assert(enc_nodes(t@.take(0)) =~= Seq::<u8>::empty()) by {
            assert(t@.take(0) =~= Seq::<NodeV>::empty());
        }
        assert(buf@ =~= u64_le(t@.len() as u64) + enc_nodes(t@.take(0))) by {
            assert(Seq::<u8>::empty() + u64_le(t@.len() as u64) =~= u64_le(t@.len() as u64));
        }
    }
    let mut i: usize = 0;
    while i < t.nodes.len()
        invariant
            i <= t@.len(),
            t@.len() == t.nodes@.len(),
            buf@ == u64_le(t@.len() as u64) + enc_nodes(t@.take(i as int)),
        decreases t@.len() - i,
    {
        let ghost pre = buf@;
        push_node(&mut buf, &t.nodes[i]);
        proof {
            assert(t.nodes@[i as int]@ == t@[i as int]);
            assert(t@.take(i as int + 1) =~= t@.take(i as int).push(t@[i as int]));
            lemma_enc_nodes_snoc(t@.take(i as int), t@[i as int]);
            assert(buf@ =~= u64_le(t@.len() as u64) + enc_nodes(t@.take(i as int + 1)));
        }
        i = i + 1;
    }
    proof {
        assert(t@.take(t@.len() as int) =~= t@);
    }
    buf
}

/// Appending one request extends the encoding of a request sequence.
proof fn lemma_enc_reqs_snoc(a: Seq<ReqV>, x: ReqV)
    ensures
        enc_req_seq(a.push(x)) == enc_req_seq(a) + enc_req(x),
    decreases a.len(),
{
    if a.len() == 0 {
        assert(a.push(x)[0] == x);
        assert(a.push(x).skip(1) =~= Seq::<ReqV>::empty());
        assert(enc_req_seq(Seq::<ReqV>::empty()) == Seq::<u8>::empty());
        assert(enc_req_seq(a.push(x)) == enc_req(x) + Seq::<u8>::empty());
        assert(enc_req(x) + Seq::<u8>::empty() =~= enc_req(x));
        assert(Seq::<u8>::empty() + enc_req(x) =~= enc_req(x));
    } else {
        assert(a.push(x)[0] == a[0]);
        assert(a.push(x).skip(1) =~= a.skip(1).push(x));
        lemma_enc_reqs_snoc(a.skip(1), x);
        assert(enc_req_seq(a.push(x)) == enc_req(a[0]) + enc_req_seq(a.skip(1).push(x)));
        assert(enc_req_seq(a) == enc_req(a[0]) + enc_req_seq(a.skip(1)));
        assert(enc_req(a[0]) + (enc_req_seq(a.skip(1)) + enc_req(x)) =~= (enc_req(a[0])
            + enc_req_seq(a.skip(1))) + enc_req(x));
    }
}

/// Encodes a request list for the wire.
pub fn encode_requests(rs: &Vec<RequestMessage>) -> (r: Vec<u8>)
    ensures
        r@ == enc_requests(reqs_view(rs@)),
{
    let ghost rv = reqs_view(rs@);
    let mut buf: Vec<u8> = Vec::new();
    push_u64(&mut buf, rs.len() as u64);
    proof {
        assert(rv.len() == rs@.len());
        assert(enc_req_seq(rv.take(0)) =~= Seq::<u8>::empty()) by {
            assert(rv.take(0) =~= Seq::<ReqV>::empty());
        }
        assert(buf@ =~= u64_le(rv.len() as u64) + enc_req_seq(rv.take(0))) by {
            assert(Seq::<u8>::empty() + u64_le(rv.len() as u64) =~= u64_le(rv.len() as u64));
        }
    }
    let mut i: usize = 0;
    while i < rs.len()
        invariant
            i <= rv.len(),
            rv.len() == rs@.len(),
            rv == reqs_view(rs@),
            buf@ == u64_le(rv.len() as u64) + enc_req_seq(rv.take(i as int)),
        decreases rv.len() - i,
    {
        match &rs[i] {
            RequestMessage::File(p) => {
                push_u32(&mut buf, 0);
                push_bytes(&mut buf, p);
            },
            RequestMessage::Dir(p) => {
                push_u32(&mut buf, 1);
                push_bytes(&mut buf, p);
            },
        }
        proof {
            assert(rs@[i as int]@ == rv[i as int]);
            assert(rv.take(i as int + 1) =~= rv.take(i as int).push(rv[i as int]));
            lemma_enc_reqs_snoc(rv.take(i as int), rv[i as int]);
            assert(buf@ =~= u64_le(rv.len() as u64) + enc_req_seq(rv.take(i as int + 1)));
        }
        i = i + 1;
    }
    proof {
        assert(rv.take(rv.len() as int) =~= rv);
    }
    buf
}

/// Encodes one mutation message for the wire: its tag, then its payload.
pub fn encode_message(m: &FileChangeMessage) -> (r: Vec<u8>)
    ensures
        r@ == enc_msg(m@),
{
    let mut buf: Vec<u8> = Vec::new();
    match m {
        FileChangeMessage::FileCreated(p) => {
            push_u32(&mut buf, 0);
            push_bytes(&mut buf, p);
        },
        FileChangeMessage::FileDeleted(p) => {
            push_u32(&mut buf, 1);
            push_bytes(&mut buf, p);
        },
        FileChangeMessage::FileEdited(p, b) => {
            push_u32(&mut buf, 2);
            push_bytes(&mut buf, p);
            push_bytes(&mut buf, b);
        },
        FileChangeMessage::EmptyDirectoryCreated(p) => {
            push_u32(&mut buf, 3);
            push_bytes(&mut buf, p);
        },
        FileChangeMessage::DirectoryCreated(p, b) => {
            push_u32(&mut buf, 4);
            push_bytes(&mut buf, p);
            push_bytes(&mut buf, b);
        },
        FileChangeMessage::DirectoryDeleted(p) => {
            push_u32(&mut buf, 5);
            push_bytes(&mut buf, p);
        },
        FileChangeMessage::Rename(a, b) => {
            push_u32(&mut buf, 6);
            push_bytes(&mut buf, a);
            push_bytes(&mut buf, b);
        },
        FileChangeMessage::DirectoryContentsEdited(p) => {
            push_u32(&mut buf, 7);
            push_bytes(&mut buf, p);
        },
    }
    proof {
        assert(buf@ =~= enc_msg(m@));
    }
    buf
}

// --- exec decoders ---
/// Reads a little-endian u32 at `pos`.
fn read_u32(buf: &Vec<u8>, pos: usize) -> (r: Option<(u32, usize)>)
    requires
        pos <= buf@.len(),
    ensures
        match r {
            Some(p) => p.1 == pos + 4 && p.1 <= buf@.len() && dec_u32(buf@.skip(pos as int))
                == Some((p.0, buf@.skip(p.1 as int))),
            None => dec_u32(buf@.skip(pos as int)) is None,
        },
{
    if buf.len() - pos >= 4 {
        let x = (buf[pos] as u32) | ((buf[pos + 1] as u32) << 8) | ((buf[pos + 2] as u32) << 16) | (
        (buf[pos + 3] as u32) << 24);
        proof {
            let s = buf@.skip(pos as int);
            assert(s.take(4) =~= seq![
                buf@[pos as int],
                buf@[pos as int + 1],
                buf@[pos as int + 2],
                buf@[pos as int + 3],
            ]);
            assert(s.skip(4) =~= buf@.skip(pos as int + 4));
            assert(u32_from_le(s.take(4)) == x);
        }
        Some((x, pos + 4))
    } else {
        None
    }
}

/// Reads a little-endian u64 at `pos`.
fn read_u64(buf: &Vec<u8>, pos: usize) -> (r: Option<(u64, usize)>)
    requires
        pos <= buf@.len(),
    ensures
        match r {
            Some(p) => p.1 == pos + 8 && p.1 <= buf@.len() && dec_u64(buf@.skip(pos as int))
                == Some((p.0, buf@.skip(p.1 as int))),
            None => dec_u64(buf@.skip(pos as int)) is None,
        },
{
    if buf.len() - pos >= 8 {
        let x = (buf[pos] as u64) | ((buf[pos + 1] as u64) << 8) | ((buf[pos + 2] as u64) << 16) | (
        (buf[pos + 3] as u64) << 24) | ((buf[pos + 4] as u64) << 32) | ((buf[pos + 5] as u64) << 40)
            | ((buf[pos + 6] as u64) << 48) | ((buf[pos + 7] as u64) << 56);
        proof {
            let s = buf@.skip(pos as int);
            assert(s.take(8) =~= seq![
                buf@[pos as int],
                buf@[pos as int + 1],
                buf@[pos as int + 2],
                buf@[pos as int + 3],
                buf@[pos as int + 4],
                buf@[pos as int + 5],
                buf@[pos as int + 6],
                buf@[pos as int + 7],
            ]);
            assert(s.skip(8) =~= buf@.skip(pos as int + 8));
            assert(u64_from_le(s.take(8)) == x);
        }
        Some((x, pos + 8))
    } else {
        None
    }
}

/// Reads a u64-length-prefixed byte string at `pos`.
fn read_bytes(buf: &Vec<u8>, pos: usize) -> (r: Option<(Vec<u8>, usize)>)
    requires
        pos <= buf@.len(),
    ensures
        match r {
            Some(p) => pos <= p.1 <= buf@.len() && dec_bytes(buf@.skip(pos as int)) == Some(
                (p.0@, buf@.skip(p.1 as int)),
            ),
            None => dec_bytes(buf@.skip(pos as int)) is None,
        },
{
    let (n, p1) = match read_u64(buf, pos) {
        Some(p) => p,
        None => {
            return None;
        },
    };
    if n > (buf.len() - p1) as u64 {
        proof {
            assert(buf@.skip(p1 as int).len() == buf@.len() - p1);
        }
        return None;
    }
    let len = n as usize;
    let end = p1 + len;
    let mut v: Vec<u8> = Vec::new();
    let mut j: usize = p1;
    while j < end
        invariant
            p1 <= j <= end,
            end <= buf@.len(),
            v@ == buf@.subrange(p1 as int, j as int),
        decreases end - j,
    {
        v.push(buf[j]);
        proof {
            assert(v@ =~= buf@.subrange(p1 as int, j as int + 1));
        }
        j = j + 1;
    }
    proof {
        let rest = buf@.skip(p1 as int);
        assert(rest.take(n as int) =~= buf@.subrange(p1 as int, p1 as int + n as int));
        assert(rest.skip(n as int) =~= buf@.skip(p1 as int + n as int));
    }
    Some((v, end))
}

/// Reads an encoded node kind at `pos`.
fn read_kind(buf: &Vec<u8>, pos: usize) -> (r: Option<(FileTreeNodeType, usize)>)
    requires
        pos <= buf@.len(),
    ensures
        match r {
            Some(p) => pos <= p.1 <= buf@.len() && dec_kind(buf@.skip(pos as int)) == Some(
                (p.0@, buf@.skip(p.1 as int)),
            ),
            None => dec_kind(buf@.skip(pos as int)) is None,
        },
{
    let (tag, p1) = match read_u32(buf, pos) {
        Some(p) => p,
        None => {
            return None;
        },
    };
    if tag == 0 {
        if buf.len() - p1 < 20 {
            proof {
                assert(buf@.skip(p1 as int).len() < 20);
            }
            return None;
        }
        let hend = p1 + 20;
        let mut h: Vec<u8> = Vec::new();
        let mut j: usize = p1;
        while j < hend
            invariant
                p1 <= j <= hend,
                hend == p1 + 20,
                hend <= buf@.len(),
                h@ == buf@.subrange(p1 as int, j as int),
            decreases hend - j,
        {
            h.push(buf[j]);
            proof {
                assert(h@ =~= buf@.subrange(p1 as int, j as int + 1));
            }
            j = j + 1;
        }
        proof {
            let rest = buf@.skip(p1 as int);
            assert(rest.take(20) =~= buf@.subrange(p1 as int, p1 as int + 20));
            assert(rest.skip(20) =~= buf@.skip(p1 as int + 20));
        }
        Some((FileTreeNodeType::File { sha1: h }, p1 + 20))
    } else if tag == 1 {
        Some((FileTreeNodeType::Dir, p1))
    } else {
        None
    }
}

/// Reads one encoded manifest node at `pos`.
fn read_node(buf: &Vec<u8>, pos: usize) -> (r: Option<(FileTreeNode, usize)>)
    requires
        pos <= buf@.len(),
    ensures
        match r {
            Some(p) => pos <= p.1 <= buf@.len() && dec_node(buf@.skip(pos as int)) == Some(
                (p.0@, buf@.skip(p.1 as int)),
            ),
            None => dec_node(buf@.skip(pos as int)) is None,
        },
{
    let (path, p1) = match read_bytes(buf, pos) {
        Some(p) => p,
        None => {
            return None;
        },
    };
    let (typ, p2) = match read_kind(buf, p1) {
        Some(p) => p,
        None => {
            return None;
        },
    };
    Some((FileTreeNode { path, typ }, p2))
}

/// A prefix of the node count splits the parse of the whole count.
proof fn lemma_dec_nodes_split(s: Seq<u8>, t: nat, c: nat)
    requires
        t <= c,
    ensures
        match dec_nodes(s, t) {
            Some(p1) => dec_nodes(s, c) == (match dec_nodes(p1.1, (c - t) as nat) {
                Some(p2) => Some::<(Seq<NodeV>, Seq<u8>)>((p1.0 + p2.0, p2.1)),
                None => None::<(Seq<NodeV>, Seq<u8>)>,
            }),
            None => dec_nodes(s, c) is None,
        },
    decreases t,
{
    if t == 0 {
        match dec_nodes(s, c) {
            Some(p2) => {
                assert(Seq::<NodeV>::empty() + p2.0 =~= p2.0);
            },
            None => {},
        }
    } else {
        match dec_node(s) {
            Some(p) => {
                lemma_dec_nodes_split(p.1, (t - 1) as nat, (c - 1) as nat);
                match dec_nodes(p.1, (t - 1) as nat) {
                    Some(q1) => {
                        match dec_nodes(q1.1, (c - t) as nat) {
                            Some(q2) => {
                                assert((seq![p.0] + q1.0) + q2.0 =~= seq![p.0] + (q1.0 + q2.0));
                            },
                            None => {},
                        }
                    },
                    None => {},
                }
            },
            None => {},
        }
    }
}

/// Pushing a node commutes with taking the view of the list.
proof fn lemma_nodes_view_push(v: Seq<FileTreeNode>, x: FileTreeNode)
    ensures
        nodes_view(v.push(x)) == nodes_view(v).push(x@),
{
    assert(nodes_view(v.push(x)) =~= nodes_view(v).push(x@));
}

/// Decodes a whole frame as a manifest. Returns the manifest exactly when
/// the frame is a well-formed encoding with nothing trailing it.
pub fn decode_file_tree(bytes: &Vec<u8>) -> (r: Option<FileTree>)
    ensures
        match r {
            Some(t) => parse_tree(bytes@) == Some(t@),
            None => parse_tree(bytes@) is None,
        },
{
    proof {
        assert(bytes@.skip(0) =~= bytes@);
    }
    let (count, start) = match read_u64(bytes, 0) {
        Some(p) => p,
        None => {
            return None;
        },
    };
    let mut pos = start;
    let mut nodes: Vec<FileTreeNode> = Vec::new();
    let mut t: u64 = 0;
    let ghost rest0 = bytes@.skip(start as int);
    proof {
        assert(nodes_view(nodes@) =~= Seq::<NodeV>::empty());
    }
    while t < count
        invariant
            t <= count,
            pos <= bytes@.len(),
            dec_u64(bytes@) == Some((count, rest0)),
            dec_nodes(rest0, t as nat) == Some(
                (nodes_view(nodes@), bytes@.skip(pos as int)),
            ),
        ensures
            t == count ==> dec_nodes(rest0, count as nat) == Some(
                (nodes_view(nodes@), bytes@.skip(pos as int)),
            ),
            t == count,
            pos <= bytes@.len(),
        decreases count - t,
    {
        match read_node(bytes, pos) {
            Some((node, end)) => {
                proof {
                    lemma_dec_nodes_split(rest0, t as nat, (t + 1) as nat);
                    lemma_nodes_view_push(nodes@, node);
                    assert(dec_nodes(bytes@.skip(end as int), 0) == Some(
                        (Seq::<NodeV>::empty(), bytes@.skip(end as int)),
                    ));
                    assert(seq![node@] + Seq::<NodeV>::empty() =~= seq![node@]);
                    assert(dec_nodes(bytes@.skip(pos as int), 1) == Some(
                        (seq![node@], bytes@.skip(end as int)),
                    ));
                    assert(nodes_view(nodes@) + seq![node@] =~= nodes_view(nodes@).push(node@));
                }
                nodes.push(node);
                pos = end;
                t = t + 1;
            },
            None => {
                proof {
                    lemma_dec_nodes_split(rest0, t as nat, count as nat);
                    assert(dec_nodes(bytes@.skip(pos as int), (count - t) as nat) is None);
                }
                return None;
            },
        }
    }
    if pos != bytes.len() {
        proof {
            assert(bytes@.skip(pos as int).len() > 0);
        }
        return None;
    }
    proof {
        assert(bytes@.skip(pos as int).len() == 0);
    }
    Some(FileTree { nodes })
}

/// A prefix of the request count splits the parse of the whole count.
proof fn lemma_dec_reqs_split(s: Seq<u8>, t: nat, c: nat)
    requires
        t <= c,
    ensures
        match dec_req_seq(s, t) {
            Some(p1) => dec_req_seq(s, c) == (match dec_req_seq(p1.1, (c - t) as nat) {
                Some(p2) => Some::<(Seq<ReqV>, Seq<u8>)>((p1.0 + p2.0, p2.1)),
                None => None::<(Seq<ReqV>, Seq<u8>)>,
            }),
            None => dec_req_seq(s, c) is None,
        },
    decreases t,
{
    if t == 0 {
        match dec_req_seq(s, c) {
            Some(p2) => {
                assert(Seq::<ReqV>::empty() + p2.0 =~= p2.0);
            },
            None => {},
        }
    } else {
        match dec_req(s) {
            Some(p) => {
                lemma_dec_reqs_split(p.1, (t - 1) as nat, (c - 1) as nat);
                match dec_req_seq(p.1, (t - 1) as nat) {
                    Some(q1) => {
                        match dec_req_seq(q1.1, (c - t) as nat) {
                            Some(q2) => {
                                assert((seq![p.0] + q1.0) + q2.0 =~= seq![p.0] + (q1.0 + q2.0));
                            },
                            None => {},
                        }
                    },
                    None => {},
                }
            },
            None => {},
        }
    }
}

/// Reads one encoded request at `pos`.
fn read_req(buf: &Vec<u8>, pos: usize) -> (r: Option<(RequestMessage, usize)>)
    requires
        pos <= buf@.len(),
    ensures
        match r {
            Some(p) => pos <= p.1 <= buf@.len() && dec_req(buf@.skip(pos as int)) == Some(
                (p.0@, buf@.skip(p.1 as int)),
            ),
            None => dec_req(buf@.skip(pos as int)) is None,
        },
{
    let (tag, p1) = match read_u32(buf, pos) {
        Some(p) => p,
        None => {
            return None;
        },
    };
    if tag == 0 {
        match read_bytes(buf, p1) {
            Some((p, p2)) => Some((RequestMessage::File(p), p2)),
            None => None,
        }
    } else if tag == 1 {
        match read_bytes(buf, p1) {
            Some((p, p2)) => Some((RequestMessage::Dir(p), p2)),
            None => None,
        }
    } else {
        None
    }
}

/// Pushing a request commutes with taking the view of the list.
proof fn lemma_reqs_view_push(v: Seq<RequestMessage>, x: RequestMessage)
    ensures
        reqs_view(v.push(x)) == reqs_view(v).push(x@),
{
    assert(reqs_view(v.push(x)) =~= reqs_view(v).push(x@));
}

/// Decodes a whole frame as a request list. Returns the list exactly when
/// the frame is a well-formed encoding with nothing trailing it.
pub fn decode_requests(bytes: &Vec<u8>) -> (r: Option<Vec<RequestMessage>>)
    ensures
        match r {
            Some(rs) => parse_requests(bytes@) == Some(reqs_view(rs@)),
            None => parse_requests(bytes@) is None,
        },
{
    proof {
        assert(bytes@.skip(0) =~= bytes@);
    }
    let (count, start) = match read_u64(bytes, 0) {
        Some(p) => p,
        None => {
            return None;
        },
    };
    let mut pos = start;
    let mut rs: Vec<RequestMessage> = Vec::new();
    let mut t: u64 = 0;
    let ghost rest0 = bytes@.skip(start as int);
    proof {
        assert(reqs_view(rs@) =~= Seq::<ReqV>::empty());
    }
    while t < count
        invariant
            t <= count,
            pos <= bytes@.len(),
            dec_u64(bytes@) == Some((count, rest0)),
            dec_req_seq(rest0, t as nat) == Some((reqs_view(rs@), bytes@.skip(pos as int))),
        ensures
            t == count,
            pos <= bytes@.len(),
            dec_req_seq(rest0, count as nat) == Some((reqs_view(rs@), bytes@.skip(pos as int))),
        decreases count - t,
    {
        match read_req(bytes, pos) {
            Some((req, end)) => {
                proof {
                    lemma_dec_reqs_split(rest0, t as nat, (t + 1) as nat);
                    lemma_reqs_view_push(rs@, req);
                    assert(dec_req_seq(bytes@.skip(end as int), 0) == Some(
                        (Seq::<ReqV>::empty(), bytes@.skip(end as int)),
                    ));
                    assert(seq![req@] + Seq::<ReqV>::empty() =~= seq![req@]);
                    assert(dec_req_seq(bytes@.skip(pos as int), 1) == Some(
                        (seq![req@], bytes@.skip(end as int)),
                    ));
                    assert(reqs_view(rs@) + seq![req@] =~= reqs_view(rs@).push(req@));
                }
                rs.push(req);
                pos = end;
                t = t + 1;
            },
            None => {
                proof {
                    lemma_dec_reqs_split(rest0, t as nat, count as nat);
                    assert(dec_req_seq(bytes@.skip(pos as int), (count - t) as nat) is None);
                }
                return None;
            },
        }
    }
    if pos != bytes.len() {
        proof {
            assert(bytes@.skip(pos as int).len() > 0);
        }
        return None;
    }
    proof {
        assert(bytes@.skip(pos as int).len() == 0);
    }
    Some(rs)
}

/// Decodes a whole frame as one mutation message. Returns the message
/// exactly when the frame is a well-formed encoding with nothing trailing
/// it.
pub fn decode_message(bytes: &Vec<u8>) -> (r: Option<FileChangeMessage>)
    ensures
        match r {
            Some(m) => parse_msg(bytes@) == Some(m@),
            None => parse_msg(bytes@) is None,
        },
{
    proof {
        assert(bytes@.skip(0) =~= bytes@);
    }
    let (tag, p1) = match read_u32(bytes, 0) {
        Some(p) => p,
        None => {
            return None;
        },
    };
    if tag > 7 {
        return None;
    }
    let (path, p2) = match read_bytes(bytes, p1) {
        Some(p) => p,
        None => {
            return None;
        },
    };
    let m: FileChangeMessage;
    let end: usize;
    if tag == 2 || tag == 4 || tag == 6 {
        let (payload, p3) = match read_bytes(bytes, p2) {
            Some(p) => p,
            None => {
                return None;
            },
        };
        end = p3;
        if tag == 2 {
            m = FileChangeMessage::FileEdited(path, payload);
        } else if tag == 4 {
            m = FileChangeMessage::DirectoryCreated(path, payload);
        } else {
            m = FileChangeMessage::Rename(path, payload);
        }
    } else {
        end = p2;
        if tag == 0 {
            m = FileChangeMessage::FileCreated(path);
        } else if tag == 1 {
            m = FileChangeMessage::FileDeleted(path);
        } else if tag == 3 {
            m = FileChangeMessage::EmptyDirectoryCreated(path);
        } else if tag == 5 {
            m = FileChangeMessage::DirectoryDeleted(path);
        } else {
            m = FileChangeMessage::DirectoryContentsEdited(path);
        }
    }
    if end != bytes.len() {
        proof {
            assert(bytes@.skip(end as int).len() > 0);
        }
        return None;
    }
    proof {
        assert(bytes@.skip(end as int).len() == 0);
    }
    Some(m)
}


// --- round-trip laws ---
/// A node the wire schema can carry faithfully: the path length fits the
/// u64 prefix and a file digest is exactly 20 bytes.
pub open spec fn wf_node_enc(n: NodeV) -> bool {
    &&& n.path.len() <= u64::MAX
    &&& (n.kind matches NodeKindV::File(h) ==> h.len() == 20)
}

pub open spec fn wf_tree_enc(s: Seq<NodeV>) -> bool {
    &&& s.len() <= u64::MAX
    &&& forall|i: int| 0 <= i < s.len() ==> wf_node_enc(#[trigger] s[i])
}

pub open spec fn wf_req_enc(r: ReqV) -> bool {
    match r {
        ReqV::File(p) => p.len() <= u64::MAX,
        ReqV::Dir(p) => p.len() <= u64::MAX,
    }
}

pub open spec fn wf_reqs_enc(s: Seq<ReqV>) -> bool {
    &&& s.len() <= u64::MAX
    &&& forall|i: int| 0 <= i < s.len() ==> wf_req_enc(#[trigger] s[i])
}

pub open spec fn wf_msg_enc(m: MsgV) -> bool {
    match m {
        MsgV::FileCreated(p) => p.len() <= u64::MAX,
        MsgV::FileDeleted(p) => p.len() <= u64::MAX,
        MsgV::FileEdited(p, b) => p.len() <= u64::MAX && b.len() <= u64::MAX,
        MsgV::EmptyDirectoryCreated(p) => p.len() <= u64::MAX,
        MsgV::DirectoryCreated(p, b) => p.len() <= u64::MAX && b.len() <= u64::MAX,
        MsgV::DirectoryDeleted(p) => p.len() <= u64::MAX,
        MsgV::Rename(a, b) => a.len() <= u64::MAX && b.len() <= u64::MAX,
        MsgV::DirectoryContentsEdited(p) => p.len() <= u64::MAX,
    }
}

proof fn lemma_u32_round(x: u32)
    ensures
        u32_from_le(u32_le(x)) == x,
{
    let b = u32_le(x);
    assert(b[0] == (x & 0xff) as u8);
    assert(b[1] == ((x >> 8) & 0xff) as u8);
    assert(b[2] == ((x >> 16) & 0xff) as u8);
    assert(b[3] == ((x >> 24) & 0xff) as u8);
    assert((((x & 0xff) as u8) as u32) | ((((x >> 8) & 0xff) as u8) as u32) << 8 | ((((x >> 16)
        & 0xff) as u8) as u32) << 16 | ((((x >> 24) & 0xff) as u8) as u32) << 24 == x)
        by (bit_vector);
}

proof fn lemma_u64_round(x: u64)
    ensures
        u64_from_le(u64_le(x)) == x,
{
    let b = u64_le(x);
    assert(b[0] == (x & 0xff) as u8);
    assert(b[1] == ((x >> 8) & 0xff) as u8);
    assert(b[2] == ((x >> 16) & 0xff) as u8);
    assert(b[3] == ((x >> 24) & 0xff) as u8);
    assert(b[4] == ((x >> 32) & 0xff) as u8);
    assert(b[5] == ((x >> 40) & 0xff) as u8);
    assert(b[6] == ((x >> 48) & 0xff) as u8);
    assert(b[7] == ((x >> 56) & 0xff) as u8);
    assert((((x & 0xff) as u8) as u64) | ((((x >> 8) & 0xff) as u8) as u64) << 8 | ((((x >> 16)
        & 0xff) as u8) as u64) << 16 | ((((x >> 24) & 0xff) as u8) as u64) << 24 | ((((x >> 32)
        & 0xff) as u8) as u64) << 32 | ((((x >> 40) & 0xff) as u8) as u64) << 40 | ((((x >> 48)
        & 0xff) as u8) as u64) << 48 | ((((x >> 56) & 0xff) as u8) as u64) << 56 == x)
        by (bit_vector);
}

proof fn lemma_dec_u32_enc(x: u32, rest: Seq<u8>)
    ensures
        dec_u32(u32_le(x) + rest) == Some((x, rest)),
{
    let e = u32_le(x) + rest;
    assert(e.take(4) =~= u32_le(x));
    assert(e.skip(4) =~= rest);
    lemma_u32_round(x);
}

proof fn lemma_dec_u64_enc(x: u64, rest: Seq<u8>)
    ensures
        dec_u64(u64_le(x) + rest) == Some((x, rest)),
{
    let e = u64_le(x) + rest;
    assert(e.take(8) =~= u64_le(x));
    assert(e.skip(8) =~= rest);
    lemma_u64_round(x);
}

proof fn lemma_dec_bytes_enc(b: Seq<u8>, rest: Seq<u8>)
    requires
        b.len() <= u64::MAX,
    ensures
        dec_bytes(enc_bytes(b) + rest) == Some((b, rest)),
{
    let e = enc_bytes(b) + rest;
    assert(e =~= u64_le(b.len() as u64) + (b + rest));
    lemma_dec_u64_enc(b.len() as u64, b + rest);
    let n = b.len() as u64;
    assert(n as int == b.len());
    assert((b + rest).take(n as int) =~= b);
    assert((b + rest).skip(n as int) =~= rest);
}

proof fn lemma_dec_kind_enc(k: NodeKindV, rest: Seq<u8>)
    requires
        k matches NodeKindV::File(h) ==> h.len() == 20,
    ensures
        dec_kind(enc_kind(k) + rest) == Some((k, rest)),
{
    match k {
        NodeKindV::File(h) => {
            let e = enc_kind(k) + rest;
            assert(e =~= u32_le(0) + (h + rest));
            lemma_dec_u32_enc(0, h + rest);
            assert((h + rest).take(20) =~= h);
            assert((h + rest).skip(20) =~= rest);
        },
        NodeKindV::Dir => {
            assert(enc_kind(k) + rest =~= u32_le(1) + rest);
            lemma_dec_u32_enc(1, rest);
        },
    }
}

proof fn lemma_dec_node_enc(n: NodeV, rest: Seq<u8>)
    requires
        wf_node_enc(n),
    ensures
        dec_node(enc_node(n) + rest) == Some((n, rest)),
{
    let e = enc_node(n) + rest;
    assert(e =~= enc_bytes(n.path) + (enc_kind(n.kind) + rest));
    lemma_dec_bytes_enc(n.path, enc_kind(n.kind) + rest);
    lemma_dec_kind_enc(n.kind, rest);
}

proof fn lemma_dec_nodes_enc(s: Seq<NodeV>, rest: Seq<u8>)
    requires
        forall|i: int| 0 <= i < s.len() ==> wf_node_enc(#[trigger] s[i]),
    ensures
        dec_nodes(enc_nodes(s) + rest, s.len() as nat) == Some((s, rest)),
    decreases s.len(),
{
    if s.len() == 0 {
        assert(enc_nodes(s) + rest =~= rest);
        assert(s =~= Seq::<NodeV>::empty());
    } else {
        let e = enc_nodes(s) + rest;
        assert(e =~= enc_node(s[0]) + (enc_nodes(s.skip(1)) + rest));
        lemma_dec_node_enc(s[0], enc_nodes(s.skip(1)) + rest);
        assert(forall|i: int| 0 <= i < s.skip(1).len() ==> (#[trigger] s.skip(1)[i]) == s[i + 1]);
        lemma_dec_nodes_enc(s.skip(1), rest);
        assert(seq![s[0]] + s.skip(1) =~= s);
    }
}

/// Codec round trip for manifests: a frame produced by the encoder decodes
/// back to exactly the manifest it was made from.
pub proof fn lemma_tree_round_trip(s: Seq<NodeV>)
    requires
        wf_tree_enc(s),
    ensures
        parse_tree(enc_tree(s)) == Some(s),
{
    assert(enc_tree(s) =~= u64_le(s.len() as u64) + enc_nodes(s));
    lemma_dec_u64_enc(s.len() as u64, enc_nodes(s));
    assert(enc_nodes(s) + Seq::<u8>::empty() =~= enc_nodes(s));
    lemma_dec_nodes_enc(s, Seq::<u8>::empty());
    assert((s.len() as u64) as nat == s.len());
}

proof fn lemma_dec_req_enc(r: ReqV, rest: Seq<u8>)
    requires
        wf_req_enc(r),
    ensures
        dec_req(enc_req(r) + rest) == Some((r, rest)),
{
    match r {
        ReqV::File(p) => {
            assert(enc_req(r) + rest =~= u32_le(0) + (enc_bytes(p) + rest));
            lemma_dec_u32_enc(0, enc_bytes(p) + rest);
            lemma_dec_bytes_enc(p, rest);
        },
        ReqV::Dir(p) => {
            assert(enc_req(r) + rest =~= u32_le(1) + (enc_bytes(p) + rest));
            lemma_dec_u32_enc(1, enc_bytes(p) + rest);
            lemma_dec_bytes_enc(p, rest);
        },
    }
}

proof fn lemma_dec_reqs_enc(s: Seq<ReqV>, rest: Seq<u8>)
    requires
        forall|i: int| 0 <= i < s.len() ==> wf_req_enc(#[trigger] s[i]),
    ensures
        dec_req_seq(enc_req_seq(s) + rest, s.len() as nat) == Some((s, rest)),
    decreases s.len(),
{
    if s.len() == 0 {
        assert(enc_req_seq(s) + rest =~= rest);
        assert(s =~= Seq::<ReqV>::empty());
    } else {
        let e = enc_req_seq(s) + rest;
        assert(e =~= enc_req(s[0]) + (enc_req_seq(s.skip(1)) + rest));
        lemma_dec_req_enc(s[0], enc_req_seq(s.skip(1)) + rest);
        assert(forall|i: int| 0 <= i < s.skip(1).len() ==> (#[trigger] s.skip(1)[i]) == s[i + 1]);
        lemma_dec_reqs_enc(s.skip(1), rest);
        assert(seq![s[0]] + s.skip(1) =~= s);
    }
}

/// Codec round trip for request lists.
pub proof fn lemma_requests_round_trip(s: Seq<ReqV>)
    requires
        wf_reqs_enc(s),
    ensures
        parse_requests(enc_requests(s)) == Some(s),
{
    assert(enc_requests(s) =~= u64_le(s.len() as u64) + enc_req_seq(s));
    lemma_dec_u64_enc(s.len() as u64, enc_req_seq(s));
    assert(enc_req_seq(s) + Seq::<u8>::empty() =~= enc_req_seq(s));
    lemma_dec_reqs_enc(s, Seq::<u8>::empty());
    assert((s.len() as u64) as nat == s.len());
}

/// Codec round trip for mutation messages.
pub proof fn lemma_msg_round_trip(m: MsgV)
    requires
        wf_msg_enc(m),
    ensures
        parse_msg(enc_msg(m)) == Some(m),
{
    match m {
        MsgV::FileCreated(p) => {
            lemma_msg_one_payload(0, p);
            assert(enc_msg(m) =~= u32_le(0) + enc_bytes(p));
        },
        MsgV::FileDeleted(p) => {
            lemma_msg_one_payload(1, p);
            assert(enc_msg(m) =~= u32_le(1) + enc_bytes(p));
        },
        MsgV::FileEdited(p, b) => {
            lemma_msg_two_payloads(2, p, b);
            assert(enc_msg(m) =~= u32_le(2) + enc_bytes(p) + enc_bytes(b));
        },
        MsgV::EmptyDirectoryCreated(p) => {
            lemma_msg_one_payload(3, p);
            assert(enc_msg(m) =~= u32_le(3) + enc_bytes(p));
        },
        MsgV::DirectoryCreated(p, b) => {
            lemma_msg_two_payloads(4, p, b);
            assert(enc_msg(m) =~= u32_le(4) + enc_bytes(p) + enc_bytes(b));
        },
        MsgV::DirectoryDeleted(p) => {
            lemma_msg_one_payload(5, p);
            assert(enc_msg(m) =~= u32_le(5) + enc_bytes(p));
        },
        MsgV::Rename(a, b) => {
            lemma_msg_two_payloads(6, a, b);
            assert(enc_msg(m) =~= u32_le(6) + enc_bytes(a) + enc_bytes(b));
        },
        MsgV::DirectoryContentsEdited(p) => {
            lemma_msg_one_payload(7, p);
            assert(enc_msg(m) =~= u32_le(7) + enc_bytes(p));
        },
    }
}

/// Parse facts shared by the single-payload message variants.
proof fn lemma_msg_one_payload(tag: u32, p: Seq<u8>)
    requires
        p.len() <= u64::MAX,
    ensures
        dec_u32(u32_le(tag) + enc_bytes(p)) == Some((tag, enc_bytes(p))),
        dec_bytes(enc_bytes(p)) == Some((p, Seq::<u8>::empty())),
{
    lemma_dec_u32_enc(tag, enc_bytes(p));
    assert(enc_bytes(p) + Seq::<u8>::empty() =~= enc_bytes(p));
    lemma_dec_bytes_enc(p, Seq::<u8>::empty());
}

/// Parse facts shared by the two-payload message variants.
proof fn lemma_msg_two_payloads(tag: u32, p: Seq<u8>, b: Seq<u8>)
    requires
        p.len() <= u64::MAX,
        b.len() <= u64::MAX,
    ensures
        dec_u32(u32_le(tag) + enc_bytes(p) + enc_bytes(b)) == Some(
            (tag, enc_bytes(p) + enc_bytes(b)),
        ),
        dec_bytes(enc_bytes(p) + enc_bytes(b)) == Some((p, enc_bytes(b))),
        dec_bytes(enc_bytes(b)) == Some((b, Seq::<u8>::empty())),
{
    assert(u32_le(tag) + enc_bytes(p) + enc_bytes(b) =~= u32_le(tag) + (enc_bytes(p) + enc_bytes(
        b,
    )));
    lemma_dec_u32_enc(tag, enc_bytes(p) + enc_bytes(b));
    lemma_dec_bytes_enc(p, enc_bytes(b));
    assert(enc_bytes(b) + Seq::<u8>::empty() =~= enc_bytes(b));
    lemma_dec_bytes_enc(b, Seq::<u8>::empty());
}

} // verus!
