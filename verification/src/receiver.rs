//! The receiver-side session logic that can be decided from values alone:
//! validating the sender's manifest frame, diffing it against the local
//! manifest, and building the transfer-request reply. The apply engine's
//! filesystem work stays outside the library.
use vstd::prelude::*;

use crate::codec::{decode_file_tree, enc_requests, encode_requests, parse_tree};
use crate::file_tree::{tree_valid, FileTree};
use crate::file_tree_diff::{spec_diff, spec_requests, TreeDiff};
use crate::message::{reqs_view, Frame, FrameV, RequestMessage};
use crate::SyncError;

verus! {

/// The receiver endpoint configuration: the loopback port to listen on and
/// the output directory the apply engine owns, in forward-slash byte form.
pub struct Receiver {
    pub port: u32,
    pub out_dir: Vec<u8>,
}

impl Receiver {
    pub fn new(port: u32, out_dir: Vec<u8>) -> (r: Receiver)
        ensures
            r.port == port,
            r.out_dir@ == out_dir@,
    {
        Receiver { port, out_dir }
    }
}

/// Everything the receiver decides during the handshake: the sender's
/// validated manifest, the structured diff against the local tree, the
/// transfer requests the diff calls for, and the encoded reply frame.
#[derive(Debug)]
pub struct Handshake {
    pub remote_tree: FileTree,
    pub diff: TreeDiff,
    pub requests: Vec<RequestMessage>,
    pub reply: Vec<u8>,
}

/// Decides the handshake from the first frame: a binary frame that decodes
/// to a valid manifest yields the diff, the request list and the encoded
/// reply; a non-binary frame or a frame that does not decode is a protocol
/// violation; a decoded manifest that breaks the manifest invariants is
/// rejected as invalid.
pub fn handshake(local: &FileTree, frame: Frame) -> (r: Result<Handshake, SyncError>)
    ensures
        match r {
            Ok(h) => {
                &&& frame@ matches FrameV::Binary(b) && parse_tree(b) == Some(h.remote_tree@)
                &&& tree_valid(h.remote_tree@)
                &&& h.diff@ == spec_diff(local@, h.remote_tree@)
                &&& reqs_view(h.requests@) == spec_requests(h.diff@)
                &&& h.reply@ == enc_requests(spec_requests(h.diff@))
            },
            Err(SyncError::ProtocolViolation) => match frame@ {
                FrameV::Binary(b) => parse_tree(b) is None,
                FrameV::Close => true,
                FrameV::Other => true,
            },
            Err(SyncError::InvalidManifest) => {
                &&& frame@ matches FrameV::Binary(b) && parse_tree(b) matches Some(t)
                    && !tree_valid(t)
            },
        },
{
    let bytes = match frame {
        Frame::Binary(b) => b,
        Frame::Close => {
            return Err(SyncError::ProtocolViolation);
        },
        Frame::Other => {
            return Err(SyncError::ProtocolViolation);
        },
    };
    let remote_tree = match decode_file_tree(&bytes) {
        Some(t) => t,
        None => {
            return Err(SyncError::ProtocolViolation);
        },
    };
    if !remote_tree.is_valid() {
        return Err(SyncError::InvalidManifest);
    }
    let diff = TreeDiff::from(local, &remote_tree);
    let requests = diff.requests();
    let reply = encode_requests(&requests);
    Ok(Handshake { remote_tree, diff, requests, reply })
}

} // verus!
