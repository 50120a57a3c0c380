//! The sender-side session logic that can be decided from values alone:
//! interpreting the receiver's request frame and building the fulfillment
//! message for each request. Reading files, archiving directories and the
//! transport itself stay outside the library.
use vstd::prelude::*;

use crate::codec::parse_requests;
use crate::message::{reqs_view, FileChangeMessage, Frame, FrameV, MsgV, ReqV, RequestMessage};
use crate::SyncError;

verus! {

/// The sender endpoint configuration: the directory to synchronize and the
/// listener address to connect to, both as bytes.
pub struct Sender {
    pub dir_path: Vec<u8>,
    pub listener_addr: Vec<u8>,
}

impl Sender {
    pub fn new(dir_path: Vec<u8>, listener_addr: Vec<u8>) -> (r: Sender)
        ensures
            r.dir_path@ == dir_path@,
            r.listener_addr@ == listener_addr@,
    {
        Sender { dir_path, listener_addr }
    }

    /// Interprets the frame the receiver answers the manifest with: it must
    /// be binary and decode to a request list; anything else is a protocol
    /// violation.
    pub fn parse_request_frame(frame: Frame) -> (r: Result<Vec<RequestMessage>, SyncError>)
        ensures
            match r {
                Ok(rs) => frame@ matches FrameV::Binary(b) && parse_requests(b) == Some(
                    reqs_view(rs@),
                ),
                Err(e) => e == SyncError::ProtocolViolation && match frame@ {
                    FrameV::Binary(b) => parse_requests(b) is None,
                    FrameV::Close => true,
                    FrameV::Other => true,
                },
            },
    {
        let bytes = match frame {
            Frame::Binary(b) => b,
            Frame::Close => {
                return Err(SyncError::ProtocolViolation);
            },
            Frame::Other => {
                return Err(SyncError::ProtocolViolation);
            },
        };
        match crate::codec::decode_requests(&bytes) {
            Some(rs) => Ok(rs),
            None => Err(SyncError::ProtocolViolation),
        }
    }

    /// Builds the mutation that fulfills one transfer request, from the
    /// payload the filesystem produced for it: a requested file becomes a
    /// file edit carrying its contents; a requested directory becomes a
    /// directory creation carrying its archive.
    pub fn fulfillment_message(req: RequestMessage, payload: Vec<u8>) -> (m: FileChangeMessage)
        ensures
            match req@ {
                ReqV::File(p) => m@ == MsgV::FileEdited(p, payload@),
                ReqV::Dir(p) => m@ == MsgV::DirectoryCreated(p, payload@),
            },
    {
        match req {
            RequestMessage::File(p) => FileChangeMessage::FileEdited(p, payload),
            RequestMessage::Dir(p) => FileChangeMessage::DirectoryCreated(p, payload),
        }
    }
}

} // verus!
