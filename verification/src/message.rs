//! Wire-level message types: the mutations a sender streams to a receiver,
//! the receiver's transfer requests, and the transport frame model.
use vstd::prelude::*;

verus! {

/// Mathematical model of a mutation message.
pub ghost enum MsgV {
    FileCreated(Seq<u8>),
    FileDeleted(Seq<u8>),
    FileEdited(Seq<u8>, Seq<u8>),
    EmptyDirectoryCreated(Seq<u8>),
    DirectoryCreated(Seq<u8>, Seq<u8>),
    DirectoryDeleted(Seq<u8>),
    Rename(Seq<u8>, Seq<u8>),
    DirectoryContentsEdited(Seq<u8>),
}

/// A self-contained description of a single filesystem change, applied
/// idempotently by the receiver. Paths are relative, in forward-slash wire
/// form; payloads are file contents or directory archives.
#[derive(Debug, PartialEq, Eq)]
pub enum FileChangeMessage {
    FileCreated(Vec<u8>),
    FileDeleted(Vec<u8>),
    FileEdited(Vec<u8>, Vec<u8>),
    EmptyDirectoryCreated(Vec<u8>),
    DirectoryCreated(Vec<u8>, Vec<u8>),
    DirectoryDeleted(Vec<u8>),
    Rename(Vec<u8>, Vec<u8>),
    DirectoryContentsEdited(Vec<u8>),
}

impl View for FileChangeMessage {
    type V = MsgV;

    open spec fn view(&self) -> MsgV {
        match self {
            FileChangeMessage::FileCreated(p) => MsgV::FileCreated(p@),
            FileChangeMessage::FileDeleted(p) => MsgV::FileDeleted(p@),
            FileChangeMessage::FileEdited(p, b) => MsgV::FileEdited(p@, b@),
            FileChangeMessage::EmptyDirectoryCreated(p) => MsgV::EmptyDirectoryCreated(p@),
            FileChangeMessage::DirectoryCreated(p, b) => MsgV::DirectoryCreated(p@, b@),
            FileChangeMessage::DirectoryDeleted(p) => MsgV::DirectoryDeleted(p@),
            FileChangeMessage::Rename(a, b) => MsgV::Rename(a@, b@),
            FileChangeMessage::DirectoryContentsEdited(p) => MsgV::DirectoryContentsEdited(p@),
        }
    }
}

/// Mathematical model of a transfer request.
pub ghost enum ReqV {
    File(Seq<u8>),
    Dir(Seq<u8>),
}

/// A receiver's request for one path: the full contents of a file, or the
/// archived contents of a directory subtree.
#[derive(Debug, PartialEq, Eq)]
pub enum RequestMessage {
    File(Vec<u8>),
    Dir(Vec<u8>),
}

impl View for RequestMessage {
    type V = ReqV;

    open spec fn view(&self) -> ReqV {
        match self {
            RequestMessage::File(p) => ReqV::File(p@),
            RequestMessage::Dir(p) => ReqV::Dir(p@),
        }
    }
}

/// Mathematical model of a transport frame.
pub ghost enum FrameV {
    Binary(Seq<u8>),
    Close,
    Other,
}

/// A transport frame as the protocol logic sees it: a binary payload, a
/// clean close, or anything else (ignored).
#[derive(Debug, PartialEq, Eq)]
pub enum Frame {
    Binary(Vec<u8>),
    Close,
    Other,
}

impl View for Frame {
    type V = FrameV;

    open spec fn view(&self) -> FrameV {
        match self {
            Frame::Binary(b) => FrameV::Binary(b@),
            Frame::Close => FrameV::Close,
            Frame::Other => FrameV::Other,
        }
    }
}

/// The model of a request sequence.
pub open spec fn reqs_view(v: Seq<RequestMessage>) -> Seq<ReqV> {
    v.map(|i: int, r: RequestMessage| r@)
}

} // verus!
