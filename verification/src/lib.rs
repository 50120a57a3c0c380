//! One-way directory synchronization library: content-addressed file-tree
//! manifests, the manifest differ, the change classifier, the wire codec and
//! the pure halves of the sender and receiver session logic.
pub mod codec;
pub mod file_change;
pub mod file_tree;
pub mod file_tree_diff;
pub mod message;
pub mod order;
pub mod receiver;
pub mod sender;

use vstd::prelude::*;

verus! {

/// Session-fatal errors that the protocol logic can report.
#[derive(Clone, Copy, PartialEq, Eq, Structural, Debug)]
pub enum SyncError {
    /// A handshake frame was not binary or did not decode.
    ProtocolViolation,
    /// A decoded manifest did not satisfy the manifest invariants.
    InvalidManifest,
}

} // verus!
