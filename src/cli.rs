//! The commands that the program runs: the rendezvous helper, or one of
//! the two ends of a transfer.

use vstd::prelude::*;

verus! {

/// Helper endpoint used when none is given.
pub const DEFAULT_HELPER: &'static str = "nyverin.com:4277";

/// Chunk size used when none is given.
pub const DEFAULT_BITRATE: u64 = 256;

/// Quick UDP file sharing: a simple peer-to-peer file transfer.
pub struct Quad {
    pub command: Commands,
}

/// What to run.
pub enum Commands {
    /// The helper that pairs clients so that they can punch through NAT.
    Helper {
        /// Port to listen on.
        port: u16,
    },
    /// Send a file to a peer.
    Sender {
        /// Helper endpoint, `host:port`.
        address: String,
        /// Identifier shared with the peer.
        unique_identifier: String,
        /// File to send.
        input: String,
        /// Chunk size in bytes (lower is more reliable, higher is faster).
        bitrate: u64,
        /// Byte offset to start at.
        start_position: u64,
    },
    /// Receive a file from a peer.
    Receiver {
        /// Helper endpoint, `host:port`.
        address: String,
        /// Identifier shared with the peer.
        unique_identifier: String,
        /// File to write.
        output: String,
        /// Chunk size in bytes (lower is more reliable, higher is faster).
        bitrate: u64,
        /// Byte offset to start at.
        start_position: u64,
    },
}

} // verus!
