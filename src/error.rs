//! Errors of the streaming components.
use vstd::prelude::*;

verus! {

/// Why a stream operation failed.
#[derive(Clone, Copy, Debug, PartialEq, Eq, Structural)]
pub enum StreamError {
    /// The key belongs to another cipher than the one the stream is configured with.
    InvalidKeyType,
    /// The cipher refused to seal a chunk.
    Encryption,
    /// Every chunk index has been used: going on would repeat a nonce.
    ChunkLimit,
    /// The frame of the given chunk failed authentication.
    Authentication { index: u64 },
    /// The stream ended inside the frame of the given chunk, too short to hold any data.
    Truncated { index: u64 },
}

/// A `write` that stopped at a chunk the cipher refused: the frames sealed
/// before that chunk (to be sent like any others), how many bytes of the
/// input those frames used up, and why the chunk was refused.
#[derive(Debug, PartialEq, Eq)]
pub struct WriteFailure {
    pub sealed: Vec<u8>,
    pub consumed: usize,
    pub error: StreamError,
}

} // verus!
