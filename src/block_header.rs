//! The fixed-size fields that describe a block.
use vstd::prelude::*;

verus! {

/// A block's header fields.
#[derive(Debug)]
pub struct BlockHeader {
    /// The block format version.
    pub version: u32,
    /// The hash of the previous block.
    pub prev_block_hash: Vec<u8>,
    /// The Merkle root over the block's transactions.
    pub merkle_root: Vec<u8>,
    /// Seconds since the Unix epoch.
    pub timestamp: u64,
    /// The difficulty in leading zero bits.
    pub bits: u32,
    /// The proof-of-work nonce.
    pub nonce: u64,
}

} // verus!
