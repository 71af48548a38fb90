//! A single-node ledger: blocks linked by hash and admitted by proof of work,
//! signed value transfers, a Merkle commitment over each block's transactions,
//! and an index of unspent outputs kept in step with the chain.
use vstd::prelude::*;

pub mod crypto;
pub mod encoding;
pub mod errors;
pub mod functions;
pub mod merkle_tree;
pub mod block;
pub mod block_header;
pub mod proof_of_work;
pub mod block_chain;
pub mod bc_iter;
pub mod wallet;
pub mod spending;
pub mod utxo_set;
pub mod transactions;

verus! {

/// Difficulty: a block digest must fall below `2^(256 - TARGET_BITS)`.
pub const TARGET_BITS: u32 = 12;

/// The proof-of-work search gives up once the nonce reaches this bound.
pub const MAX_NONCE: u32 = 1_000_000_000;

/// The value minted by every coinbase transaction.
pub const SUBSIDY: i32 = 70;

/// The version byte that leads every address payload.
pub const VERSION: u8 = 0;

/// The number of checksum bytes that end every address payload.
pub const ADDRESS_CHECKSUM_LEN: usize = 4;

} // verus!
