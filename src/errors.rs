//! The failures that ledger operations report to their callers.
use vstd::prelude::*;

verus! {

/// What can go wrong in a ledger operation.
#[derive(Debug, Clone, Copy, PartialEq, Eq, Structural)]
pub enum LedgerError {
    /// The address text holds a character outside the base-58 alphabet.
    InvalidBase58,
    /// The decoded address is too short to hold a version byte and a checksum.
    AddressTooShort,
    /// The address checksum does not match its payload.
    ChecksumMismatch,
    /// A transfer amount is not positive.
    InvalidAmount,
    /// The sender's spendable outputs do not cover the amount.
    InsufficientFunds,
    /// No wallet is held for the address.
    WalletNotFound,
    /// An input refers to a transaction that is not available.
    PrevTransactionMissing,
    /// An input refers to an output index that its transaction does not have.
    OutputIndexOutOfRange,
    /// The signing primitive failed.
    SigningFailed,
    /// Key generation failed.
    KeyGenerationFailed,
    /// A transaction offered for a block did not verify.
    InvalidTransaction,
    /// No transaction with the id is on the chain.
    TransactionNotFound,
    /// The proof-of-work search ran out of nonces.
    NonceExhausted,
}

} // verus!
