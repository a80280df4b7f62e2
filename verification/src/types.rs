//! Plain type aliases and result carriers of the execution environment.

use vstd::prelude::*;

verus! {

/// A human-readable account identifier.
pub type AccountId = String;

/// A raw public key.
pub type PublicKey = Vec<u8>;

/// A block's height.
pub type BlockHeight = u64;

/// An epoch's height.
pub type EpochHeight = u64;

/// A token balance.
pub type Balance = u128;

/// A gas amount.
pub type Gas = u64;

/// The host's handle for a pending call.
pub type PromiseIndex = u64;

/// The host's handle for a receipt.
pub type ReceiptIndex = u64;

/// The host's handle for an iterator.
pub type IteratorIndex = u64;

/// A storage usage figure, in bytes.
pub type StorageUsage = u64;

/// A protocol version number.
pub type ProtocolVersion = u32;

/// What a method call returned.
#[derive(Debug, PartialEq, Clone)]
pub enum ReturnData {
    /// The method returned bytes.
    Value(Vec<u8>),
    /// The return value is that of another call, named by its receipt.
    ReceiptIndex(ReceiptIndex),
    /// The method returned neither data nor a pending call.
    NoResult,
}

/// The outcome of a pending call observed from a callback.
#[derive(Debug, PartialEq, Clone)]
pub enum PromiseResult {
    /// The call has not completed; the current protocol never reports this.
    NotReady,
    /// The call completed and returned these bytes.
    Successful(Vec<u8>),
    /// The call failed.
    Failed,
}

} // verus!
