//! The failures that the multisig operations report.
use vstd::prelude::*;

verus! {

/// Why a multisig operation failed.
#[derive(Debug, Clone, PartialEq, Eq)]
pub enum MultisigError {
    /// An address that is not 81 trytes; carries the address.
    InvalidAddress(String),
    /// A transfer list that is not well formed.
    InvalidTransferSet,
    /// A security level outside 1..=3; carries the level.
    InvalidSecurityLevel(usize),
    /// The balance does not cover the total of the transfers.
    InsufficientBalance,
    /// The transfers move no value, so no signature is asked for.
    NoSignatureRequired,
    /// The balance lookup failed; carries its message.
    TransportFailure(String),
    /// A state, key or digest that does not decode, or that does not fit the bundle.
    MalformedState,
}

} // verus!
