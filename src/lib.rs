//! Multi-party (M-of-M) signatures over a ternary, sponge-based ledger:
//! shared addresses built from the cosigners' digests, unsigned transfer
//! bundles against such an address, and cosigners filling in their
//! signature fragments one after another.
pub mod address;
pub mod bundle;
pub mod curl;
pub mod error;
pub mod signing;
pub mod transfer;
pub mod trits;
