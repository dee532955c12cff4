//! Verified core of a token-ownership check: signer identities are recovered
//! from signatures over a shared digest, each identity's claimed balance is
//! checked against a committed Merkle root, identities are deduplicated, and
//! the verified balances are summed into one aggregate total.

pub mod aggregate;
pub mod encoding;
pub mod hashing;
pub mod merkle;
pub mod recovery;
