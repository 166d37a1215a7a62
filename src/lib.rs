//! Resumable construction and signing of chain transactions: a witness-collecting
//! transaction builder and a Schnorr multisignature session, both carried between
//! independent calls as self-describing byte snapshots.

/// Failure kinds.
pub mod error;
/// Trusted primitives: hashing, curve arithmetic, signatures, hex and gcd.
pub mod crypto;
/// Little-endian integers and fixed-width fields of the snapshot format.
pub mod codec;
/// Canonical ordering of public keys.
pub mod keys;
/// The multisignature session and its snapshot.
pub mod multi_sig;
/// The transfer transaction builder, its snapshot and its fee.
pub mod builder;
/// Snapshot-in, snapshot-out transfer operations.
pub mod transfer;
/// Strategy selection for finished transactions, and the mock envelope.
pub mod obfuscation;
/// Signing with one key pair.
pub mod signer;
/// Key checks and conversions.
pub mod key_pair;
/// Networks, transaction ids, fee configuration and address signing parameters.
pub mod options;
/// Withdrawal of unbonded stake.
pub mod withdraw;
