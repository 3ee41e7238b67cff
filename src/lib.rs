//! A ledger storage engine: token balances, an append-only transaction log,
//! accounts and multi-party (multisig) transactions over one ordered
//! key-value store whose writes are handed to a Merkle store for durability.
//!
//! - `bytes`, `codec`: byte order, big-endian and CBOR encodings.
//! - `identity`, `keys`, `tid`: principals, the key layout and transaction ids.
//! - `store`: the ordered key-value store and its write batches.
//! - `transaction`: transaction records.
//! - `storage`: the ledger itself.
//! - `iter`: ranged scans of the transaction log.
//! - `multisig`: accounts, roles and pending multisig transactions.

pub mod bytes;
pub mod codec;
pub mod identity;
pub mod iter;
pub mod keys;
pub mod multisig;
pub mod storage;
pub mod store;
pub mod tid;
pub mod transaction;
