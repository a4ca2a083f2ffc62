//! A minimal log-structured key-value storage engine.
//!
//! The engine models the append-only log as a byte sequence of
//! length-prefixed, checksummed records, together with an in-memory
//! index mapping each key to the byte offset of its most recent
//! record. The index is derived state: it is rebuilt from the log by
//! replay and kept current by the write operations.

pub mod codec;
pub mod index;
pub mod store;

pub use codec::KeyValuePair;
pub use codec::StoreError;
pub use index::Index;
pub use store::BaseKV;
