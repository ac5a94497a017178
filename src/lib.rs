//! An embedded, log-structured key-value store.
//!
//! Each store keeps an append-only log of encoded records, one per line, and an
//! in-memory index from key to the offset of the key's live record, rebuilt
//! from the log whenever the store is opened. The log is held as characters,
//! and offsets count characters from its start; the caller persists the text
//! that each operation appends.
pub mod codec;
pub mod text;
pub mod log;
pub mod store;
pub mod manager;
