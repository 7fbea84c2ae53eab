//! Durability and buffering core of a log-structured storage engine.
//!
//! * [`block`] frames a logical write into checksummed records that never
//!   straddle a block boundary.
//! * [`wal`] keeps the books of one log file: how much of the file and of the
//!   current block is used, when a block is padded, and when the file is full.
//! * [`memtable`] is the bounded, sorted write buffer and its frozen form.
//! * [`bytes`] holds equality and the dictionary order of byte strings, by
//!   which keys are sorted.
//! * [`types`] holds the shared constants and the tombstone marker.
pub mod block;
pub mod bytes;
pub mod memtable;
pub mod types;
pub mod wal;
