//! Shared constants and aliases.
use crate::bytes::equal;
use vstd::prelude::*;
use vstd::slice::slice_to_vec;

verus! {

/// A key of the table: any byte string but the tombstone marker.
pub type Key = Vec<u8>;

/// A value of the table.
pub type Value = Vec<u8>;

/// The value stored under a key that was deleted: 1810212258 in big endian.
pub const TOMBSTONE: [u8; 4] = [0x6b, 0xe5, 0xa5, 0xa2];

/// Capacity of one log file in bytes (4 MiB).
pub const WAL_LOG_MAX_SIZE: usize = 4194304;

/// Size of one block of the log in bytes (32 KiB).
pub const BLOCK_MAX_SIZE: usize = 32768;

/// A block with at most this many free bytes cannot take a record header.
pub const BLOCK_MIN_FREE_SIZE: usize = 6;

/// The tombstone marker as a sequence of bytes.
pub open spec fn tombstone() -> Seq<u8> {
    seq![0x6bu8, 0xe5u8, 0xa5u8, 0xa2u8]
}

/// Whether `bytes` is the tombstone marker.
pub fn is_tombstone(bytes: &[u8]) -> (b: bool)
    ensures
        b == (bytes@ == tombstone()),
{
    let marker = TOMBSTONE;
    equal(bytes, marker.as_slice())
}

/// A fresh copy of the tombstone marker.
pub fn tombstone_value() -> (v: Value)
    ensures
        v@ == tombstone(),
{
    let marker = TOMBSTONE;
    slice_to_vec(marker.as_slice())
}

} // verus!
