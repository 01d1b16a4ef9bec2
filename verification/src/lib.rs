//! Read-only decoder for the SSTable file format used by log-structured
//! key-value stores: a fixed-size footer locates an index and a metaindex
//! block; each block holds delta-prefix-compressed key/value entries followed
//! by a restart-point array; an iterator reconstructs the full keys.

use vstd::prelude::*;

pub mod block;
pub mod checksum;
pub mod footer;
pub mod handle;
pub mod iter;
pub mod seek;
pub mod varint;

verus! {

/// Every way a decode operation can fail. Failures are local to the single
/// operation in progress; no partial result accompanies an error.
#[derive(Clone, Copy, Debug, PartialEq, Eq, Structural)]
pub enum Error {
    /// The input ended before a varint's terminating byte was found.
    TruncatedInput,
    /// A varint ran past its maximum width, or its value overflows the width.
    MalformedVarint,
    /// The footer's trailing bytes do not match the format's magic number.
    BadMagic,
    /// Fewer bytes are available than a block handle requires.
    ShortRead,
    /// The block trailer carries a compression tag this decoder cannot handle.
    UnsupportedCompression(u8),
    /// The stored block checksum disagrees with the one computed here.
    ChecksumMismatch,
    /// A block's restart array or an entry's shared length is inconsistent.
    CorruptBlock,
    /// A block entry declares more key or value bytes than remain.
    TruncatedEntry,
}

/// Most bytes a single 64-bit varint may occupy.
pub const MAX_VARINT_LEN64: usize = 10;

/// Most bytes a single 32-bit varint may occupy.
pub const MAX_VARINT_LEN32: usize = 5;

/// Space reserved in the footer for one encoded handle pair member.
pub const MAX_ENCODE_LENGTH: usize = 20;

/// Exact byte length of the footer: two handles plus the 8-byte magic number.
pub const FOOTER_ENCODE_LENGTH: usize = 2 * MAX_ENCODE_LENGTH + 8;

/// Bytes after each block's payload: one compression tag, four checksum bytes.
pub const BLOCK_TRAILER_SIZE: usize = 5;

/// Compression tag meaning the payload is stored as-is.
pub const COMPRESSION_NO: u8 = 0;

} // verus!
