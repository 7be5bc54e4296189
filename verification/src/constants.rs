//! Sizes of the fixed parts of an NCF file.

use vstd::prelude::*;

verus! {

/// Bytes in the binary prefix at the start of every file.
pub const FILE_HEADER_PREFIX_SIZE: u64 = 48;

/// Bytes in the header in front of every chunk payload.
pub const CHUNK_HEADER_SIZE: u64 = 28;

/// Bytes in the BLAKE3 checksum behind every chunk payload.
pub const CHUNK_CHECKSUM_SIZE: u64 = 32;

/// Bytes in the footer: its magic and the length of the index block.
pub const FOOTER_SIZE: usize = 16;

} // verus!
