//! Payload copies and chunk metadata for wide-vector processing.

use crate::bytes::copy_bytes;
use vstd::prelude::*;

verus! {

/// Owned payload for vector processing. What it holds is fixed here. The address at which it
/// stands is up to the allocator, and need not be a multiple of 64.
#[derive(Debug)]
pub struct AlignedVec {
    data: Vec<u8>,
}

impl View for AlignedVec {
    type V = Seq<u8>;

    closed spec fn view(&self) -> Seq<u8> {
        self.data@
    }
}

impl AlignedVec {
    /// A copy of the given data, not aligned to any boundary.
    pub fn new(data: &[u8]) -> (v: Self)
        ensures
            v@ == data@,
    {
        AlignedVec { data: copy_bytes(data) }
    }

    /// The bytes as a slice.
    pub fn as_slice(&self) -> (s: &[u8])
        ensures
            s@ == self@,
    {
        self.data.as_slice()
    }

    /// The bytes as a mutable slice: what is written to it is what the payload then holds.
    pub fn as_mut_slice(&mut self) -> (s: &mut [u8])
        ensures
            s@ == old(self)@,
            final(self)@ == final(s)@,
    {
        self.data.as_mut_slice()
    }
}

/// Compact metadata of a tensor chunk that records the vector width.
#[derive(Debug, Clone, Copy, PartialEq, Eq, Structural)]
pub struct ChunkMetadata {
    /// Chunk identifier.
    pub chunk_id: u64,
    /// Byte offset of the chunk within the file.
    pub byte_offset: u64,
    /// Total chunk length in bytes.
    pub byte_len: u64,
    /// Vector width in bytes.
    pub simd_width: u32,
}

impl ChunkMetadata {
    /// Metadata of a chunk with a vector width of 64 bytes.
    pub fn new(chunk_id: u64, byte_offset: u64, byte_len: u64) -> (m: Self)
        ensures
            m == (ChunkMetadata { chunk_id, byte_offset, byte_len, simd_width: 64 }),
    {
        ChunkMetadata { chunk_id, byte_offset, byte_len, simd_width: 64 }
    }
}

/// A copy of a tensor payload for vector processing. The copy is not aligned: that it starts at a
/// 64-byte boundary is up to whoever places its bytes.
pub fn align_tensor_avx512(data: &[u8]) -> (v: AlignedVec)
    ensures
        v@ == data@,
{
    AlignedVec::new(data)
}

} // verus!
