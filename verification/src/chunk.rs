//! The header in front of every chunk payload.

use crate::bytes::{
    get_u32, get_u64, le_bytes, le_value, lemma_le_bytes_len, lemma_le_bytes_of_le_value,
    lemma_le_value_of_le_bytes, lemma_pow256_widths, put_u32, put_u64, to_array,
};
use crate::constants::CHUNK_HEADER_SIZE;
use crate::error::NcfError;
use vstd::prelude::*;
use vstd::string::*;

verus! {

/// Header of one chunk.
#[derive(Debug, Clone, Copy)]
pub struct ChunkHeader {
    /// Chunk identifier.
    pub chunk_id: u64,
    /// One if the tensor announces a compression, else zero.
    pub flags: u32,
    /// Length of the payload before compression.
    pub uncompressed_len: u64,
    /// Length of the payload as stored.
    pub compressed_len: u64,
}

/// The bytes of a chunk header: its fields in order, each little-endian.
pub open spec fn chunk_header_bytes(h: ChunkHeader) -> Seq<u8> {
    le_bytes(h.chunk_id as nat, 8) + le_bytes(h.flags as nat, 4) + le_bytes(
        h.uncompressed_len as nat,
        8,
    ) + le_bytes(h.compressed_len as nat, 8)
}

/// The chunk header that stands at the start of `bytes`.
pub open spec fn chunk_header_of(bytes: Seq<u8>) -> ChunkHeader {
    ChunkHeader {
        chunk_id: le_value(bytes.subrange(0, 8)) as u64,
        flags: le_value(bytes.subrange(8, 12)) as u32,
        uncompressed_len: le_value(bytes.subrange(12, 20)) as u64,
        compressed_len: le_value(bytes.subrange(20, 28)) as u64,
    }
}

impl ChunkHeader {
    /// Encode the header into its binary form.
    pub fn encode(&self) -> (bytes: [u8; 28])
        ensures
            bytes@ == chunk_header_bytes(*self),
    {
        broadcast use lemma_le_bytes_len;

        let mut out: Vec<u8> = Vec::new();
        put_u64(&mut out, self.chunk_id);
        put_u32(&mut out, self.flags);
        put_u64(&mut out, self.uncompressed_len);
        put_u64(&mut out, self.compressed_len);
        assert(out@ =~= chunk_header_bytes(*self));
        to_array(&out)
    }

    /// Decode the header at the start of `bytes`.
    pub fn decode(bytes: &[u8]) -> (r: Result<Self, NcfError>)
        ensures
            bytes@.len() < CHUNK_HEADER_SIZE ==> (r matches Err(NcfError::Header(text)) && text@
                == "Chunk header too short"@),
            bytes@.len() >= CHUNK_HEADER_SIZE ==> r == Ok::<Self, NcfError>(chunk_header_of(bytes@)),
    {
        if bytes.len() < CHUNK_HEADER_SIZE as usize {
            return Err(NcfError::Header("Chunk header too short".to_owned()));
        }
        Ok(
            ChunkHeader {
                chunk_id: get_u64(bytes, 0),
                flags: get_u32(bytes, 8),
                uncompressed_len: get_u64(bytes, 12),
                compressed_len: get_u64(bytes, 20),
            },
        )
    }
}

/// A chunk header takes the same number of bytes whatever it says.
pub broadcast proof fn lemma_chunk_header_len(h: ChunkHeader)
    ensures
        #[trigger] chunk_header_bytes(h).len() == CHUNK_HEADER_SIZE,
{
    broadcast use lemma_le_bytes_len;

}

/// Decoding an encoded chunk header gives the header back, whatever follows it.
pub proof fn law_chunk_header_roundtrip(h: ChunkHeader, rest: Seq<u8>)
    ensures
        chunk_header_of(chunk_header_bytes(h) + rest) == h,
{
    broadcast use lemma_le_bytes_len;

    let s = chunk_header_bytes(h) + rest;
    lemma_pow256_widths();
    assert(s.subrange(0, 8) =~= le_bytes(h.chunk_id as nat, 8));
    assert(s.subrange(8, 12) =~= le_bytes(h.flags as nat, 4));
    assert(s.subrange(12, 20) =~= le_bytes(h.uncompressed_len as nat, 8));
    assert(s.subrange(20, 28) =~= le_bytes(h.compressed_len as nat, 8));
    lemma_le_value_of_le_bytes(h.chunk_id as nat, 8);
    lemma_le_value_of_le_bytes(h.flags as nat, 4);
    lemma_le_value_of_le_bytes(h.uncompressed_len as nat, 8);
    lemma_le_value_of_le_bytes(h.compressed_len as nat, 8);
}

/// Encoding a decoded chunk header gives back the bytes that it was decoded from.
pub proof fn law_chunk_header_bytes_roundtrip(bytes: Seq<u8>)
    requires
        bytes.len() >= CHUNK_HEADER_SIZE,
    ensures
        chunk_header_bytes(chunk_header_of(bytes)) == bytes.subrange(0, CHUNK_HEADER_SIZE as int),
{
    lemma_pow256_widths();
    lemma_le_bytes_of_le_value(bytes.subrange(0, 8));
    lemma_le_bytes_of_le_value(bytes.subrange(8, 12));
    lemma_le_bytes_of_le_value(bytes.subrange(12, 20));
    lemma_le_bytes_of_le_value(bytes.subrange(20, 28));
    assert(chunk_header_bytes(chunk_header_of(bytes)) =~= bytes.subrange(
        0,
        CHUNK_HEADER_SIZE as int,
    ));
}

} // verus!
