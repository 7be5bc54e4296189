//! What reading takes out of the bytes of a file, and what it refuses.

use crate::blocks::{
    blocks_fault, checksum_fault, chunk_fault, chunks_extent_fault, chunks_fault, entry_of,
    header_block, header_fault, index_block, joined_payloads, lemma_schema_named, payload_at,
    payload_fault, read_outcome, schema_block, schema_named, schemas_fault, slice_outcome,
};
use crate::bytes::{le_value, lemma_le_bytes_of_le_value, lemma_pow256_widths};
use crate::chunk::chunk_header_of;
use crate::digest::blake3_digest;
use crate::error::IoError;
use crate::header::{prefix_of, FOOTER_MAGIC, NCF_MAGIC};
use crate::index::{lemma_first_entry, lemma_last_entry, IndexEntry};
use crate::schema::{ChunkRef, SchemaView};
use vstd::prelude::*;

verus! {

/// The little-endian number in the `width` bytes from `at` on.
pub open spec fn number_at(data: Seq<u8>, at: int, width: int) -> int {
    le_value(data.subrange(at, at + width)) as int
}

proof fn lemma_number_bound(data: Seq<u8>, at: int)
    requires
        0 <= at,
        at + 8 <= data.len(),
    ensures
        number_at(data, at, 8) <= u64::MAX,
        number_at(data, at, 4) <= u32::MAX,
{
    lemma_pow256_widths();
    lemma_le_bytes_of_le_value(data.subrange(at, at + 8));
    lemma_le_bytes_of_le_value(data.subrange(at, at + 4));
}

/// The prefix of a file has its version at byte 8, its flags at byte 12, and at bytes 16, 24, 32
/// and 40 the length of the header, the places of schemas and index, and the number of chunks. Of
/// the flags the three lowest bits count.
pub proof fn law_prefix_is_read(data: Seq<u8>)
    requires
        data.len() >= 48,
    ensures
        prefix_of(data).magic@ == seq![78u8, 67, 70, 0, 222, 173, 190, 239],
        prefix_of(data).version == number_at(data, 8, 4),
        prefix_of(data).flags.bits == number_at(data, 12, 4) % 8,
        prefix_of(data).header_len == number_at(data, 16, 8),
        prefix_of(data).schema_offset == number_at(data, 24, 8),
        prefix_of(data).index_offset == number_at(data, 32, 8),
        prefix_of(data).chunk_count == number_at(data, 40, 8),
{
    lemma_number_bound(data, 8);
    lemma_number_bound(data, 12);
    lemma_number_bound(data, 16);
    lemma_number_bound(data, 24);
    lemma_number_bound(data, 32);
    lemma_number_bound(data, 40);
    let bits = number_at(data, 12, 4) as u32;
    assert(bits & 7 == bits % 8) by (bit_vector);
    assert(prefix_of(data).magic@ =~= seq![78u8, 67, 70, 0, 222, 173, 190, 239]);
}

/// The header of a chunk has its id at byte 0, its flags at byte 8, the length of the payload before
/// compression at byte 12 and the length as stored at byte 20.
pub proof fn law_chunk_header_is_read(bytes: Seq<u8>)
    requires
        bytes.len() >= 28,
    ensures
        chunk_header_of(bytes).chunk_id == number_at(bytes, 0, 8),
        chunk_header_of(bytes).flags == number_at(bytes, 8, 4),
        chunk_header_of(bytes).uncompressed_len == number_at(bytes, 12, 8),
        chunk_header_of(bytes).compressed_len == number_at(bytes, 20, 8),
{
    lemma_number_bound(bytes, 0);
    lemma_number_bound(bytes, 8);
    lemma_number_bound(bytes, 12);
    lemma_number_bound(bytes, 20);
}

/// A file is refused at its header exactly if it is shorter than 48 bytes, does not start with the
/// magic bytes, or has a header that does not end within the file. The refusal says which, with the
/// numbers. Else the header stands behind the prefix.
pub proof fn law_header_is_found(data: Seq<u8>)
    requires
        data.len() <= usize::MAX,
        data.len() >= 48 ==> number_at(data, 16, 8) <= usize::MAX,
    ensures
        ({
            let n = data.len() as int;
            let magic = data.subrange(0, 8) == seq![78u8, 67, 70, 0, 222, 173, 190, 239];
            let end = 48 + number_at(data, 16, 8);
            &&& n < 48 ==> (header_fault(data) matches Some(IoError::FileTooSmall { len }) && len
                == n)
            &&& n >= 48 && !magic ==> header_fault(data) == Some(IoError::BadMagic)
            &&& n >= 48 && magic && end > usize::MAX ==> header_fault(data) == Some(
                IoError::HeaderOverflow,
            )
            &&& n >= 48 && magic && n < end <= usize::MAX ==> (header_fault(data) matches Some(
                IoError::HeaderOutOfBounds { end: e, file_size },
            ) && e == end && file_size == n)
            &&& n >= 48 && magic && end <= n ==> header_fault(data) is None && header_block(data)
                == data.subrange(48, end)
        }),
{
    if data.len() >= 48 {
        law_prefix_is_read(data);
        assert(NCF_MAGIC@ =~= seq![78u8, 67, 70, 0, 222, 173, 190, 239]);
    }
}

/// A file with a header is refused exactly if the schemas are no range of the file, the footer does
/// not start with its magic bytes, or the index runs into the footer. The refusal says which, with
/// the numbers. Else schemas and index stand where prefix and footer say.
pub proof fn law_blocks_stand_where_the_file_says(data: Seq<u8>)
    requires
        48 <= data.len() <= usize::MAX,
        number_at(data, 24, 8) <= usize::MAX,
        number_at(data, 32, 8) <= usize::MAX,
        number_at(data, data.len() - 8, 8) <= usize::MAX,
    ensures
        ({
            let n = data.len() as int;
            let a = number_at(data, 24, 8);
            let b = number_at(data, 32, 8);
            let c = b + number_at(data, n - 8, 8);
            let magic = data.subrange(n - 16, n - 8) == seq![78u8, 67, 70, 69, 78, 68, 33, 33];
            &&& !(a <= b <= n) ==> (blocks_fault(data) matches Some(
                IoError::SchemaOutOfBounds { start, end, file_size },
            ) && start == a && end == b && file_size == n)
            &&& a <= b <= n && !magic ==> blocks_fault(data) == Some(IoError::BadFooterMagic)
            &&& a <= b <= n && magic && c > usize::MAX ==> blocks_fault(data) == Some(
                IoError::IndexOverflow,
            )
            &&& a <= b <= n && magic && n - 16 < c <= usize::MAX ==> (blocks_fault(data) matches Some(
                IoError::IndexOverlapsFooter { end, footer_pos },
            ) && end == c && footer_pos == n - 16)
            &&& a <= b <= n && magic && c <= n - 16 ==> {
                &&& blocks_fault(data) is None
                &&& schema_block(data) == data.subrange(a, b)
                &&& index_block(data) == data.subrange(b, c)
            }
        }),
{
    let n = data.len() as int;
    law_prefix_is_read(data);
    lemma_number_bound(data, n - 8);
    assert(FOOTER_MAGIC@ =~= seq![78u8, 67, 70, 69, 78, 68, 33, 33]);
}

/// The payload of a chunk starts 28 bytes behind the chunk's start and ends 32 bytes before its end.
/// It is refused exactly if the chunk is shorter than 60 bytes or its payload does not end within
/// the file; the refusal says which, with the numbers.
pub proof fn law_payload_stands_within_its_chunk(data: Seq<u8>, offset: u64, byte_len: u64)
    requires
        data.len() <= usize::MAX,
        offset <= usize::MAX,
        byte_len <= usize::MAX,
    ensures
        ({
            let n = data.len() as int;
            let start = offset + 28;
            let end = offset + byte_len - 32;
            let fault = payload_fault(n, offset, byte_len);
            &&& start > usize::MAX ==> fault == Some(IoError::ChunkOffsetOverflow)
            &&& n < start <= usize::MAX ==> (fault matches Some(
                IoError::ChunkOffsetOutOfBounds { offset: o, file_size },
            ) && o == start && file_size == n)
            &&& start <= n && byte_len < 60 ==> (fault matches Some(
                IoError::ChunkTooSmall { total_len, overhead },
            ) && total_len == byte_len && overhead == 60)
            &&& start <= n && byte_len >= 60 && end > usize::MAX ==> fault == Some(
                IoError::ChunkDataOverflow,
            )
            &&& start <= n && byte_len >= 60 && n < end <= usize::MAX ==> (fault matches Some(
                IoError::ChunkDataOutOfBounds { end: e, file_size },
            ) && e == end && file_size == n)
            &&& byte_len >= 60 && end <= n ==> fault is None && payload_at(data, offset, byte_len)
                == data.subrange(start, end)
        }),
{
}

/// A chunk passes the check exactly if its payload lies within the file and has the recorded BLAKE3
/// digest. A chunk shorter than 60 bytes is checked as one with an empty payload.
pub proof fn law_check_compares_digests(data: Seq<u8>, entry: IndexEntry, checksum: [u8; 32])
    requires
        data.len() <= usize::MAX,
        entry.byte_offset <= usize::MAX,
        entry.byte_len <= usize::MAX,
    ensures
        ({
            let n = data.len() as int;
            let start = entry.byte_offset + 28;
            let end = if entry.byte_len < 60 {
                start
            } else {
                entry.byte_offset + entry.byte_len - 32
            };
            let fault = checksum_fault(data, entry, checksum);
            &&& start > usize::MAX ==> fault == Some(IoError::ChunkOffsetOverflow)
            &&& start <= usize::MAX < end ==> fault == Some(IoError::ChunkDataOverflow)
            &&& n < end <= usize::MAX ==> fault == Some(IoError::ChunkDataPastEnd)
            &&& end <= n && blake3_digest(data.subrange(start, end)) != checksum ==> fault == Some(
                IoError::ChecksumMismatch,
            )
            &&& end <= n && blake3_digest(data.subrange(start, end)) == checksum ==> fault is None
        }),
{
}

/// Whether a chunk is long enough and its payload lies within a file of length `n`.
pub open spec fn payload_within(n: int, chunk: ChunkRef) -> bool {
    chunk.byte_len >= 60 && chunk.byte_offset + chunk.byte_len - 32 <= n
}

/// Bytes in the payloads of the first `n` chunks.
pub open spec fn payload_bytes(chunks: Seq<ChunkRef>, n: int) -> int
    decreases n,
{
    if n <= 0 {
        0
    } else {
        payload_bytes(chunks, n - 1) + chunks[n - 1].byte_len - 60
    }
}

proof fn lemma_extents(data: Seq<u8>, chunks: Seq<ChunkRef>, n: int)
    requires
        0 <= n <= chunks.len(),
        data.len() <= usize::MAX,
        forall|j: int|
            0 <= j < chunks.len() ==> (#[trigger] chunks[j]).byte_offset <= usize::MAX
                && chunks[j].byte_len <= usize::MAX,
    ensures
        chunks_extent_fault(data.len() as int, chunks, n) is None <==> forall|j: int|
            0 <= j < n ==> payload_within(data.len() as int, #[trigger] chunks[j]),
        chunks_extent_fault(data.len() as int, chunks, n) matches Some(e) ==> exists|j: int|
            0 <= j < n && !payload_within(data.len() as int, #[trigger] chunks[j]) && payload_fault(
                data.len() as int,
                chunks[j].byte_offset,
                chunks[j].byte_len,
            ) == Some(e) && forall|k: int|
                0 <= k < j ==> payload_within(data.len() as int, #[trigger] chunks[k]),
    decreases n,
{
    if n > 0 {
        lemma_extents(data, chunks, n - 1);
        law_payload_stands_within_its_chunk(
            data,
            chunks[n - 1].byte_offset,
            chunks[n - 1].byte_len,
        );
        if chunks_extent_fault(data.len() as int, chunks, n - 1) is Some {
            let e = chunks_extent_fault(data.len() as int, chunks, n - 1)->0;
            let j = choose|j: int|
                0 <= j < n - 1 && !payload_within(data.len() as int, #[trigger] chunks[j])
                    && payload_fault(
                    data.len() as int,
                    chunks[j].byte_offset,
                    chunks[j].byte_len,
                ) == Some(e) && forall|k: int|
                    0 <= k < j ==> payload_within(data.len() as int, #[trigger] chunks[k]);
            assert(!payload_within(data.len() as int, chunks[j]));
        } else if chunks_extent_fault(data.len() as int, chunks, n) is Some {
            assert(!payload_within(data.len() as int, chunks[n - 1]));
        }
    }
}

proof fn lemma_joined(data: Seq<u8>, chunks: Seq<ChunkRef>, n: int)
    requires
        0 <= n <= chunks.len(),
        data.len() <= usize::MAX,
        forall|j: int|
            0 <= j < chunks.len() ==> (#[trigger] chunks[j]).byte_offset <= usize::MAX
                && chunks[j].byte_len <= usize::MAX,
        forall|j: int| 0 <= j < n ==> payload_within(data.len() as int, #[trigger] chunks[j]),
    ensures
        ({
            let bytes = joined_payloads(data, chunks, n);
            &&& bytes.len() == payload_bytes(chunks, n)
            &&& forall|j: int|
                0 <= j < n ==> {
                    let c = #[trigger] chunks[j];
                    let at = payload_bytes(chunks, j);
                    &&& 0 <= at
                    &&& at + c.byte_len - 60 <= bytes.len()
                    &&& bytes.subrange(at, at + c.byte_len - 60) == data.subrange(
                        c.byte_offset + 28,
                        c.byte_offset + c.byte_len - 32,
                    )
                }
        }),
    decreases n,
{
    if n > 0 {
        lemma_joined(data, chunks, n - 1);
        let last = chunks[n - 1];
        law_payload_stands_within_its_chunk(data, last.byte_offset, last.byte_len);
        assert(payload_within(data.len() as int, last));
        let before = joined_payloads(data, chunks, n - 1);
        let bytes = joined_payloads(data, chunks, n);
        assert forall|j: int| 0 <= j < n implies {
            let c = #[trigger] chunks[j];
            let at = payload_bytes(chunks, j);
            &&& 0 <= at
            &&& at + c.byte_len - 60 <= bytes.len()
            &&& bytes.subrange(at, at + c.byte_len - 60) == data.subrange(
                c.byte_offset + 28,
                c.byte_offset + c.byte_len - 32,
            )
        } by {
            let c = chunks[j];
            let at = payload_bytes(chunks, j);
            if j < n - 1 {
                assert(bytes.subrange(at, at + c.byte_len - 60) =~= before.subrange(
                    at,
                    at + c.byte_len - 60,
                ));
            } else {
                assert(bytes.subrange(at, at + c.byte_len - 60) =~= data.subrange(
                    c.byte_offset + 28,
                    c.byte_offset + c.byte_len - 32,
                ));
            }
        }
    }
}

/// A tensor is absent exactly if no schema has its name. Else the chunks of the first schema of the
/// name are read: all their payloads, one behind the other in the order of the list. A chunk that is
/// too short, or whose payload does not end within the file, makes the read fail with what is wrong
/// with the first such chunk.
pub proof fn law_read_follows_the_schema(
    data: Seq<u8>,
    schemas: Seq<SchemaView>,
    name: Seq<char>,
    i: int,
)
    requires
        data.len() <= usize::MAX,
        forall|k: int| 0 <= k < schemas.len() ==> (#[trigger] schemas[k]).name != name || {
            forall|j: int|
                0 <= j < schemas[k].chunks.len() ==> (#[trigger] schemas[k].chunks[j]).byte_offset
                    <= usize::MAX && schemas[k].chunks[j].byte_len <= usize::MAX
        },
    ensures
        read_outcome(data, schemas, name) matches Ok(None) <==> forall|k: int|
            0 <= k < schemas.len() ==> (#[trigger] schemas[k]).name != name,
        0 <= i < schemas.len() && schemas[i].name == name && (forall|k: int|
            0 <= k < i ==> (#[trigger] schemas[k]).name != name) ==> {
            let chunks = schemas[i].chunks;
            let within = forall|j: int|
                0 <= j < chunks.len() ==> payload_within(data.len() as int, #[trigger] chunks[j]);
            &&& within ==> (read_outcome(data, schemas, name) matches Ok(Some(bytes)) && {
                &&& bytes.len() == payload_bytes(chunks, chunks.len() as int)
                &&& forall|j: int|
                    0 <= j < chunks.len() ==> {
                        let c = #[trigger] chunks[j];
                        let at = payload_bytes(chunks, j);
                        bytes.subrange(at, at + c.byte_len - 60) == data.subrange(
                            c.byte_offset + 28,
                            c.byte_offset + c.byte_len - 32,
                        )
                    }
            })
            &&& !within ==> (read_outcome(data, schemas, name) matches Err(e) && exists|j: int|
                0 <= j < chunks.len() && !payload_within(data.len() as int, #[trigger] chunks[j])
                    && payload_fault(
                    data.len() as int,
                    chunks[j].byte_offset,
                    chunks[j].byte_len,
                ) == Some(e) && forall|k: int|
                    0 <= k < j ==> payload_within(data.len() as int, #[trigger] chunks[k]))
        },
{
    lemma_schema_named(schemas, name);
    match schema_named(schemas, name) {
        None => {},
        Some(first) => {
            assert(schemas[first].name == name);
            let chunks = schemas[first].chunks;
            lemma_extents(data, chunks, chunks.len() as int);
            if chunks_extent_fault(data.len() as int, chunks, chunks.len() as int) is None {
                lemma_joined(data, chunks, chunks.len() as int);
            }
            if 0 <= i < schemas.len() && schemas[i].name == name && (forall|k: int|
                0 <= k < i ==> (#[trigger] schemas[k]).name != name) {
                if i < first {
                    assert(schemas[i].name != name);
                } else if first < i {
                    assert(schemas[first].name != name);
                }
                assert(i == first);
            }
        },
    }
}

/// The slice of a tensor is the payload of the first entry, or of the last where the latest counts,
/// that has the chunk id of its name. There is none exactly if the name has no chunk id, the id no
/// entry, or the entry no payload within the file.
pub proof fn law_slice_follows_the_index(
    data: Seq<u8>,
    tensor_map: Map<Seq<char>, u64>,
    entries: Seq<IndexEntry>,
    latest: bool,
    name: Seq<char>,
    i: int,
)
    requires
        data.len() <= usize::MAX,
        forall|k: int|
            0 <= k < entries.len() ==> (#[trigger] entries[k]).byte_offset <= usize::MAX
                && entries[k].byte_len <= usize::MAX,
    ensures
        !tensor_map.contains_key(name) ==> slice_outcome(data, tensor_map, entries, latest, name)
            is None,
        tensor_map.contains_key(name) && (forall|k: int|
            0 <= k < entries.len() ==> (#[trigger] entries[k]).chunk_id != tensor_map[name])
            ==> slice_outcome(data, tensor_map, entries, latest, name) is None,
        tensor_map.contains_key(name) && 0 <= i < entries.len() && entries[i].chunk_id
            == tensor_map[name] && (forall|k: int|
            0 <= k < entries.len() && (if latest {
                k > i
            } else {
                k < i
            }) ==> (#[trigger] entries[k]).chunk_id != tensor_map[name]) ==> {
            let start = entries[i].byte_offset + 28;
            let end = entries[i].byte_offset + entries[i].byte_len - 32;
            let outcome = slice_outcome(data, tensor_map, entries, latest, name);
            &&& entries[i].byte_len >= 60 && end <= data.len() ==> outcome == Some(
                data.subrange(start, end),
            )
            &&& entries[i].byte_len < 60 || end > data.len() ==> outcome is None
        },
{
    if tensor_map.contains_key(name) {
        let id = tensor_map[name];
        lemma_first_entry(entries, id);
        lemma_last_entry(entries, id);
        match entry_of(entries, id, latest) {
            None => {},
            Some(at) => {
                assert(entries[at].chunk_id == id);
                law_payload_stands_within_its_chunk(
                    data,
                    entries[at].byte_offset,
                    entries[at].byte_len,
                );
                if 0 <= i < entries.len() && entries[i].chunk_id == id && (forall|k: int|
                    0 <= k < entries.len() && (if latest {
                        k > i
                    } else {
                        k < i
                    }) ==> (#[trigger] entries[k]).chunk_id != id) {
                    assert(i == at);
                }
            },
        }
    }
}

/// Whether a referenced chunk passes: it has no entry, or the payload of its entry lies within the
/// file and has the recorded digest.
pub open spec fn passes(
    data: Seq<u8>,
    entries: Seq<IndexEntry>,
    latest: bool,
    chunk: ChunkRef,
) -> bool {
    forall|i: int|
        0 <= i < entries.len() && (#[trigger] entries[i]).chunk_id == chunk.chunk_id && (forall|
            k: int,
        |
            0 <= k < entries.len() && (if latest {
                k > i
            } else {
                k < i
            }) ==> (#[trigger] entries[k]).chunk_id != chunk.chunk_id) ==> {
            let start = entries[i].byte_offset + 28;
            let end = if entries[i].byte_len < 60 {
                start
            } else {
                entries[i].byte_offset + entries[i].byte_len - 32
            };
            end <= data.len() && blake3_digest(data.subrange(start, end)) == chunk.checksum
        }
}

proof fn lemma_chunk_passes(
    data: Seq<u8>,
    entries: Seq<IndexEntry>,
    latest: bool,
    chunk: ChunkRef,
)
    requires
        data.len() <= usize::MAX,
        forall|k: int|
            0 <= k < entries.len() ==> (#[trigger] entries[k]).byte_offset <= usize::MAX
                && entries[k].byte_len <= usize::MAX,
    ensures
        chunk_fault(data, entries, latest, chunk) is None <==> passes(
            data,
            entries,
            latest,
            chunk,
        ),
{
    let id = chunk.chunk_id;
    lemma_first_entry(entries, id);
    lemma_last_entry(entries, id);
    match entry_of(entries, id, latest) {
        None => {},
        Some(at) => {
            law_check_compares_digests(data, entries[at], chunk.checksum);
            assert(entries[at].chunk_id == id);
            assert forall|i: int|
                0 <= i < entries.len() && (#[trigger] entries[i]).chunk_id == id && (forall|k: int|
                    0 <= k < entries.len() && (if latest {
                        k > i
                    } else {
                        k < i
                    }) ==> (#[trigger] entries[k]).chunk_id != id) implies i == at by {
                assert(entries[at].chunk_id == id);
            }
        },
    }
}

proof fn lemma_chunks_pass(
    data: Seq<u8>,
    entries: Seq<IndexEntry>,
    latest: bool,
    chunks: Seq<ChunkRef>,
    n: int,
)
    requires
        data.len() <= usize::MAX,
        forall|k: int|
            0 <= k < entries.len() ==> (#[trigger] entries[k]).byte_offset <= usize::MAX
                && entries[k].byte_len <= usize::MAX,
        0 <= n <= chunks.len(),
    ensures
        chunks_fault(data, entries, latest, chunks, n) is None <==> forall|j: int|
            0 <= j < n ==> passes(data, entries, latest, #[trigger] chunks[j]),
    decreases n,
{
    if n > 0 {
        lemma_chunks_pass(data, entries, latest, chunks, n - 1);
        lemma_chunk_passes(data, entries, latest, chunks[n - 1]);
    }
}

/// The checksums of a file are in order exactly if every chunk of every schema passes.
pub proof fn law_every_chunk_is_checked(
    data: Seq<u8>,
    entries: Seq<IndexEntry>,
    latest: bool,
    schemas: Seq<SchemaView>,
    n: int,
)
    requires
        data.len() <= usize::MAX,
        forall|k: int|
            0 <= k < entries.len() ==> (#[trigger] entries[k]).byte_offset <= usize::MAX
                && entries[k].byte_len <= usize::MAX,
        0 <= n <= schemas.len(),
    ensures
        schemas_fault(data, entries, latest, schemas, n) is None <==> forall|i: int, j: int|
            0 <= i < n && 0 <= j < schemas[i].chunks.len() ==> passes(
                data,
                entries,
                latest,
                #[trigger] schemas[i].chunks[j],
            ),
    decreases n,
{
    if n > 0 {
        law_every_chunk_is_checked(data, entries, latest, schemas, n - 1);
        let chunks = schemas[n - 1].chunks;
        lemma_chunks_pass(data, entries, latest, chunks, chunks.len() as int);
        if schemas_fault(data, entries, latest, schemas, n) is None {
            assert forall|i: int, j: int|
                0 <= i < n && 0 <= j < schemas[i].chunks.len() implies passes(
                data,
                entries,
                latest,
                #[trigger] schemas[i].chunks[j],
            ) by {
                if i == n - 1 {
                    assert(passes(data, entries, latest, chunks[j]));
                }
            }
        }
        if forall|i: int, j: int|
            0 <= i < n && 0 <= j < schemas[i].chunks.len() ==> passes(
                data,
                entries,
                latest,
                #[trigger] schemas[i].chunks[j],
            ) {
            assert forall|j: int| 0 <= j < chunks.len() implies passes(
                data,
                entries,
                latest,
                #[trigger] chunks[j],
            ) by {
                assert(passes(data, entries, latest, schemas[n - 1].chunks[j]));
            }
        }
    }
}

/// The check reports the first fault that it comes to: that of the first chunk that does not pass,
/// in the order of the schemas and of their lists.
pub proof fn law_first_fault_is_reported(
    data: Seq<u8>,
    entries: Seq<IndexEntry>,
    latest: bool,
    schemas: Seq<SchemaView>,
    i: int,
    j: int,
    n: int,
)
    requires
        0 <= i < n <= schemas.len(),
        0 <= j < schemas[i].chunks.len(),
        schemas_fault(data, entries, latest, schemas, i) is None,
        chunks_fault(data, entries, latest, schemas[i].chunks, j) is None,
        chunk_fault(data, entries, latest, schemas[i].chunks[j]) is Some,
    ensures
        schemas_fault(data, entries, latest, schemas, n) == chunk_fault(
            data,
            entries,
            latest,
            schemas[i].chunks[j],
        ),
    decreases n,
{
    if n > i + 1 {
        law_first_fault_is_reported(data, entries, latest, schemas, i, j, n - 1);
    } else {
        let chunks = schemas[i].chunks;
        lemma_first_chunk_fault(data, entries, latest, chunks, j, chunks.len() as int);
    }
}

proof fn lemma_first_chunk_fault(
    data: Seq<u8>,
    entries: Seq<IndexEntry>,
    latest: bool,
    chunks: Seq<ChunkRef>,
    j: int,
    n: int,
)
    requires
        0 <= j < n <= chunks.len(),
        chunks_fault(data, entries, latest, chunks, j) is None,
        chunk_fault(data, entries, latest, chunks[j]) is Some,
    ensures
        chunks_fault(data, entries, latest, chunks, n) == chunk_fault(
            data,
            entries,
            latest,
            chunks[j],
        ),
    decreases n,
{
    if n > j + 1 {
        lemma_first_chunk_fault(data, entries, latest, chunks, j, n - 1);
    }
}

/// The fault of a referenced chunk is that of its first entry, or of the last where the latest
/// counts, against the recorded digest.
pub proof fn law_fault_is_that_of_the_entry(
    data: Seq<u8>,
    entries: Seq<IndexEntry>,
    latest: bool,
    chunk: ChunkRef,
    i: int,
)
    requires
        0 <= i < entries.len(),
        entries[i].chunk_id == chunk.chunk_id,
        forall|k: int|
            0 <= k < entries.len() && (if latest {
                k > i
            } else {
                k < i
            }) ==> (#[trigger] entries[k]).chunk_id != chunk.chunk_id,
    ensures
        chunk_fault(data, entries, latest, chunk) == checksum_fault(
            data,
            entries[i],
            chunk.checksum,
        ),
{
    lemma_first_entry(entries, chunk.chunk_id);
    lemma_last_entry(entries, chunk.chunk_id);
    if let Some(at) = entry_of(entries, chunk.chunk_id, latest) {
        assert(entries[at].chunk_id == chunk.chunk_id);
        assert(i == at);
    }
}

} // verus!
