//! Where blocks and chunk payloads stand in the bytes of a file.

use crate::bytes::{get_u64, le_value, same_bytes};
use crate::constants::{
    CHUNK_CHECKSUM_SIZE, CHUNK_HEADER_SIZE, FILE_HEADER_PREFIX_SIZE, FOOTER_SIZE,
};
use crate::digest::{blake3_digest, hash_payload};
use crate::error::IoError;
use crate::header::{has_magic, prefix_of, FileHeaderPrefix, FOOTER_MAGIC};
use crate::index::{
    distinct_ids, first_entry, last_entry, law_distinct_ids_agree, lookup, IndexEntry,
};
use crate::schema::{schema_views, ChunkRef, SchemaView, TensorSchema};
use crate::text::same_text;
use vstd::prelude::*;
use vstd::slice::slice_subrange;

verus! {

/// End of the header block, addressable or not.
pub open spec fn header_end(data: Seq<u8>) -> int {
    FILE_HEADER_PREFIX_SIZE + (prefix_of(data).header_len as usize)
}

/// What is wrong with the prefix or the extent of the header block, if anything is.
pub open spec fn header_fault(data: Seq<u8>) -> Option<IoError> {
    if data.len() < FILE_HEADER_PREFIX_SIZE {
        Some(IoError::FileTooSmall { len: data.len() as usize })
    } else if !has_magic(data) {
        Some(IoError::BadMagic)
    } else if header_end(data) > usize::MAX {
        Some(IoError::HeaderOverflow)
    } else if header_end(data) > data.len() {
        Some(
            IoError::HeaderOutOfBounds {
                end: header_end(data) as usize,
                file_size: data.len() as usize,
            },
        )
    } else {
        None
    }
}

/// The header block.
pub open spec fn header_block(data: Seq<u8>) -> Seq<u8> {
    data.subrange(FILE_HEADER_PREFIX_SIZE as int, header_end(data))
}

/// Start of the schema block.
pub open spec fn schema_start(data: Seq<u8>) -> int {
    prefix_of(data).schema_offset as usize as int
}

/// End of the schema block and start of the index block.
pub open spec fn index_start(data: Seq<u8>) -> int {
    prefix_of(data).index_offset as usize as int
}

/// Start of the footer.
pub open spec fn footer_start(data: Seq<u8>) -> int {
    data.len() - FOOTER_SIZE
}

/// Length of the index block according to the footer.
pub open spec fn index_len(data: Seq<u8>) -> int {
    (le_value(data.subrange(footer_start(data) + 8, footer_start(data) + 16)) as u64) as usize
        as int
}

/// End of the index block, addressable or not.
pub open spec fn index_end(data: Seq<u8>) -> int {
    index_start(data) + index_len(data)
}

/// Whether the schema block is a range of the file.
pub open spec fn schema_in_bounds(data: Seq<u8>) -> bool {
    schema_start(data) <= index_start(data) <= data.len()
}

/// Whether the footer starts with its magic bytes.
pub open spec fn has_footer_magic(data: Seq<u8>) -> bool {
    data.subrange(footer_start(data), footer_start(data) + 8) == FOOTER_MAGIC@
}

/// What is wrong with the schema block, the footer or the index block of a file whose header
/// block is in order, if anything is.
pub open spec fn blocks_fault(data: Seq<u8>) -> Option<IoError> {
    if !schema_in_bounds(data) {
        Some(
            IoError::SchemaOutOfBounds {
                start: schema_start(data) as usize,
                end: index_start(data) as usize,
                file_size: data.len() as usize,
            },
        )
    } else if !has_footer_magic(data) {
        Some(IoError::BadFooterMagic)
    } else if index_end(data) > usize::MAX {
        Some(IoError::IndexOverflow)
    } else if index_end(data) > footer_start(data) {
        Some(
            IoError::IndexOverlapsFooter {
                end: index_end(data) as usize,
                footer_pos: footer_start(data) as usize,
            },
        )
    } else {
        None
    }
}

/// The bytes from the schema block up to the index block. They start with the schemas; the
/// chunks follow.
pub open spec fn schema_block(data: Seq<u8>) -> Seq<u8> {
    data.subrange(schema_start(data), index_start(data))
}

/// The index block.
pub open spec fn index_block(data: Seq<u8>) -> Seq<u8> {
    data.subrange(index_start(data), index_end(data))
}

/// Decode the prefix and locate the end of the header block.
pub fn locate_header(data: &[u8]) -> (r: Result<(FileHeaderPrefix, usize), IoError>)
    ensures
        match r {
            Ok(found) => {
                &&& header_fault(data@) is None
                &&& found.0 == prefix_of(data@)
                &&& found.1 == header_end(data@)
            },
            Err(e) => header_fault(data@) == Some(e),
        },
{
    if data.len() < FILE_HEADER_PREFIX_SIZE as usize {
        return Err(IoError::FileTooSmall { len: data.len() });
    }
    let prefix: FileHeaderPrefix = match FileHeaderPrefix::decode(data) {
        Ok(prefix) => prefix,
        Err(_) => return Err(IoError::BadMagic),
    };
    let start: usize = FILE_HEADER_PREFIX_SIZE as usize;
    match start.checked_add(prefix.header_len as usize) {
        None => Err(IoError::HeaderOverflow),
        Some(end) => if end > data.len() {
            Err(IoError::HeaderOutOfBounds { end, file_size: data.len() })
        } else {
            Ok((prefix, end))
        },
    }
}

/// Locate the schema block and the index block behind it: start of the first, start and end of
/// the second.
pub fn locate_blocks(data: &[u8], prefix: &FileHeaderPrefix) -> (r: Result<
    (usize, usize, usize),
    IoError,
>)
    requires
        data@.len() >= FILE_HEADER_PREFIX_SIZE,
        *prefix == prefix_of(data@),
    ensures
        match r {
            Ok(found) => {
                &&& blocks_fault(data@) is None
                &&& found.0 == schema_start(data@)
                &&& found.1 == index_start(data@)
                &&& found.2 == index_end(data@)
            },
            Err(e) => blocks_fault(data@) == Some(e),
        },
{
    let start: usize = prefix.schema_offset as usize;
    let end: usize = prefix.index_offset as usize;
    if start > end || end > data.len() {
        return Err(IoError::SchemaOutOfBounds { start, end, file_size: data.len() });
    }
    let footer_pos: usize = data.len() - FOOTER_SIZE;
    let footer_magic: [u8; 8] = FOOTER_MAGIC;
    if !same_bytes(slice_subrange(data, footer_pos, footer_pos + 8), footer_magic.as_slice()) {
        return Err(IoError::BadFooterMagic);
    }
    let len: usize = get_u64(data, footer_pos + 8) as usize;
    match end.checked_add(len) {
        None => Err(IoError::IndexOverflow),
        Some(index_end) => if index_end > footer_pos {
            Err(IoError::IndexOverlapsFooter { end: index_end, footer_pos })
        } else {
            Ok((start, end, index_end))
        },
    }
}

/// Start of the payload of a chunk, addressable or not.
pub open spec fn payload_start(offset: u64) -> int {
    (offset as usize) + CHUNK_HEADER_SIZE
}

/// Length of the payload of a chunk; zero if the chunk is too short for header and checksum.
pub open spec fn payload_len(byte_len: u64) -> int {
    if (byte_len as usize) >= CHUNK_HEADER_SIZE + CHUNK_CHECKSUM_SIZE {
        (byte_len as usize) - (CHUNK_HEADER_SIZE + CHUNK_CHECKSUM_SIZE)
    } else {
        0
    }
}

/// End of the payload of a chunk, addressable or not.
pub open spec fn payload_end(offset: u64, byte_len: u64) -> int {
    payload_start(offset) + payload_len(byte_len)
}

/// The payload of a chunk.
pub open spec fn payload_at(data: Seq<u8>, offset: u64, byte_len: u64) -> Seq<u8> {
    data.subrange(payload_start(offset), payload_end(offset, byte_len))
}

/// What is wrong with the extent of a chunk in a file of the given length, if anything is.
pub open spec fn payload_fault(file_size: int, offset: u64, byte_len: u64) -> Option<IoError> {
    if payload_start(offset) > usize::MAX {
        Some(IoError::ChunkOffsetOverflow)
    } else if payload_start(offset) > file_size {
        Some(
            IoError::ChunkOffsetOutOfBounds {
                offset: payload_start(offset) as usize,
                file_size: file_size as usize,
            },
        )
    } else if (byte_len as usize) < CHUNK_HEADER_SIZE + CHUNK_CHECKSUM_SIZE {
        Some(
            IoError::ChunkTooSmall {
                total_len: byte_len as usize,
                overhead: (CHUNK_HEADER_SIZE + CHUNK_CHECKSUM_SIZE) as usize,
            },
        )
    } else if payload_end(offset, byte_len) > usize::MAX {
        Some(IoError::ChunkDataOverflow)
    } else if payload_end(offset, byte_len) > file_size {
        Some(
            IoError::ChunkDataOutOfBounds {
                end: payload_end(offset, byte_len) as usize,
                file_size: file_size as usize,
            },
        )
    } else {
        None
    }
}

/// Locate the payload of a chunk: its start and end.
pub fn locate_payload(data: &[u8], offset: u64, byte_len: u64) -> (r: Result<
    (usize, usize),
    IoError,
>)
    ensures
        match r {
            Ok(found) => {
                &&& payload_fault(data@.len() as int, offset, byte_len) is None
                &&& found.0 == payload_start(offset)
                &&& found.1 == payload_end(offset, byte_len)
                &&& found.0 <= found.1 <= data@.len()
            },
            Err(e) => payload_fault(data@.len() as int, offset, byte_len) == Some(e),
        },
{
    let start: usize = match (offset as usize).checked_add(CHUNK_HEADER_SIZE as usize) {
        Some(start) => start,
        None => return Err(IoError::ChunkOffsetOverflow),
    };
    if start > data.len() {
        return Err(IoError::ChunkOffsetOutOfBounds { offset: start, file_size: data.len() });
    }
    let total_len: usize = byte_len as usize;
    let overhead: usize = (CHUNK_HEADER_SIZE + CHUNK_CHECKSUM_SIZE) as usize;
    if total_len < overhead {
        return Err(IoError::ChunkTooSmall { total_len, overhead });
    }
    match start.checked_add(total_len - overhead) {
        None => Err(IoError::ChunkDataOverflow),
        Some(end) => if end > data.len() {
            Err(IoError::ChunkDataOutOfBounds { end, file_size: data.len() })
        } else {
            Ok((start, end))
        },
    }
}

/// The payload of the chunk that a name leads to, if the name, the entry and the payload are
/// there.
pub open spec fn slice_outcome(
    data: Seq<u8>,
    tensor_map: Map<Seq<char>, u64>,
    entries: Seq<IndexEntry>,
    latest: bool,
    name: Seq<char>,
) -> Option<Seq<u8>> {
    match lookup(tensor_map, name) {
        None => None,
        Some(id) => match entry_of(entries, id, latest) {
            None => None,
            Some(i) => if payload_fault(
                data.len() as int,
                entries[i].byte_offset,
                entries[i].byte_len,
            ) is None {
                Some(payload_at(data, entries[i].byte_offset, entries[i].byte_len))
            } else {
                None
            },
        },
    }
}

/// The payload of the chunk that an entry locates, if it is there.
pub fn entry_slice<'a>(data: &'a [u8], entry: &IndexEntry) -> (r: Option<&'a [u8]>)
    ensures
        match r {
            Some(s) => payload_fault(data@.len() as int, entry.byte_offset, entry.byte_len) is None
                && s@ == payload_at(data@, entry.byte_offset, entry.byte_len),
            None => payload_fault(data@.len() as int, entry.byte_offset, entry.byte_len) is Some,
        },
{
    match locate_payload(data, entry.byte_offset, entry.byte_len) {
        Ok(found) => Some(slice_subrange(data, found.0, found.1)),
        Err(_) => None,
    }
}

/// Whether a decoder can give this result for some bytes.
pub open spec fn decodes_to<T, E, F: Fn(&[u8]) -> Result<T, E>>(
    decode: F,
    bytes: Seq<u8>,
    r: Result<T, E>,
) -> bool {
    exists|s: &[u8]| s@ == bytes && #[trigger] call_ensures(decode, (s,), r)
}

/// What is wrong with the chunk that an entry locates, given the checksum that its payload
/// should have, if anything is.
pub open spec fn checksum_fault(
    data: Seq<u8>,
    entry: IndexEntry,
    checksum: [u8; 32],
) -> Option<IoError> {
    if payload_start(entry.byte_offset) > usize::MAX {
        Some(IoError::ChunkOffsetOverflow)
    } else if payload_end(entry.byte_offset, entry.byte_len) > usize::MAX {
        Some(IoError::ChunkDataOverflow)
    } else if payload_end(entry.byte_offset, entry.byte_len) > data.len() {
        Some(IoError::ChunkDataPastEnd)
    } else if blake3_digest(payload_at(data, entry.byte_offset, entry.byte_len)) != checksum {
        Some(IoError::ChecksumMismatch)
    } else {
        None
    }
}

/// Check the payload that an entry locates against a checksum.
pub fn check_entry(data: &[u8], entry: &IndexEntry, checksum: &[u8; 32]) -> (r: Result<
    (),
    IoError,
>)
    ensures
        match r {
            Ok(_) => checksum_fault(data@, *entry, *checksum) is None,
            Err(e) => checksum_fault(data@, *entry, *checksum) == Some(e),
        },
{
    let start: usize = match (entry.byte_offset as usize).checked_add(CHUNK_HEADER_SIZE as usize) {
        Some(start) => start,
        None => return Err(IoError::ChunkOffsetOverflow),
    };
    let len: usize = (entry.byte_len as usize).saturating_sub(
        (CHUNK_HEADER_SIZE + CHUNK_CHECKSUM_SIZE) as usize,
    );
    let end: usize = match start.checked_add(len) {
        Some(end) => end,
        None => return Err(IoError::ChunkDataOverflow),
    };
    if end > data.len() {
        return Err(IoError::ChunkDataPastEnd);
    }
    let digest: [u8; 32] = hash_payload(slice_subrange(data, start, end));
    if same_bytes(digest.as_slice(), checksum.as_slice()) {
        assert(digest =~= *checksum);
        Ok(())
    } else {
        Err(IoError::ChecksumMismatch)
    }
}

/// The first schema of a name, if there is one.
pub open spec fn schema_named(schemas: Seq<SchemaView>, name: Seq<char>) -> Option<int>
    decreases schemas.len(),
{
    if schemas.len() == 0 {
        None
    } else {
        match schema_named(schemas.drop_last(), name) {
            Some(i) => Some(i),
            None => if schemas.last().name == name {
                Some(schemas.len() - 1)
            } else {
                None
            },
        }
    }
}

/// What the position of a named schema means.
pub proof fn lemma_schema_named(schemas: Seq<SchemaView>, name: Seq<char>)
    ensures
        match schema_named(schemas, name) {
            Some(i) => {
                &&& 0 <= i < schemas.len()
                &&& schemas[i].name == name
                &&& forall|j: int| 0 <= j < i ==> (#[trigger] schemas[j]).name != name
            },
            None => forall|j: int| 0 <= j < schemas.len() ==> (#[trigger] schemas[j]).name != name,
        },
    decreases schemas.len(),
{
    if schemas.len() > 0 {
        let t = schemas.drop_last();
        lemma_schema_named(t, name);
        assert(forall|j: int| 0 <= j < t.len() ==> (#[trigger] schemas[j]) == t[j]);
    }
}

/// Position of the first schema of a name.
pub fn find_named(schemas: &[TensorSchema], name: &str) -> (r: Option<usize>)
    ensures
        match r {
            Some(i) => i < schemas@.len() && schema_named(schema_views(schemas@), name@) == Some(
                i as int,
            ),
            None => schema_named(schema_views(schemas@), name@) is None,
        },
{
    let ghost views = schema_views(schemas@);
    let mut i: usize = 0;
    while i < schemas.len()
        invariant
            i <= schemas@.len(),
            views == schema_views(schemas@),
            forall|j: int| 0 <= j < i ==> (#[trigger] views[j]).name != name@,
        decreases schemas@.len() - i,
    {
        assert(views[i as int] == schemas@[i as int]@);
        if same_text(schemas[i].name.as_str(), name) {
            proof {
                lemma_schema_named(views, name@);
            }
            return Some(i);
        }
        i += 1;
    }
    proof {
        lemma_schema_named(views, name@);
    }
    None
}

/// The first thing that is wrong with the extents of the first `n` chunks, if anything is.
pub open spec fn chunks_extent_fault(
    file_size: int,
    chunks: Seq<ChunkRef>,
    n: int,
) -> Option<IoError>
    decreases n,
{
    if n <= 0 {
        None
    } else {
        match chunks_extent_fault(file_size, chunks, n - 1) {
            Some(e) => Some(e),
            None => payload_fault(file_size, chunks[n - 1].byte_offset, chunks[n - 1].byte_len),
        }
    }
}

/// The payloads of the first `n` chunks, one behind the other.
pub open spec fn joined_payloads(data: Seq<u8>, chunks: Seq<ChunkRef>, n: int) -> Seq<u8>
    decreases n,
{
    if n <= 0 {
        Seq::empty()
    } else {
        joined_payloads(data, chunks, n - 1) + payload_at(
            data,
            chunks[n - 1].byte_offset,
            chunks[n - 1].byte_len,
        )
    }
}

proof fn lemma_extent_fault_stays(file_size: int, chunks: Seq<ChunkRef>, a: int, b: int)
    requires
        a <= b,
        chunks_extent_fault(file_size, chunks, a) is Some,
    ensures
        chunks_extent_fault(file_size, chunks, b) == chunks_extent_fault(file_size, chunks, a),
    decreases b - a,
{
    if a < b {
        lemma_extent_fault_stays(file_size, chunks, a, b - 1);
    }
}

/// What reading a tensor by name gives: nothing if no schema has the name, else the payloads of
/// the chunks of the first such schema.
pub open spec fn read_outcome(
    data: Seq<u8>,
    schemas: Seq<SchemaView>,
    name: Seq<char>,
) -> Result<Option<Seq<u8>>, IoError> {
    match schema_named(schemas, name) {
        None => Ok(None),
        Some(i) => {
            let chunks = schemas[i].chunks;
            match chunks_extent_fault(data.len() as int, chunks, chunks.len() as int) {
                Some(e) => Err(e),
                None => Ok(Some(joined_payloads(data, chunks, chunks.len() as int))),
            }
        },
    }
}

/// Read a tensor by name, given the schemas of the file.
pub fn read_named(data: &[u8], schemas: &[TensorSchema], name: &str) -> (r: Result<
    Option<Vec<u8>>,
    IoError,
>)
    ensures
        match (r, read_outcome(data@, schema_views(schemas@), name@)) {
            (Ok(Some(v)), Ok(Some(bytes))) => v@ == bytes,
            (Ok(None), Ok(None)) => true,
            (Err(e), Err(fault)) => e == fault,
            _ => false,
        },
{
    let at: usize = match find_named(schemas, name) {
        Some(at) => at,
        None => return Ok(None),
    };
    let schema: &TensorSchema = &schemas[at];
    let ghost chunks = schema.chunks@;
    assert(schema_views(schemas@)[at as int].chunks == chunks);
    let mut result: Vec<u8> = Vec::new();
    let mut i: usize = 0;
    while i < schema.chunks.len()
        invariant
            i <= schema.chunks@.len(),
            chunks == schema.chunks@,
            at < schemas@.len(),
            schema_named(schema_views(schemas@), name@) == Some(at as int),
            schema_views(schemas@)[at as int].chunks == chunks,
            chunks_extent_fault(data@.len() as int, chunks, i as int) is None,
            result@ == joined_payloads(data@, chunks, i as int),
        decreases schema.chunks@.len() - i,
    {
        let chunk: ChunkRef = schema.chunks[i];
        match locate_payload(data, chunk.byte_offset, chunk.byte_len) {
            Ok(found) => {
                result.extend_from_slice(slice_subrange(data, found.0, found.1));
                assert(result@ =~= joined_payloads(data@, chunks, i + 1));
            },
            Err(e) => {
                proof {
                    lemma_extent_fault_stays(
                        data@.len() as int,
                        chunks,
                        i + 1,
                        chunks.len() as int,
                    );
                }
                return Err(e);
            },
        }
        i += 1;
    }
    Ok(Some(result))
}

/// The entry that counts for a chunk: the first, or the latest.
pub open spec fn entry_of(entries: Seq<IndexEntry>, chunk_id: u64, latest: bool) -> Option<int> {
    if latest {
        last_entry(entries, chunk_id)
    } else {
        first_entry(entries, chunk_id)
    }
}

/// What is wrong with a referenced chunk, if anything is; a chunk without entry passes.
pub open spec fn chunk_fault(
    data: Seq<u8>,
    entries: Seq<IndexEntry>,
    latest: bool,
    chunk: ChunkRef,
) -> Option<IoError> {
    match entry_of(entries, chunk.chunk_id, latest) {
        None => None,
        Some(i) => checksum_fault(data, entries[i], chunk.checksum),
    }
}

/// The first fault of the first `n` chunks of a list.
pub open spec fn chunks_fault(
    data: Seq<u8>,
    entries: Seq<IndexEntry>,
    latest: bool,
    chunks: Seq<ChunkRef>,
    n: int,
) -> Option<IoError>
    decreases n,
{
    if n <= 0 {
        None
    } else {
        match chunks_fault(data, entries, latest, chunks, n - 1) {
            Some(e) => Some(e),
            None => chunk_fault(data, entries, latest, chunks[n - 1]),
        }
    }
}

/// The first fault of the chunks of the first `n` schemas.
pub open spec fn schemas_fault(
    data: Seq<u8>,
    entries: Seq<IndexEntry>,
    latest: bool,
    schemas: Seq<SchemaView>,
    n: int,
) -> Option<IoError>
    decreases n,
{
    if n <= 0 {
        None
    } else {
        match schemas_fault(data, entries, latest, schemas, n - 1) {
            Some(e) => Some(e),
            None => chunks_fault(
                data,
                entries,
                latest,
                schemas[n - 1].chunks,
                schemas[n - 1].chunks.len() as int,
            ),
        }
    }
}

proof fn lemma_chunks_fault_stays(
    data: Seq<u8>,
    entries: Seq<IndexEntry>,
    latest: bool,
    chunks: Seq<ChunkRef>,
    a: int,
    b: int,
)
    requires
        a <= b,
        chunks_fault(data, entries, latest, chunks, a) is Some,
    ensures
        chunks_fault(data, entries, latest, chunks, b) == chunks_fault(
            data,
            entries,
            latest,
            chunks,
            a,
        ),
    decreases b - a,
{
    if a < b {
        lemma_chunks_fault_stays(data, entries, latest, chunks, a, b - 1);
    }
}

proof fn lemma_schemas_fault_stays(
    data: Seq<u8>,
    entries: Seq<IndexEntry>,
    latest: bool,
    schemas: Seq<SchemaView>,
    a: int,
    b: int,
)
    requires
        a <= b,
        schemas_fault(data, entries, latest, schemas, a) is Some,
    ensures
        schemas_fault(data, entries, latest, schemas, b) == schemas_fault(
            data,
            entries,
            latest,
            schemas,
            a,
        ),
    decreases b - a,
{
    if a < b {
        lemma_schemas_fault_stays(data, entries, latest, schemas, a, b - 1);
    }
}

/// Check the payload of every referenced chunk that has an entry; `find` gives the position of
/// the entry that counts.
pub(crate) fn check_chunks<F: Fn(u64) -> Option<usize>>(
    data: &[u8],
    entries: &[IndexEntry],
    schemas: &[TensorSchema],
    find: F,
    Ghost(latest): Ghost<bool>,
) -> (r: Result<(), IoError>)
    requires
        forall|id: u64| #[trigger] call_requires(find, (id,)),
        forall|id: u64, found: Option<usize>| #[trigger]
            call_ensures(find, (id,), found) ==> match found {
                Some(i) => i < entries@.len() && entry_of(entries@, id, latest) == Some(i as int),
                None => entry_of(entries@, id, latest) is None,
            },
    ensures
        match r {
            Ok(_) => schemas_fault(
                data@,
                entries@,
                latest,
                schema_views(schemas@),
                schemas@.len() as int,
            ) is None,
            Err(e) => schemas_fault(
                data@,
                entries@,
                latest,
                schema_views(schemas@),
                schemas@.len() as int,
            ) == Some(e),
        },
{
    let ghost views = schema_views(schemas@);
    let mut i: usize = 0;
    while i < schemas.len()
        invariant
            i <= schemas@.len(),
            views == schema_views(schemas@),
            forall|id: u64| #[trigger] call_requires(find, (id,)),
            forall|id: u64, found: Option<usize>| #[trigger]
                call_ensures(find, (id,), found) ==> match found {
                    Some(i) => i < entries@.len() && entry_of(entries@, id, latest) == Some(
                        i as int,
                    ),
                    None => entry_of(entries@, id, latest) is None,
                },
            schemas_fault(data@, entries@, latest, views, i as int) is None,
        decreases schemas@.len() - i,
    {
        let schema: &TensorSchema = &schemas[i];
        let ghost chunks = schema.chunks@;
        assert(views[i as int].chunks == chunks);
        let mut j: usize = 0;
        while j < schema.chunks.len()
            invariant
                i < schemas@.len(),
                j <= schema.chunks@.len(),
                chunks == schema.chunks@,
                views == schema_views(schemas@),
                views[i as int].chunks == chunks,
                forall|id: u64| #[trigger] call_requires(find, (id,)),
                forall|id: u64, found: Option<usize>| #[trigger]
                    call_ensures(find, (id,), found) ==> match found {
                        Some(i) => i < entries@.len() && entry_of(entries@, id, latest) == Some(
                            i as int,
                        ),
                        None => entry_of(entries@, id, latest) is None,
                    },
                schemas_fault(data@, entries@, latest, views, i as int) is None,
                chunks_fault(data@, entries@, latest, chunks, j as int) is None,
            decreases schema.chunks@.len() - j,
        {
            let chunk: ChunkRef = schema.chunks[j];
            if let Some(at) = find(chunk.chunk_id) {
                match check_entry(data, &entries[at], &chunk.checksum) {
                    Ok(_) => {},
                    Err(e) => {
                        proof {
                            lemma_chunks_fault_stays(
                                data@,
                                entries@,
                                latest,
                                chunks,
                                j + 1,
                                chunks.len() as int,
                            );
                            lemma_schemas_fault_stays(
                                data@,
                                entries@,
                                latest,
                                views,
                                i + 1,
                                views.len() as int,
                            );
                        }
                        return Err(e);
                    },
                }
            }
            j += 1;
        }
        i += 1;
    }
    Ok(())
}

/// Where no chunk id occurs twice in the index, it makes no difference whether the first or the
/// latest entry of a chunk counts: slices and checks come out the same.
pub proof fn law_entry_choice_is_free(
    data: Seq<u8>,
    tensor_map: Map<Seq<char>, u64>,
    entries: Seq<IndexEntry>,
    schemas: Seq<SchemaView>,
    name: Seq<char>,
)
    requires
        distinct_ids(entries),
    ensures
        slice_outcome(data, tensor_map, entries, true, name) == slice_outcome(
            data,
            tensor_map,
            entries,
            false,
            name,
        ),
        schemas_fault(data, entries, true, schemas, schemas.len() as int) == schemas_fault(
            data,
            entries,
            false,
            schemas,
            schemas.len() as int,
        ),
{
    if lookup(tensor_map, name) is Some {
        law_distinct_ids_agree(entries, tensor_map[name]);
    }
    lemma_schemas_fault_agrees(data, entries, schemas, schemas.len() as int);
}

proof fn lemma_chunks_fault_agrees(
    data: Seq<u8>,
    entries: Seq<IndexEntry>,
    chunks: Seq<ChunkRef>,
    n: int,
)
    requires
        distinct_ids(entries),
    ensures
        chunks_fault(data, entries, true, chunks, n) == chunks_fault(
            data,
            entries,
            false,
            chunks,
            n,
        ),
    decreases n,
{
    if n > 0 {
        lemma_chunks_fault_agrees(data, entries, chunks, n - 1);
        law_distinct_ids_agree(entries, chunks[n - 1].chunk_id);
    }
}

proof fn lemma_schemas_fault_agrees(
    data: Seq<u8>,
    entries: Seq<IndexEntry>,
    schemas: Seq<SchemaView>,
    n: int,
)
    requires
        distinct_ids(entries),
    ensures
        schemas_fault(data, entries, true, schemas, n) == schemas_fault(
            data,
            entries,
            false,
            schemas,
            n,
        ),
    decreases n,
{
    if n > 0 {
        lemma_schemas_fault_agrees(data, entries, schemas, n - 1);
        lemma_chunks_fault_agrees(
            data,
            entries,
            schemas[n - 1].chunks,
            schemas[n - 1].chunks.len() as int,
        );
    }
}

} // verus!
