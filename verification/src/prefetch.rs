//! Reading with a buffer that background workers fill ahead of the reads.
//!
//! The workers themselves, and the hints given to the operating system, are left to the caller;
//! which chunk is fetched next, what goes into the buffer and what a read gives is decided here.

use crate::blocks::{
    check_chunks, chunks_extent_fault, decodes_to, entry_of, find_named, header_block, header_end,
    index_block, index_end, index_start, joined_payloads, locate_payload, payload_at, payload_end,
    payload_fault, payload_start, read_outcome, schema_block, schema_in_bounds, schema_named,
    schema_start, schemas_fault,
};
use crate::bytes::{copy_bytes, get_u64};
use crate::constants::{
    CHUNK_CHECKSUM_SIZE, CHUNK_HEADER_SIZE, FILE_HEADER_PREFIX_SIZE, FOOTER_SIZE,
};
use crate::error::{IoError, NcfError};
use crate::header::{has_magic, prefix_of, FileHeaderPrefix, NcfHeader};
use crate::index::{distinct_ids, find_entry, first_entry, lookup, IndexEntry, NcfIndex};
use crate::reader::{inspect_lines, line_views, make_inspect_lines};
use crate::schema::{schema_views, ChunkRef, SchemaView, TensorSchema};
use std::collections::{HashMap, HashSet};
use vstd::prelude::*;
use vstd::slice::slice_subrange;

verus! {

broadcast use vstd::std_specs::hash::group_hash_axioms;

/// A shared byte string of the `bytes` crate.
#[verifier::external_type_specification]
#[verifier::external_body]
pub struct ExBytes(bytes::Bytes);

/// The bytes that a `bytes::Bytes` holds.
pub uninterp spec fn bytes_content(b: bytes::Bytes) -> Seq<u8>;

/// Calls `bytes::Bytes::copy_from_slice`. Claimed of it: the result holds the given bytes.
#[verifier::external_body]
fn share_bytes(data: &[u8]) -> (b: bytes::Bytes)
    ensures
        bytes_content(b) == data@,
{
    bytes::Bytes::copy_from_slice(data)
}

/// Calls `to_vec` on the slice that `bytes::Bytes` derefs to. Claimed of it: the result holds
/// the bytes of the byte string.
#[verifier::external_body]
fn unshare_bytes(b: &bytes::Bytes) -> (v: Vec<u8>)
    ensures
        v@ == bytes_content(*b),
{
    b.to_vec()
}

/// Options controlling how a prefetch reader works.
pub struct PrefetchOptions {
    /// Whether to prefetch in the background.
    pub enabled: bool,
}

impl Default for PrefetchOptions {
    fn default() -> (o: Self)
        ensures
            o.enabled,
    {
        PrefetchOptions { enabled: true }
    }
}

/// The region of a file to announce to the operating system, if it is not empty: the wanted
/// region, cut at the end of the file.
pub open spec fn advised_region(file_size: int, start: int, len: int) -> Option<(int, int)> {
    if len == 0 || start >= file_size {
        None
    } else if len <= file_size - start {
        Some((start, len))
    } else {
        Some((start, file_size - start))
    }
}

/// The region of a file to announce to the operating system: its start and length.
pub fn advise_region(file_size: usize, start: usize, len: usize) -> (r: Option<(usize, usize)>)
    ensures
        match (r, advised_region(file_size as int, start as int, len as int)) {
            (Some(a), Some(b)) => a.0 == b.0 && a.1 == b.1,
            (None, None) => true,
            _ => false,
        },
{
    if len == 0 || start >= file_size {
        return None;
    }
    let rest: usize = file_size - start;
    if len <= rest {
        Some((start, len))
    } else {
        Some((start, rest))
    }
}

/// Whether entry `i` is the one to fetch after a read at `offset`: the nearest behind it, and
/// the first of those equally near.
pub open spec fn follows(entries: Seq<IndexEntry>, offset: u64, i: int) -> bool {
    &&& 0 <= i < entries.len()
    &&& entries[i].byte_offset > offset
    &&& forall|j: int|
        0 <= j < entries.len() && (#[trigger] entries[j]).byte_offset > offset
            ==> entries[i].byte_offset <= entries[j].byte_offset
    &&& forall|j: int|
        0 <= j < i && (#[trigger] entries[j]).byte_offset > offset ==> entries[i].byte_offset
            < entries[j].byte_offset
}

/// The entry to fetch after a read at the given offset.
pub fn predict_next(entries: &[IndexEntry], offset: u64) -> (r: Option<IndexEntry>)
    ensures
        match r {
            Some(entry) => exists|i: int| follows(entries@, offset, i) && entries@[i] == entry,
            None => forall|j: int|
                0 <= j < entries@.len() ==> (#[trigger] entries@[j]).byte_offset <= offset,
        },
{
    let mut best: Option<usize> = None;
    let mut i: usize = 0;
    while i < entries.len()
        invariant
            i <= entries@.len(),
            match best {
                Some(b) => b < i && follows(entries@.take(i as int), offset, b as int),
                None => forall|j: int|
                    0 <= j < i ==> (#[trigger] entries@[j]).byte_offset <= offset,
            },
        decreases entries@.len() - i,
    {
        let ghost before = entries@.take(i as int);
        let ghost after = entries@.take(i + 1);
        assert(forall|j: int| 0 <= j < i ==> before[j] == #[trigger] after[j]);
        if entries[i].byte_offset > offset {
            match best {
                Some(b) => {
                    assert(before[b as int] == entries@[b as int]);
                    if entries[i].byte_offset < entries[b].byte_offset {
                        assert forall|j: int|
                            0 <= j < after.len() && (#[trigger] after[j]).byte_offset
                                > offset implies entries@[i as int].byte_offset
                            <= after[j].byte_offset by {
                            if j < i {
                                assert(before[j] == after[j]);
                            }
                        }
                        assert forall|j: int|
                            0 <= j < i && (#[trigger] after[j]).byte_offset
                                > offset implies entries@[i as int].byte_offset
                            < after[j].byte_offset by {
                            assert(before[j] == after[j]);
                        }
                        best = Some(i);
                    } else {
                        assert forall|j: int|
                            0 <= j < after.len() && (#[trigger] after[j]).byte_offset
                                > offset implies after[b as int].byte_offset
                            <= after[j].byte_offset by {
                            if j < i {
                                assert(before[j] == after[j]);
                            }
                        }
                        assert forall|j: int|
                            0 <= j < b && (#[trigger] after[j]).byte_offset
                                > offset implies after[b as int].byte_offset
                            < after[j].byte_offset by {
                            assert(before[j] == after[j]);
                        }
                    }
                },
                None => {
                    assert(follows(after, offset, i as int));
                    best = Some(i);
                },
            }
        } else {
            if let Some(b) = best {
                assert(before[b as int] == after[b as int]);
                assert forall|j: int|
                    0 <= j < after.len() && (#[trigger] after[j]).byte_offset
                        > offset implies after[b as int].byte_offset <= after[j].byte_offset by {
                    if j < i {
                        assert(before[j] == after[j]);
                    }
                }
                assert forall|j: int|
                    0 <= j < b && (#[trigger] after[j]).byte_offset
                        > offset implies after[b as int].byte_offset < after[j].byte_offset by {
                    assert(before[j] == after[j]);
                }
            }
        }
        i += 1;
    }
    assert(entries@.take(i as int) =~= entries@);
    match best {
        Some(b) => Some(entries[b]),
        None => None,
    }
}

/// The end of the payload of a chunk, or the last address if it is not addressable.
pub open spec fn clamped_end(entry: IndexEntry) -> int {
    if payload_end(entry.byte_offset, entry.byte_len) > usize::MAX {
        usize::MAX as int
    } else {
        payload_end(entry.byte_offset, entry.byte_len)
    }
}

/// What a worker fetches for an entry: its payload, unless that starts or ends behind the file.
pub open spec fn fetched(data: Seq<u8>, entry: IndexEntry) -> Option<Seq<u8>> {
    if payload_start(entry.byte_offset) >= data.len() || clamped_end(entry) > data.len() {
        None
    } else {
        Some(data.subrange(payload_start(entry.byte_offset), clamped_end(entry)))
    }
}

/// Copy the payload of a chunk out of the file.
pub fn fetch_payload(data: &[u8], entry: &IndexEntry) -> (r: Option<bytes::Bytes>)
    requires
        payload_start(entry.byte_offset) <= usize::MAX,
    ensures
        match (r, fetched(data@, *entry)) {
            (Some(b), Some(payload)) => bytes_content(b) == payload,
            (None, None) => true,
            _ => false,
        },
{
    let start: usize = entry.byte_offset as usize + CHUNK_HEADER_SIZE as usize;
    if start >= data.len() {
        return None;
    }
    let len: usize = (entry.byte_len as usize).saturating_sub(
        (CHUNK_HEADER_SIZE + CHUNK_CHECKSUM_SIZE) as usize,
    );
    let end: usize = start.saturating_add(len);
    if end > data.len() {
        return None;
    }
    Some(share_bytes(slice_subrange(data, start, end)))
}

/// The payloads fetched ahead, and the chunks being fetched.
pub struct PrefetchBuffer {
    buffer: HashMap<u64, bytes::Bytes>,
    inflight: HashSet<u64>,
}

/// What a prefetch buffer holds.
#[verifier::ext_equal]
pub struct PrefetchState {
    /// Fetched payloads by chunk id.
    pub buffer: Map<u64, Seq<u8>>,
    /// Ids of the chunks being fetched.
    pub inflight: Set<u64>,
}

impl View for PrefetchBuffer {
    type V = PrefetchState;

    closed spec fn view(&self) -> PrefetchState {
        PrefetchState {
            buffer: Map::new(
                |id: u64| self.buffer@.contains_key(id),
                |id: u64| bytes_content(self.buffer@[id]),
            ),
            inflight: self.inflight@,
        }
    }
}

impl PrefetchState {
    /// The state after a payload, or none, has been fetched for a chunk: a payload that is
    /// already there stays.
    pub open spec fn finished(self, chunk_id: u64, payload: Option<Seq<u8>>) -> PrefetchState {
        PrefetchState {
            buffer: match payload {
                Some(p) => if self.buffer.contains_key(chunk_id) {
                    self.buffer
                } else {
                    self.buffer.insert(chunk_id, p)
                },
                None => self.buffer,
            },
            inflight: self.inflight.remove(chunk_id),
        }
    }

    /// The state after the payload of a chunk has been taken out.
    pub open spec fn taken(self, chunk_id: u64) -> PrefetchState {
        PrefetchState { buffer: self.buffer.remove(chunk_id), ..self }
    }

    /// Whether every payload was fetched for an entry of its chunk.
    pub open spec fn coherent(self, data: Seq<u8>, entries: Seq<IndexEntry>) -> bool {
        forall|id: u64| #[trigger]
            self.buffer.contains_key(id) ==> exists|i: int|
                0 <= i < entries.len() && (#[trigger] entries[i]).chunk_id == id && fetched(
                    data,
                    entries[i],
                ) == Some(self.buffer[id])
    }
}

impl PrefetchBuffer {
    /// An empty buffer.
    pub fn new() -> (b: Self)
        ensures
            b@ == (PrefetchState { buffer: Map::empty(), inflight: Set::empty() }),
    {
        let b: PrefetchBuffer = PrefetchBuffer { buffer: HashMap::new(), inflight: HashSet::new() };
        assert(b@.buffer =~= Map::<u64, Seq<u8>>::empty());
        b
    }

    /// Claim a chunk for fetching; false if it is being fetched already.
    pub fn begin(&mut self, chunk_id: u64) -> (claimed: bool)
        ensures
            claimed == !old(self)@.inflight.contains(chunk_id),
            final(self)@ == (PrefetchState {
                inflight: old(self)@.inflight.insert(chunk_id),
                ..old(self)@
            }),
    {
        let claimed: bool = self.inflight.insert(chunk_id);
        assert(self@.buffer =~= old(self)@.buffer);
        claimed
    }

    /// End the fetching of a chunk and keep the payload, if there is one and none was kept yet.
    pub fn finish(&mut self, chunk_id: u64, payload: Option<bytes::Bytes>)
        ensures
            final(self)@ == old(self)@.finished(
                chunk_id,
                match payload {
                    Some(b) => Some(bytes_content(b)),
                    None => None,
                },
            ),
    {
        if let Some(b) = payload {
            if !self.buffer.contains_key(&chunk_id) {
                self.buffer.insert(chunk_id, b);
            }
        }
        self.inflight.remove(&chunk_id);
        assert(self@ =~= old(self)@.finished(
            chunk_id,
            match payload {
                Some(b) => Some(bytes_content(b)),
                None => None,
            },
        ));
    }

    /// Whether a payload was fetched ahead for a chunk.
    pub fn contains(&self, chunk_id: u64) -> (r: bool)
        ensures
            r == self@.buffer.contains_key(chunk_id),
    {
        self.buffer.contains_key(&chunk_id)
    }

    /// Take the payload of a chunk out of the buffer, if it is there.
    pub fn take(&mut self, chunk_id: u64) -> (r: Option<Vec<u8>>)
        ensures
            final(self)@ == old(self)@.taken(chunk_id),
            match r {
                Some(v) => old(self)@.buffer.contains_key(chunk_id) && v@
                    == old(self)@.buffer[chunk_id],
                None => !old(self)@.buffer.contains_key(chunk_id),
            },
    {
        let found: Option<bytes::Bytes> = self.buffer.remove(&chunk_id);
        assert(self@ =~= old(self)@.taken(chunk_id));
        match found {
            Some(b) => Some(unshare_bytes(&b)),
            None => None,
        }
    }
}

/// What a worker does with a prediction task, given the file and its entries: fetch the
/// predicted chunk unless it is being fetched already.
pub fn prefetch_entry(data: &[u8], buffer: &mut PrefetchBuffer, entry: &IndexEntry)
    requires
        !old(buffer)@.inflight.contains(entry.chunk_id) ==> payload_start(entry.byte_offset)
            <= usize::MAX,
    ensures
        old(buffer)@.inflight.contains(entry.chunk_id) ==> final(buffer)@ == old(buffer)@,
        !old(buffer)@.inflight.contains(entry.chunk_id) ==> final(buffer)@
            == old(buffer)@.finished(entry.chunk_id, fetched(data@, *entry)),
{
    if !buffer.begin(entry.chunk_id) {
        assert(buffer@ =~= old(buffer)@);
        return;
    }
    let payload: Option<bytes::Bytes> = fetch_payload(data, entry);
    buffer.finish(entry.chunk_id, payload);
    assert(buffer@ =~= old(buffer)@.finished(entry.chunk_id, fetched(data@, *entry)));
}

/// Reader over the bytes of a file that uses payloads fetched ahead.
pub struct PrefetchReader<'a> {
    /// The bytes of the file.
    pub mmap: &'a [u8],
    /// Parsed file header prefix.
    pub header_prefix: FileHeaderPrefix,
    /// Decoded header metadata.
    pub metadata: NcfHeader,
    /// Decoded schemas.
    pub schemas: Vec<TensorSchema>,
    /// Index of the file.
    pub index: NcfIndex,
}

/// What is wrong with the prefix or the address of the header block, if anything is. That the
/// blocks lie within the file is not looked at.
pub open spec fn prefix_fault(data: Seq<u8>) -> Option<IoError> {
    if data.len() < FILE_HEADER_PREFIX_SIZE {
        Some(IoError::FileTooSmall { len: data.len() as usize })
    } else if !has_magic(data) {
        Some(IoError::BadMagic)
    } else if header_end(data) > usize::MAX {
        Some(IoError::HeaderOverflow)
    } else {
        None
    }
}

/// Whether opening the bytes with these decoders fails with this error: at the first fault, or at
/// the first block that its decoder refuses.
pub open spec fn prefetch_open_fails<
    H: Fn(&[u8]) -> Result<NcfHeader, NcfError>,
    D: Fn(&[u8]) -> Result<Vec<TensorSchema>, String>,
    I: Fn(&[u8]) -> Result<NcfIndex, String>,
>(data: Seq<u8>, decode_header: H, decode_schemas: D, decode_index: I, e: NcfError) -> bool {
    match prefix_fault(data) {
        Some(fault) => e == NcfError::Io(fault),
        None => {
            ||| decodes_to(decode_header, header_block(data), Err(e))
            ||| exists|m: NcfHeader| #[trigger]
                decodes_to(decode_header, header_block(data), Ok(m)) && (
                e matches NcfError::Io(IoError::Decode(text)) && decodes_to(
                    decode_schemas,
                    schema_block(data),
                    Err(text),
                ))
            ||| exists|m: NcfHeader, s: Vec<TensorSchema>| #[trigger]
                decodes_to(decode_header, header_block(data), Ok(m)) && #[trigger] decodes_to(
                    decode_schemas,
                    schema_block(data),
                    Ok(s),
                ) && if index_end(data) > usize::MAX {
                    e == NcfError::Io(IoError::IndexOverflow)
                } else {
                    e matches NcfError::Io(IoError::Decode(text)) && decodes_to(
                        decode_index,
                        index_block(data),
                        Err(text),
                    )
                }
        },
    }
}

/// Whether the header block of a file that has an addressable one lies within the file.
pub open spec fn header_within(data: Seq<u8>) -> bool {
    prefix_fault(data) is None ==> header_end(data) <= data.len()
}

/// Whether the index block lies within the file, if its end is addressable.
pub open spec fn index_within(data: Seq<u8>) -> bool {
    index_end(data) <= usize::MAX ==> index_end(data) <= data.len()
}

/// Whether the header block, the schema block and the index block of a file lie within it, as far
/// as its prefix locates them.
pub fn blocks_within(data: &[u8]) -> (r: (bool, bool, bool))
    ensures
        r.0 == header_within(data@),
        r.1 == (prefix_fault(data@) is None ==> schema_in_bounds(data@)),
        r.2 == (prefix_fault(data@) is None ==> index_within(data@)),
{
    if data.len() < FILE_HEADER_PREFIX_SIZE as usize {
        return (true, true, true);
    }
    let prefix: FileHeaderPrefix = match FileHeaderPrefix::decode(data) {
        Ok(prefix) => prefix,
        Err(_) => return (true, true, true),
    };
    let header_start: usize = FILE_HEADER_PREFIX_SIZE as usize;
    let header_end: usize = match header_start.checked_add(prefix.header_len as usize) {
        Some(end) => end,
        None => return (true, true, true),
    };
    let schema_start: usize = prefix.schema_offset as usize;
    let index_start: usize = prefix.index_offset as usize;
    let index_len: usize = get_u64(data, data.len() - FOOTER_SIZE + 8) as usize;
    let index_ok: bool = match index_start.checked_add(index_len) {
        Some(end) => end <= data.len(),
        None => true,
    };
    (header_end <= data.len(), schema_start <= index_start && index_start <= data.len(), index_ok)
}

/// Whether the start of the payload that an entry locates is addressable, and whether its end is.
pub fn payload_addressable(entry: &IndexEntry) -> (r: (bool, bool))
    ensures
        r.0 == (payload_start(entry.byte_offset) <= usize::MAX),
        r.1 == addressable(*entry),
{
    let len: usize = (entry.byte_len as usize).saturating_sub(
        (CHUNK_HEADER_SIZE + CHUNK_CHECKSUM_SIZE) as usize,
    );
    match (entry.byte_offset as usize).checked_add(CHUNK_HEADER_SIZE as usize) {
        Some(start) => (true, start.checked_add(len).is_some()),
        None => (false, false),
    }
}

/// The entry that a name leads to, if there is one.
pub open spec fn entry_named(index: NcfIndex, name: Seq<char>) -> Option<IndexEntry> {
    match lookup(index.tensor_map@, name) {
        None => None,
        Some(id) => match first_entry(index.entries@, id) {
            None => None,
            Some(i) => Some(index.entries@[i]),
        },
    }
}

/// Whether the end of the payload that an entry locates is addressable.
pub open spec fn addressable(entry: IndexEntry) -> bool {
    payload_end(entry.byte_offset, entry.byte_len) <= usize::MAX
}

/// What reading the chunk of an entry from the file gives.
pub open spec fn direct_read(data: Seq<u8>, entry: IndexEntry) -> Result<Seq<u8>, IoError> {
    if payload_end(entry.byte_offset, entry.byte_len) > data.len() {
        Err(IoError::ChunkDataPastEnd)
    } else {
        Ok(payload_at(data, entry.byte_offset, entry.byte_len))
    }
}

/// What reading the chunk that a reference locates gives: what was fetched ahead for it, or else
/// what the file holds.
pub open spec fn chunk_read(
    data: Seq<u8>,
    buffer: Map<u64, Seq<u8>>,
    chunk: ChunkRef,
) -> Result<Seq<u8>, IoError> {
    if buffer.contains_key(chunk.chunk_id) {
        Ok(buffer[chunk.chunk_id])
    } else {
        match payload_fault(data.len() as int, chunk.byte_offset, chunk.byte_len) {
            Some(e) => Err(e),
            None => Ok(payload_at(data, chunk.byte_offset, chunk.byte_len)),
        }
    }
}

/// What reading the chunks from the second up to chunk `n` gives, one behind the other, and what
/// then is in the buffer.
pub open spec fn tail_read(
    data: Seq<u8>,
    s: PrefetchState,
    chunks: Seq<ChunkRef>,
    n: int,
) -> (Result<Seq<u8>, IoError>, PrefetchState)
    decreases n,
{
    if n <= 1 {
        (Ok(Seq::empty()), s)
    } else {
        let before = tail_read(data, s, chunks, n - 1);
        match before.0 {
            Err(_) => before,
            Ok(bytes) => {
                let after = before.1.taken(chunks[n - 1].chunk_id);
                match chunk_read(data, before.1.buffer, chunks[n - 1]) {
                    Err(e) => (Err(e), after),
                    Ok(more) => (Ok(bytes + more), after),
                }
            },
        }
    }
}

/// What reading the first chunk of a tensor gives.
pub open spec fn head_read(
    data: Seq<u8>,
    s: PrefetchState,
    entry: IndexEntry,
) -> Result<Seq<u8>, IoError> {
    if s.buffer.contains_key(entry.chunk_id) {
        Ok(s.buffer[entry.chunk_id])
    } else {
        direct_read(data, entry)
    }
}

/// The chunks of the first schema of a name.
pub open spec fn chunks_named(schemas: Seq<SchemaView>, name: Seq<char>) -> Seq<ChunkRef> {
    match schema_named(schemas, name) {
        Some(i) => schemas[i].chunks,
        None => Seq::empty(),
    }
}

/// What reading a tensor with prefetching gives, and what then is in the buffer: nothing for a
/// name without entry, else the chunk of the entry and the further chunks that the schema lists.
pub open spec fn prefetch_read(
    data: Seq<u8>,
    index: NcfIndex,
    schemas: Seq<SchemaView>,
    s: PrefetchState,
    name: Seq<char>,
) -> (Result<Option<Seq<u8>>, IoError>, PrefetchState) {
    match entry_named(index, name) {
        None => (Ok(None), s),
        Some(entry) => {
            let after = s.taken(entry.chunk_id);
            match head_read(data, s, entry) {
                Err(e) => (Err(e), after),
                Ok(head) => {
                    let chunks = chunks_named(schemas, name);
                    let tail = tail_read(data, after, chunks, chunks.len() as int);
                    match tail.0 {
                        Err(e) => (Err(e), tail.1),
                        Ok(rest) => (Ok(Some(head + rest)), tail.1),
                    }
                },
            }
        },
    }
}

/// Whether a chunk lies within the file, and what was fetched ahead for it is what it holds.
pub open spec fn chunk_agrees(
    data: Seq<u8>,
    buffer: Map<u64, Seq<u8>>,
    chunk: ChunkRef,
) -> bool {
    &&& payload_fault(data.len() as int, chunk.byte_offset, chunk.byte_len) is None
    &&& buffer.contains_key(chunk.chunk_id) ==> buffer[chunk.chunk_id] == payload_at(
        data,
        chunk.byte_offset,
        chunk.byte_len,
    )
}

/// Whether index, schemas and buffer agree about a name: it leads to the first chunk that its
/// schema lists, and every listed chunk agrees.
pub open spec fn name_agrees(
    data: Seq<u8>,
    index: NcfIndex,
    schemas: Seq<SchemaView>,
    buffer: Map<u64, Seq<u8>>,
    name: Seq<char>,
) -> bool {
    match schema_named(schemas, name) {
        None => entry_named(index, name) is None,
        Some(i) => {
            let chunks = schemas[i].chunks;
            &&& chunks.len() > 0
            &&& entry_named(index, name) matches Some(entry)
            &&& entry.chunk_id == chunks[0].chunk_id
            &&& entry.byte_offset == chunks[0].byte_offset
            &&& entry.byte_len == chunks[0].byte_len
            &&& forall|j: int|
                0 <= j < chunks.len() ==> chunk_agrees(data, buffer, #[trigger] chunks[j])
        },
    }
}

proof fn lemma_tail_is_joined(
    data: Seq<u8>,
    s: PrefetchState,
    chunks: Seq<ChunkRef>,
    n: int,
)
    requires
        1 <= n <= chunks.len(),
        forall|j: int|
            0 <= j < chunks.len() ==> chunk_agrees(data, s.buffer, #[trigger] chunks[j]),
    ensures
        tail_read(data, s, chunks, n).0 matches Ok(rest) && joined_payloads(data, chunks, n)
            == payload_at(data, chunks[0].byte_offset, chunks[0].byte_len) + rest,
        chunks_extent_fault(data.len() as int, chunks, n) is None,
        forall|id: u64| #[trigger]
            tail_read(data, s, chunks, n).1.buffer.contains_key(id) ==> s.buffer.contains_key(id)
                && tail_read(data, s, chunks, n).1.buffer[id] == s.buffer[id],
    decreases n,
{
    let head = payload_at(data, chunks[0].byte_offset, chunks[0].byte_len);
    reveal_with_fuel(joined_payloads, 2);
    reveal_with_fuel(chunks_extent_fault, 2);
    assert(chunk_agrees(data, s.buffer, chunks[0]));
    if n == 1 {
        assert(joined_payloads(data, chunks, 1) =~= head + Seq::<u8>::empty());
    } else {
        lemma_tail_is_joined(data, s, chunks, n - 1);
        assert(chunk_agrees(data, s.buffer, chunks[n - 1]));
        let before = tail_read(data, s, chunks, n - 1);
        let more = payload_at(data, chunks[n - 1].byte_offset, chunks[n - 1].byte_len);
        assert(chunk_read(data, before.1.buffer, chunks[n - 1]) == Ok::<Seq<u8>, IoError>(more));
        assert(head + before.0->Ok_0 + more =~= head + (before.0->Ok_0 + more));
    }
}

/// Reading with prefetching gives what reading directly gives, for every name about which index,
/// schemas and buffer agree.
pub proof fn law_agreeing_read_is_direct(
    data: Seq<u8>,
    index: NcfIndex,
    schemas: Seq<SchemaView>,
    s: PrefetchState,
    name: Seq<char>,
)
    requires
        name_agrees(data, index, schemas, s.buffer, name),
    ensures
        prefetch_read(data, index, schemas, s, name).0 == read_outcome(data, schemas, name),
{
    if schema_named(schemas, name) is Some {
        let chunks = chunks_named(schemas, name);
        let entry = entry_named(index, name)->0;
        let after = s.taken(entry.chunk_id);
        assert(chunk_agrees(data, s.buffer, chunks[0]));
        assert forall|j: int| 0 <= j < chunks.len() implies chunk_agrees(
            data,
            after.buffer,
            #[trigger] chunks[j],
        ) by {
            assert(chunk_agrees(data, s.buffer, chunks[j]));
        }
        lemma_tail_is_joined(data, after, chunks, chunks.len() as int);
    }
}

impl<'a> PrefetchReader<'a> {
    /// Whether this reader is the result of opening the bytes with these decoders.
    pub open spec fn opened<
        H: Fn(&[u8]) -> Result<NcfHeader, NcfError>,
        D: Fn(&[u8]) -> Result<Vec<TensorSchema>, String>,
        I: Fn(&[u8]) -> Result<NcfIndex, String>,
    >(&self, data: Seq<u8>, decode_header: H, decode_schemas: D, decode_index: I) -> bool {
        &&& prefix_fault(data) is None
        &&& index_end(data) <= usize::MAX
        &&& self.mmap@ == data
        &&& self.header_prefix == prefix_of(data)
        &&& decodes_to(decode_header, header_block(data), Ok(self.metadata))
        &&& decodes_to(decode_schemas, schema_block(data), Ok(self.schemas))
        &&& decodes_to(decode_index, index_block(data), Ok(self.index))
    }

    /// Open the bytes of a file. The blocks have to lie within the file, as far as decoding comes
    /// to them.
    pub fn open<
        H: Fn(&[u8]) -> Result<NcfHeader, NcfError>,
        D: Fn(&[u8]) -> Result<Vec<TensorSchema>, String>,
        I: Fn(&[u8]) -> Result<NcfIndex, String>,
    >(mmap: &'a [u8], decode_header: H, decode_schemas: D, decode_index: I) -> (r: Result<
        PrefetchReader<'a>,
        NcfError,
    >)
        requires
            forall|s: &[u8]| #[trigger] call_requires(decode_header, (s,)),
            forall|s: &[u8]| #[trigger] call_requires(decode_schemas, (s,)),
            forall|s: &[u8]| #[trigger] call_requires(decode_index, (s,)),
            header_within(mmap@),
            forall|m: NcfHeader|
                prefix_fault(mmap@) is None && #[trigger] decodes_to(
                    decode_header,
                    header_block(mmap@),
                    Ok(m),
                ) ==> schema_in_bounds(mmap@),
            forall|m: NcfHeader, s: Vec<TensorSchema>|
                prefix_fault(mmap@) is None && #[trigger] decodes_to(
                    decode_header,
                    header_block(mmap@),
                    Ok(m),
                ) && #[trigger] decodes_to(decode_schemas, schema_block(mmap@), Ok(s))
                    ==> index_within(mmap@),
        ensures
            match r {
                Ok(reader) => reader.opened(mmap@, decode_header, decode_schemas, decode_index),
                Err(e) => prefetch_open_fails(
                    mmap@,
                    decode_header,
                    decode_schemas,
                    decode_index,
                    e,
                ),
            },
    {
        if mmap.len() < FILE_HEADER_PREFIX_SIZE as usize {
            return Err(NcfError::Io(IoError::FileTooSmall { len: mmap.len() }));
        }
        let header_prefix: FileHeaderPrefix = match FileHeaderPrefix::decode(mmap) {
            Ok(prefix) => prefix,
            Err(_) => return Err(NcfError::Io(IoError::BadMagic)),
        };
        let header_start: usize = FILE_HEADER_PREFIX_SIZE as usize;
        let header_end: usize = match header_start.checked_add(header_prefix.header_len as usize) {
            Some(end) => end,
            None => return Err(NcfError::Io(IoError::HeaderOverflow)),
        };
        let header: &[u8] = slice_subrange(mmap, header_start, header_end);
        assert(header@ == header_block(mmap@));
        let metadata: NcfHeader = match decode_header(header) {
            Ok(metadata) => metadata,
            Err(e) => {
                assert(decodes_to(decode_header, header_block(mmap@), Err(e)));
                return Err(e);
            },
        };
        assert(decodes_to(decode_header, header_block(mmap@), Ok(metadata)));
        let schema_start: usize = header_prefix.schema_offset as usize;
        let index_start: usize = header_prefix.index_offset as usize;
        let block: &[u8] = slice_subrange(mmap, schema_start, index_start);
        assert(block@ == schema_block(mmap@));
        let schemas: Vec<TensorSchema> = match decode_schemas(block) {
            Ok(schemas) => schemas,
            Err(text) => {
                assert(decodes_to(decode_schemas, schema_block(mmap@), Err(text)));
                return Err(NcfError::Io(IoError::Decode(text)));
            },
        };
        assert(decodes_to(decode_schemas, schema_block(mmap@), Ok(schemas)));
        let footer_position: usize = mmap.len() - FOOTER_SIZE;
        let index_len: usize = get_u64(mmap, footer_position + 8) as usize;
        let index_end: usize = match index_start.checked_add(index_len) {
            Some(end) => end,
            None => return Err(NcfError::Io(IoError::IndexOverflow)),
        };
        let index_bytes: &[u8] = slice_subrange(mmap, index_start, index_end);
        assert(index_bytes@ == index_block(mmap@));
        let index: NcfIndex = match decode_index(index_bytes) {
            Ok(index) => index,
            Err(text) => {
                assert(decodes_to(decode_index, index_block(mmap@), Err(text)));
                return Err(NcfError::Io(IoError::Decode(text)));
            },
        };
        assert(decodes_to(decode_index, index_block(mmap@), Ok(index)));
        Ok(PrefetchReader { mmap, header_prefix, metadata, schemas, index })
    }

    /// Check the payload of every chunk that a schema refers to and that has an entry.
    pub fn verify_all_checksums(&self) -> (r: Result<(), NcfError>)
        ensures
            match (
                schemas_fault(
                    self.mmap@,
                    self.index.entries@,
                    false,
                    schema_views(self.schemas@),
                    self.schemas@.len() as int,
                ),
                r,
            ) {
                (None, Ok(_)) => true,
                (Some(fault), Err(NcfError::Io(e))) => e == fault,
                _ => false,
            },
    {
        let entries: &[IndexEntry] = self.index.entries.as_slice();
        let find = |id: u64| -> (found: Option<usize>)
            ensures
                match found {
                    Some(i) => i < entries@.len() && entry_of(entries@, id, false) == Some(
                        i as int,
                    ),
                    None => entry_of(entries@, id, false) is None,
                },
            { find_entry(entries, id) };
        match check_chunks(self.mmap, entries, self.schemas.as_slice(), find, Ghost(false)) {
            Ok(_) => Ok(()),
            Err(e) => Err(NcfError::Io(e)),
        }
    }

    /// The decoded header metadata.
    pub fn metadata(&self) -> (m: &NcfHeader)
        ensures
            *m == self.metadata,
    {
        &self.metadata
    }

    /// The schemas of the file.
    pub fn schemas(&self) -> (r: Result<&[TensorSchema], NcfError>)
        ensures
            r matches Ok(s) && s@ == self.schemas@,
    {
        Ok(self.schemas.as_slice())
    }

    /// The parsed file header prefix.
    pub fn header_prefix(&self) -> (p: FileHeaderPrefix)
        ensures
            p == self.header_prefix,
    {
        self.header_prefix
    }

    /// The entry that a name leads to, if there is one.
    pub fn find_entry(&self, name: &str) -> (r: Option<IndexEntry>)
        ensures
            r == entry_named(self.index, name@),
    {
        match self.index.find_chunk_id(name) {
            Some(id) => match find_entry(self.index.entries.as_slice(), id) {
                Some(i) => Some(self.index.entries[i]),
                None => None,
            },
            None => None,
        }
    }

    /// The payload of the first chunk of a tensor, if it is there.
    pub fn tensor_slice(&self, name: &str) -> (r: Option<&'a [u8]>)
        requires
            entry_named(self.index, name@) matches Some(entry) ==> payload_start(entry.byte_offset)
                <= usize::MAX,
        ensures
            match entry_named(self.index, name@) {
                None => r is None,
                Some(entry) => if payload_end(entry.byte_offset, entry.byte_len)
                    <= self.mmap@.len() {
                    r matches Some(s) && s@ == payload_at(
                        self.mmap@,
                        entry.byte_offset,
                        entry.byte_len,
                    )
                } else {
                    r is None
                },
            },
    {
        let entry: IndexEntry = match self.find_entry(name) {
            Some(entry) => entry,
            None => return None,
        };
        let start: usize = entry.byte_offset as usize + CHUNK_HEADER_SIZE as usize;
        let len: usize = (entry.byte_len as usize).saturating_sub(
            (CHUNK_HEADER_SIZE + CHUNK_CHECKSUM_SIZE) as usize,
        );
        let size: usize = self.mmap.len();
        assert(size == self.mmap@.len());
        match start.checked_add(len) {
            Some(end) => if end > size {
                None
            } else {
                Some(slice_subrange(self.mmap, start, end))
            },
            None => None,
        }
    }

    /// The lines that describe the file.
    pub fn inspect(&self) -> (r: Result<Vec<String>, NcfError>)
        ensures
            r matches Ok(lines) && line_views(lines@) == inspect_lines(
                self.metadata,
                schema_views(self.schemas@),
            ),
    {
        Ok(make_inspect_lines(&self.metadata, self.schemas.as_slice()))
    }

    /// Read the chunks of a tensor from the second on, given those that its schema lists.
    fn read_tail(&self, buffer: &mut PrefetchBuffer, chunks: &Vec<ChunkRef>) -> (r: Result<
        Vec<u8>,
        IoError,
    >)
        ensures
            ({
                let tail = tail_read(self.mmap@, old(buffer)@, chunks@, chunks@.len() as int);
                &&& final(buffer)@ == tail.1
                &&& match (tail.0, r) {
                    (Ok(bytes), Ok(v)) => v@ == bytes,
                    (Err(fault), Err(e)) => e == fault,
                    _ => false,
                }
            }),
    {
        let ghost start = buffer@;
        let mut result: Vec<u8> = Vec::new();
        let mut i: usize = 1;
        while i < chunks.len()
            invariant
                1 <= i,
                i <= chunks@.len() || i == 1,
                start == old(buffer)@,
                tail_read(self.mmap@, start, chunks@, i as int) == (
                    Ok::<Seq<u8>, IoError>(result@),
                    buffer@,
                ),
            decreases chunks@.len() - i,
        {
            let chunk: ChunkRef = chunks[i];
            match buffer.take(chunk.chunk_id) {
                Some(payload) => {
                    result.extend_from_slice(payload.as_slice());
                },
                None => match locate_payload(self.mmap, chunk.byte_offset, chunk.byte_len) {
                    Ok(found) => {
                        result.extend_from_slice(slice_subrange(self.mmap, found.0, found.1));
                    },
                    Err(e) => {
                        proof {
                            lemma_tail_error_stays(
                                self.mmap@,
                                start,
                                chunks@,
                                i + 1,
                                chunks@.len() as int,
                            );
                        }
                        return Err(e);
                    },
                },
            }
            assert(tail_read(self.mmap@, start, chunks@, i + 1).0->Ok_0 =~= result@);
            i += 1;
        }
        Ok(result)
    }

    /// Read the payload of a tensor: the chunk that the index names and the further chunks that
    /// the schema lists, each as it was fetched ahead, or else as the file holds it.
    pub fn read_tensor(&self, buffer: &mut PrefetchBuffer, name: &str) -> (r: Result<
        Option<Vec<u8>>,
        NcfError,
    >)
        requires
            entry_named(self.index, name@) matches Some(entry) ==> old(buffer)@.buffer.contains_key(
                entry.chunk_id,
            ) || addressable(entry),
        ensures
            ({
                let read = prefetch_read(
                    self.mmap@,
                    self.index,
                    schema_views(self.schemas@),
                    old(buffer)@,
                    name@,
                );
                &&& final(buffer)@ == read.1
                &&& match (read.0, r) {
                    (Ok(Some(bytes)), Ok(Some(v))) => v@ == bytes,
                    (Ok(None), Ok(None)) => true,
                    (Err(fault), Err(NcfError::Io(e))) => e == fault,
                    _ => false,
                }
            }),
    {
        let entry: IndexEntry = match self.find_entry(name) {
            Some(entry) => entry,
            None => return Ok(None),
        };
        let mut result: Vec<u8> = match buffer.take(entry.chunk_id) {
            Some(payload) => payload,
            None => {
                let start: usize = entry.byte_offset as usize + CHUNK_HEADER_SIZE as usize;
                let len: usize = (entry.byte_len as usize).saturating_sub(
                    (CHUNK_HEADER_SIZE + CHUNK_CHECKSUM_SIZE) as usize,
                );
                let end: usize = start + len;
                let size: usize = self.mmap.len();
                assert(size == self.mmap@.len());
                if end > size {
                    return Err(NcfError::Io(IoError::ChunkDataPastEnd));
                }
                copy_bytes(slice_subrange(self.mmap, start, end))
            },
        };
        let ghost head = result@;
        match find_named(self.schemas.as_slice(), name) {
            Some(i) => {
                assert(schema_views(self.schemas@)[i as int] == self.schemas@[i as int]@);
                match self.read_tail(buffer, &self.schemas[i].chunks) {
                    Ok(rest) => {
                        result.extend_from_slice(rest.as_slice());
                        assert(result@ =~= head + rest@);
                        Ok(Some(result))
                    },
                    Err(e) => Err(NcfError::Io(e)),
                }
            },
            None => {
                assert(head + Seq::<u8>::empty() =~= head);
                Ok(Some(result))
            },
        }
    }
}

proof fn lemma_tail_error_stays(
    data: Seq<u8>,
    s: PrefetchState,
    chunks: Seq<ChunkRef>,
    a: int,
    b: int,
)
    requires
        a <= b,
        tail_read(data, s, chunks, a).0 is Err,
    ensures
        tail_read(data, s, chunks, b) == tail_read(data, s, chunks, a),
    decreases b - a,
{
    if a < b {
        lemma_tail_error_stays(data, s, chunks, a, b - 1);
    }
}

/// What workers keep stays a payload fetched for an entry of its chunk.
pub proof fn law_prefetch_keeps_coherent(
    s: PrefetchState,
    data: Seq<u8>,
    entries: Seq<IndexEntry>,
    i: int,
)
    requires
        s.coherent(data, entries),
        0 <= i < entries.len(),
    ensures
        s.finished(entries[i].chunk_id, fetched(data, entries[i])).coherent(data, entries),
        s.taken(entries[i].chunk_id).coherent(data, entries),
{
    let t = s.finished(entries[i].chunk_id, fetched(data, entries[i]));
    assert forall|id: u64| #[trigger] t.buffer.contains_key(id) implies exists|k: int|
        0 <= k < entries.len() && (#[trigger] entries[k]).chunk_id == id && fetched(
            data,
            entries[k],
        ) == Some(t.buffer[id]) by {
        if s.buffer.contains_key(id) {
            let k = choose|k: int|
                0 <= k < entries.len() && (#[trigger] entries[k]).chunk_id == id && fetched(
                    data,
                    entries[k],
                ) == Some(s.buffer[id]);
            assert(fetched(data, entries[k]) == Some(t.buffer[id]));
        } else {
            assert(fetched(data, entries[i]) == Some(t.buffer[id]));
        }
    }
    lemma_taken_is_coherent(s, data, entries, entries[i].chunk_id);
}

proof fn lemma_tail_keeps_coherent(
    s: PrefetchState,
    data: Seq<u8>,
    entries: Seq<IndexEntry>,
    chunks: Seq<ChunkRef>,
    n: int,
)
    requires
        s.coherent(data, entries),
    ensures
        tail_read(data, s, chunks, n).1.coherent(data, entries),
    decreases n,
{
    if n > 1 {
        lemma_tail_keeps_coherent(s, data, entries, chunks, n - 1);
        let before = tail_read(data, s, chunks, n - 1).1;
        lemma_taken_is_coherent(before, data, entries, chunks[n - 1].chunk_id);
    }
}

proof fn lemma_taken_is_coherent(
    s: PrefetchState,
    data: Seq<u8>,
    entries: Seq<IndexEntry>,
    chunk_id: u64,
)
    requires
        s.coherent(data, entries),
    ensures
        s.taken(chunk_id).coherent(data, entries),
{
    let u = s.taken(chunk_id);
    assert forall|id: u64| #[trigger] u.buffer.contains_key(id) implies exists|k: int|
        0 <= k < entries.len() && (#[trigger] entries[k]).chunk_id == id && fetched(
            data,
            entries[k],
        ) == Some(u.buffer[id]) by {
        assert(s.buffer.contains_key(id));
        let k = choose|k: int|
            0 <= k < entries.len() && (#[trigger] entries[k]).chunk_id == id && fetched(
                data,
                entries[k],
            ) == Some(s.buffer[id]);
        assert(fetched(data, entries[k]) == Some(u.buffer[id]));
    }
}

/// What is left in the buffer after a read, too, stays a payload fetched for an entry of its
/// chunk.
pub proof fn law_read_keeps_coherent(
    s: PrefetchState,
    data: Seq<u8>,
    index: NcfIndex,
    schemas: Seq<SchemaView>,
    name: Seq<char>,
)
    requires
        s.coherent(data, index.entries@),
    ensures
        prefetch_read(data, index, schemas, s, name).1.coherent(data, index.entries@),
{
    if entry_named(index, name) is Some {
        let after = s.taken(entry_named(index, name)->0.chunk_id);
        let chunks = chunks_named(schemas, name);
        lemma_taken_is_coherent(s, data, index.entries@, entry_named(index, name)->0.chunk_id);
        lemma_tail_keeps_coherent(after, data, index.entries@, chunks, chunks.len() as int);
    }
}

/// Prefetching does not change what is read: where chunk ids are distinct, a payload fetched
/// ahead is what reading the file would give.
pub proof fn law_prefetched_is_direct(
    s: PrefetchState,
    data: Seq<u8>,
    entries: Seq<IndexEntry>,
    i: int,
)
    requires
        s.coherent(data, entries),
        distinct_ids(entries),
        0 <= i < entries.len(),
        addressable(entries[i]),
        s.buffer.contains_key(entries[i].chunk_id),
    ensures
        direct_read(data, entries[i]) == Ok::<Seq<u8>, IoError>(s.buffer[entries[i].chunk_id]),
{
    let id = entries[i].chunk_id;
    let k = choose|k: int|
        0 <= k < entries.len() && (#[trigger] entries[k]).chunk_id == id && fetched(
            data,
            entries[k],
        ) == Some(s.buffer[id]);
    assert(entries[k].chunk_id == entries[i].chunk_id);
    assert(k == i);
}

/// An announced region is not empty and lies within the file.
pub proof fn law_advice_stays_within(file_size: int, start: int, len: int)
    requires
        0 <= start,
        0 <= len,
    ensures
        advised_region(file_size, start, len) matches Some(region) ==> 0 < region.1 <= len
            && region.0 == start && region.0 + region.1 <= file_size,
{
}

} // verus!
