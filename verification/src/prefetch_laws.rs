//! What is fetched ahead, and what a read makes of it.

use crate::blocks::{lemma_schema_named, payload_fault, schema_named};
use crate::error::IoError;
use crate::index::{lemma_first_entry, IndexEntry, NcfIndex};
use crate::prefetch::{
    addressable, advised_region, chunks_named, entry_named, fetched, follows, head_read,
    prefetch_read, tail_read, PrefetchState,
};
use crate::reading_laws::law_payload_stands_within_its_chunk;
use crate::schema::{ChunkRef, SchemaView};
use vstd::prelude::*;

verus! {

/// A region that is announced starts where the wanted one does and covers what of that lies within
/// the file; nothing is announced exactly if that is nothing.
pub proof fn law_advice_covers_the_wanted(file_size: int, start: int, len: int, at: int)
    requires
        0 <= file_size,
        0 <= start,
        0 <= len,
    ensures
        advised_region(file_size, start, len) is None <==> len == 0 || start >= file_size,
        advised_region(file_size, start, len) matches Some(region) ==> {
            &&& region.0 == start
            &&& region.0 <= at < region.0 + region.1 <==> start <= at < start + len && at
                < file_size
        },
{
}

/// The entry to fetch next is the nearest behind the offset, and the first of those equally near.
/// No other entry is.
pub proof fn law_next_is_the_nearest_behind(
    entries: Seq<IndexEntry>,
    offset: u64,
    i: int,
    j: int,
)
    requires
        follows(entries, offset, i),
        0 <= j < entries.len(),
    ensures
        0 <= i < entries.len(),
        entries[i].byte_offset > offset,
        entries[j].byte_offset <= offset || entries[j].byte_offset >= entries[i].byte_offset,
        entries[j].byte_offset == entries[i].byte_offset ==> i <= j,
        follows(entries, offset, j) ==> i == j,
{
    if follows(entries, offset, j) {
        assert(entries[i].byte_offset == entries[j].byte_offset);
    }
}

/// Wherever an entry stands behind the offset, there is one to fetch next.
pub proof fn law_something_follows(entries: Seq<IndexEntry>, offset: u64, j: int)
    requires
        0 <= j < entries.len(),
        entries[j].byte_offset > offset,
    ensures
        exists|i: int| #[trigger] follows(entries, offset, i),
    decreases entries[j].byte_offset, j,
{
    if !follows(entries, offset, j) {
        if exists|k: int|
            0 <= k < entries.len() && (#[trigger] entries[k]).byte_offset > offset
                && entries[k].byte_offset < entries[j].byte_offset {
            let k = choose|k: int|
                0 <= k < entries.len() && (#[trigger] entries[k]).byte_offset > offset
                    && entries[k].byte_offset < entries[j].byte_offset;
            law_something_follows(entries, offset, k);
        } else {
            let k = choose|k: int|
                0 <= k < j && (#[trigger] entries[k]).byte_offset > offset
                    && entries[j].byte_offset >= entries[k].byte_offset;
            assert(entries[k].byte_offset == entries[j].byte_offset);
            law_something_follows(entries, offset, k);
        }
    }
}

/// What is fetched for an entry is the payload of its chunk, from 28 bytes behind the chunk's start
/// to 32 bytes before its end. Nothing is fetched exactly if the payload starts at or behind the
/// end of the file or ends behind it. A chunk shorter than 60 bytes counts as one with an empty
/// payload.
pub proof fn law_fetched_is_the_payload(data: Seq<u8>, entry: IndexEntry)
    requires
        data.len() < usize::MAX,
        entry.byte_offset + 28 <= usize::MAX,
        entry.byte_len <= usize::MAX,
    ensures
        ({
            let n = data.len() as int;
            let start = entry.byte_offset + 28;
            let end = if entry.byte_len < 60 {
                start
            } else {
                entry.byte_offset + entry.byte_len - 32
            };
            &&& start < n && end <= n ==> fetched(data, entry) == Some(data.subrange(start, end))
            &&& start >= n || end > n ==> fetched(data, entry) is None
        }),
{
}

/// Ending the fetch of one chunk keeps what the buffer has, adds the payload where there was none,
/// leaves every other chunk alone, and makes the chunk free to be fetched again.
pub proof fn law_finishing_keeps_the_first(
    s: PrefetchState,
    id: u64,
    payload: Option<Seq<u8>>,
    other: u64,
)
    ensures
        ({
            let t = s.finished(id, payload);
            &&& s.buffer.contains_key(other) ==> t.buffer.contains_key(other) && t.buffer[other]
                == s.buffer[other]
            &&& !s.buffer.contains_key(other) && (other != id || payload is None)
                ==> !t.buffer.contains_key(other)
            &&& !s.buffer.contains_key(id) && payload is Some ==> t.buffer.contains_key(id)
                && t.buffer[id] == payload->0
            &&& !t.inflight.contains(id)
            &&& other != id ==> (t.inflight.contains(other) <==> s.inflight.contains(other))
        }),
{
}

/// Taking a payload out removes that one and nothing else.
pub proof fn law_taking_removes_one(s: PrefetchState, id: u64, other: u64)
    ensures
        !s.taken(id).buffer.contains_key(id),
        s.taken(id).inflight == s.inflight,
        other != id ==> (s.taken(id).buffer.contains_key(other) <==> s.buffer.contains_key(other)),
        other != id && s.buffer.contains_key(other) ==> s.taken(id).buffer[other]
            == s.buffer[other],
{
}

/// A name leads to the first entry that has the chunk id of the name, and to none exactly if the
/// name has no chunk id or the id no entry.
pub proof fn law_name_leads_to_its_first_entry(index: NcfIndex, name: Seq<char>, i: int)
    requires
        0 <= i < index.entries@.len(),
    ensures
        !index.tensor_map@.contains_key(name) ==> entry_named(index, name) is None,
        index.tensor_map@.contains_key(name) && (forall|k: int|
            0 <= k < index.entries@.len() ==> (#[trigger] index.entries@[k]).chunk_id
                != index.tensor_map@[name]) ==> entry_named(index, name) is None,
        index.tensor_map@.contains_key(name) && index.entries@[i].chunk_id
            == index.tensor_map@[name] && (forall|k: int|
            0 <= k < i ==> (#[trigger] index.entries@[k]).chunk_id != index.tensor_map@[name])
            ==> entry_named(index, name) == Some(index.entries@[i]),
{
    if index.tensor_map@.contains_key(name) {
        lemma_first_entry(index.entries@, index.tensor_map@[name]);
    }
}

/// A name without entry gives nothing and leaves the buffer as it is. Else the first chunk comes
/// from the buffer, if it was fetched ahead, and otherwise from the file: its payload, or an error
/// if that ends behind the file. It is no longer in the buffer then.
pub proof fn law_first_chunk_is_read(
    data: Seq<u8>,
    index: NcfIndex,
    schemas: Seq<SchemaView>,
    s: PrefetchState,
    name: Seq<char>,
)
    requires
        data.len() <= usize::MAX,
        entry_named(index, name) matches Some(entry) ==> entry.byte_offset <= usize::MAX
            && entry.byte_len <= usize::MAX,
    ensures
        ({
            let read = prefetch_read(data, index, schemas, s, name);
            match entry_named(index, name) {
                None => read == (Ok::<Option<Seq<u8>>, IoError>(None), s),
                Some(entry) => {
                    let kept = s.buffer.contains_key(entry.chunk_id);
                    let start = entry.byte_offset + 28;
                    let end = if entry.byte_len < 60 {
                        start
                    } else {
                        entry.byte_offset + entry.byte_len - 32
                    };
                    let first = if kept {
                        s.buffer[entry.chunk_id]
                    } else {
                        data.subrange(start, end)
                    };
                    &&& !kept && end > data.len() ==> read.0 == Err::<Option<Seq<u8>>, IoError>(
                        IoError::ChunkDataPastEnd,
                    )
                    &&& (kept || end <= data.len()) && chunks_named(schemas, name).len() <= 1
                        ==> read.0 == Ok::<Option<Seq<u8>>, IoError>(Some(first))
                    &&& (kept || end <= data.len()) ==> (read.0 matches Ok(Some(bytes))
                        ==> bytes.len() >= first.len() && bytes.take(first.len() as int) == first)
                    &&& (kept || end <= data.len()) ==> !(read.0 matches Ok(None))
                    &&& !read.1.buffer.contains_key(entry.chunk_id)
                },
            }
        }),
{
    match entry_named(index, name) {
        None => {},
        Some(entry) => {
            let chunks = chunks_named(schemas, name);
            let after = s.taken(entry.chunk_id);
            let tail = tail_read(data, after, chunks, chunks.len() as int);
            lemma_tail_only_takes(data, after, chunks, chunks.len() as int, entry.chunk_id);
            match head_read(data, s, entry) {
                Err(_) => {},
                Ok(head) => match tail.0 {
                    Err(_) => {},
                    Ok(rest) => {
                        assert((head + rest).take(head.len() as int) =~= head);
                        if chunks.len() <= 1 {
                            assert(head + rest =~= head);
                        }
                    },
                },
            }
        },
    }
}

proof fn lemma_tail_only_takes(
    data: Seq<u8>,
    s: PrefetchState,
    chunks: Seq<ChunkRef>,
    n: int,
    id: u64,
)
    ensures
        tail_read(data, s, chunks, n).1.buffer.contains_key(id) ==> s.buffer.contains_key(id),
    decreases n,
{
    if n > 1 {
        lemma_tail_only_takes(data, s, chunks, n - 1, id);
    }
}

/// Each further chunk comes from the buffer, if it was fetched ahead, and otherwise from the file:
/// its payload, or what is wrong with its extent. It is added behind the others and taken out of
/// the buffer; the first error ends the read.
pub proof fn law_further_chunks_are_read_in_order(
    data: Seq<u8>,
    s: PrefetchState,
    chunks: Seq<ChunkRef>,
    n: int,
)
    requires
        data.len() <= usize::MAX,
        1 <= n < chunks.len(),
        chunks[n].byte_offset <= usize::MAX,
        chunks[n].byte_len <= usize::MAX,
    ensures
        tail_read(data, s, chunks, 1) == (Ok::<Seq<u8>, IoError>(Seq::empty()), s),
        ({
            let before = tail_read(data, s, chunks, n);
            let after = tail_read(data, s, chunks, n + 1);
            let c = chunks[n];
            let kept = before.1.buffer.contains_key(c.chunk_id);
            let end = c.byte_offset + c.byte_len - 32;
            &&& before.0 is Err ==> after == before
            &&& before.0 is Ok ==> !after.1.buffer.contains_key(c.chunk_id)
            &&& before.0 is Ok && kept ==> after.0 == Ok::<Seq<u8>, IoError>(
                before.0->Ok_0 + before.1.buffer[c.chunk_id],
            )
            &&& before.0 is Ok && !kept && c.byte_len >= 60 && end <= data.len() ==> after.0 == Ok::<
                Seq<u8>,
                IoError,
            >(before.0->Ok_0 + data.subrange(c.byte_offset + 28, end))
            &&& before.0 is Ok && !kept && (c.byte_len < 60 || end > data.len()) ==> (
            after.0 matches Err(e) && payload_fault(data.len() as int, c.byte_offset, c.byte_len)
                == Some(e))
        }),
{
    law_payload_stands_within_its_chunk(data, chunks[n].byte_offset, chunks[n].byte_len);
}

/// The chunks of a name are those of the first schema that has it.
pub proof fn law_chunks_of_a_name(schemas: Seq<SchemaView>, name: Seq<char>, i: int)
    requires
        0 <= i < schemas.len(),
    ensures
        (forall|k: int| 0 <= k < schemas.len() ==> (#[trigger] schemas[k]).name != name)
            ==> chunks_named(schemas, name).len() == 0,
        schemas[i].name == name && (forall|k: int|
            0 <= k < i ==> (#[trigger] schemas[k]).name != name) ==> chunks_named(schemas, name)
            == schemas[i].chunks,
{
    lemma_schema_named(schemas, name);
    if let Some(first) = schema_named(schemas, name) {
        assert(schemas[first].name == name);
    }
}

/// The end of a payload is addressable exactly if it is no larger than the largest address.
pub proof fn law_addressable_means_no_overflow(entry: IndexEntry)
    requires
        entry.byte_offset <= usize::MAX,
        entry.byte_len <= usize::MAX,
    ensures
        entry.byte_len >= 60 ==> (addressable(entry) <==> entry.byte_offset + entry.byte_len - 32
            <= usize::MAX),
        entry.byte_len < 60 ==> (addressable(entry) <==> entry.byte_offset + 28 <= usize::MAX),
{
}

} // verus!
