//! What a written file gives back when it is read.

use crate::blocks::{
    blocks_fault, checksum_fault, chunk_fault, chunks_extent_fault, chunks_fault, decodes_to,
    entry_of, footer_start, header_block, header_end, header_fault, index_block, index_len,
    index_start, joined_payloads, lemma_schema_named, payload_at, payload_end, payload_fault,
    payload_start, read_outcome, schema_block, schema_in_bounds, schema_named, schema_start,
    schemas_fault, slice_outcome,
};
use crate::bytes::{le_bytes, lemma_le_bytes_len, lemma_le_value_of_le_bytes, lemma_pow256_widths};
use crate::chunk::{chunk_header_bytes, lemma_chunk_header_len};
use crate::constants::FILE_HEADER_PREFIX_SIZE;
use crate::digest::blake3_digest;
use crate::error::{IoError, NcfError};
use crate::header::{
    has_magic, law_prefix_drops_unknown_flags, lemma_prefix_len, prefix_bytes, prefix_of,
    FileHeaderPrefix, NcfFlags, NcfHeader, FOOTER_MAGIC, KNOWN_FLAGS, NCF_MAGIC,
};
use crate::index::{
    distinct_ids, law_distinct_ids_agree, lemma_first_entry, lookup, IndexEntry, NcfIndex,
};
use crate::mmap::{map_fails, NcfMmap};
use crate::prefetch::{
    chunk_agrees, direct_read, entry_named, fetched, header_within, index_within,
    law_agreeing_read_is_direct, name_agrees, prefetch_open_fails, prefetch_read, prefix_fault,
    PrefetchReader, PrefetchState,
};
use crate::reader::{open_fails, BorrowedNcfIndex, NcfReader};
use crate::schema::{schema_views, ChunkRef, SchemaView, TensorSchema};
use crate::writer::{
    canonical, chunk_area, chunk_place, chunk_ref, entries_for, entry_for, first_ids, image,
    image_prefix, index_describes, index_encodes_to, is_duplicate, is_first_of_name,
    lemma_canonical_is_fixed, lemma_canonical_shared, located_schemas, payload_digest, refs_for,
    schemas_encode_to, stored_chunk, stored_header, NcfWriter,
};
use vstd::prelude::*;

verus! {

/// A file that is put together from blocks has no fault, and its blocks are found again where
/// they stand.
pub proof fn law_blocks_are_found(
    flags: NcfFlags,
    header: Seq<u8>,
    schema: Seq<u8>,
    chunks: Seq<u8>,
    index: Seq<u8>,
    count: int,
)
    requires
        image(flags, header, schema, chunks, index, count).len() <= usize::MAX,
    ensures
        ({
            let file = image(flags, header, schema, chunks, index, count);
            &&& header_fault(file) is None
            &&& blocks_fault(file) is None
            &&& prefix_of(file) == (FileHeaderPrefix {
                flags: NcfFlags { bits: flags.bits & KNOWN_FLAGS },
                ..image_prefix(flags, header, schema, chunks, count)
            })
            &&& header_block(file) == header
            &&& schema_block(file) == schema + chunks
            &&& index_block(file) == index
        }),
{
    broadcast use {lemma_prefix_len, lemma_le_bytes_len};

    let file = image(flags, header, schema, chunks, index, count);
    let p = image_prefix(flags, header, schema, chunks, count);
    let rest = header + schema + chunks + index + FOOTER_MAGIC@ + le_bytes(index.len(), 8);
    assert(file =~= prefix_bytes(p) + rest);
    assert(FOOTER_MAGIC@.len() == 8);
    law_prefix_drops_unknown_flags(p, rest);
    assert(has_magic(file)) by {
        assert(file.subrange(0, 8) =~= NCF_MAGIC@);
    }
    assert(file.len() == 48 + header.len() + schema.len() + chunks.len() + index.len() + 16);
    assert(header_end(file) == 48 + header.len());
    assert(header_block(file) =~= header);
    assert(schema_start(file) == 48 + header.len());
    assert(index_start(file) == 48 + header.len() + schema.len() + chunks.len());
    assert(footer_start(file) == index_start(file) + index.len());
    assert(file.subrange(footer_start(file), footer_start(file) + 8) =~= FOOTER_MAGIC@);
    assert(file.subrange(footer_start(file) + 8, footer_start(file) + 16) =~= le_bytes(
        index.len(),
        8,
    ));
    lemma_pow256_widths();
    lemma_le_value_of_le_bytes(index.len(), 8);
    assert(index_len(file) == index.len());
    assert(schema_block(file) =~= schema + chunks);
    assert(index_block(file) =~= index);
}

/// Whether payloads with one digest are equal.
pub open spec fn no_collision(ts: Seq<(SchemaView, Seq<u8>)>) -> bool {
    forall|i: int, j: int|
        #![trigger payload_digest(ts, i), payload_digest(ts, j)]
        0 <= i < ts.len() && 0 <= j < ts.len() && payload_digest(ts, i) == payload_digest(ts, j)
            ==> ts[i].1 == ts[j].1
}

/// The chunk of a tensor that is no duplicate stands in the chunk area behind the chunks of the
/// tensors before it.
pub(crate) proof fn lemma_chunk_in_area(ts: Seq<(SchemaView, Seq<u8>)>, j: int, n: int)
    requires
        0 <= j < n <= ts.len(),
        !is_duplicate(ts, j),
    ensures
        chunk_area(ts, j).len() + stored_chunk(ts, j).len() <= chunk_area(ts, n).len(),
        chunk_area(ts, n).subrange(
            chunk_area(ts, j).len() as int,
            (chunk_area(ts, j).len() + stored_chunk(ts, j).len()) as int,
        ) == stored_chunk(ts, j),
    decreases n,
{
    let from = chunk_area(ts, j).len() as int;
    let to = (chunk_area(ts, j).len() + stored_chunk(ts, j).len()) as int;
    if j == n - 1 {
        assert(chunk_area(ts, n) == chunk_area(ts, j) + stored_chunk(ts, j));
        assert(chunk_area(ts, n).subrange(from, to) =~= stored_chunk(ts, j));
    } else {
        lemma_chunk_in_area(ts, j, n - 1);
        if !is_duplicate(ts, n - 1) {
            let before = chunk_area(ts, n - 1);
            assert(chunk_area(ts, n) == before + stored_chunk(ts, n - 1));
            assert(chunk_area(ts, n).subrange(from, to) =~= before.subrange(from, to));
        }
    }
}

/// A file whose chunks stand where its references say.
pub open spec fn settled(
    file: Seq<u8>,
    base: int,
    ts: Seq<(SchemaView, Seq<u8>)>,
    flags: NcfFlags,
    header: Seq<u8>,
    schema: Seq<u8>,
    index: Seq<u8>,
) -> bool {
    &&& file == image(
        flags,
        header,
        schema,
        chunk_area(ts, ts.len() as int),
        index,
        ts.len() as int,
    )
    &&& file.len() <= usize::MAX
    &&& ts.len() <= u64::MAX
    &&& base == FILE_HEADER_PREFIX_SIZE + header.len() + schema.len()
}

/// Whether a finalized file was put together from these blocks.
pub open spec fn is_finalized<
    H: Fn(&NcfHeader) -> Result<Vec<u8>, NcfError>,
    S: Fn(&Vec<TensorSchema>) -> Result<Vec<u8>, NcfError>,
    I: Fn(&NcfIndex) -> Result<Vec<u8>, NcfError>,
>(
    writer: NcfWriter,
    encode_header: H,
    encode_schemas: S,
    encode_index: I,
    header: Vec<u8>,
    tries: Seq<Vec<u8>>,
    index: Vec<u8>,
    file: Seq<u8>,
) -> bool {
    &&& writer.encodes_blocks(
        encode_header,
        encode_schemas,
        encode_index,
        header,
        tries,
        index,
    )
    &&& file == image(
        writer.flags,
        header@,
        tries.last()@,
        chunk_area(writer.spec_tensors(), writer.tensors@.len() as int),
        index@,
        writer.tensors@.len() as int,
    )
    &&& file.len() <= usize::MAX
}

/// The chunks of a finalized file stand where its references say.
pub proof fn law_finalized_is_settled<
    H: Fn(&NcfHeader) -> Result<Vec<u8>, NcfError>,
    S: Fn(&Vec<TensorSchema>) -> Result<Vec<u8>, NcfError>,
    I: Fn(&NcfIndex) -> Result<Vec<u8>, NcfError>,
>(
    writer: NcfWriter,
    encode_header: H,
    encode_schemas: S,
    encode_index: I,
    header: Vec<u8>,
    tries: Seq<Vec<u8>>,
    index: Vec<u8>,
    file: Seq<u8>,
)
    requires
        is_finalized(
            writer,
            encode_header,
            encode_schemas,
            encode_index,
            header,
            tries,
            index,
            file,
        ),
    ensures
        ({
            let schema = tries.last();
            let base = FILE_HEADER_PREFIX_SIZE + header@.len() + schema@.len();
            let ts = writer.spec_tensors();
            &&& settled(file, base, ts, writer.flags, header@, schema@, index@)
            &&& schemas_encode_to(
                encode_schemas,
                located_schemas(ts, base, ts.len() as int),
                Ok(schema),
            )
            &&& index_encodes_to(encode_index, ts, base, writer.tensor_quant_levels@, Ok(index))
        }),
{
    assert(writer.tensors@.len() == writer.tensors.len());
    let m = tries.len() - 1;
    assert(tries[m] == tries.last());
    assert(tries.take(m).last() == tries[m - 1]);
}

/// The entry for a tensor leads to its payload: at its offset stand a chunk header with the length
/// of the payload, the payload and its digest, and the entry has the length of the three.
pub proof fn law_entry_leads_to_payload(
    file: Seq<u8>,
    base: int,
    ts: Seq<(SchemaView, Seq<u8>)>,
    flags: NcfFlags,
    header: Seq<u8>,
    schema: Seq<u8>,
    index: Seq<u8>,
    i: int,
)
    requires
        settled(file, base, ts, flags, header, schema, index),
        no_collision(ts),
        0 <= i < ts.len(),
    ensures
        ({
            let entry = entry_for(ts, base, i);
            &&& file.subrange(
                entry.byte_offset as int,
                entry.byte_offset + entry.byte_len,
            ) == chunk_header_bytes(stored_header(ts, canonical(ts, i))) + ts[i].1
                + blake3_digest(ts[i].1)@
            &&& stored_header(ts, canonical(ts, i)).uncompressed_len == ts[i].1.len()
            &&& stored_header(ts, canonical(ts, i)).compressed_len == ts[i].1.len()
            &&& payload_fault(file.len() as int, entry.byte_offset, entry.byte_len) is None
            &&& payload_at(file, entry.byte_offset, entry.byte_len) == ts[i].1
            &&& direct_read(file, entry) == Ok::<Seq<u8>, IoError>(ts[i].1)
            &&& fetched(file, entry) == Some(ts[i].1)
        }),
{
    broadcast use {lemma_prefix_len, lemma_le_bytes_len, lemma_chunk_header_len};

    let n = ts.len() as int;
    let c = canonical(ts, i);
    let area = chunk_area(ts, n);
    lemma_canonical_is_fixed(ts, i);
    lemma_chunk_in_area(ts, c, n);
    assert(ts[c].1 == ts[i].1) by {
        assert(payload_digest(ts, c) == payload_digest(ts, i));
    }
    let at = chunk_area(ts, c).len() as int;
    let chunk = stored_chunk(ts, c);
    assert(payload_digest(ts, c)@.len() == 32);
    assert(chunk.len() == 28 + ts[c].1.len() + 32);
    let entry = entry_for(ts, base, i);
    assert(file.len() >= base + area.len() + 16);
    assert(chunk_place(ts, base, i) == base + at);
    assert(entry.byte_offset == base + at);
    assert(entry.byte_len == 60 + ts[i].1.len());
    assert(payload_start(entry.byte_offset) == base + at + 28);
    assert(payload_end(entry.byte_offset, entry.byte_len) == base + at + 28 + ts[i].1.len());
    assert(file.subrange(base, base + area.len()) =~= area);
    assert(file.subrange(base + at, base + at + chunk.len()) =~= area.subrange(
        at,
        at + chunk.len(),
    )) by {
        let s = file.subrange(base + at, base + at + chunk.len());
        assert forall|k: int| 0 <= k < s.len() implies s[k] == area.subrange(
            at,
            at + chunk.len(),
        )[k] by {
            assert(file.subrange(base, base + area.len())[at + k] == area[at + k]);
        }
    }
    assert(payload_at(file, entry.byte_offset, entry.byte_len) =~= ts[i].1) by {
        let s = payload_at(file, entry.byte_offset, entry.byte_len);
        assert forall|k: int| 0 <= k < s.len() implies s[k] == ts[i].1[k] by {
            assert(s[k] == file[base + at + 28 + k]);
            assert(file.subrange(base, base + area.len())[at + 28 + k] == area[at + 28 + k]);
            assert(area.subrange(at, at + chunk.len())[28 + k] == chunk[28 + k]);
            assert(chunk[28 + k] == ts[c].1[k]);
        }
    }
}

/// What the first ids of names mean.
proof fn lemma_first_ids(ts: Seq<(SchemaView, Seq<u8>)>, n: int, name: Seq<char>)
    requires
        0 <= n <= ts.len(),
    ensures
        match lookup(first_ids(ts, n), name) {
            Some(id) => exists|k: int|
                0 <= k < n && id == k as u64 && #[trigger] is_first_of_name(ts, k) && ts[k].0.name
                    == name,
            None => forall|j: int| 0 <= j < n ==> (#[trigger] ts[j]).0.name != name,
        },
    decreases n,
{
    if n > 0 {
        lemma_first_ids(ts, n - 1, name);
        lemma_first_ids(ts, n - 1, ts[n - 1].0.name);
        if lookup(first_ids(ts, n - 1), name) is None {
            if ts[n - 1].0.name == name {
                assert(is_first_of_name(ts, n - 1));
            }
        }
    }
}

proof fn lemma_entries_distinct(ts: Seq<(SchemaView, Seq<u8>)>, base: int)
    requires
        ts.len() <= u64::MAX,
    ensures
        distinct_ids(entries_for(ts, base, ts.len() as int)),
{
}

pub(crate) proof fn lemma_entry_found(ts: Seq<(SchemaView, Seq<u8>)>, base: int, latest: bool, i: int)
    requires
        ts.len() <= u64::MAX,
        0 <= i < ts.len(),
    ensures
        entry_of(entries_for(ts, base, ts.len() as int), i as u64, latest) == Some(i),
{
    let entries = entries_for(ts, base, ts.len() as int);
    lemma_entries_distinct(ts, base);
    lemma_first_entry(entries, i as u64);
    law_distinct_ids_agree(entries, i as u64);
    assert(entries[i].chunk_id == i as u64);
}

/// A slice of a tensor of a written file is the payload of the first tensor of that name, and
/// there is none for a name that was not written.
pub proof fn law_slice_gives_payload(
    file: Seq<u8>,
    base: int,
    ts: Seq<(SchemaView, Seq<u8>)>,
    flags: NcfFlags,
    header: Seq<u8>,
    schema: Seq<u8>,
    index: Seq<u8>,
    latest: bool,
    name: Seq<char>,
)
    requires
        settled(file, base, ts, flags, header, schema, index),
        no_collision(ts),
    ensures
        ({
            let slice = slice_outcome(
                file,
                first_ids(ts, ts.len() as int),
                entries_for(ts, base, ts.len() as int),
                latest,
                name,
            );
            &&& forall|k: int|
                0 <= k < ts.len() && #[trigger] is_first_of_name(ts, k) && ts[k].0.name == name
                    ==> slice == Some(ts[k].1)
            &&& (forall|k: int| 0 <= k < ts.len() ==> (#[trigger] ts[k]).0.name != name)
                ==> slice is None
        }),
{
    let n = ts.len() as int;
    let ids = first_ids(ts, n);
    let entries = entries_for(ts, base, n);
    let slice = slice_outcome(file, ids, entries, latest, name);
    lemma_first_ids(ts, n, name);
    assert forall|k: int|
        0 <= k < ts.len() && #[trigger] is_first_of_name(ts, k) && ts[k].0.name
            == name implies slice == Some(ts[k].1) by {
        let id = lookup(ids, name)->0;
        let j = choose|j: int|
            0 <= j < n && id == j as u64 && #[trigger] is_first_of_name(ts, j) && ts[j].0.name
                == name;
        assert(j == k);
        lemma_entry_found(ts, base, latest, k);
        law_entry_leads_to_payload(file, base, ts, flags, header, schema, index, k);
    }
}

/// The payloads of those of the first `n` tensors that have the given name, one behind the other.
pub open spec fn payloads_named(
    ts: Seq<(SchemaView, Seq<u8>)>,
    name: Seq<char>,
    n: int,
) -> Seq<u8>
    decreases n,
{
    if n <= 0 {
        Seq::empty()
    } else if ts[n - 1].0.name == name {
        payloads_named(ts, name, n - 1) + ts[n - 1].1
    } else {
        payloads_named(ts, name, n - 1)
    }
}

proof fn lemma_refs_read(
    file: Seq<u8>,
    base: int,
    ts: Seq<(SchemaView, Seq<u8>)>,
    flags: NcfFlags,
    header: Seq<u8>,
    schema: Seq<u8>,
    index: Seq<u8>,
    name: Seq<char>,
    n: int,
)
    requires
        settled(file, base, ts, flags, header, schema, index),
        no_collision(ts),
        0 <= n <= ts.len(),
    ensures
        ({
            let refs = refs_for(ts, base, name, n);
            &&& chunks_extent_fault(file.len() as int, refs, refs.len() as int) is None
            &&& joined_payloads(file, refs, refs.len() as int) == payloads_named(ts, name, n)
        }),
    decreases n,
{
    if n > 0 {
        lemma_refs_read(file, base, ts, flags, header, schema, index, name, n - 1);
        if ts[n - 1].0.name == name {
            let before = refs_for(ts, base, name, n - 1);
            let refs = refs_for(ts, base, name, n);
            let m = before.len() as int;
            lemma_prefix_reads(file, before, refs, m);
            law_entry_leads_to_payload(file, base, ts, flags, header, schema, index, n - 1);
            assert(refs[m] == chunk_ref(ts, base, n - 1));
        }
    }
}

proof fn lemma_prefix_reads(file: Seq<u8>, a: Seq<ChunkRef>, b: Seq<ChunkRef>, m: int)
    requires
        0 <= m <= a.len(),
        m <= b.len(),
        forall|k: int| 0 <= k < m ==> a[k] == #[trigger] b[k],
    ensures
        chunks_extent_fault(file.len() as int, a, m) == chunks_extent_fault(
            file.len() as int,
            b,
            m,
        ),
        joined_payloads(file, a, m) == joined_payloads(file, b, m),
    decreases m,
{
    if m > 0 {
        lemma_prefix_reads(file, a, b, m - 1);
        assert(a[m - 1] == b[m - 1]);
    }
}

/// Reading a tensor of a written file gives the payloads of all tensors of that name, one behind
/// the other, and nothing for a name that was not written.
pub proof fn law_read_gives_payloads(
    file: Seq<u8>,
    base: int,
    ts: Seq<(SchemaView, Seq<u8>)>,
    flags: NcfFlags,
    header: Seq<u8>,
    schema: Seq<u8>,
    index: Seq<u8>,
    name: Seq<char>,
)
    requires
        settled(file, base, ts, flags, header, schema, index),
        no_collision(ts),
    ensures
        read_outcome(file, located_schemas(ts, base, ts.len() as int), name) == Ok::<
            Option<Seq<u8>>,
            IoError,
        >(
            if exists|k: int| 0 <= k < ts.len() && (#[trigger] ts[k]).0.name == name {
                Some(payloads_named(ts, name, ts.len() as int))
            } else {
                None
            },
        ),
{
    let n = ts.len() as int;
    let schemas = located_schemas(ts, base, n);
    lemma_schema_named(schemas, name);
    lemma_refs_read(file, base, ts, flags, header, schema, index, name, n);
    match schema_named(schemas, name) {
        Some(i) => {
            assert(ts[i].0.name == name);
            assert(is_first_of_name(ts, i)) by {
                assert forall|j: int| 0 <= j < i implies (#[trigger] ts[j]).0.name
                    != ts[i].0.name by {
                    assert(schemas[j].name != name);
                }
            }
        },
        None => {
            assert forall|k: int| 0 <= k < n implies (#[trigger] ts[k]).0.name != name by {
                assert(schemas[k].name != name);
            }
        },
    }
}

/// If only one tensor has a name, reading it gives its payload and nothing else.
pub proof fn law_read_gives_only_payload(
    file: Seq<u8>,
    base: int,
    ts: Seq<(SchemaView, Seq<u8>)>,
    flags: NcfFlags,
    header: Seq<u8>,
    schema: Seq<u8>,
    index: Seq<u8>,
    i: int,
)
    requires
        settled(file, base, ts, flags, header, schema, index),
        no_collision(ts),
        0 <= i < ts.len(),
        forall|j: int| 0 <= j < ts.len() && j != i ==> (#[trigger] ts[j]).0.name != ts[i].0.name,
    ensures
        read_outcome(file, located_schemas(ts, base, ts.len() as int), ts[i].0.name) == Ok::<
            Option<Seq<u8>>,
            IoError,
        >(Some(ts[i].1)),
{
    law_read_gives_payloads(file, base, ts, flags, header, schema, index, ts[i].0.name);
    lemma_only_payload(ts, i, ts.len() as int);
}

proof fn lemma_only_payload(ts: Seq<(SchemaView, Seq<u8>)>, i: int, n: int)
    requires
        0 <= i < ts.len(),
        0 <= n <= ts.len(),
        forall|j: int| 0 <= j < ts.len() && j != i ==> (#[trigger] ts[j]).0.name != ts[i].0.name,
    ensures
        payloads_named(ts, ts[i].0.name, n) == (if i < n {
            ts[i].1
        } else {
            Seq::empty()
        }),
    decreases n,
{
    if n > 0 {
        lemma_only_payload(ts, i, n - 1);
        if i == n - 1 {
            assert(Seq::<u8>::empty() + ts[i].1 =~= ts[i].1);
        } else {
            assert(ts[n - 1].0.name != ts[i].0.name);
        }
    }
}

proof fn lemma_refs_pass(
    file: Seq<u8>,
    base: int,
    ts: Seq<(SchemaView, Seq<u8>)>,
    flags: NcfFlags,
    header: Seq<u8>,
    schema: Seq<u8>,
    index: Seq<u8>,
    latest: bool,
    name: Seq<char>,
    n: int,
)
    requires
        settled(file, base, ts, flags, header, schema, index),
        no_collision(ts),
        0 <= n <= ts.len(),
    ensures
        forall|k: int|
            0 <= k < refs_for(ts, base, name, n).len() ==> chunk_fault(
                file,
                entries_for(ts, base, ts.len() as int),
                latest,
                #[trigger] refs_for(ts, base, name, n)[k],
            ) is None,
    decreases n,
{
    if n > 0 {
        lemma_refs_pass(file, base, ts, flags, header, schema, index, latest, name, n - 1);
        if ts[n - 1].0.name == name {
            let before = refs_for(ts, base, name, n - 1);
            let refs = refs_for(ts, base, name, n);
            let entries = entries_for(ts, base, ts.len() as int);
            assert forall|k: int| 0 <= k < refs.len() implies chunk_fault(
                file,
                entries,
                latest,
                #[trigger] refs[k],
            ) is None by {
                if k < before.len() {
                    assert(refs[k] == before[k]);
                } else {
                    lemma_entry_found(ts, base, latest, n - 1);
                    law_entry_leads_to_payload(
                        file,
                        base,
                        ts,
                        flags,
                        header,
                        schema,
                        index,
                        n - 1,
                    );
                }
            }
        }
    }
}

proof fn lemma_chunks_pass(
    file: Seq<u8>,
    entries: Seq<IndexEntry>,
    latest: bool,
    chunks: Seq<ChunkRef>,
    n: int,
)
    requires
        0 <= n <= chunks.len(),
        forall|k: int|
            0 <= k < chunks.len() ==> chunk_fault(file, entries, latest, #[trigger] chunks[k])
                is None,
    ensures
        chunks_fault(file, entries, latest, chunks, n) is None,
    decreases n,
{
    if n > 0 {
        lemma_chunks_pass(file, entries, latest, chunks, n - 1);
    }
}

/// Every checksum of a written file is found to be right.
pub proof fn law_checksums_pass(
    file: Seq<u8>,
    base: int,
    ts: Seq<(SchemaView, Seq<u8>)>,
    flags: NcfFlags,
    header: Seq<u8>,
    schema: Seq<u8>,
    index: Seq<u8>,
    latest: bool,
)
    requires
        settled(file, base, ts, flags, header, schema, index),
        no_collision(ts),
    ensures
        schemas_fault(
            file,
            entries_for(ts, base, ts.len() as int),
            latest,
            located_schemas(ts, base, ts.len() as int),
            ts.len() as int,
        ) is None,
{
    lemma_schemas_pass(
        file,
        base,
        ts,
        flags,
        header,
        schema,
        index,
        latest,
        ts.len() as int,
    );
}

proof fn lemma_schemas_pass(
    file: Seq<u8>,
    base: int,
    ts: Seq<(SchemaView, Seq<u8>)>,
    flags: NcfFlags,
    header: Seq<u8>,
    schema: Seq<u8>,
    index: Seq<u8>,
    latest: bool,
    n: int,
)
    requires
        settled(file, base, ts, flags, header, schema, index),
        no_collision(ts),
        0 <= n <= ts.len(),
    ensures
        schemas_fault(
            file,
            entries_for(ts, base, ts.len() as int),
            latest,
            located_schemas(ts, base, ts.len() as int),
            n,
        ) is None,
    decreases n,
{
    if n > 0 {
        lemma_schemas_pass(file, base, ts, flags, header, schema, index, latest, n - 1);
        let entries = entries_for(ts, base, ts.len() as int);
        let chunks = located_schemas(ts, base, ts.len() as int)[n - 1].chunks;
        lemma_refs_pass(
            file,
            base,
            ts,
            flags,
            header,
            schema,
            index,
            latest,
            ts[n - 1].0.name,
            ts.len() as int,
        );
        lemma_chunks_pass(file, entries, latest, chunks, chunks.len() as int);
    }
}

/// The references of a name are those of its tensors, that of the first tensor first.
pub(crate) proof fn lemma_refs_of_name(ts: Seq<(SchemaView, Seq<u8>)>, base: int, i: int, n: int)
    requires
        0 <= i < n <= ts.len(),
        is_first_of_name(ts, i),
    ensures
        ({
            let refs = refs_for(ts, base, ts[i].0.name, n);
            &&& refs.len() > 0
            &&& refs[0] == chunk_ref(ts, base, i)
            &&& forall|j: int|
                0 <= j < refs.len() ==> is_ref_of_some(ts, base, n, #[trigger] refs[j])
        }),
    decreases n,
{
    let name = ts[i].0.name;
    let refs = refs_for(ts, base, name, n);
    let before = refs_for(ts, base, name, n - 1);
    if i < n - 1 {
        lemma_refs_of_name(ts, base, i, n - 1);
    } else {
        lemma_no_refs_before(ts, base, name, n - 1);
    }
    assert forall|j: int| 0 <= j < refs.len() implies is_ref_of_some(
        ts,
        base,
        n,
        #[trigger] refs[j],
    ) by {
        if j < before.len() {
            assert(refs[j] == before[j]);
            assert(is_ref_of_some(ts, base, n - 1, before[j]));
            let k = choose|k: int|
                0 <= k < n - 1 && before[j] == #[trigger] chunk_ref(ts, base, k);
            assert(refs[j] == chunk_ref(ts, base, k));
        } else {
            assert(refs[j] == chunk_ref(ts, base, n - 1));
        }
    }
}

/// Whether a reference is that of one of the first `n` tensors.
pub open spec fn is_ref_of_some(
    ts: Seq<(SchemaView, Seq<u8>)>,
    base: int,
    n: int,
    chunk: ChunkRef,
) -> bool {
    exists|k: int| 0 <= k < n && chunk == #[trigger] chunk_ref(ts, base, k)
}

proof fn lemma_no_refs_before(
    ts: Seq<(SchemaView, Seq<u8>)>,
    base: int,
    name: Seq<char>,
    n: int,
)
    requires
        0 <= n <= ts.len(),
        forall|j: int| 0 <= j < n ==> (#[trigger] ts[j]).0.name != name,
    ensures
        refs_for(ts, base, name, n) == Seq::<ChunkRef>::empty(),
    decreases n,
{
    if n > 0 {
        lemma_no_refs_before(ts, base, name, n - 1);
    }
}

/// Index, schemas and what was fetched ahead from a written file agree about every name.
pub proof fn law_written_names_agree(
    file: Seq<u8>,
    base: int,
    ts: Seq<(SchemaView, Seq<u8>)>,
    flags: NcfFlags,
    header: Seq<u8>,
    schema: Seq<u8>,
    index: Seq<u8>,
    decoded: NcfIndex,
    s: PrefetchState,
    name: Seq<char>,
)
    requires
        settled(file, base, ts, flags, header, schema, index),
        no_collision(ts),
        decoded.entries@ == entries_for(ts, base, ts.len() as int),
        decoded.tensor_map@ == first_ids(ts, ts.len() as int),
        s.coherent(file, decoded.entries@),
    ensures
        name_agrees(file, decoded, located_schemas(ts, base, ts.len() as int), s.buffer, name),
{
    let n = ts.len() as int;
    let schemas = located_schemas(ts, base, n);
    lemma_schema_named(schemas, name);
    lemma_first_ids(ts, n, name);
    match schema_named(schemas, name) {
        Some(i) => {
            assert(ts[i].0.name == name);
            assert(is_first_of_name(ts, i)) by {
                assert forall|j: int| 0 <= j < i implies (#[trigger] ts[j]).0.name
                    != ts[i].0.name by {
                    assert(schemas[j].name != name);
                }
            }
            let chunks = schemas[i].chunks;
            lemma_refs_of_name(ts, base, i, n);
            let id = lookup(first_ids(ts, n), name)->0;
            let m = choose|m: int|
                0 <= m < n && id == m as u64 && #[trigger] is_first_of_name(ts, m) && ts[m].0.name
                    == name;
            assert(m == i);
            lemma_entry_found(ts, base, false, i);
            assert(entry_named(decoded, name) == Some(entry_for(ts, base, i)));
            assert forall|j: int| 0 <= j < chunks.len() implies chunk_agrees(
                file,
                s.buffer,
                #[trigger] chunks[j],
            ) by {
                assert(is_ref_of_some(ts, base, n, chunks[j]));
                let k = choose|k: int|
                    0 <= k < n && chunks[j] == #[trigger] chunk_ref(ts, base, k);
                law_entry_leads_to_payload(file, base, ts, flags, header, schema, index, k);
                if s.buffer.contains_key(k as u64) {
                    let entries = decoded.entries@;
                    let e = choose|e: int|
                        0 <= e < entries.len() && (#[trigger] entries[e]).chunk_id == k as u64
                            && fetched(file, entries[e]) == Some(s.buffer[k as u64]);
                    assert(entries[e] == entry_for(ts, base, e));
                    assert(e == k);
                }
            }
        },
        None => {
            assert forall|k: int| 0 <= k < n implies (#[trigger] ts[k]).0.name != name by {
                assert(schemas[k].name != name);
            }
        },
    }
}

/// Whether a decoder gives back the schemas that an encoder wrote, whatever follows them.
pub open spec fn schemas_roundtrip<
    S: Fn(&Vec<TensorSchema>) -> Result<Vec<u8>, NcfError>,
    D: Fn(&[u8]) -> Result<Vec<TensorSchema>, String>,
>(encode: S, decode: D) -> bool {
    forall|
        schemas: Vec<TensorSchema>,
        bytes: Vec<u8>,
        rest: Seq<u8>,
        back: Result<Vec<TensorSchema>, String>,
    |
        #![trigger call_ensures(encode, (&schemas,), Ok(bytes)), decodes_to(decode, bytes@ + rest, back)]
        call_ensures(encode, (&schemas,), Ok(bytes)) && decodes_to(decode, bytes@ + rest, back) ==> (
        back matches Ok(given) && schema_views(given@) == schema_views(schemas@))
}

/// Whether a decoder gives back the entries and the names of an index that an encoder wrote.
pub open spec fn index_roundtrips<
    I: Fn(&NcfIndex) -> Result<Vec<u8>, NcfError>,
    D: Fn(&[u8]) -> Result<NcfIndex, String>,
>(encode: I, decode: D) -> bool {
    forall|index: NcfIndex, bytes: Vec<u8>, back: Result<NcfIndex, String>|
        #![trigger call_ensures(encode, (&index,), Ok(bytes)), decodes_to(decode, bytes@, back)]
        call_ensures(encode, (&index,), Ok(bytes)) && decodes_to(decode, bytes@, back) ==> (
        back matches Ok(given) && given.entries@ == index.entries@ && given.tensor_map@
            == index.tensor_map@)
}

/// The same of a decoder for the part of an index that a direct reader needs.
pub open spec fn borrowed_index_roundtrips<
    I: Fn(&NcfIndex) -> Result<Vec<u8>, NcfError>,
    D: Fn(&[u8]) -> Result<BorrowedNcfIndex, String>,
>(encode: I, decode: D) -> bool {
    forall|index: NcfIndex, bytes: Vec<u8>, back: Result<BorrowedNcfIndex, String>|
        #![trigger call_ensures(encode, (&index,), Ok(bytes)), decodes_to(decode, bytes@, back)]
        call_ensures(encode, (&index,), Ok(bytes)) && decodes_to(decode, bytes@, back) ==> (
        back matches Ok(given) && given.entries@ == index.entries@ && given.tensor_map@
            == index.tensor_map@)
}

/// Reading gives back what was written: a direct reader of a finalized file reads, for every
/// name, the payloads of all tensors written under it, and its slice is the payload of the first.
/// The decoders have to give back what the encoders wrote, and payloads with one digest have to be
/// equal.
pub proof fn law_written_tensors_are_read<
    H: Fn(&NcfHeader) -> Result<Vec<u8>, NcfError>,
    S: Fn(&Vec<TensorSchema>) -> Result<Vec<u8>, NcfError>,
    I: Fn(&NcfIndex) -> Result<Vec<u8>, NcfError>,
    H2: Fn(&[u8]) -> Result<NcfHeader, NcfError>,
    S2: Fn(&[u8]) -> Result<Vec<TensorSchema>, String>,
    I2: Fn(&[u8]) -> Result<BorrowedNcfIndex, String>,
>(
    writer: NcfWriter,
    encode_header: H,
    encode_schemas: S,
    encode_index: I,
    header: Vec<u8>,
    tries: Seq<Vec<u8>>,
    index: Vec<u8>,
    file: Seq<u8>,
    reader: NcfReader,
    decode_header: H2,
    decode_schemas: S2,
    decode_index: I2,
    tried: Result<Vec<TensorSchema>, String>,
    name: Seq<char>,
)
    requires
        is_finalized(
            writer,
            encode_header,
            encode_schemas,
            encode_index,
            header,
            tries,
            index,
            file,
        ),
        no_collision(writer.spec_tensors()),
        schemas_roundtrip(encode_schemas, decode_schemas),
        borrowed_index_roundtrips(encode_index, decode_index),
        reader.opened(file, decode_header, decode_index),
        decodes_to(decode_schemas, reader.spec_schema_bytes(), tried),
    ensures
        ({
            let ts = writer.spec_tensors();
            let slice = slice_outcome(
                file,
                reader.contents.index.tensor_map@,
                reader.contents.index.entries@,
                false,
                name,
            );
            &&& tried matches Ok(schemas) && read_outcome(file, schema_views(schemas@), name)
                == Ok::<Option<Seq<u8>>, IoError>(
                if exists|k: int| 0 <= k < ts.len() && (#[trigger] ts[k]).0.name == name {
                    Some(payloads_named(ts, name, ts.len() as int))
                } else {
                    None
                },
            )
            &&& forall|k: int|
                0 <= k < ts.len() && #[trigger] is_first_of_name(ts, k) && ts[k].0.name == name
                    ==> slice == Some(ts[k].1)
            &&& (forall|k: int| 0 <= k < ts.len() ==> (#[trigger] ts[k]).0.name != name)
                ==> slice is None
        }),
{
    let ts = writer.spec_tensors();
    let n = ts.len() as int;
    let schema = tries.last();
    let base = FILE_HEADER_PREFIX_SIZE + header@.len() + schema@.len();
    law_finalized_is_settled(
        writer,
        encode_header,
        encode_schemas,
        encode_index,
        header,
        tries,
        index,
        file,
    );
    law_blocks_are_found(writer.flags, header@, schema@, chunk_area(ts, n), index@, n);
    let given = choose|given: Vec<TensorSchema>|
        schema_views(given@) == located_schemas(ts, base, n) && #[trigger] call_ensures(
            encode_schemas,
            (&given,),
            Ok(schema),
        );
    assert(reader.spec_schema_bytes() == schema_block(file));
    assert(decodes_to(decode_schemas, schema@ + chunk_area(ts, n), tried));
    let described = choose|described: NcfIndex|
        index_describes(described, ts, base, writer.tensor_quant_levels@)
            && #[trigger] call_ensures(encode_index, (&described,), Ok(index));
    assert(decodes_to(decode_index, index@, Ok(reader.contents.index)));
    law_read_gives_payloads(file, base, ts, writer.flags, header@, schema@, index@, name);
    law_slice_gives_payload(file, base, ts, writer.flags, header@, schema@, index@, false, name);
}

/// A mapped finalized file passes the check of its checksums, and a slice of it is the payload of
/// the first tensor of the name, under the same conditions.
pub proof fn law_written_file_checks_out<
    H: Fn(&NcfHeader) -> Result<Vec<u8>, NcfError>,
    S: Fn(&Vec<TensorSchema>) -> Result<Vec<u8>, NcfError>,
    I: Fn(&NcfIndex) -> Result<Vec<u8>, NcfError>,
    H2: Fn(&[u8]) -> Result<NcfHeader, NcfError>,
    S2: Fn(&[u8]) -> Result<Vec<TensorSchema>, String>,
    I2: Fn(&[u8]) -> Result<NcfIndex, String>,
>(
    writer: NcfWriter,
    encode_header: H,
    encode_schemas: S,
    encode_index: I,
    header: Vec<u8>,
    tries: Seq<Vec<u8>>,
    index: Vec<u8>,
    file: Seq<u8>,
    view: NcfMmap,
    decode_header: H2,
    decode_schemas: S2,
    decode_index: I2,
    tried: Result<Vec<TensorSchema>, String>,
    name: Seq<char>,
)
    requires
        is_finalized(
            writer,
            encode_header,
            encode_schemas,
            encode_index,
            header,
            tries,
            index,
            file,
        ),
        no_collision(writer.spec_tensors()),
        schemas_roundtrip(encode_schemas, decode_schemas),
        index_roundtrips(encode_index, decode_index),
        view.opened(file, decode_header, decode_index),
        decodes_to(decode_schemas, view.spec_schema_bytes(), tried),
    ensures
        ({
            let ts = writer.spec_tensors();
            let slice = slice_outcome(
                file,
                view.index.tensor_map@,
                view.index.entries@,
                true,
                name,
            );
            &&& tried matches Ok(schemas) && schemas_fault(
                file,
                view.index.entries@,
                true,
                schema_views(schemas@),
                schemas@.len() as int,
            ) is None
            &&& forall|k: int|
                0 <= k < ts.len() && #[trigger] is_first_of_name(ts, k) && ts[k].0.name == name
                    ==> slice == Some(ts[k].1)
            &&& (forall|k: int| 0 <= k < ts.len() ==> (#[trigger] ts[k]).0.name != name)
                ==> slice is None
        }),
{
    let ts = writer.spec_tensors();
    let n = ts.len() as int;
    let schema = tries.last();
    let base = FILE_HEADER_PREFIX_SIZE + header@.len() + schema@.len();
    law_finalized_is_settled(
        writer,
        encode_header,
        encode_schemas,
        encode_index,
        header,
        tries,
        index,
        file,
    );
    law_blocks_are_found(writer.flags, header@, schema@, chunk_area(ts, n), index@, n);
    let given = choose|given: Vec<TensorSchema>|
        schema_views(given@) == located_schemas(ts, base, n) && #[trigger] call_ensures(
            encode_schemas,
            (&given,),
            Ok(schema),
        );
    assert(view.spec_schema_bytes() == schema_block(file));
    assert(decodes_to(decode_schemas, schema@ + chunk_area(ts, n), tried));
    let described = choose|described: NcfIndex|
        index_describes(described, ts, base, writer.tensor_quant_levels@)
            && #[trigger] call_ensures(encode_index, (&described,), Ok(index));
    assert(decodes_to(decode_index, index@, Ok(view.index)));
    law_checksums_pass(file, base, ts, writer.flags, header@, schema@, index@, true);
    law_slice_gives_payload(file, base, ts, writer.flags, header@, schema@, index@, true, name);
    assert(schema_views(tried->Ok_0@).len() == tried->Ok_0@.len());
}

/// Whether two headers say the same.
pub open spec fn same_header(a: NcfHeader, b: NcfHeader) -> bool {
    &&& a.metadata.model_name@ == b.metadata.model_name@
    &&& a.metadata.architecture@ == b.metadata.architecture@
    &&& a.metadata.created_at == b.metadata.created_at
    &&& same_text_option(a.metadata.author, b.metadata.author)
    &&& same_text_option(a.metadata.license, b.metadata.license)
    &&& same_text_option(a.metadata.quantization, b.metadata.quantization)
    &&& a.metadata.custom@ == b.metadata.custom@
}

/// Whether two optional texts are both missing or both there and equal.
pub open spec fn same_text_option(a: Option<String>, b: Option<String>) -> bool {
    match (a, b) {
        (Some(x), Some(y)) => x@ == y@,
        (None, None) => true,
        _ => false,
    }
}

/// Whether a decoder gives back the header that an encoder wrote.
pub open spec fn header_roundtrips<
    H: Fn(&NcfHeader) -> Result<Vec<u8>, NcfError>,
    D: Fn(&[u8]) -> Result<NcfHeader, NcfError>,
>(encode: H, decode: D) -> bool {
    forall|header: NcfHeader, bytes: Vec<u8>, back: Result<NcfHeader, NcfError>|
        #![trigger call_ensures(encode, (&header,), Ok(bytes)), decodes_to(decode, bytes@, back)]
        call_ensures(encode, (&header,), Ok(bytes)) && decodes_to(decode, bytes@, back) ==> (
        back matches Ok(given) && same_header(given, header))
}

/// A file with the blocks of a writer opens, whatever stands in its chunk area.
pub(crate) proof fn lemma_blocks_open<
    H: Fn(&NcfHeader) -> Result<Vec<u8>, NcfError>,
    S: Fn(&Vec<TensorSchema>) -> Result<Vec<u8>, NcfError>,
    I: Fn(&NcfIndex) -> Result<Vec<u8>, NcfError>,
    H2: Fn(&[u8]) -> Result<NcfHeader, NcfError>,
    S2: Fn(&[u8]) -> Result<Vec<TensorSchema>, String>,
    B2: Fn(&[u8]) -> Result<BorrowedNcfIndex, String>,
    I2: Fn(&[u8]) -> Result<NcfIndex, String>,
>(
    writer: NcfWriter,
    encode_header: H,
    encode_schemas: S,
    encode_index: I,
    base: int,
    header: Vec<u8>,
    schema: Vec<u8>,
    area: Seq<u8>,
    index: Vec<u8>,
    file: Seq<u8>,
    decode_header: H2,
    decode_schemas: S2,
    decode_borrowed: B2,
    decode_index: I2,
)
    requires
        file == image(
            writer.flags,
            header@,
            schema@,
            area,
            index@,
            writer.tensors@.len() as int,
        ),
        file.len() <= usize::MAX,
        call_ensures(encode_header, (&writer.metadata,), Ok(header)),
        schemas_encode_to(
            encode_schemas,
            located_schemas(writer.spec_tensors(), base, writer.tensors@.len() as int),
            Ok(schema),
        ),
        index_encodes_to(
            encode_index,
            writer.spec_tensors(),
            base,
            writer.tensor_quant_levels@,
            Ok(index),
        ),
        header_roundtrips(encode_header, decode_header),
        schemas_roundtrip(encode_schemas, decode_schemas),
        borrowed_index_roundtrips(encode_index, decode_borrowed),
        index_roundtrips(encode_index, decode_index),
    ensures
        header_within(file),
        schema_in_bounds(file),
        index_within(file),
        forall|e: NcfError| !#[trigger] open_fails(file, decode_header, decode_borrowed, e),
        forall|e: NcfError| !#[trigger] map_fails(file, decode_header, decode_index, e),
        forall|e: NcfError|
            !#[trigger] prefetch_open_fails(file, decode_header, decode_schemas, decode_index, e),
        forall|m: NcfHeader| #[trigger]
            decodes_to(decode_header, header_block(file), Ok(m)) ==> same_header(
                m,
                writer.metadata,
            ),
{
    let ts = writer.spec_tensors();
    let n = writer.tensors@.len() as int;
    law_blocks_are_found(writer.flags, header@, schema@, area, index@, n);
    let described = choose|described: NcfIndex|
        index_describes(described, ts, base, writer.tensor_quant_levels@)
            && #[trigger] call_ensures(encode_index, (&described,), Ok(index));
    let views = located_schemas(ts, base, n);
    let given = choose|given: Vec<TensorSchema>|
        schema_views(given@) == views && #[trigger] call_ensures(
            encode_schemas,
            (&given,),
            Ok(schema),
        );
    assert forall|e: NcfError| !#[trigger] open_fails(
        file,
        decode_header,
        decode_borrowed,
        e,
    ) by {}
    assert forall|e: NcfError| !#[trigger] map_fails(file, decode_header, decode_index, e) by {}
    assert forall|e: NcfError| !#[trigger] prefetch_open_fails(
        file,
        decode_header,
        decode_schemas,
        decode_index,
        e,
    ) by {
        if prefetch_open_fails(file, decode_header, decode_schemas, decode_index, e) {
            assert(prefix_fault(file) is None);
            assert(schema_block(file) == schema@ + area);
        }
    }
}

/// A finalized file opens: no reader refuses it, the blocks lie within it, and the header that is
/// decoded says what the header of the writer says. The decoders have to give back what the
/// encoders wrote.
pub proof fn law_written_file_opens<
    H: Fn(&NcfHeader) -> Result<Vec<u8>, NcfError>,
    S: Fn(&Vec<TensorSchema>) -> Result<Vec<u8>, NcfError>,
    I: Fn(&NcfIndex) -> Result<Vec<u8>, NcfError>,
    H2: Fn(&[u8]) -> Result<NcfHeader, NcfError>,
    S2: Fn(&[u8]) -> Result<Vec<TensorSchema>, String>,
    B2: Fn(&[u8]) -> Result<BorrowedNcfIndex, String>,
    I2: Fn(&[u8]) -> Result<NcfIndex, String>,
>(
    writer: NcfWriter,
    encode_header: H,
    encode_schemas: S,
    encode_index: I,
    header: Vec<u8>,
    tries: Seq<Vec<u8>>,
    index: Vec<u8>,
    file: Seq<u8>,
    decode_header: H2,
    decode_schemas: S2,
    decode_borrowed: B2,
    decode_index: I2,
)
    requires
        is_finalized(
            writer,
            encode_header,
            encode_schemas,
            encode_index,
            header,
            tries,
            index,
            file,
        ),
        header_roundtrips(encode_header, decode_header),
        schemas_roundtrip(encode_schemas, decode_schemas),
        borrowed_index_roundtrips(encode_index, decode_borrowed),
        index_roundtrips(encode_index, decode_index),
    ensures
        header_within(file),
        schema_in_bounds(file),
        index_within(file),
        forall|e: NcfError| !#[trigger] open_fails(file, decode_header, decode_borrowed, e),
        forall|e: NcfError| !#[trigger] map_fails(file, decode_header, decode_index, e),
        forall|e: NcfError|
            !#[trigger] prefetch_open_fails(file, decode_header, decode_schemas, decode_index, e),
        forall|m: NcfHeader| #[trigger]
            decodes_to(decode_header, header_block(file), Ok(m)) ==> same_header(
                m,
                writer.metadata,
            ),
{
    let ts = writer.spec_tensors();
    let schema = tries.last();
    let base = FILE_HEADER_PREFIX_SIZE + header@.len() + schema@.len();
    law_finalized_is_settled(
        writer,
        encode_header,
        encode_schemas,
        encode_index,
        header,
        tries,
        index,
        file,
    );
    lemma_blocks_open(
        writer,
        encode_header,
        encode_schemas,
        encode_index,
        base,
        header,
        schema,
        chunk_area(ts, ts.len() as int),
        index,
        file,
        decode_header,
        decode_schemas,
        decode_borrowed,
        decode_index,
    );
}

/// A prefetch reader of a finalized file passes the check of its checksums, and reads for every
/// name the payloads of all tensors written under it, whatever was fetched ahead from the file.
/// That is what a direct reader with these schemas reads. The conditions are those of a direct
/// reader.
pub proof fn law_written_tensors_are_prefetched<
    H: Fn(&NcfHeader) -> Result<Vec<u8>, NcfError>,
    S: Fn(&Vec<TensorSchema>) -> Result<Vec<u8>, NcfError>,
    I: Fn(&NcfIndex) -> Result<Vec<u8>, NcfError>,
    H2: Fn(&[u8]) -> Result<NcfHeader, NcfError>,
    S2: Fn(&[u8]) -> Result<Vec<TensorSchema>, String>,
    I2: Fn(&[u8]) -> Result<NcfIndex, String>,
>(
    writer: NcfWriter,
    encode_header: H,
    encode_schemas: S,
    encode_index: I,
    header: Vec<u8>,
    tries: Seq<Vec<u8>>,
    index: Vec<u8>,
    file: Seq<u8>,
    reader: PrefetchReader,
    decode_header: H2,
    decode_schemas: S2,
    decode_index: I2,
    s: PrefetchState,
    name: Seq<char>,
)
    requires
        is_finalized(
            writer,
            encode_header,
            encode_schemas,
            encode_index,
            header,
            tries,
            index,
            file,
        ),
        no_collision(writer.spec_tensors()),
        schemas_roundtrip(encode_schemas, decode_schemas),
        index_roundtrips(encode_index, decode_index),
        reader.opened(file, decode_header, decode_schemas, decode_index),
        s.coherent(file, reader.index.entries@),
    ensures
        schemas_fault(
            file,
            reader.index.entries@,
            false,
            schema_views(reader.schemas@),
            reader.schemas@.len() as int,
        ) is None,
        ({
            let ts = writer.spec_tensors();
            let views = schema_views(reader.schemas@);
            let read = prefetch_read(file, reader.index, views, s, name).0;
            &&& name_agrees(file, reader.index, views, s.buffer, name)
            &&& read == read_outcome(file, views, name)
            &&& read == Ok::<Option<Seq<u8>>, IoError>(
                if exists|k: int| 0 <= k < ts.len() && (#[trigger] ts[k]).0.name == name {
                    Some(payloads_named(ts, name, ts.len() as int))
                } else {
                    None
                },
            )
        }),
{
    let ts = writer.spec_tensors();
    let n = ts.len() as int;
    let schema = tries.last();
    let base = FILE_HEADER_PREFIX_SIZE + header@.len() + schema@.len();
    law_finalized_is_settled(
        writer,
        encode_header,
        encode_schemas,
        encode_index,
        header,
        tries,
        index,
        file,
    );
    law_blocks_are_found(writer.flags, header@, schema@, chunk_area(ts, n), index@, n);
    let given = choose|given: Vec<TensorSchema>|
        schema_views(given@) == located_schemas(ts, base, n) && #[trigger] call_ensures(
            encode_schemas,
            (&given,),
            Ok(schema),
        );
    assert(decodes_to(decode_schemas, schema@ + chunk_area(ts, n), Ok(reader.schemas)));
    let described = choose|described: NcfIndex|
        index_describes(described, ts, base, writer.tensor_quant_levels@)
            && #[trigger] call_ensures(encode_index, (&described,), Ok(index));
    assert(decodes_to(decode_index, index@, Ok(reader.index)));
    law_checksums_pass(file, base, ts, writer.flags, header@, schema@, index@, false);
    let views = schema_views(reader.schemas@);
    law_written_names_agree(
        file,
        base,
        ts,
        writer.flags,
        header@,
        schema@,
        index@,
        reader.index,
        s,
        name,
    );
    law_agreeing_read_is_direct(file, reader.index, views, s, name);
    law_read_gives_payloads(file, base, ts, writer.flags, header@, schema@, index@, name);
    assert(views.len() == reader.schemas@.len());
}

proof fn lemma_first_ids_count(ts: Seq<(SchemaView, Seq<u8>)>, n: int)
    requires
        0 <= n <= ts.len(),
        forall|i: int, j: int|
            0 <= i < j < ts.len() ==> (#[trigger] ts[i]).0.name != (#[trigger] ts[j]).0.name,
    ensures
        first_ids(ts, n).dom().finite(),
        first_ids(ts, n).len() == n,
    decreases n,
{
    if n > 0 {
        lemma_first_ids_count(ts, n - 1);
        let name = ts[n - 1].0.name;
        lemma_first_ids(ts, n - 1, name);
        if first_ids(ts, n - 1).contains_key(name) {
            let id = lookup(first_ids(ts, n - 1), name)->0;
            let k = choose|k: int|
                0 <= k < n - 1 && id == k as u64 && #[trigger] is_first_of_name(ts, k)
                    && ts[k].0.name == name;
            assert(ts[k].0.name != ts[n - 1].0.name);
        }
    }
}

/// A direct reader of a finalized file counts the tensors that were written, if no two of them
/// have one name.
pub proof fn law_written_tensors_are_counted<
    H: Fn(&NcfHeader) -> Result<Vec<u8>, NcfError>,
    S: Fn(&Vec<TensorSchema>) -> Result<Vec<u8>, NcfError>,
    I: Fn(&NcfIndex) -> Result<Vec<u8>, NcfError>,
    H2: Fn(&[u8]) -> Result<NcfHeader, NcfError>,
    I2: Fn(&[u8]) -> Result<BorrowedNcfIndex, String>,
>(
    writer: NcfWriter,
    encode_header: H,
    encode_schemas: S,
    encode_index: I,
    header: Vec<u8>,
    tries: Seq<Vec<u8>>,
    index: Vec<u8>,
    file: Seq<u8>,
    reader: NcfReader,
    decode_header: H2,
    decode_index: I2,
)
    requires
        is_finalized(
            writer,
            encode_header,
            encode_schemas,
            encode_index,
            header,
            tries,
            index,
            file,
        ),
        borrowed_index_roundtrips(encode_index, decode_index),
        reader.opened(file, decode_header, decode_index),
        forall|i: int, j: int|
            0 <= i < j < writer.tensors@.len() ==> (#[trigger] writer.spec_tensors()[i]).0.name != (
            #[trigger] writer.spec_tensors()[j]).0.name,
    ensures
        reader.contents.index.tensor_map@.len() == writer.tensors@.len(),
{
    let ts = writer.spec_tensors();
    let n = ts.len() as int;
    let schema = tries.last();
    let base = FILE_HEADER_PREFIX_SIZE + header@.len() + schema@.len();
    law_finalized_is_settled(
        writer,
        encode_header,
        encode_schemas,
        encode_index,
        header,
        tries,
        index,
        file,
    );
    law_blocks_are_found(writer.flags, header@, schema@, chunk_area(ts, n), index@, n);
    let described = choose|described: NcfIndex|
        index_describes(described, ts, base, writer.tensor_quant_levels@)
            && #[trigger] call_ensures(encode_index, (&described,), Ok(index));
    assert(decodes_to(decode_index, index@, Ok(reader.contents.index)));
    lemma_first_ids_count(ts, n);
}

/// A payload that does not have the recorded digest is found out: the check of its chunk fails.
pub proof fn law_changed_payload_is_found(file: Seq<u8>, entry: IndexEntry, checksum: [u8; 32])
    requires
        payload_end(entry.byte_offset, entry.byte_len) <= file.len() <= usize::MAX,
        blake3_digest(payload_at(file, entry.byte_offset, entry.byte_len)) != checksum,
    ensures
        checksum_fault(file, entry, checksum) == Some(IoError::ChecksumMismatch),
{
}

/// A tensor whose payload was met before takes no room of its own, and refers to the chunk of the
/// first tensor with that payload.
pub proof fn law_duplicate_takes_no_room(ts: Seq<(SchemaView, Seq<u8>)>, base: int, i: int, j: int)
    requires
        0 <= j < i < ts.len(),
        ts[i].1 == ts[j].1,
    ensures
        chunk_area(ts, i + 1) == chunk_area(ts, i),
        chunk_ref(ts, base, i).byte_offset == chunk_ref(ts, base, j).byte_offset,
        chunk_ref(ts, base, i).canonical_offset == Some(chunk_ref(ts, base, j).byte_offset),
{
    lemma_canonical_shared(ts, i, j);
    lemma_canonical_is_fixed(ts, j);
}

} // verus!
