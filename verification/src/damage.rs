//! What becomes of a file with a changed byte.

use crate::blocks::{
    checksum_fault, chunk_fault, chunks_fault, decodes_to, payload_at, payload_start,
    schema_block, schema_in_bounds, schemas_fault,
};
use crate::constants::FILE_HEADER_PREFIX_SIZE;
use crate::digest::blake3_digest;
use crate::error::{IoError, IoErrorKind, NcfError};
use crate::header::{lemma_prefix_len, NcfFlags, NcfHeader};
use crate::index::{IndexEntry, NcfIndex};
use crate::mmap::{map_fails, NcfMmap};
use crate::prefetch::{header_within, index_within, prefetch_open_fails, PrefetchReader};
use crate::reader::{open_fails, BorrowedNcfIndex};
use crate::roundtrip::{
    borrowed_index_roundtrips, header_roundtrips, index_roundtrips, is_finalized, is_ref_of_some,
    law_blocks_are_found, law_entry_leads_to_payload, law_finalized_is_settled, lemma_blocks_open,
    lemma_chunk_in_area, lemma_entry_found, lemma_refs_of_name, no_collision, schemas_roundtrip,
    settled,
};
use crate::schema::{schema_views, ChunkRef, SchemaView, TensorSchema};
use crate::writer::{
    canonical, chunk_area, chunk_place, chunk_ref, entries_for, entry_for, image, image_prefix,
    index_describes, is_first_of_name, lemma_canonical_is_fixed, located_schemas, payload_digest,
    refs_for, NcfWriter,
};
use vstd::prelude::*;

verus! {

/// The position of byte `k` of the payload of a tensor in a written file.
pub open spec fn payload_position(
    ts: Seq<(SchemaView, Seq<u8>)>,
    base: int,
    i: int,
    k: int,
) -> int {
    payload_start(entry_for(ts, base, i).byte_offset) + k
}

/// A written file with one changed byte of a payload is a file with the same blocks around other
/// chunks.
proof fn lemma_changed_image(
    file: Seq<u8>,
    base: int,
    ts: Seq<(SchemaView, Seq<u8>)>,
    flags: NcfFlags,
    header: Seq<u8>,
    schema: Seq<u8>,
    index: Seq<u8>,
    i: int,
    k: int,
    b: u8,
)
    requires
        settled(file, base, ts, flags, header, schema, index),
        no_collision(ts),
        0 <= i < ts.len(),
        0 <= k < ts[i].1.len(),
    ensures
        ({
            let n = ts.len() as int;
            let at = payload_position(ts, base, i, k);
            let area = chunk_area(ts, n);
            &&& base <= at < base + area.len()
            &&& file.update(at, b) == image(
                flags,
                header,
                schema,
                area.update(at - base, b),
                index,
                n,
            )
            &&& payload_at(
                file.update(at, b),
                entry_for(ts, base, i).byte_offset,
                entry_for(ts, base, i).byte_len,
            ) == ts[i].1.update(k, b)
        }),
{
    broadcast use lemma_prefix_len;

    let n = ts.len() as int;
    let at = payload_position(ts, base, i, k);
    let area = chunk_area(ts, n);
    let changed = area.update(at - base, b);
    law_entry_leads_to_payload(file, base, ts, flags, header, schema, index, i);
    let entry = entry_for(ts, base, i);
    let c = canonical(ts, i);
    lemma_canonical_is_fixed(ts, i);
    lemma_chunk_in_area(ts, c, n);
    assert(ts[c].1 == ts[i].1) by {
        assert(payload_digest(ts, c) == payload_digest(ts, i));
    }
    assert(file.len() >= base + area.len());
    assert(chunk_place(ts, base, i) == base + chunk_area(ts, c).len());
    assert(entry.byte_offset == base + chunk_area(ts, c).len());
    assert(image_prefix(flags, header, schema, area, n) == image_prefix(
        flags,
        header,
        schema,
        changed,
        n,
    ));
    assert(file.update(at, b) =~= image(flags, header, schema, changed, index, n));
    assert(payload_at(file, entry.byte_offset, entry.byte_len).len() == ts[i].1.len());
    assert(payload_at(file.update(at, b), entry.byte_offset, entry.byte_len) =~= payload_at(
        file,
        entry.byte_offset,
        entry.byte_len,
    ).update(k, b));
}

/// The first fault of a list of chunks is a wrong checksum, if one of the chunks has a fault and
/// none has another fault.
proof fn lemma_chunks_mismatch(
    data: Seq<u8>,
    entries: Seq<IndexEntry>,
    latest: bool,
    chunks: Seq<ChunkRef>,
    n: int,
)
    requires
        0 <= n <= chunks.len(),
        forall|j: int|
            0 <= j < chunks.len() ==> only_mismatch(
                chunk_fault(data, entries, latest, #[trigger] chunks[j]),
            ),
    ensures
        only_mismatch(chunks_fault(data, entries, latest, chunks, n)),
        (exists|j: int|
            0 <= j < n && chunk_fault(data, entries, latest, #[trigger] chunks[j]) is Some)
            ==> chunks_fault(data, entries, latest, chunks, n) is Some,
    decreases n,
{
    if n > 0 {
        lemma_chunks_mismatch(data, entries, latest, chunks, n - 1);
        assert(only_mismatch(chunk_fault(data, entries, latest, chunks[n - 1])));
    }
}

/// Whether there is no fault but a wrong checksum.
pub open spec fn only_mismatch(fault: Option<IoError>) -> bool {
    fault matches Some(e) ==> e == IoError::ChecksumMismatch
}

/// The same of the chunks of a list of schemas.
proof fn lemma_schemas_mismatch(
    data: Seq<u8>,
    entries: Seq<IndexEntry>,
    latest: bool,
    schemas: Seq<SchemaView>,
    n: int,
)
    requires
        0 <= n <= schemas.len(),
        forall|f: int, j: int|
            0 <= f < schemas.len() && 0 <= j < schemas[f].chunks.len() ==> only_mismatch(
                chunk_fault(data, entries, latest, #[trigger] schemas[f].chunks[j]),
            ),
    ensures
        only_mismatch(schemas_fault(data, entries, latest, schemas, n)),
        (exists|f: int, j: int|
            0 <= f < n && 0 <= j < schemas[f].chunks.len() && chunk_fault(
                data,
                entries,
                latest,
                #[trigger] schemas[f].chunks[j],
            ) is Some) ==> schemas_fault(data, entries, latest, schemas, n) is Some,
    decreases n,
{
    if n > 0 {
        lemma_schemas_mismatch(data, entries, latest, schemas, n - 1);
        let chunks = schemas[n - 1].chunks;
        assert forall|j: int| 0 <= j < chunks.len() implies only_mismatch(
            chunk_fault(data, entries, latest, #[trigger] chunks[j]),
        ) by {
            assert(only_mismatch(
                chunk_fault(data, entries, latest, schemas[n - 1].chunks[j]),
            ));
        }
        lemma_chunks_mismatch(data, entries, latest, chunks, chunks.len() as int);
    }
}

/// Every tensor has a reference in the first schema of its name.
proof fn lemma_ref_is_listed(ts: Seq<(SchemaView, Seq<u8>)>, base: int, i: int, n: int) -> (j: int)
    requires
        0 <= i < n <= ts.len(),
    ensures
        0 <= j < refs_for(ts, base, ts[i].0.name, n).len(),
        refs_for(ts, base, ts[i].0.name, n)[j] == chunk_ref(ts, base, i),
    decreases n,
{
    if i == n - 1 {
        refs_for(ts, base, ts[i].0.name, n - 1).len() as int
    } else {
        lemma_ref_is_listed(ts, base, i, n - 1)
    }
}

/// The first tensor of a name.
proof fn lemma_name_has_first(ts: Seq<(SchemaView, Seq<u8>)>, i: int, n: int) -> (f: int)
    requires
        0 <= n <= i < ts.len(),
        forall|j: int| 0 <= j < n ==> (#[trigger] ts[j]).0.name != ts[i].0.name,
    ensures
        n <= f <= i,
        ts[f].0.name == ts[i].0.name,
        is_first_of_name(ts, f),
    decreases i - n,
{
    if ts[n].0.name == ts[i].0.name {
        n
    } else {
        lemma_name_has_first(ts, i, n + 1)
    }
}

/// A written file in which one byte of a payload was changed has a wrong checksum and no other
/// fault, if the changed payload has another digest.
pub proof fn law_changed_byte_fails_check(
    file: Seq<u8>,
    base: int,
    ts: Seq<(SchemaView, Seq<u8>)>,
    flags: NcfFlags,
    header: Seq<u8>,
    schema: Seq<u8>,
    index: Seq<u8>,
    latest: bool,
    i: int,
    k: int,
    b: u8,
)
    requires
        settled(file, base, ts, flags, header, schema, index),
        no_collision(ts),
        0 <= i < ts.len(),
        0 <= k < ts[i].1.len(),
        blake3_digest(ts[i].1.update(k, b)) != blake3_digest(ts[i].1),
    ensures
        schemas_fault(
            file.update(payload_position(ts, base, i, k), b),
            entries_for(ts, base, ts.len() as int),
            latest,
            located_schemas(ts, base, ts.len() as int),
            ts.len() as int,
        ) == Some(IoError::ChecksumMismatch),
{
    let n = ts.len() as int;
    let entries = entries_for(ts, base, n);
    let schemas = located_schemas(ts, base, n);
    let changed = file.update(payload_position(ts, base, i, k), b);
    lemma_changed_image(file, base, ts, flags, header, schema, index, i, k, b);
    assert forall|f: int, j: int|
        0 <= f < schemas.len() && 0 <= j < schemas[f].chunks.len() implies only_mismatch(
        chunk_fault(changed, entries, latest, #[trigger] schemas[f].chunks[j]),
    ) by {
        lemma_refs_of_name(ts, base, f, n);
        let chunk = schemas[f].chunks[j];
        assert(is_ref_of_some(ts, base, n, chunk));
        let m = choose|m: int| 0 <= m < n && chunk == #[trigger] chunk_ref(ts, base, m);
        lemma_entry_found(ts, base, latest, m);
        law_entry_leads_to_payload(file, base, ts, flags, header, schema, index, m);
    }
    let f = lemma_name_has_first(ts, i, 0);
    let j = lemma_ref_is_listed(ts, base, i, n);
    assert(schemas[f].chunks[j] == chunk_ref(ts, base, i));
    lemma_entry_found(ts, base, latest, i);
    law_entry_leads_to_payload(file, base, ts, flags, header, schema, index, i);
    assert(checksum_fault(changed, entries[i], payload_digest(ts, i)) == Some(
        IoError::ChecksumMismatch,
    ));
    assert(chunk_fault(changed, entries, latest, schemas[f].chunks[j]) is Some);
    lemma_schemas_mismatch(changed, entries, latest, schemas, n);
}

/// A finalized file in which one byte of a payload was changed still opens with every reader, and
/// then fails the check of all checksums, with an error for invalid data, if the changed payload
/// has another digest. The decoders have to give back what the encoders wrote, and payloads with
/// one digest have to be equal.
pub proof fn law_changed_file_opens_and_fails_check<
    H: Fn(&NcfHeader) -> Result<Vec<u8>, NcfError>,
    S: Fn(&Vec<TensorSchema>) -> Result<Vec<u8>, NcfError>,
    I: Fn(&NcfIndex) -> Result<Vec<u8>, NcfError>,
    H2: Fn(&[u8]) -> Result<NcfHeader, NcfError>,
    S2: Fn(&[u8]) -> Result<Vec<TensorSchema>, String>,
    B2: Fn(&[u8]) -> Result<BorrowedNcfIndex, String>,
    I2: Fn(&[u8]) -> Result<NcfIndex, String>,
>(
    writer: NcfWriter,
    encode_header: H,
    encode_schemas: S,
    encode_index: I,
    header: Vec<u8>,
    tries: Seq<Vec<u8>>,
    index: Vec<u8>,
    file: Seq<u8>,
    decode_header: H2,
    decode_schemas: S2,
    decode_borrowed: B2,
    decode_index: I2,
    i: int,
    k: int,
    b: u8,
)
    requires
        is_finalized(
            writer,
            encode_header,
            encode_schemas,
            encode_index,
            header,
            tries,
            index,
            file,
        ),
        no_collision(writer.spec_tensors()),
        header_roundtrips(encode_header, decode_header),
        schemas_roundtrip(encode_schemas, decode_schemas),
        borrowed_index_roundtrips(encode_index, decode_borrowed),
        index_roundtrips(encode_index, decode_index),
        0 <= i < writer.tensors@.len(),
        0 <= k < writer.spec_tensors()[i].1.len(),
        blake3_digest(writer.spec_tensors()[i].1.update(k, b)) != blake3_digest(
            writer.spec_tensors()[i].1,
        ),
    ensures
        ({
            let base = FILE_HEADER_PREFIX_SIZE + header@.len() + tries.last()@.len();
            let changed = file.update(payload_position(writer.spec_tensors(), base, i, k), b);
            &&& header_within(changed)
            &&& schema_in_bounds(changed)
            &&& index_within(changed)
            &&& forall|e: NcfError|
                !#[trigger] open_fails(changed, decode_header, decode_borrowed, e)
            &&& forall|e: NcfError| !#[trigger] map_fails(changed, decode_header, decode_index, e)
            &&& forall|e: NcfError|
                !#[trigger] prefetch_open_fails(
                    changed,
                    decode_header,
                    decode_schemas,
                    decode_index,
                    e,
                )
            &&& forall|view: NcfMmap, tried: Result<Vec<TensorSchema>, String>|
                #![trigger view.opened(changed, decode_header, decode_index), decodes_to(decode_schemas, view.spec_schema_bytes(), tried)]
                view.opened(changed, decode_header, decode_index) && decodes_to(
                    decode_schemas,
                    view.spec_schema_bytes(),
                    tried,
                ) ==> (tried matches Ok(schemas) && schemas_fault(
                    view.mmap@,
                    view.index.entries@,
                    true,
                    schema_views(schemas@),
                    schemas@.len() as int,
                ) == Some(IoError::ChecksumMismatch))
            &&& forall|reader: PrefetchReader|
                #[trigger] reader.opened(changed, decode_header, decode_schemas, decode_index)
                    ==> schemas_fault(
                    reader.mmap@,
                    reader.index.entries@,
                    false,
                    schema_views(reader.schemas@),
                    reader.schemas@.len() as int,
                ) == Some(IoError::ChecksumMismatch)
        }),
        IoError::ChecksumMismatch.spec_kind() == IoErrorKind::InvalidData,
{
    let ts = writer.spec_tensors();
    let n = ts.len() as int;
    let schema = tries.last();
    let base = FILE_HEADER_PREFIX_SIZE + header@.len() + schema@.len();
    let at = payload_position(ts, base, i, k);
    let changed = file.update(at, b);
    let area = chunk_area(ts, n).update(at - base, b);
    law_finalized_is_settled(
        writer,
        encode_header,
        encode_schemas,
        encode_index,
        header,
        tries,
        index,
        file,
    );
    lemma_changed_image(file, base, ts, writer.flags, header@, schema@, index@, i, k, b);
    lemma_blocks_open(
        writer,
        encode_header,
        encode_schemas,
        encode_index,
        base,
        header,
        schema,
        area,
        index,
        changed,
        decode_header,
        decode_schemas,
        decode_borrowed,
        decode_index,
    );
    law_blocks_are_found(writer.flags, header@, schema@, area, index@, n);
    let given = choose|given: Vec<TensorSchema>|
        schema_views(given@) == located_schemas(ts, base, n) && #[trigger] call_ensures(
            encode_schemas,
            (&given,),
            Ok(schema),
        );
    let described = choose|described: NcfIndex|
        index_describes(described, ts, base, writer.tensor_quant_levels@)
            && #[trigger] call_ensures(encode_index, (&described,), Ok(index));
    assert forall|view: NcfMmap, tried: Result<Vec<TensorSchema>, String>|
        #![trigger view.opened(changed, decode_header, decode_index), decodes_to(decode_schemas, view.spec_schema_bytes(), tried)]
        view.opened(changed, decode_header, decode_index) && decodes_to(
            decode_schemas,
            view.spec_schema_bytes(),
            tried,
        ) implies (tried matches Ok(schemas) && schemas_fault(
        view.mmap@,
        view.index.entries@,
        true,
        schema_views(schemas@),
        schemas@.len() as int,
    ) == Some(IoError::ChecksumMismatch)) by {
        assert(view.spec_schema_bytes() == schema_block(changed));
        assert(decodes_to(decode_schemas, schema@ + area, tried));
        assert(decodes_to(decode_index, index@, Ok(view.index)));
        assert(schema_views(tried->Ok_0@).len() == tried->Ok_0@.len());
        law_changed_byte_fails_check(
            file,
            base,
            ts,
            writer.flags,
            header@,
            schema@,
            index@,
            true,
            i,
            k,
            b,
        );
    }
    assert forall|reader: PrefetchReader| #[trigger]
        reader.opened(changed, decode_header, decode_schemas, decode_index) implies schemas_fault(
        reader.mmap@,
        reader.index.entries@,
        false,
        schema_views(reader.schemas@),
        reader.schemas@.len() as int,
    ) == Some(IoError::ChecksumMismatch) by {
        assert(decodes_to(decode_schemas, schema@ + area, Ok(reader.schemas)));
        assert(decodes_to(decode_index, index@, Ok(reader.index)));
        assert(schema_views(reader.schemas@).len() == reader.schemas@.len());
        law_changed_byte_fails_check(
            file,
            base,
            ts,
            writer.flags,
            header@,
            schema@,
            index@,
            false,
            i,
            k,
            b,
        );
    }
}

} // verus!
