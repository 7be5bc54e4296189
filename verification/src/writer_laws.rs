//! What a written file holds of what was given to its writer.

use crate::blocks::{decodes_to, schema_block};
use crate::bytes::{
    le_bytes, le_value, lemma_le_bytes_len, lemma_le_value_of_le_bytes, lemma_pow256_widths,
};
use crate::chunk::lemma_chunk_header_len;
use crate::constants::FILE_HEADER_PREFIX_SIZE;
use crate::digest::{blake3_digest, xxh3_hash};
use crate::error::{IoError, NcfError};
use crate::header::{lemma_prefix_len, prefix_bytes, NcfFlags, NcfHeader};
use crate::index::NcfIndex;
use crate::quantize::QuantLevel;
use crate::roundtrip::{
    is_finalized, law_blocks_are_found, law_finalized_is_settled, lemma_chunk_in_area,
    schemas_roundtrip,
};
use crate::schema::{schema_views, Compression, SchemaView, TensorSchema};
use crate::writer::{
    canonical, chunk_area, chunk_place, chunk_ref, entries_for, entry_for, first_ids, image,
    image_prefix, index_describes, lemma_canonical_from, lemma_canonical_is_fixed,
    lemma_canonical_shared, located_schemas, payload_digest, refs_for, round_limit,
    schemas_encode_to, settles, stored_chunk, stored_header, unsettled, FileLayout, NcfWriter,
};
use vstd::prelude::*;

verus! {

/// Whether two schemas say the same of a tensor, apart from the chunks that hold it.
pub open spec fn same_tensor(a: TensorSchema, b: TensorSchema) -> bool {
    &&& a.name@ == b.name@
    &&& a.dtype == b.dtype
    &&& a.shape@ == b.shape@
    &&& a.column_layout == b.column_layout
    &&& a.compression == b.compression
    &&& a.encoding == b.encoding
}

proof fn lemma_located_fields(writer: NcfWriter, base: int, n: int, back: Seq<TensorSchema>, k: int)
    requires
        schema_views(back) == located_schemas(writer.spec_tensors(), base, n),
        0 <= k < writer.tensors@.len(),
    ensures
        back.len() == writer.tensors@.len(),
        same_tensor(back[k], writer.tensors@[k].0),
{
    let views = schema_views(back);
    assert(views.len() == back.len());
    assert(views[k] == back[k]@);
    assert(writer.spec_tensors()[k].0 == writer.tensors@[k].0@);
    let view = back[k]@;
    assert(view.name == back[k].name@);
    assert(view.shape == back[k].shape@);
}

/// The schemas decoded from a finalized file are those given to `add_tensor`, in that order, each
/// with the name, the element type, the shape, the layout, the compression and the encoding that it
/// was given; only the chunks differ. The decoder has to give back what the encoder wrote.
pub proof fn law_stored_schemas_are_the_given_ones<
    H: Fn(&NcfHeader) -> Result<Vec<u8>, NcfError>,
    S: Fn(&Vec<TensorSchema>) -> Result<Vec<u8>, NcfError>,
    I: Fn(&NcfIndex) -> Result<Vec<u8>, NcfError>,
    S2: Fn(&[u8]) -> Result<Vec<TensorSchema>, String>,
>(
    writer: NcfWriter,
    encode_header: H,
    encode_schemas: S,
    encode_index: I,
    header: Vec<u8>,
    tries: Seq<Vec<u8>>,
    index: Vec<u8>,
    file: Seq<u8>,
    decode_schemas: S2,
    back: Result<Vec<TensorSchema>, String>,
    k: int,
)
    requires
        is_finalized(
            writer,
            encode_header,
            encode_schemas,
            encode_index,
            header,
            tries,
            index,
            file,
        ),
        schemas_roundtrip(encode_schemas, decode_schemas),
        decodes_to(decode_schemas, schema_block(file), back),
        0 <= k < writer.tensors@.len(),
    ensures
        back matches Ok(schemas) && {
            let given = writer.tensors@[k].0;
            &&& schemas@.len() == writer.tensors@.len()
            &&& schemas@[k].name@ == given.name@
            &&& schemas@[k].dtype == given.dtype
            &&& schemas@[k].shape@ == given.shape@
            &&& schemas@[k].column_layout == given.column_layout
            &&& schemas@[k].compression == given.compression
            &&& schemas@[k].encoding == given.encoding
        },
{
    let ts = writer.spec_tensors();
    let n = ts.len() as int;
    let schema = tries.last();
    let base = FILE_HEADER_PREFIX_SIZE + header@.len() + schema@.len();
    law_finalized_is_settled(
        writer,
        encode_header,
        encode_schemas,
        encode_index,
        header,
        tries,
        index,
        file,
    );
    law_blocks_are_found(writer.flags, header@, schema@, chunk_area(ts, n), index@, n);
    let given = choose|given: Vec<TensorSchema>|
        schema_views(given@) == located_schemas(ts, base, n) && #[trigger] call_ensures(
            encode_schemas,
            (&given,),
            Ok(schema),
        );
    assert(decodes_to(decode_schemas, schema@ + chunk_area(ts, n), back));
    lemma_located_fields(writer, base, n, back->Ok_0@, k);
}

/// The schemas of a writer without references, and those of a layout, are the given ones.
pub proof fn law_laid_out_schemas_are_the_given_ones(
    writer: NcfWriter,
    blank: Seq<TensorSchema>,
    layout: FileLayout,
    base: int,
    k: int,
)
    requires
        schema_views(blank) == located_schemas(writer.spec_tensors(), 0, 0),
        layout.lays_out(writer.spec_tensors(), base),
        0 <= k < writer.tensors@.len(),
    ensures
        blank.len() == writer.tensors@.len(),
        same_tensor(blank[k], writer.tensors@[k].0),
        blank[k].chunks@.len() == 0,
        layout.schemas@.len() == writer.tensors@.len(),
        same_tensor(layout.schemas@[k], writer.tensors@[k].0),
{
    let n = writer.tensors@.len() as int;
    lemma_located_fields(writer, 0, 0, blank, k);
    lemma_located_fields(writer, base, n, layout.schemas@, k);
    assert(schema_views(blank)[k] == blank[k]@);
    assert(blank[k]@.chunks == blank[k].chunks@);
}

/// The entry and the reference for a tensor have its number as the chunk id, the length of its
/// payload and 60 bytes more as the length of the chunk, and one offset. The entry has the XXH3 hash
/// of the name, the reference the length and the BLAKE3 digest of the payload, and the offset again
/// exactly if an earlier payload has that digest.
pub proof fn law_references_describe_their_tensor(
    ts: Seq<(SchemaView, Seq<u8>)>,
    base: int,
    i: int,
)
    requires
        0 <= i < ts.len() <= u64::MAX,
        ts[i].1.len() + 60 <= u64::MAX,
        0 <= chunk_place(ts, base, i) <= u64::MAX,
    ensures
        ({
            let r = chunk_ref(ts, base, i);
            let e = entry_for(ts, base, i);
            let repeated = exists|j: int|
                0 <= j < i && blake3_digest((#[trigger] ts[j]).1) == blake3_digest(ts[i].1);
            &&& r.chunk_id == i
            &&& e.chunk_id == i
            &&& r.byte_len == ts[i].1.len() + 60
            &&& e.byte_len == ts[i].1.len() + 60
            &&& r.byte_offset == e.byte_offset
            &&& r.uncompressed_len == ts[i].1.len()
            &&& r.checksum == blake3_digest(ts[i].1)
            &&& e.tensor_name_hash == xxh3_hash(vstd::utf8::encode_utf8(ts[i].0.name))
            &&& repeated ==> r.canonical_offset == Some(r.byte_offset)
            &&& !repeated ==> r.canonical_offset is None
            &&& entries_for(ts, base, ts.len() as int).len() == ts.len()
            &&& entries_for(ts, base, ts.len() as int)[i] == e
        }),
{
    lemma_canonical_is_fixed(ts, i);
    let c = canonical(ts, i);
    if c < i {
        assert(blake3_digest(ts[c].1) == payload_digest(ts, c));
        assert(blake3_digest(ts[c].1) == blake3_digest(ts[i].1));
    } else {
        lemma_canonical_from(ts, i, 0);
        assert forall|j: int| 0 <= j < i implies blake3_digest((#[trigger] ts[j]).1)
            != blake3_digest(ts[i].1) by {
            assert(payload_digest(ts, j) != payload_digest(ts, i));
        }
    }
}

/// Chunks stand one behind the other, without gaps, in the order of the tensors: the first at the
/// start, the next where the one before ends. A payload with a digest that was met before adds
/// none, and is found where the first payload with that digest stands.
pub proof fn law_chunks_follow_each_other(
    ts: Seq<(SchemaView, Seq<u8>)>,
    base: int,
    i: int,
    j: int,
)
    requires
        0 <= i < ts.len(),
        0 <= j < ts.len(),
    ensures
        chunk_area(ts, 0).len() == 0,
        ({
            let repeated = exists|k: int|
                0 <= k < i && blake3_digest((#[trigger] ts[k]).1) == blake3_digest(ts[i].1);
            &&& repeated ==> chunk_area(ts, i + 1) == chunk_area(ts, i)
            &&& !repeated ==> chunk_area(ts, i + 1).len() == chunk_area(ts, i).len() + 28
                + ts[i].1.len() + 32
            &&& !repeated ==> chunk_place(ts, base, i) == base + chunk_area(ts, i).len()
        }),
        blake3_digest(ts[i].1) == blake3_digest(ts[j].1) <==> chunk_place(ts, base, i)
            == chunk_place(ts, base, j),
{
    broadcast use lemma_chunk_header_len;

    lemma_canonical_is_fixed(ts, i);
    lemma_canonical_is_fixed(ts, j);
    let c = canonical(ts, i);
    if c < i {
        assert(blake3_digest(ts[c].1) == payload_digest(ts, c));
        assert(blake3_digest(ts[c].1) == blake3_digest(ts[i].1));
    } else {
        lemma_canonical_from(ts, i, 0);
        assert forall|k: int| 0 <= k < i implies blake3_digest((#[trigger] ts[k]).1)
            != blake3_digest(ts[i].1) by {
            assert(payload_digest(ts, k) != payload_digest(ts, i));
        }
    }
    assert(payload_digest(ts, i)@.len() == 32);
    if blake3_digest(ts[i].1) == blake3_digest(ts[j].1) {
        assert(payload_digest(ts, i) == payload_digest(ts, j));
        lemma_canonical_shared(ts, i, j);
    } else {
        let a = canonical(ts, i);
        let b = canonical(ts, j);
        assert(a != b) by {
            assert(payload_digest(ts, a) == payload_digest(ts, i));
            assert(payload_digest(ts, b) == payload_digest(ts, j));
        }
        if a < b {
            lemma_chunk_in_area(ts, a, b);
            assert(stored_chunk(ts, a).len() >= 60) by {
                assert(payload_digest(ts, a)@.len() == 32);
            }
        } else {
            lemma_chunk_in_area(ts, b, a);
            assert(stored_chunk(ts, b).len() >= 60) by {
                assert(payload_digest(ts, b)@.len() == 32);
            }
        }
    }
}

/// A chunk is its header, its payload and the BLAKE3 digest of the payload. The header has the
/// number of the tensor in 8 bytes, 1 or 0 in 4 bytes as the tensor announces a compression or
/// not, and the length of the payload twice in 8 bytes, all little-endian.
pub proof fn law_chunk_bytes(ts: Seq<(SchemaView, Seq<u8>)>, i: int)
    requires
        0 <= i < ts.len() <= u64::MAX,
        ts[i].1.len() <= u64::MAX,
    ensures
        ({
            let chunk = stored_chunk(ts, i);
            let n = ts[i].1.len() as int;
            &&& chunk.len() == 28 + n + 32
            &&& le_value(chunk.subrange(0, 8)) == i
            &&& le_value(chunk.subrange(8, 12)) == (if ts[i].0.compression
                == Compression::Uncompressed {
                0int
            } else {
                1
            })
            &&& le_value(chunk.subrange(12, 20)) == n
            &&& le_value(chunk.subrange(20, 28)) == n
            &&& chunk.subrange(28, 28 + n) == ts[i].1
            &&& chunk.subrange(28 + n, 28 + n + 32) == blake3_digest(ts[i].1)@
        }),
{
    broadcast use {lemma_chunk_header_len, lemma_le_bytes_len};

    let h = stored_header(ts, i);
    let chunk = stored_chunk(ts, i);
    let n = ts[i].1.len() as int;
    lemma_pow256_widths();
    assert(payload_digest(ts, i)@.len() == 32);
    assert(chunk.subrange(0, 8) =~= le_bytes(h.chunk_id as nat, 8));
    assert(chunk.subrange(8, 12) =~= le_bytes(h.flags as nat, 4));
    assert(chunk.subrange(12, 20) =~= le_bytes(h.uncompressed_len as nat, 8));
    assert(chunk.subrange(20, 28) =~= le_bytes(h.compressed_len as nat, 8));
    assert(chunk.subrange(28, 28 + n) =~= ts[i].1);
    assert(chunk.subrange(28 + n, 28 + n + 32) =~= blake3_digest(ts[i].1)@);
    lemma_le_value_of_le_bytes(h.chunk_id as nat, 8);
    lemma_le_value_of_le_bytes(h.flags as nat, 4);
    lemma_le_value_of_le_bytes(h.uncompressed_len as nat, 8);
    lemma_le_value_of_le_bytes(h.compressed_len as nat, 8);
}

/// A file starts with its magic bytes, the version in 4 bytes, the flags in 4 bytes, and in 8 bytes
/// each the length of the header, the places of schemas and index, and the number of tensors.
/// Header, schemas, chunks and index follow, then the magic bytes of the footer and the length of
/// the index in 8 bytes. All numbers are little-endian.
pub proof fn law_file_bytes(
    flags: NcfFlags,
    header: Seq<u8>,
    schema: Seq<u8>,
    chunks: Seq<u8>,
    index: Seq<u8>,
    count: int,
)
    requires
        image(flags, header, schema, chunks, index, count).len() <= u64::MAX,
        0 <= count <= u64::MAX,
    ensures
        ({
            let file = image(flags, header, schema, chunks, index, count);
            let a = 48 + header.len() as int;
            let b = a + schema.len();
            let c = b + chunks.len();
            let d = c + index.len();
            &&& file.len() == d + 16
            &&& file.subrange(0, 8) == seq![78u8, 67, 70, 0, 222, 173, 190, 239]
            &&& le_value(file.subrange(8, 12)) == 65536
            &&& le_value(file.subrange(12, 16)) == flags.bits
            &&& le_value(file.subrange(16, 24)) == header.len()
            &&& le_value(file.subrange(24, 32)) == a
            &&& le_value(file.subrange(32, 40)) == c
            &&& le_value(file.subrange(40, 48)) == count
            &&& file.subrange(48, a) == header
            &&& file.subrange(a, b) == schema
            &&& file.subrange(b, c) == chunks
            &&& file.subrange(c, d) == index
            &&& file.subrange(d, d + 8) == seq![78u8, 67, 70, 69, 78, 68, 33, 33]
            &&& le_value(file.subrange(d + 8, d + 16)) == index.len()
        }),
{
    broadcast use {lemma_prefix_len, lemma_le_bytes_len};

    let file = image(flags, header, schema, chunks, index, count);
    let p = image_prefix(flags, header, schema, chunks, count);
    let a = 48 + header.len() as int;
    let b = a + schema.len();
    let c = b + chunks.len();
    let d = c + index.len();
    lemma_pow256_widths();
    assert(prefix_bytes(p).len() == 48);
    assert(file.len() == d + 16);
    assert(file.subrange(0, 8) =~= seq![78u8, 67, 70, 0, 222, 173, 190, 239]);
    assert(file.subrange(8, 12) =~= le_bytes(p.version as nat, 4));
    assert(file.subrange(12, 16) =~= le_bytes(p.flags.bits as nat, 4));
    assert(file.subrange(16, 24) =~= le_bytes(p.header_len as nat, 8));
    assert(file.subrange(24, 32) =~= le_bytes(p.schema_offset as nat, 8));
    assert(file.subrange(32, 40) =~= le_bytes(p.index_offset as nat, 8));
    assert(file.subrange(40, 48) =~= le_bytes(p.chunk_count as nat, 8));
    assert(file.subrange(48, a) =~= header);
    assert(file.subrange(a, b) =~= schema);
    assert(file.subrange(b, c) =~= chunks);
    assert(file.subrange(c, d) =~= index);
    assert(file.subrange(d, d + 8) =~= seq![78u8, 67, 70, 69, 78, 68, 33, 33]);
    assert(file.subrange(d + 8, d + 16) =~= le_bytes(index.len(), 8));
    lemma_le_value_of_le_bytes(p.version as nat, 4);
    lemma_le_value_of_le_bytes(p.flags.bits as nat, 4);
    lemma_le_value_of_le_bytes(p.header_len as nat, 8);
    lemma_le_value_of_le_bytes(p.schema_offset as nat, 8);
    lemma_le_value_of_le_bytes(p.index_offset as nat, 8);
    lemma_le_value_of_le_bytes(p.chunk_count as nat, 8);
    lemma_le_value_of_le_bytes(index.len(), 8);
}

/// The index of a file has one entry for each tensor, the levels that were set, and for each name
/// that a tensor has the number of the first such tensor.
pub proof fn law_index_holds_names_and_levels(
    index: NcfIndex,
    ts: Seq<(SchemaView, Seq<u8>)>,
    base: int,
    levels: Map<Seq<char>, QuantLevel>,
    name: Seq<char>,
)
    requires
        index_describes(index, ts, base, levels),
        ts.len() <= u64::MAX,
    ensures
        index.entry_count == ts.len(),
        index.entries@.len() == ts.len(),
        index.quant_levels@ == levels,
        index.tensor_map@.contains_key(name) <==> exists|k: int|
            0 <= k < ts.len() && (#[trigger] ts[k]).0.name == name,
        index.tensor_map@.contains_key(name) ==> {
            let id = index.tensor_map@[name] as int;
            &&& 0 <= id < ts.len()
            &&& ts[id].0.name == name
            &&& forall|j: int| 0 <= j < id ==> (#[trigger] ts[j]).0.name != name
        },
{
    lemma_first_tensor(ts, ts.len() as int, name);
}

proof fn lemma_first_tensor(ts: Seq<(SchemaView, Seq<u8>)>, n: int, name: Seq<char>)
    requires
        0 <= n <= ts.len() <= u64::MAX,
    ensures
        first_ids(ts, n).contains_key(name) <==> exists|k: int|
            0 <= k < n && (#[trigger] ts[k]).0.name == name,
        first_ids(ts, n).contains_key(name) ==> {
            let id = first_ids(ts, n)[name] as int;
            &&& 0 <= id < n
            &&& ts[id].0.name == name
            &&& forall|j: int| 0 <= j < id ==> (#[trigger] ts[j]).0.name != name
        },
    decreases n,
{
    if n > 0 {
        lemma_first_tensor(ts, n - 1, name);
        let before = first_ids(ts, n - 1);
        if before.contains_key(name) {
            let k = choose|k: int| 0 <= k < n - 1 && (#[trigger] ts[k]).0.name == name;
            assert(ts[k].0.name == name);
        } else if ts[n - 1].0.name == name {
            assert(first_ids(ts, n).contains_key(name));
        }
        if exists|k: int| 0 <= k < n && (#[trigger] ts[k]).0.name == name {
            let k = choose|k: int| 0 <= k < n && (#[trigger] ts[k]).0.name == name;
            if k < n - 1 {
                assert(before.contains_key(name));
            }
        }
    }
}

/// The first schema of a name refers to the chunks of all tensors of that name and of no other
/// tensor, in the order of the tensors; a later schema of the name refers to none.
pub proof fn law_schema_lists_the_chunks_of_its_name(
    ts: Seq<(SchemaView, Seq<u8>)>,
    base: int,
    k: int,
)
    requires
        0 <= k < ts.len() <= u64::MAX,
    ensures
        ({
            let chunks = located_schemas(ts, base, ts.len() as int)[k].chunks;
            let first = forall|j: int| 0 <= j < k ==> (#[trigger] ts[j]).0.name != ts[k].0.name;
            &&& !first ==> chunks.len() == 0
            &&& first ==> forall|i: int|
                0 <= i < ts.len() ==> ((#[trigger] ts[i]).0.name == ts[k].0.name <==> exists|j: int|
                    0 <= j < chunks.len() && (#[trigger] chunks[j]).chunk_id == i)
            &&& forall|j: int|
                0 <= j < chunks.len() ==> (#[trigger] chunks[j]).chunk_id < ts.len() && chunks[j]
                    == chunk_ref(ts, base, chunks[j].chunk_id as int)
            &&& forall|a: int, b: int|
                0 <= a < b < chunks.len() ==> (#[trigger] chunks[a]).chunk_id < (
                #[trigger] chunks[b]).chunk_id
        }),
{
    lemma_refs_listed(ts, base, ts[k].0.name, ts.len() as int);
}

proof fn lemma_refs_listed(
    ts: Seq<(SchemaView, Seq<u8>)>,
    base: int,
    name: Seq<char>,
    n: int,
)
    requires
        0 <= n <= ts.len() <= u64::MAX,
    ensures
        ({
            let chunks = refs_for(ts, base, name, n);
            &&& forall|i: int|
                0 <= i < n ==> ((#[trigger] ts[i]).0.name == name <==> exists|j: int|
                    0 <= j < chunks.len() && (#[trigger] chunks[j]).chunk_id == i)
            &&& forall|j: int|
                0 <= j < chunks.len() ==> (#[trigger] chunks[j]).chunk_id < n && chunks[j]
                    == chunk_ref(ts, base, chunks[j].chunk_id as int)
            &&& forall|a: int, b: int|
                0 <= a < b < chunks.len() ==> (#[trigger] chunks[a]).chunk_id < (
                #[trigger] chunks[b]).chunk_id
        }),
    decreases n,
{
    if n > 0 {
        lemma_refs_listed(ts, base, name, n - 1);
        let before = refs_for(ts, base, name, n - 1);
        let chunks = refs_for(ts, base, name, n);
        if ts[n - 1].0.name == name {
            assert(chunks == before.push(chunk_ref(ts, base, n - 1)));
            assert(chunks[before.len() as int].chunk_id == n - 1);
        }
        assert forall|i: int| 0 <= i < n implies ((#[trigger] ts[i]).0.name == name <==> exists|
            j: int,
        |
            0 <= j < chunks.len() && (#[trigger] chunks[j]).chunk_id == i) by {
            if i < n - 1 {
                if ts[i].0.name == name {
                    let j = choose|j: int|
                        0 <= j < before.len() && (#[trigger] before[j]).chunk_id == i;
                    assert(chunks[j] == before[j]);
                }
                if exists|j: int| 0 <= j < chunks.len() && (#[trigger] chunks[j]).chunk_id == i {
                    let j = choose|j: int|
                        0 <= j < chunks.len() && (#[trigger] chunks[j]).chunk_id == i;
                    assert(j < before.len());
                    assert(before[j].chunk_id == i);
                }
            } else if ts[i].0.name != name {
                assert forall|j: int| 0 <= j < chunks.len() implies (
                #[trigger] chunks[j]).chunk_id != i by {
                    assert(before[j].chunk_id < n - 1);
                }
            }
        }
    }
}

/// Whether these are the schemas of the tensors of a writer, apart from the chunks.
pub open spec fn are_its_schemas(schemas: Seq<TensorSchema>, writer: NcfWriter) -> bool {
    &&& schemas.len() == writer.tensors@.len()
    &&& forall|k: int|
        0 <= k < schemas.len() ==> same_tensor(#[trigger] schemas[k], writer.tensors@[k].0)
}

/// A file fails to be written only where an encoder fails, and with its error: the encoder of the
/// header on the metadata, that of the schemas on the schemas of the tensors, that of the index on
/// an index of all tensors with the levels that were set. Else the encoding of the schemas did not
/// settle: of 16 encodings for each tensor and nine more, each had another length than the one
/// before.
pub proof fn law_only_encoders_fail<
    H: Fn(&NcfHeader) -> Result<Vec<u8>, NcfError>,
    S: Fn(&Vec<TensorSchema>) -> Result<Vec<u8>, NcfError>,
    I: Fn(&NcfIndex) -> Result<Vec<u8>, NcfError>,
>(writer: NcfWriter, encode_header: H, encode_schemas: S, encode_index: I, e: NcfError)
    requires
        writer.encoding_fails(encode_header, encode_schemas, encode_index, e),
    ensures
        ({
            ||| call_ensures(encode_header, (&writer.metadata,), Err(e))
            ||| exists|schemas: Vec<TensorSchema>| #[trigger]
                call_ensures(encode_schemas, (&schemas,), Err(e)) && are_its_schemas(
                    schemas@,
                    writer,
                )
            ||| exists|index: NcfIndex| #[trigger]
                call_ensures(encode_index, (&index,), Err(e)) && index.entry_count
                    == writer.tensors@.len() && index.entries@.len() == writer.tensors@.len()
                    && index.quant_levels@ == writer.tensor_quant_levels@
            ||| e == NcfError::Io(IoError::LayoutUnsettled) && exists|tries: Seq<Vec<u8>>|
                #![trigger tries.len()]
                tries.len() == 16 * writer.tensors@.len() + 9 && (forall|i: int|
                    0 < i < tries.len() ==> (#[trigger] tries[i])@.len() != tries[i - 1]@.len())
                    && forall|i: int|
                    0 <= i < tries.len() ==> is_its_encoding(
                        writer,
                        encode_schemas,
                        #[trigger] tries[i],
                    )
        }),
{
    let ts = writer.spec_tensors();
    let n = ts.len() as int;
    if call_ensures(encode_header, (&writer.metadata,), Err(e)) {
    } else if exists|header: Vec<u8>, tries: Seq<Vec<u8>>|
        call_ensures(encode_header, (&writer.metadata,), Ok(header))
            && #[trigger] writer.encodes_tries(encode_schemas, header, tries) && unsettled(tries)
            && schemas_encode_to(encode_schemas, writer.schemas_after(header, tries), Err(e)) {
        let (header, tries) = choose|header: Vec<u8>, tries: Seq<Vec<u8>>|
            call_ensures(encode_header, (&writer.metadata,), Ok(header))
                && #[trigger] writer.encodes_tries(encode_schemas, header, tries) && unsettled(
                tries,
            ) && schemas_encode_to(encode_schemas, writer.schemas_after(header, tries), Err(e));
        let schemas = choose|schemas: Vec<TensorSchema>|
            schema_views(schemas@) == writer.schemas_after(header, tries)
                && #[trigger] call_ensures(encode_schemas, (&schemas,), Err(e));
        lemma_schemas_after(writer, header, tries, schemas@);
    } else if exists|header: Vec<u8>, tries: Seq<Vec<u8>>|
        call_ensures(encode_header, (&writer.metadata,), Ok(header))
            && #[trigger] writer.encodes_tries(encode_schemas, header, tries) && settles(tries)
            && writer.encodes_index(encode_index, header, tries.last(), Err(e)) {
        let (header, tries) = choose|header: Vec<u8>, tries: Seq<Vec<u8>>|
            call_ensures(encode_header, (&writer.metadata,), Ok(header))
                && #[trigger] writer.encodes_tries(encode_schemas, header, tries) && settles(tries)
                && writer.encodes_index(encode_index, header, tries.last(), Err(e));
        let base = FILE_HEADER_PREFIX_SIZE + header@.len() + tries.last()@.len();
        let index = choose|index: NcfIndex|
            index_describes(index, ts, base, writer.tensor_quant_levels@)
                && #[trigger] call_ensures(encode_index, (&index,), Err(e));
        assert(call_ensures(encode_index, (&index,), Err(e)));
    } else {
        let (header, tries) = choose|header: Vec<u8>, tries: Seq<Vec<u8>>|
            call_ensures(encode_header, (&writer.metadata,), Ok(header))
                && #[trigger] writer.encodes_tries(encode_schemas, header, tries) && unsettled(
                tries,
            ) && tries.len() == round_limit(n) + 1 && e == NcfError::Io(IoError::LayoutUnsettled);
        assert(tries.len() == 16 * writer.tensors@.len() + 9);
        assert forall|i: int| 0 <= i < tries.len() implies is_its_encoding(
            writer,
            encode_schemas,
            #[trigger] tries[i],
        ) by {
            let schemas = choose|schemas: Vec<TensorSchema>|
                schema_views(schemas@) == writer.schemas_after(header, tries.take(i))
                    && #[trigger] call_ensures(encode_schemas, (&schemas,), Ok(tries[i]));
            lemma_schemas_after(writer, header, tries.take(i), schemas@);
        }
    }
}

/// Whether an encoder can give these bytes for the schemas of a writer.
pub open spec fn is_its_encoding<S: Fn(&Vec<TensorSchema>) -> Result<Vec<u8>, NcfError>>(
    writer: NcfWriter,
    encode_schemas: S,
    bytes: Vec<u8>,
) -> bool {
    exists|schemas: Vec<TensorSchema>| #[trigger]
        call_ensures(encode_schemas, (&schemas,), Ok(bytes)) && are_its_schemas(schemas@, writer)
}

proof fn lemma_schemas_after(
    writer: NcfWriter,
    header: Vec<u8>,
    tries: Seq<Vec<u8>>,
    schemas: Seq<TensorSchema>,
)
    requires
        schema_views(schemas) == writer.schemas_after(header, tries),
    ensures
        are_its_schemas(schemas, writer),
{
    let n = writer.tensors@.len() as int;
    assert(schema_views(schemas).len() == schemas.len());
    let base = if tries.len() == 0 {
        0int
    } else {
        FILE_HEADER_PREFIX_SIZE + header@.len() + tries.last()@.len()
    };
    let m = if tries.len() == 0 {
        0int
    } else {
        n
    };
    assert forall|k: int| 0 <= k < schemas.len() implies same_tensor(
        #[trigger] schemas[k],
        writer.tensors@[k].0,
    ) by {
        lemma_located_fields(writer, base, m, schemas, k);
    }
}

/// A finalized file holds what the encoders gave: behind the 48 bytes of the prefix the header of
/// the metadata, then the schemas of the tensors, then the chunks, then an index of all tensors with
/// the levels that were set, then a footer of 16 bytes. The prefix has the flags of the writer and
/// the number of its tensors.
pub proof fn law_finalized_file_holds_what_was_encoded<
    H: Fn(&NcfHeader) -> Result<Vec<u8>, NcfError>,
    S: Fn(&Vec<TensorSchema>) -> Result<Vec<u8>, NcfError>,
    I: Fn(&NcfIndex) -> Result<Vec<u8>, NcfError>,
>(
    writer: NcfWriter,
    encode_header: H,
    encode_schemas: S,
    encode_index: I,
    header: Vec<u8>,
    tries: Seq<Vec<u8>>,
    index: Vec<u8>,
    file: Seq<u8>,
)
    requires
        is_finalized(
            writer,
            encode_header,
            encode_schemas,
            encode_index,
            header,
            tries,
            index,
            file,
        ),
    ensures
        ({
            let n = file.len() as int;
            let a = 48 + header@.len() as int;
            let b = a + tries.last()@.len();
            let c = n - 16 - index@.len();
            &&& call_ensures(encode_header, (&writer.metadata,), Ok(header))
            &&& is_its_encoding(writer, encode_schemas, tries.last())
            &&& exists|given: NcfIndex| #[trigger]
                call_ensures(encode_index, (&given,), Ok(index)) && given.entry_count
                    == writer.tensors@.len() && given.quant_levels@ == writer.tensor_quant_levels@
            &&& 48 <= a <= b <= c
            &&& file.subrange(48, a) == header@
            &&& file.subrange(a, b) == tries.last()@
            &&& file.subrange(c, n - 16) == index@
            &&& le_value(file.subrange(12, 16)) == writer.flags.bits
            &&& le_value(file.subrange(40, 48)) == writer.tensors@.len()
        }),
{
    let ts = writer.spec_tensors();
    let n = ts.len() as int;
    let schema = tries.last();
    let base = FILE_HEADER_PREFIX_SIZE + header@.len() + schema@.len();
    law_finalized_is_settled(
        writer,
        encode_header,
        encode_schemas,
        encode_index,
        header,
        tries,
        index,
        file,
    );
    assert(is_its_encoding(writer, encode_schemas, schema)) by {
        lemma_encoded_schemas(writer, encode_schemas, base, n, schema);
    }
    assert(exists|given: NcfIndex| #[trigger]
        call_ensures(encode_index, (&given,), Ok(index)) && given.entry_count
            == writer.tensors@.len() && given.quant_levels@ == writer.tensor_quant_levels@) by {
        let given = choose|given: NcfIndex|
            index_describes(given, ts, base, writer.tensor_quant_levels@) && #[trigger] call_ensures(
                encode_index,
                (&given,),
                Ok(index),
            );
        assert(call_ensures(encode_index, (&given,), Ok(index)));
    }
    law_file_bytes(writer.flags, header@, schema@, chunk_area(ts, n), index@, n);
}

proof fn lemma_encoded_schemas<S: Fn(&Vec<TensorSchema>) -> Result<Vec<u8>, NcfError>>(
    writer: NcfWriter,
    encode_schemas: S,
    base: int,
    n: int,
    schema: Vec<u8>,
)
    requires
        schemas_encode_to(
            encode_schemas,
            located_schemas(writer.spec_tensors(), base, n),
            Ok(schema),
        ),
    ensures
        is_its_encoding(writer, encode_schemas, schema),
{
    let views = located_schemas(writer.spec_tensors(), base, n);
    let schemas = choose|schemas: Vec<TensorSchema>|
        schema_views(schemas@) == views && #[trigger] call_ensures(
            encode_schemas,
            (&schemas,),
            Ok(schema),
        );
    assert(schema_views(schemas@).len() == schemas@.len());
    assert forall|k: int| 0 <= k < schemas@.len() implies same_tensor(
        #[trigger] schemas@[k],
        writer.tensors@[k].0,
    ) by {
        lemma_located_fields(writer, base, n, schemas@, k);
    }
    assert(call_ensures(encode_schemas, (&schemas,), Ok(schema)));
}

} // verus!
