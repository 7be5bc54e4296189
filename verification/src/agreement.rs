//! Where the readers of one file agree.

use crate::blocks::{
    decodes_to, header_block, index_block, law_entry_choice_is_free, read_outcome, schema_block,
    schemas_fault, slice_outcome,
};
use crate::constants::FILE_HEADER_PREFIX_SIZE;
use crate::error::NcfError;
use crate::header::NcfHeader;
use crate::index::{distinct_ids, NcfIndex};
use crate::mmap::NcfMmap;
use crate::prefetch::{prefetch_read, PrefetchReader, PrefetchState};
use crate::reader::{BorrowedNcfIndex, NcfReader};
use crate::roundtrip::{
    header_roundtrips, index_roundtrips, is_finalized, law_blocks_are_found,
    law_finalized_is_settled, law_written_tensors_are_prefetched, no_collision, same_header,
    schemas_roundtrip,
};
use crate::schema::{schema_views, TensorSchema};
use crate::writer::{chunk_area, located_schemas, schemas_encode_to, NcfWriter};
use vstd::prelude::*;

verus! {

/// Whether two decoders of schemas give the same for the same bytes.
pub open spec fn schema_decoders_agree<
    A: Fn(&[u8]) -> Result<Vec<TensorSchema>, String>,
    B: Fn(&[u8]) -> Result<Vec<TensorSchema>, String>,
>(decode_a: A, decode_b: B) -> bool {
    forall|bytes: Seq<u8>, a: Vec<TensorSchema>, b: Vec<TensorSchema>| #[trigger]
        decodes_to(decode_a, bytes, Ok(a)) && #[trigger] decodes_to(decode_b, bytes, Ok(b))
            ==> schema_views(a@) == schema_views(b@)
}

/// Whether two decoders of an index give the same entries for the same bytes.
pub open spec fn index_decoders_agree<
    A: Fn(&[u8]) -> Result<NcfIndex, String>,
    B: Fn(&[u8]) -> Result<NcfIndex, String>,
>(decode_a: A, decode_b: B) -> bool {
    forall|bytes: Seq<u8>, a: NcfIndex, b: NcfIndex| #[trigger]
        decodes_to(decode_a, bytes, Ok(a)) && #[trigger] decodes_to(decode_b, bytes, Ok(b))
            ==> a.entries@ == b.entries@
}

/// Whether a decoder of an index and one of the part that a direct reader needs give the same
/// entries and names for the same bytes.
pub open spec fn borrowed_decoder_agrees<
    A: Fn(&[u8]) -> Result<NcfIndex, String>,
    B: Fn(&[u8]) -> Result<BorrowedNcfIndex, String>,
>(decode_a: A, decode_b: B) -> bool {
    forall|bytes: Seq<u8>, a: NcfIndex, b: BorrowedNcfIndex| #[trigger]
        decodes_to(decode_a, bytes, Ok(a)) && #[trigger] decodes_to(decode_b, bytes, Ok(b))
            ==> a.entries@ == b.entries@ && a.tensor_map@ == b.tensor_map@
}

/// The checks of all checksums of a mapped file and of a prefetch reader of it come out the same,
/// with the same first fault, where no chunk id occurs twice in the index and the decoders agree.
pub proof fn law_checks_agree<
    H: Fn(&[u8]) -> Result<NcfHeader, NcfError>,
    I: Fn(&[u8]) -> Result<NcfIndex, String>,
    S: Fn(&[u8]) -> Result<Vec<TensorSchema>, String>,
    H2: Fn(&[u8]) -> Result<NcfHeader, NcfError>,
    S2: Fn(&[u8]) -> Result<Vec<TensorSchema>, String>,
    I2: Fn(&[u8]) -> Result<NcfIndex, String>,
>(
    file: Seq<u8>,
    view: NcfMmap,
    decode_header: H,
    decode_index: I,
    decode_schemas: S,
    schemas: Vec<TensorSchema>,
    reader: PrefetchReader,
    reader_header: H2,
    reader_schemas: S2,
    reader_index: I2,
)
    requires
        view.opened(file, decode_header, decode_index),
        decodes_to(decode_schemas, view.spec_schema_bytes(), Ok(schemas)),
        reader.opened(file, reader_header, reader_schemas, reader_index),
        schema_decoders_agree(decode_schemas, reader_schemas),
        index_decoders_agree(decode_index, reader_index),
        distinct_ids(view.index.entries@),
    ensures
        schemas_fault(
            view.mmap@,
            view.index.entries@,
            true,
            schema_views(schemas@),
            schemas@.len() as int,
        ) == schemas_fault(
            reader.mmap@,
            reader.index.entries@,
            false,
            schema_views(reader.schemas@),
            reader.schemas@.len() as int,
        ),
{
    let views = schema_views(schemas@);
    assert(view.spec_schema_bytes() == schema_block(file));
    assert(views.len() == schemas@.len());
    assert(views == schema_views(reader.schemas@));
    assert(schema_views(reader.schemas@).len() == reader.schemas@.len());
    law_entry_choice_is_free(file, Map::empty(), view.index.entries@, views, Seq::empty());
}

/// A slice of a tensor of a mapped file is the slice that a direct reader of the file gives, where
/// no chunk id occurs twice in the index and the decoders agree.
pub proof fn law_slices_agree<
    H: Fn(&[u8]) -> Result<NcfHeader, NcfError>,
    I: Fn(&[u8]) -> Result<NcfIndex, String>,
    H2: Fn(&[u8]) -> Result<NcfHeader, NcfError>,
    I2: Fn(&[u8]) -> Result<BorrowedNcfIndex, String>,
>(
    file: Seq<u8>,
    view: NcfMmap,
    decode_header: H,
    decode_index: I,
    reader: NcfReader,
    reader_header: H2,
    reader_index: I2,
    name: Seq<char>,
)
    requires
        view.opened(file, decode_header, decode_index),
        reader.opened(file, reader_header, reader_index),
        borrowed_decoder_agrees(decode_index, reader_index),
        distinct_ids(view.index.entries@),
    ensures
        slice_outcome(view.mmap@, view.index.tensor_map@, view.index.entries@, true, name)
            == slice_outcome(
            reader.data@,
            reader.contents.index.tensor_map@,
            reader.contents.index.entries@,
            false,
            name,
        ),
{
    assert(decodes_to(decode_index, index_block(file), Ok(view.index)));
    law_entry_choice_is_free(
        file,
        view.index.tensor_map@,
        view.index.entries@,
        Seq::empty(),
        name,
    );
}

/// A direct reader and a prefetch reader of a finalized file have equal prefixes, equal schemas
/// and headers that say the same, and both read the same for every name, whatever was fetched
/// ahead from the file. The decoders have to give back what the encoders wrote; for the reads,
/// payloads with one digest have to be equal.
pub proof fn law_readers_agree<
    H: Fn(&NcfHeader) -> Result<Vec<u8>, NcfError>,
    S: Fn(&Vec<TensorSchema>) -> Result<Vec<u8>, NcfError>,
    I: Fn(&NcfIndex) -> Result<Vec<u8>, NcfError>,
    H2: Fn(&[u8]) -> Result<NcfHeader, NcfError>,
    S2: Fn(&[u8]) -> Result<Vec<TensorSchema>, String>,
    B2: Fn(&[u8]) -> Result<BorrowedNcfIndex, String>,
    I2: Fn(&[u8]) -> Result<NcfIndex, String>,
>(
    writer: NcfWriter,
    encode_header: H,
    encode_schemas: S,
    encode_index: I,
    header: Vec<u8>,
    tries: Seq<Vec<u8>>,
    index: Vec<u8>,
    file: Seq<u8>,
    decode_header: H2,
    decode_schemas: S2,
    decode_borrowed: B2,
    decode_index: I2,
    direct: NcfReader,
    tried: Result<Vec<TensorSchema>, String>,
    ahead: PrefetchReader,
    s: PrefetchState,
    name: Seq<char>,
)
    requires
        is_finalized(
            writer,
            encode_header,
            encode_schemas,
            encode_index,
            header,
            tries,
            index,
            file,
        ),
        header_roundtrips(encode_header, decode_header),
        schemas_roundtrip(encode_schemas, decode_schemas),
        index_roundtrips(encode_index, decode_index),
        direct.opened(file, decode_header, decode_borrowed),
        decodes_to(decode_schemas, direct.spec_schema_bytes(), tried),
        ahead.opened(file, decode_header, decode_schemas, decode_index),
        s.coherent(file, ahead.index.entries@),
    ensures
        direct.contents.header_prefix == ahead.header_prefix,
        same_header(direct.contents.metadata, ahead.metadata),
        same_header(direct.contents.metadata, writer.metadata),
        tried matches Ok(schemas) && schema_views(schemas@) == schema_views(ahead.schemas@) && (
        no_collision(writer.spec_tensors()) ==> read_outcome(
            direct.data@,
            schema_views(schemas@),
            name,
        ) == prefetch_read(ahead.mmap@, ahead.index, schema_views(ahead.schemas@), s, name).0),
{
    let ts = writer.spec_tensors();
    let n = ts.len() as int;
    let schema = tries.last();
    let base = FILE_HEADER_PREFIX_SIZE + header@.len() + schema@.len();
    law_finalized_is_settled(
        writer,
        encode_header,
        encode_schemas,
        encode_index,
        header,
        tries,
        index,
        file,
    );
    law_blocks_are_found(writer.flags, header@, schema@, chunk_area(ts, n), index@, n);
    assert(schemas_encode_to(encode_schemas, located_schemas(ts, base, n), Ok(schema)));
    let given = choose|given: Vec<TensorSchema>|
        schema_views(given@) == located_schemas(ts, base, n) && #[trigger] call_ensures(
            encode_schemas,
            (&given,),
            Ok(schema),
        );
    assert(call_ensures(encode_header, (&writer.metadata,), Ok(header)));
    assert(decodes_to(decode_header, header@, Ok(direct.contents.metadata))) by {
        assert(header_block(file) == header@);
    }
    assert(decodes_to(decode_header, header@, Ok(ahead.metadata)));
    assert(direct.spec_schema_bytes() == schema_block(file));
    assert(decodes_to(decode_schemas, schema@ + chunk_area(ts, n), tried));
    assert(decodes_to(decode_schemas, schema@ + chunk_area(ts, n), Ok(ahead.schemas)));
    if no_collision(ts) {
        law_written_tensors_are_prefetched(
            writer,
            encode_header,
            encode_schemas,
            encode_index,
            header,
            tries,
            index,
            file,
            ahead,
            decode_header,
            decode_schemas,
            decode_index,
            s,
            name,
        );
    }
}

} // verus!
