//! What opening a file gives, and what makes it fail.

use crate::blocks::{
    blocks_fault, decodes_to, header_block, header_end, header_fault, index_block, index_end,
    schema_block,
};
use crate::error::{IoError, NcfError};
use crate::handle::is_read;
use crate::header::{prefix_of, NcfHeader, NCF_MAGIC};
use crate::index::{last_entry, lemma_last_entry, NcfIndex};
use crate::mmap::{map_fails, NcfMmap};
use crate::prefetch::{prefetch_open_fails, PrefetchReader};
use crate::reader::{open_fails, schemas_given, schemas_tried, BorrowedNcfIndex, NcfReader};
use crate::reading_laws::{
    law_blocks_stand_where_the_file_says, law_header_is_found, law_prefix_is_read, number_at,
};
use crate::schema::TensorSchema;
use vstd::prelude::*;

verus! {

/// Whether the file starts with its magic bytes and has a header within it.
pub open spec fn has_header(data: Seq<u8>) -> bool {
    &&& data.len() >= 48
    &&& data.subrange(0, 8) == seq![78u8, 67, 70, 0, 222, 173, 190, 239]
    &&& 48 + number_at(data, 16, 8) <= data.len()
}

/// Whether schemas, index and footer stand in this order within the file.
pub open spec fn has_blocks(data: Seq<u8>) -> bool {
    let n = data.len() as int;
    &&& number_at(data, 24, 8) <= number_at(data, 32, 8)
    &&& data.subrange(n - 16, n - 8) == seq![78u8, 67, 70, 69, 78, 68, 33, 33]
    &&& number_at(data, 32, 8) + number_at(data, n - 8, 8) <= n - 16
}

/// Whether the numbers that a file gives can be lengths and places in memory.
pub open spec fn is_addressable(data: Seq<u8>) -> bool {
    &&& data.len() <= usize::MAX
    &&& data.len() >= 48 ==> {
        &&& 48 + number_at(data, 16, 8) <= usize::MAX
        &&& number_at(data, 24, 8) <= usize::MAX
        &&& number_at(data, 32, 8) + number_at(data, data.len() - 8, 8) <= usize::MAX
    }
}

/// Whether a function gives this result on the bytes from `a` to `b`.
pub open spec fn gives<T, E, F: Fn(&[u8]) -> Result<T, E>>(
    decode: F,
    data: Seq<u8>,
    a: int,
    b: int,
    r: Result<T, E>,
) -> bool {
    exists|s: &[u8]| s@ == data.subrange(a, b) && #[trigger] call_ensures(decode, (s,), r)
}

/// A reader is opened only on a file with header and blocks. It holds the bytes, what the decoder
/// of the header gives on the bytes behind the prefix, what the decoder of the index gives on the
/// bytes of the index, and the bounds of the schemas, which are not decoded yet.
pub proof fn law_reader_holds_what_the_file_says<
    'a,
    H: Fn(&[u8]) -> Result<NcfHeader, NcfError>,
    I: Fn(&[u8]) -> Result<BorrowedNcfIndex, String>,
>(reader: NcfReader<'a>, data: Seq<u8>, decode_header: H, decode_index: I)
    requires
        is_addressable(data),
        reader.opened(data, decode_header, decode_index),
    ensures
        has_header(data),
        has_blocks(data),
        reader.data@ == data,
        reader.contents.schema_start == number_at(data, 24, 8),
        reader.contents.schema_end == number_at(data, 32, 8),
        reader.contents.schemas is None,
        reader.contents.header_prefix.version == number_at(data, 8, 4),
        reader.contents.header_prefix.flags.bits == number_at(data, 12, 4) % 8,
        reader.contents.header_prefix.chunk_count == number_at(data, 40, 8),
        gives(
            decode_header,
            data,
            48,
            48 + number_at(data, 16, 8),
            Ok(reader.contents.metadata),
        ),
        gives(
            decode_index,
            data,
            number_at(data, 32, 8),
            number_at(data, 32, 8) + number_at(data, data.len() - 8, 8),
            Ok(reader.contents.index),
        ),
{
    law_header_is_found(data);
    law_prefix_is_read(data);
    law_blocks_stand_where_the_file_says(data);
}

/// Opening a reader fails only on a file without header or without blocks, or where a decoder
/// refuses its bytes; the error then tells what the decoder said.
pub proof fn law_reader_fails_for_a_cause<
    H: Fn(&[u8]) -> Result<NcfHeader, NcfError>,
    I: Fn(&[u8]) -> Result<BorrowedNcfIndex, String>,
>(data: Seq<u8>, decode_header: H, decode_index: I, e: NcfError)
    requires
        is_addressable(data),
        open_fails(data, decode_header, decode_index, e),
    ensures
        ({
            let a = 48 + number_at(data, 16, 8);
            let b = number_at(data, 32, 8);
            let c = b + number_at(data, data.len() - 8, 8);
            let header_refused = exists|refusal: NcfError| #[trigger]
                gives(decode_header, data, 48, a, Err(refusal)) && (e matches NcfError::Io(
                    IoError::Decode(text),
                ) && text@ == refusal.spec_message());
            &&& !has_header(data) ==> (header_fault(data) matches Some(fault) && e == NcfError::Io(
                fault,
            ))
            &&& has_header(data) && !header_refused && !has_blocks(data) ==> (blocks_fault(
                data,
            ) matches Some(fault) && e == NcfError::Io(fault))
            &&& has_header(data) && !header_refused && has_blocks(data) ==> (e matches NcfError::Io(
                IoError::Decode(text),
            ) && gives(decode_index, data, b, c, Err(text)))
        }),
{
    law_header_is_found(data);
    if data.len() >= 48 {
        law_blocks_stand_where_the_file_says(data);
    }
    if has_header(data) {
        let a = 48 + number_at(data, 16, 8);
        assert forall|refusal: NcfError| #[trigger]
            decodes_to(decode_header, header_block(data), Err(refusal)) implies gives(
            decode_header,
            data,
            48,
            a,
            Err(refusal),
        ) by {}
    }
}

/// The same of the view of a mapped file, which also holds for each chunk id the place of its last
/// entry.
pub proof fn law_view_holds_what_the_file_says<
    'a,
    H: Fn(&[u8]) -> Result<NcfHeader, NcfError>,
    I: Fn(&[u8]) -> Result<NcfIndex, String>,
>(view: NcfMmap<'a>, data: Seq<u8>, decode_header: H, decode_index: I, id: u64)
    requires
        is_addressable(data),
        view.opened(data, decode_header, decode_index),
    ensures
        has_header(data),
        has_blocks(data),
        view.mmap@ == data,
        view.schema_start == number_at(data, 24, 8),
        view.schema_end == number_at(data, 32, 8),
        view.schemas is None,
        view.header_prefix.version == number_at(data, 8, 4),
        view.header_prefix.flags.bits == number_at(data, 12, 4) % 8,
        view.header_prefix.chunk_count == number_at(data, 40, 8),
        gives(decode_header, data, 48, 48 + number_at(data, 16, 8), Ok(view.metadata)),
        gives(
            decode_index,
            data,
            number_at(data, 32, 8),
            number_at(data, 32, 8) + number_at(data, data.len() - 8, 8),
            Ok(view.index),
        ),
        view.chunk_map@.contains_key(id) <==> exists|i: int|
            0 <= i < view.index.entries@.len() && (#[trigger] view.index.entries@[i]).chunk_id == id,
        view.chunk_map@.contains_key(id) ==> {
            let at = view.chunk_map@[id] as int;
            &&& at < view.index.entries@.len()
            &&& view.index.entries@[at].chunk_id == id
            &&& forall|j: int|
                at < j < view.index.entries@.len() ==> (#[trigger] view.index.entries@[j]).chunk_id
                    != id
        },
{
    law_header_is_found(data);
    law_prefix_is_read(data);
    law_blocks_stand_where_the_file_says(data);
    lemma_last_entry(view.index.entries@, id);
    assert(last_entry(view.index.entries@, id) == last_entry(view.index.entries@, id));
}

/// Viewing a file fails for the same causes; a refusal by the decoder of the header is passed on as
/// it is, one by the decoder of the index with its text.
pub proof fn law_view_fails_for_a_cause<
    H: Fn(&[u8]) -> Result<NcfHeader, NcfError>,
    I: Fn(&[u8]) -> Result<NcfIndex, String>,
>(data: Seq<u8>, decode_header: H, decode_index: I, e: NcfError)
    requires
        is_addressable(data),
        map_fails(data, decode_header, decode_index, e),
    ensures
        ({
            let a = 48 + number_at(data, 16, 8);
            let b = number_at(data, 32, 8);
            let c = b + number_at(data, data.len() - 8, 8);
            let header_refused = gives(decode_header, data, 48, a, Err(e));
            let bad_magic = data.len() >= 48 && data.subrange(0, 8) != seq![
                78u8,
                67,
                70,
                0,
                222,
                173,
                190,
                239,
            ];
            &&& bad_magic ==> (e matches NcfError::Header(text) && text@ == "Invalid magic bytes"@)
            &&& !has_header(data) && !bad_magic ==> (header_fault(data) matches Some(fault) && e
                == NcfError::Io(fault))
            &&& has_header(data) && !header_refused && !has_blocks(data) ==> (blocks_fault(
                data,
            ) matches Some(fault) && e == NcfError::Io(fault))
            &&& has_header(data) && !header_refused && has_blocks(data) ==> (e matches NcfError::Cbor(
                text,
            ) && gives(decode_index, data, b, c, Err(text)))
        }),
{
    law_header_is_found(data);
    if data.len() >= 48 {
        law_blocks_stand_where_the_file_says(data);
    }
}

/// A reader with prefetching holds the bytes and what the three decoders give, each on its block.
pub proof fn law_prefetch_reader_holds_what_the_file_says<
    'a,
    H: Fn(&[u8]) -> Result<NcfHeader, NcfError>,
    D: Fn(&[u8]) -> Result<Vec<TensorSchema>, String>,
    I: Fn(&[u8]) -> Result<NcfIndex, String>,
>(
    reader: PrefetchReader<'a>,
    data: Seq<u8>,
    decode_header: H,
    decode_schemas: D,
    decode_index: I,
)
    requires
        is_addressable(data),
        reader.opened(data, decode_header, decode_schemas, decode_index),
    ensures
        data.len() >= 48,
        data.subrange(0, 8) == seq![78u8, 67, 70, 0, 222, 173, 190, 239],
        reader.mmap@ == data,
        reader.header_prefix.version == number_at(data, 8, 4),
        reader.header_prefix.flags.bits == number_at(data, 12, 4) % 8,
        reader.header_prefix.chunk_count == number_at(data, 40, 8),
        gives(decode_header, data, 48, 48 + number_at(data, 16, 8), Ok(reader.metadata)),
        gives(
            decode_schemas,
            data,
            number_at(data, 24, 8),
            number_at(data, 32, 8),
            Ok(reader.schemas),
        ),
        gives(
            decode_index,
            data,
            number_at(data, 32, 8),
            number_at(data, 32, 8) + number_at(data, data.len() - 8, 8),
            Ok(reader.index),
        ),
{
    lemma_prefetch_blocks(data);
}

proof fn lemma_prefetch_blocks(data: Seq<u8>)
    requires
        is_addressable(data),
    ensures
        NCF_MAGIC@ == seq![78u8, 67, 70, 0, 222, 173, 190, 239],
        data.len() >= 48 ==> {
            &&& header_end(data) == 48 + number_at(data, 16, 8)
            &&& header_block(data) == data.subrange(48, 48 + number_at(data, 16, 8))
            &&& schema_block(data) == data.subrange(
                number_at(data, 24, 8),
                number_at(data, 32, 8),
            )
            &&& index_end(data) == number_at(data, 32, 8) + number_at(
                data,
                data.len() - 8,
                8,
            )
            &&& index_block(data) == data.subrange(
                number_at(data, 32, 8),
                number_at(data, 32, 8) + number_at(data, data.len() - 8, 8),
            )
            &&& prefix_of(data).version == number_at(data, 8, 4)
            &&& prefix_of(data).flags.bits == number_at(data, 12, 4) % 8
            &&& prefix_of(data).chunk_count == number_at(data, 40, 8)
        },
{
    assert(NCF_MAGIC@ =~= seq![78u8, 67, 70, 0, 222, 173, 190, 239]);
    if data.len() >= 48 {
        law_prefix_is_read(data);
    }
}

/// Opening a reader with prefetching fails only on a file that is too short or lacks the magic
/// bytes, or where a decoder refuses its bytes.
pub proof fn law_prefetch_reader_fails_for_a_cause<
    H: Fn(&[u8]) -> Result<NcfHeader, NcfError>,
    D: Fn(&[u8]) -> Result<Vec<TensorSchema>, String>,
    I: Fn(&[u8]) -> Result<NcfIndex, String>,
>(data: Seq<u8>, decode_header: H, decode_schemas: D, decode_index: I, e: NcfError)
    requires
        is_addressable(data),
        prefetch_open_fails(data, decode_header, decode_schemas, decode_index, e),
    ensures
        ({
            let n = data.len() as int;
            let magic = data.subrange(0, 8) == seq![78u8, 67, 70, 0, 222, 173, 190, 239];
            let a = 48 + number_at(data, 16, 8);
            let b = number_at(data, 24, 8);
            let c = number_at(data, 32, 8);
            let d = c + number_at(data, n - 8, 8);
            &&& n < 48 ==> (e matches NcfError::Io(IoError::FileTooSmall { len }) && len == n)
            &&& n >= 48 && !magic ==> e == NcfError::Io(IoError::BadMagic)
            &&& n >= 48 && magic ==> {
                ||| gives(decode_header, data, 48, a, Err(e))
                ||| e matches NcfError::Io(IoError::Decode(text)) && (gives(
                    decode_schemas,
                    data,
                    b,
                    c,
                    Err(text),
                ) || gives(decode_index, data, c, d, Err(text)))
            }
        }),
{
    lemma_prefetch_blocks(data);
}

/// The schemas are decoded at most once: a result that is there stays, and else the result is what
/// the decoder gives on the bytes of the block. The caller gets the schemas of that result, or its
/// text as a header error.
pub proof fn law_schemas_are_decoded_once<D: Fn(&[u8]) -> Result<Vec<TensorSchema>, String>>(
    before: Option<Result<Vec<TensorSchema>, String>>,
    decode: D,
    data: Seq<u8>,
    a: int,
    b: int,
    after: Option<Result<Vec<TensorSchema>, String>>,
    r: Result<&[TensorSchema], NcfError>,
)
    requires
        schemas_tried(before, decode, data.subrange(a, b), after),
        after matches Some(tried) && schemas_given(tried, r),
    ensures
        before is Some ==> after == before,
        before is None ==> gives(decode, data, a, b, after->0),
        after->0 is Ok ==> (r matches Ok(given) && given@ == after->0->Ok_0@),
        after->0 is Err ==> (r matches Err(NcfError::Header(text)) && text@ == after->0->Err_0@),
{
}

/// What a read comes to is returned as it is: the bytes, nothing, or the fault as an I/O error.
pub proof fn law_outcome_is_returned(
    outcome: Result<Option<Seq<u8>>, IoError>,
    r: Result<Option<Vec<u8>>, NcfError>,
)
    requires
        is_read(outcome, r),
    ensures
        outcome is Ok <==> r is Ok,
        outcome is Ok ==> (outcome->Ok_0 is Some <==> r->Ok_0 is Some),
        outcome is Ok && outcome->Ok_0 is Some ==> r->Ok_0->0@ == outcome->Ok_0->0,
        outcome is Err ==> r->Err_0 == NcfError::Io(outcome->Err_0),
{
}

} // verus!
