//! One handle for both ways of reading a file.

use crate::blocks::{
    decodes_to, header_block, payload_at, payload_end, payload_start, read_outcome, schema_block,
    schema_in_bounds, slice_outcome,
};
use crate::error::{IoError, NcfError};
use crate::header::{FileHeaderPrefix, NcfHeader};
use crate::index::NcfIndex;
use crate::prefetch::{
    addressable, entry_named, header_within, index_within, law_agreeing_read_is_direct, name_agrees,
    prefetch_open_fails, prefetch_read, prefix_fault, PrefetchBuffer, PrefetchReader,
};
use crate::reader::{
    inspect_lines, line_views, open_fails, schemas_given, schemas_tried, BorrowedNcfIndex,
    NcfReader, ReaderOptions,
};
use crate::schema::{schema_views, TensorSchema};
use vstd::prelude::*;

verus! {

/// Whether this is how the outcome of a read is returned.
pub open spec fn is_read(
    outcome: Result<Option<Seq<u8>>, IoError>,
    r: Result<Option<Vec<u8>>, NcfError>,
) -> bool {
    match (outcome, r) {
        (Ok(Some(bytes)), Ok(Some(v))) => v@ == bytes,
        (Ok(None), Ok(None)) => true,
        (Err(fault), Err(NcfError::Io(e))) => e == fault,
        _ => false,
    }
}

/// A reader that either works directly or uses payloads fetched ahead.
pub enum NcfReaderHandle<'a> {
    /// A direct reader.
    Direct(NcfReader<'a>),
    /// A reader with prefetching.
    Prefetch(PrefetchReader<'a>),
}

impl<'a> NcfReaderHandle<'a> {
    /// Whether the reader is in order.
    pub open spec fn valid(&self) -> bool {
        match self {
            NcfReaderHandle::Direct(reader) => reader.valid(),
            NcfReaderHandle::Prefetch(_) => true,
        }
    }

    /// Whether two handles agree in everything but the tried schemas of a direct reader.
    pub open spec fn same_file(&self, other: &NcfReaderHandle<'a>) -> bool {
        match (self, other) {
            (NcfReaderHandle::Direct(a), NcfReaderHandle::Direct(b)) => a.same_file(b),
            _ => self == other,
        }
    }

    /// Open the bytes of a file as the options say.
    pub fn open_with_options<
        H: Fn(&[u8]) -> Result<NcfHeader, NcfError>,
        D: Fn(&[u8]) -> Result<Vec<TensorSchema>, String>,
        B: Fn(&[u8]) -> Result<BorrowedNcfIndex, String>,
        I: Fn(&[u8]) -> Result<NcfIndex, String>,
    >(
        data: &'a [u8],
        options: ReaderOptions,
        decode_header: H,
        decode_schemas: D,
        decode_borrowed: B,
        decode_index: I,
    ) -> (r: Result<NcfReaderHandle<'a>, NcfError>)
        requires
            forall|s: &[u8]| #[trigger] call_requires(decode_header, (s,)),
            forall|s: &[u8]| #[trigger] call_requires(decode_schemas, (s,)),
            forall|s: &[u8]| #[trigger] call_requires(decode_borrowed, (s,)),
            forall|s: &[u8]| #[trigger] call_requires(decode_index, (s,)),
            options.prefetch ==> header_within(data@),
            options.prefetch ==> forall|m: NcfHeader|
                prefix_fault(data@) is None && #[trigger] decodes_to(
                    decode_header,
                    header_block(data@),
                    Ok(m),
                ) ==> schema_in_bounds(data@),
            options.prefetch ==> forall|m: NcfHeader, s: Vec<TensorSchema>|
                prefix_fault(data@) is None && #[trigger] decodes_to(
                    decode_header,
                    header_block(data@),
                    Ok(m),
                ) && #[trigger] decodes_to(decode_schemas, schema_block(data@), Ok(s))
                    ==> index_within(data@),
        ensures
            match r {
                Ok(NcfReaderHandle::Direct(reader)) => !options.prefetch && reader.opened(
                    data@,
                    decode_header,
                    decode_borrowed,
                ) && reader.valid(),
                Ok(NcfReaderHandle::Prefetch(reader)) => options.prefetch && reader.opened(
                    data@,
                    decode_header,
                    decode_schemas,
                    decode_index,
                ),
                Err(e) => if options.prefetch {
                    prefetch_open_fails(data@, decode_header, decode_schemas, decode_index, e)
                } else {
                    open_fails(data@, decode_header, decode_borrowed, e)
                },
            },
    {
        if options.prefetch {
            match PrefetchReader::open(data, decode_header, decode_schemas, decode_index) {
                Ok(reader) => Ok(NcfReaderHandle::Prefetch(reader)),
                Err(e) => Err(e),
            }
        } else {
            match NcfReader::open(data, decode_header, decode_borrowed) {
                Ok(reader) => Ok(NcfReaderHandle::Direct(reader)),
                Err(e) => Err(e),
            }
        }
    }

    /// The decoded header metadata.
    pub fn metadata(&self) -> (m: &NcfHeader)
        ensures
            match self {
                NcfReaderHandle::Direct(reader) => *m == reader.contents.metadata,
                NcfReaderHandle::Prefetch(reader) => *m == reader.metadata,
            },
    {
        match self {
            NcfReaderHandle::Direct(reader) => reader.metadata(),
            NcfReaderHandle::Prefetch(reader) => reader.metadata(),
        }
    }

    /// The parsed file header prefix.
    pub fn header_prefix(&self) -> (p: FileHeaderPrefix)
        ensures
            match self {
                NcfReaderHandle::Direct(reader) => p == reader.contents.header_prefix,
                NcfReaderHandle::Prefetch(reader) => p == reader.header_prefix,
            },
    {
        match self {
            NcfReaderHandle::Direct(reader) => reader.header_prefix(),
            NcfReaderHandle::Prefetch(reader) => reader.header_prefix(),
        }
    }

    /// The schemas of the file; a direct reader decodes them on first use.
    pub fn schemas<D: Fn(&[u8]) -> Result<Vec<TensorSchema>, String>>(
        &mut self,
        decode: D,
    ) -> (r: Result<&[TensorSchema], NcfError>)
        requires
            old(self).valid(),
            forall|s: &[u8]| #[trigger] call_requires(decode, (s,)),
        ensures
            final(self).same_file(&*old(self)),
            match (*old(self), *final(self)) {
                (NcfReaderHandle::Direct(before), NcfReaderHandle::Direct(after)) => {
                    &&& schemas_tried(
                        before.contents.schemas,
                        decode,
                        before.spec_schema_bytes(),
                        after.contents.schemas,
                    )
                    &&& after.contents.schemas matches Some(tried)
                    &&& schemas_given(tried, r)
                },
                (NcfReaderHandle::Prefetch(before), _) => r matches Ok(s) && s@ == before.schemas@,
                _ => false,
            },
    {
        match self {
            NcfReaderHandle::Direct(reader) => reader.schemas(decode),
            NcfReaderHandle::Prefetch(reader) => reader.schemas(),
        }
    }

    /// The payload of the first chunk of a tensor, if it is there.
    pub fn tensor_slice(&self, name: &str) -> (r: Option<&'a [u8]>)
        requires
            self matches NcfReaderHandle::Prefetch(reader) ==> (entry_named(
                reader.index,
                name@,
            ) matches Some(entry) ==> payload_start(entry.byte_offset) <= usize::MAX),
        ensures
            match self {
                NcfReaderHandle::Direct(reader) => match (
                    r,
                    slice_outcome(
                        reader.data@,
                        reader.contents.index.tensor_map@,
                        reader.contents.index.entries@,
                        false,
                        name@,
                    ),
                ) {
                    (Some(s), Some(bytes)) => s@ == bytes,
                    (None, None) => true,
                    _ => false,
                },
                NcfReaderHandle::Prefetch(reader) => match entry_named(reader.index, name@) {
                    None => r is None,
                    Some(entry) => if payload_end(entry.byte_offset, entry.byte_len)
                        <= reader.mmap@.len() {
                        r matches Some(s) && s@ == payload_at(
                            reader.mmap@,
                            entry.byte_offset,
                            entry.byte_len,
                        )
                    } else {
                        r is None
                    },
                },
            },
    {
        match self {
            NcfReaderHandle::Direct(reader) => reader.tensor_slice(name),
            NcfReaderHandle::Prefetch(reader) => reader.tensor_slice(name),
        }
    }

    /// Read the full payload of a tensor. Either reader gives the payloads of all chunks that the
    /// schema lists, as far as index and schemas of the file agree.
    pub fn read_tensor<D: Fn(&[u8]) -> Result<Vec<TensorSchema>, String>>(
        &mut self,
        name: &str,
        decode: D,
        buffer: &mut PrefetchBuffer,
    ) -> (r: Result<Option<Vec<u8>>, NcfError>)
        requires
            old(self).valid(),
            forall|s: &[u8]| #[trigger] call_requires(decode, (s,)),
            *old(self) matches NcfReaderHandle::Prefetch(reader) ==> (entry_named(
                reader.index,
                name@,
            ) matches Some(entry) ==> old(buffer)@.buffer.contains_key(entry.chunk_id)
                || addressable(entry)),
        ensures
            final(self).same_file(&*old(self)),
            match (*old(self), *final(self)) {
                (NcfReaderHandle::Direct(before), NcfReaderHandle::Direct(after)) => {
                    &&& final(buffer)@ == old(buffer)@
                    &&& schemas_tried(
                        before.contents.schemas,
                        decode,
                        before.spec_schema_bytes(),
                        after.contents.schemas,
                    )
                    &&& match after.contents.schemas {
                        Some(Ok(schemas)) => is_read(
                            read_outcome(before.data@, schema_views(schemas@), name@),
                            r,
                        ),
                        Some(Err(text)) => r matches Err(NcfError::Header(given)) && given@
                            == text@,
                        None => false,
                    }
                },
                (NcfReaderHandle::Prefetch(reader), _) => {
                    let read = prefetch_read(
                        reader.mmap@,
                        reader.index,
                        schema_views(reader.schemas@),
                        old(buffer)@,
                        name@,
                    );
                    &&& final(buffer)@ == read.1
                    &&& is_read(read.0, r)
                    &&& name_agrees(
                        reader.mmap@,
                        reader.index,
                        schema_views(reader.schemas@),
                        old(buffer)@.buffer,
                        name@,
                    ) ==> is_read(
                        read_outcome(reader.mmap@, schema_views(reader.schemas@), name@),
                        r,
                    )
                },
                _ => false,
            },
    {
        match self {
            NcfReaderHandle::Direct(reader) => reader.read_tensor(name, decode),
            NcfReaderHandle::Prefetch(reader) => {
                proof {
                    if name_agrees(
                        reader.mmap@,
                        reader.index,
                        schema_views(reader.schemas@),
                        old(buffer)@.buffer,
                        name@,
                    ) {
                        law_agreeing_read_is_direct(
                            reader.mmap@,
                            reader.index,
                            schema_views(reader.schemas@),
                            old(buffer)@,
                            name@,
                        );
                    }
                }
                reader.read_tensor(buffer, name)
            },
        }
    }

    /// The lines that describe the file.
    pub fn inspect<D: Fn(&[u8]) -> Result<Vec<TensorSchema>, String>>(
        &mut self,
        decode: D,
    ) -> (r: Result<Vec<String>, NcfError>)
        requires
            old(self).valid(),
            forall|s: &[u8]| #[trigger] call_requires(decode, (s,)),
        ensures
            final(self).same_file(&*old(self)),
            match (*old(self), *final(self)) {
                (NcfReaderHandle::Direct(before), NcfReaderHandle::Direct(after)) => {
                    &&& schemas_tried(
                        before.contents.schemas,
                        decode,
                        before.spec_schema_bytes(),
                        after.contents.schemas,
                    )
                    &&& match (after.contents.schemas, r) {
                        (Some(Ok(schemas)), Ok(lines)) => line_views(lines@) == inspect_lines(
                            before.contents.metadata,
                            schema_views(schemas@),
                        ),
                        (Some(Err(text)), Err(NcfError::Header(given))) => given@ == text@,
                        _ => false,
                    }
                },
                (NcfReaderHandle::Prefetch(reader), _) => r matches Ok(lines) && line_views(lines@)
                    == inspect_lines(reader.metadata, schema_views(reader.schemas@)),
                _ => false,
            },
    {
        match self {
            NcfReaderHandle::Direct(reader) => reader.inspect(decode),
            NcfReaderHandle::Prefetch(reader) => reader.inspect(),
        }
    }
}

} // verus!
