//! Direct access to the tensors of a file.

use crate::blocks::{
    blocks_fault, decodes_to, entry_slice, find_named, header_block, header_fault, index_block,
    index_start, locate_blocks, locate_header, read_named, read_outcome, schema_named, schema_start,
    slice_outcome,
};
use crate::error::{IoError, NcfError};
use crate::header::{joined, prefix_of, FileHeaderPrefix, NcfHeader};
use crate::index::{find_entry, IndexEntry};
use crate::name_map::NameMap;
use crate::schema::{schema_views, SchemaView, TensorSchema};
use crate::text::{append_decimal, decimal};
use vstd::prelude::*;
use vstd::slice::slice_subrange;
use vstd::string::*;

verus! {

/// The part of an index that a direct reader needs.
#[derive(Debug)]
pub struct BorrowedNcfIndex {
    /// Number of entries in the index.
    pub entry_count: u64,
    /// Index entries.
    pub entries: Vec<IndexEntry>,
    /// Mapping from tensor name to chunk id.
    pub tensor_map: NameMap<u64>,
}

/// Options controlling how a file is opened.
#[derive(Debug, Clone, Copy)]
pub struct ReaderOptions {
    /// Enable prefetching.
    pub prefetch: bool,
}

impl Default for ReaderOptions {
    fn default() -> (o: Self)
        ensures
            !o.prefetch,
    {
        ReaderOptions { prefetch: false }
    }
}

/// What a reader knows about the file that it reads.
#[derive(Debug)]
pub struct NcfReaderData {
    /// Decoded header metadata.
    pub metadata: NcfHeader,
    /// The schemas, or the text of the error met in decoding them, once that was tried.
    pub schemas: Option<Result<Vec<TensorSchema>, String>>,
    /// Start of the schema block within the file.
    pub schema_start: usize,
    /// End of the schema block within the file.
    pub schema_end: usize,
    /// Index of the file.
    pub index: BorrowedNcfIndex,
    /// Parsed file header prefix.
    pub header_prefix: FileHeaderPrefix,
}

/// Reader over the bytes of a file.
pub struct NcfReader<'a> {
    /// The bytes of the file.
    pub data: &'a [u8],
    /// What is known about them.
    pub contents: NcfReaderData,
}

/// The extents of a shape, as shown.
pub open spec fn shape_text(shape: Seq<u64>) -> Seq<char> {
    "["@ + joined(Seq::new(shape.len(), |i: int| decimal(shape[i] as nat)), ", "@) + "]"@
}

/// The line shown for a tensor.
pub open spec fn tensor_line(schema: SchemaView) -> Seq<char> {
    " - "@ + schema.name + " "@ + schema.dtype.spec_name() + " "@ + shape_text(schema.shape)
}

/// The lines shown for a file.
pub open spec fn inspect_lines(metadata: NcfHeader, schemas: Seq<SchemaView>) -> Seq<Seq<char>> {
    seq![
        "Model: "@ + metadata.metadata.model_name@,
        "Architecture: "@ + metadata.metadata.architecture@,
        "Tensors: "@ + decimal(schemas.len()),
    ] + Seq::new(schemas.len(), |i: int| tensor_line(schemas[i]))
}

/// What a list of lines says.
pub open spec fn line_views(lines: Seq<String>) -> Seq<Seq<char>> {
    Seq::new(lines.len(), |i: int| lines[i]@)
}

fn make_shape_text(shape: &[u64]) -> (s: String)
    ensures
        s@ == shape_text(shape@),
{
    let ghost parts = Seq::new(shape@.len(), |i: int| decimal(shape@[i] as nat));
    let mut s: String = "[".to_owned();
    let mut i: usize = 0;
    assert(parts.take(0) =~= Seq::<Seq<char>>::empty());
    assert(s@ =~= "["@ + joined(parts.take(0), ", "@));
    while i < shape.len()
        invariant
            i <= shape@.len(),
            parts == Seq::new(shape@.len(), |i: int| decimal(shape@[i] as nat)),
            s@ == "["@ + joined(parts.take(i as int), ", "@),
        decreases shape@.len() - i,
    {
        let ghost before = s@;
        if i > 0 {
            s.append(", ");
        }
        append_decimal(&mut s, shape[i]);
        proof {
            let next = parts.take(i + 1);
            assert(next.drop_last() =~= parts.take(i as int));
            assert(next.last() == parts[i as int]);
            if i == 0 {
                assert(parts.take(0) =~= Seq::<Seq<char>>::empty());
                assert(joined(next, ", "@) == next[0]);
                assert(s@ =~= "["@ + joined(next, ", "@));
            } else {
                assert(joined(next, ", "@) == joined(parts.take(i as int), ", "@) + ", "@
                    + parts[i as int]);
                assert(s@ =~= "["@ + joined(next, ", "@));
            }
        }
        i += 1;
    }
    assert(parts.take(i as int) =~= parts);
    s.append("]");
    s
}

/// The lines shown for a file.
pub fn make_inspect_lines(metadata: &NcfHeader, schemas: &[TensorSchema]) -> (lines: Vec<String>)
    ensures
        line_views(lines@) == inspect_lines(*metadata, schema_views(schemas@)),
{
    let ghost views = schema_views(schemas@);
    let mut model: String = "Model: ".to_owned();
    model.append(metadata.metadata.model_name.as_str());
    let mut architecture: String = "Architecture: ".to_owned();
    architecture.append(metadata.metadata.architecture.as_str());
    let mut count: String = "Tensors: ".to_owned();
    append_decimal(&mut count, schemas.len() as u64);
    let mut lines: Vec<String> = Vec::new();
    lines.push(model);
    lines.push(architecture);
    lines.push(count);
    let mut i: usize = 0;
    while i < schemas.len()
        invariant
            i <= schemas@.len(),
            views == schema_views(schemas@),
            lines@.len() == 3 + i,
            lines@[0]@ == "Model: "@ + metadata.metadata.model_name@,
            lines@[1]@ == "Architecture: "@ + metadata.metadata.architecture@,
            lines@[2]@ == "Tensors: "@ + decimal(views.len()),
            forall|k: int| 3 <= k < 3 + i ==> (#[trigger] lines@[k])@ == tensor_line(views[k - 3]),
        decreases schemas@.len() - i,
    {
        let mut line: String = " - ".to_owned();
        line.append(schemas[i].name.as_str());
        line.append(" ");
        line.append(schemas[i].dtype.name().as_str());
        line.append(" ");
        line.append(make_shape_text(schemas[i].shape.as_slice()).as_str());
        assert(views[i as int] == schemas@[i as int]@);
        lines.push(line);
        i += 1;
    }
    assert(line_views(lines@) =~= inspect_lines(*metadata, views));
    lines
}

/// What a tried decoding of the schemas means to a caller: the schemas, or a header error with
/// the text of the decoder.
pub open spec fn schemas_given(
    tried: Result<Vec<TensorSchema>, String>,
    r: Result<&[TensorSchema], NcfError>,
) -> bool {
    match (tried, r) {
        (Ok(schemas), Ok(given)) => given@ == schemas@,
        (Err(text), Err(NcfError::Header(given))) => given@ == text@,
        _ => false,
    }
}

/// Whether `after` is what the first use of the schemas leaves of `before`: if decoding was tried
/// before, its result stays, else the result of decoding the schema block is kept.
pub open spec fn schemas_tried<D: Fn(&[u8]) -> Result<Vec<TensorSchema>, String>>(
    before: Option<Result<Vec<TensorSchema>, String>>,
    decode: D,
    block: Seq<u8>,
    after: Option<Result<Vec<TensorSchema>, String>>,
) -> bool {
    match before {
        Some(_) => after == before,
        None => after matches Some(tried) && decodes_to(decode, block, tried),
    }
}

impl<'a> NcfReader<'a> {
    /// Whether the reader knows where the schema block of its file is.
    pub open spec fn valid(&self) -> bool {
        self.contents.schema_start <= self.contents.schema_end <= self.data@.len()
    }

    /// The schema block and what follows up to the index.
    pub open spec fn spec_schema_bytes(&self) -> Seq<u8> {
        self.data@.subrange(self.contents.schema_start as int, self.contents.schema_end as int)
    }

    /// Whether two readers agree in everything but the tried schemas.
    pub open spec fn same_file(&self, other: &NcfReader<'a>) -> bool {
        &&& self.data == other.data
        &&& self.contents == (NcfReaderData {
            schemas: self.contents.schemas,
            ..other.contents
        })
    }

    /// Whether this reader is the result of opening the bytes with these decoders.
    pub open spec fn opened<
        H: Fn(&[u8]) -> Result<NcfHeader, NcfError>,
        I: Fn(&[u8]) -> Result<BorrowedNcfIndex, String>,
    >(&self, data: Seq<u8>, decode_header: H, decode_index: I) -> bool {
        &&& header_fault(data) is None
        &&& blocks_fault(data) is None
        &&& self.data@ == data
        &&& self.contents.header_prefix == prefix_of(data)
        &&& self.contents.schema_start == schema_start(data)
        &&& self.contents.schema_end == index_start(data)
        &&& self.contents.schemas is None
        &&& decodes_to(decode_header, header_block(data), Ok(self.contents.metadata))
        &&& decodes_to(decode_index, index_block(data), Ok(self.contents.index))
    }

    /// Open the bytes of a file.
    pub fn open<
        H: Fn(&[u8]) -> Result<NcfHeader, NcfError>,
        I: Fn(&[u8]) -> Result<BorrowedNcfIndex, String>,
    >(data: &'a [u8], decode_header: H, decode_index: I) -> (r: Result<NcfReader<'a>, NcfError>)
        requires
            forall|s: &[u8]| #[trigger] call_requires(decode_header, (s,)),
            forall|s: &[u8]| #[trigger] call_requires(decode_index, (s,)),
        ensures
            match r {
                Ok(reader) => reader.opened(data@, decode_header, decode_index) && reader.valid(),
                Err(e) => open_fails(data@, decode_header, decode_index, e),
            },
    {
        let (prefix, header_end): (FileHeaderPrefix, usize) = match locate_header(data) {
            Ok(found) => found,
            Err(e) => return Err(NcfError::Io(e)),
        };
        let header: &[u8] = slice_subrange(data, 48, header_end);
        assert(header@ == header_block(data@));
        let metadata: NcfHeader = match decode_header(header) {
            Ok(metadata) => metadata,
            Err(e) => {
                assert(decodes_to(decode_header, header_block(data@), Err(e)));
                return Err(NcfError::Io(IoError::Decode(e.message())));
            },
        };
        assert(decodes_to(decode_header, header_block(data@), Ok(metadata)));
        let (schema_start, index_start, index_end): (usize, usize, usize) = match locate_blocks(
            data,
            &prefix,
        ) {
            Ok(found) => found,
            Err(e) => return Err(NcfError::Io(e)),
        };
        let block: &[u8] = slice_subrange(data, index_start, index_end);
        assert(block@ == index_block(data@));
        let index: BorrowedNcfIndex = match decode_index(block) {
            Ok(index) => index,
            Err(text) => {
                assert(decodes_to(decode_index, index_block(data@), Err(text)));
                return Err(NcfError::Io(IoError::Decode(text)));
            },
        };
        assert(decodes_to(decode_index, index_block(data@), Ok(index)));
        Ok(
            NcfReader {
                data,
                contents: NcfReaderData {
                    metadata,
                    schemas: None,
                    schema_start,
                    schema_end: index_start,
                    index,
                    header_prefix: prefix,
                },
            },
        )
    }

    /// Decode the schemas on first use and return them.
    pub fn schemas<D: Fn(&[u8]) -> Result<Vec<TensorSchema>, String>>(
        &mut self,
        decode: D,
    ) -> (r: Result<&[TensorSchema], NcfError>)
        requires
            old(self).valid(),
            forall|s: &[u8]| #[trigger] call_requires(decode, (s,)),
        ensures
            final(self).same_file(old(self)),
            schemas_tried(
                old(self).contents.schemas,
                decode,
                old(self).spec_schema_bytes(),
                final(self).contents.schemas,
            ),
            final(self).contents.schemas matches Some(tried) && schemas_given(tried, r),
    {
        if self.contents.schemas.is_none() {
            let block: &[u8] = slice_subrange(
                self.data,
                self.contents.schema_start,
                self.contents.schema_end,
            );
            assert(block@ == self.spec_schema_bytes());
            let tried: Result<Vec<TensorSchema>, String> = decode(block);
            assert(decodes_to(decode, old(self).spec_schema_bytes(), tried));
            self.contents.schemas = Some(tried);
        }
        match &self.contents.schemas {
            Some(Ok(schemas)) => Ok(schemas.as_slice()),
            Some(Err(text)) => Err(NcfError::Header(text.clone())),
            None => Ok(&[]),
        }
    }

    /// Find the first schema of a name.
    pub fn find_schema<D: Fn(&[u8]) -> Result<Vec<TensorSchema>, String>>(
        &mut self,
        name: &str,
        decode: D,
    ) -> (r: Result<Option<&TensorSchema>, NcfError>)
        requires
            old(self).valid(),
            forall|s: &[u8]| #[trigger] call_requires(decode, (s,)),
        ensures
            final(self).same_file(old(self)),
            schemas_tried(
                old(self).contents.schemas,
                decode,
                old(self).spec_schema_bytes(),
                final(self).contents.schemas,
            ),
            match (final(self).contents.schemas, r) {
                (Some(Ok(schemas)), Ok(found)) => match (
                    schema_named(schema_views(schemas@), name@),
                    found,
                ) {
                    (Some(i), Some(schema)) => 0 <= i < schemas@.len() && *schema == schemas@[i],
                    (None, None) => true,
                    _ => false,
                },
                (Some(Err(text)), Err(NcfError::Header(given))) => given@ == text@,
                _ => false,
            },
    {
        let schemas: &[TensorSchema] = match self.schemas(decode) {
            Ok(schemas) => schemas,
            Err(e) => return Err(e),
        };
        match find_named(schemas, name) {
            Some(i) => Ok(Some(&schemas[i])),
            None => Ok(None),
        }
    }

    /// Read the full payload of a tensor: the payloads of its chunks, one behind the other.
    pub fn read_tensor<D: Fn(&[u8]) -> Result<Vec<TensorSchema>, String>>(
        &mut self,
        name: &str,
        decode: D,
    ) -> (r: Result<Option<Vec<u8>>, NcfError>)
        requires
            old(self).valid(),
            forall|s: &[u8]| #[trigger] call_requires(decode, (s,)),
        ensures
            final(self).same_file(old(self)),
            schemas_tried(
                old(self).contents.schemas,
                decode,
                old(self).spec_schema_bytes(),
                final(self).contents.schemas,
            ),
            match final(self).contents.schemas {
                Some(Ok(schemas)) => match (
                    read_outcome(old(self).data@, schema_views(schemas@), name@),
                    r,
                ) {
                    (Ok(Some(bytes)), Ok(Some(v))) => v@ == bytes,
                    (Ok(None), Ok(None)) => true,
                    (Err(fault), Err(NcfError::Io(e))) => e == fault,
                    _ => false,
                },
                Some(Err(text)) => r matches Err(NcfError::Header(given)) && given@ == text@,
                None => false,
            },
    {
        let data: &[u8] = self.data;
        let schemas: &[TensorSchema] = match self.schemas(decode) {
            Ok(schemas) => schemas,
            Err(e) => return Err(e),
        };
        match read_named(data, schemas, name) {
            Ok(found) => Ok(found),
            Err(e) => Err(NcfError::Io(e)),
        }
    }

    /// The lines that describe the file.
    pub fn inspect<D: Fn(&[u8]) -> Result<Vec<TensorSchema>, String>>(
        &mut self,
        decode: D,
    ) -> (r: Result<Vec<String>, NcfError>)
        requires
            old(self).valid(),
            forall|s: &[u8]| #[trigger] call_requires(decode, (s,)),
        ensures
            final(self).same_file(old(self)),
            schemas_tried(
                old(self).contents.schemas,
                decode,
                old(self).spec_schema_bytes(),
                final(self).contents.schemas,
            ),
            match (final(self).contents.schemas, r) {
                (Some(Ok(schemas)), Ok(lines)) => line_views(lines@) == inspect_lines(
                    old(self).contents.metadata,
                    schema_views(schemas@),
                ),
                (Some(Err(text)), Err(NcfError::Header(given))) => given@ == text@,
                _ => false,
            },
    {
        match self.schemas(decode) {
            Ok(_) => {},
            Err(e) => return Err(e),
        }
        match &self.contents.schemas {
            Some(Ok(schemas)) => Ok(
                make_inspect_lines(&self.contents.metadata, schemas.as_slice()),
            ),
            _ => Ok(Vec::new()),
        }
    }

    /// The decoded header metadata.
    pub fn metadata(&self) -> (m: &NcfHeader)
        ensures
            *m == self.contents.metadata,
    {
        &self.contents.metadata
    }

    /// The number of tensor names in the index.
    pub fn schema_count(&self) -> (r: Result<usize, NcfError>)
        ensures
            r matches Ok(n) && n == self.contents.index.tensor_map@.len(),
    {
        Ok(self.contents.index.tensor_map.len())
    }

    /// The parsed file header prefix.
    pub fn header_prefix(&self) -> (p: FileHeaderPrefix)
        ensures
            p == self.contents.header_prefix,
    {
        self.contents.header_prefix
    }

    /// The payload of the first chunk of a tensor, if it is there.
    pub fn tensor_slice(&self, name: &str) -> (r: Option<&'a [u8]>)
        ensures
            match (
                r,
                slice_outcome(
                    self.data@,
                    self.contents.index.tensor_map@,
                    self.contents.index.entries@,
                    false,
                    name@,
                ),
            ) {
                (Some(s), Some(bytes)) => s@ == bytes,
                (None, None) => true,
                _ => false,
            },
    {
        let chunk_id: u64 = match self.contents.index.tensor_map.get(name) {
            Some(id) => *id,
            None => return None,
        };
        match find_entry(self.contents.index.entries.as_slice(), chunk_id) {
            Some(i) => entry_slice(self.data, &self.contents.index.entries[i]),
            None => None,
        }
    }
}

/// Whether opening the bytes with these decoders fails with this error: at the first fault, or at
/// the first block that its decoder refuses.
pub open spec fn open_fails<
    H: Fn(&[u8]) -> Result<NcfHeader, NcfError>,
    I: Fn(&[u8]) -> Result<BorrowedNcfIndex, String>,
>(data: Seq<u8>, decode_header: H, decode_index: I, e: NcfError) -> bool {
    match header_fault(data) {
        Some(fault) => e == NcfError::Io(fault),
        None => {
            ||| exists|refusal: NcfError| #[trigger]
                decodes_to(decode_header, header_block(data), Err(refusal)) && (
                e matches NcfError::Io(IoError::Decode(text)) && text@ == refusal.spec_message())
            ||| exists|metadata: NcfHeader| #[trigger]
                decodes_to(decode_header, header_block(data), Ok(metadata)) && match blocks_fault(
                    data,
                ) {
                    Some(fault) => e == NcfError::Io(fault),
                    None => e matches NcfError::Io(IoError::Decode(text)) && decodes_to(
                        decode_index,
                        index_block(data),
                        Err(text),
                    ),
                }
        },
    }
}

} // verus!
