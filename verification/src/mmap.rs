//! Access to the tensors of a mapped file, with a table of chunks for quick lookup and a check of
//! all checksums.

use crate::blocks::{
    blocks_fault, check_chunks, decodes_to, entry_of, entry_slice, header_block, header_fault,
    index_block, index_start, locate_blocks, locate_header, schema_start, schemas_fault,
    slice_outcome,
};
use crate::error::{IoError, NcfError};
use crate::header::{prefix_of, FileHeaderPrefix, NcfHeader};
use crate::index::{last_entry, lemma_last_entry, IndexEntry, NcfIndex};
use crate::reader::{schemas_given, schemas_tried};
use crate::schema::{schema_views, TensorSchema};
use std::collections::HashMap;
use vstd::prelude::*;
use vstd::slice::slice_subrange;
use vstd::string::*;

verus! {

broadcast use vstd::std_specs::hash::group_hash_axioms;

/// View of the bytes of a file.
pub struct NcfMmap<'a> {
    /// The bytes of the file.
    pub mmap: &'a [u8],
    /// Parsed file header prefix.
    pub header_prefix: FileHeaderPrefix,
    /// Decoded header metadata.
    pub metadata: NcfHeader,
    /// The schemas, or the text of the error met in decoding them, once that was tried.
    pub schemas: Option<Result<Vec<TensorSchema>, String>>,
    /// Start of the schema block within the file.
    pub schema_start: usize,
    /// End of the schema block within the file.
    pub schema_end: usize,
    /// Index of the file.
    pub index: NcfIndex,
    /// Position of the latest entry of each chunk.
    pub chunk_map: HashMap<u64, usize>,
}

/// Whether a table holds the position of the latest entry of each chunk that has one.
pub open spec fn maps_latest(table: Map<u64, usize>, entries: Seq<IndexEntry>) -> bool {
    forall|id: u64|
        #![trigger table.contains_key(id)]
        #![trigger last_entry(entries, id)]
        match last_entry(entries, id) {
            Some(i) => table.contains_key(id) && table[id] == i,
            None => !table.contains_key(id),
        }
}

/// Build the table of the latest entry of each chunk.
fn build_chunk_map(entries: &[IndexEntry]) -> (table: HashMap<u64, usize>)
    ensures
        maps_latest(table@, entries@),
{
    let mut table: HashMap<u64, usize> = HashMap::new();
    let mut i: usize = 0;
    while i < entries.len()
        invariant
            i <= entries@.len(),
            maps_latest(table@, entries@.take(i as int)),
        decreases entries@.len() - i,
    {
        let ghost before = table@;
        table.insert(entries[i].chunk_id, i);
        proof {
            let next = entries@.take(i + 1);
            assert(next.drop_last() =~= entries@.take(i as int));
            assert forall|id: u64|
                #![trigger table@.contains_key(id)]
                #![trigger last_entry(next, id)]
                match last_entry(next, id) {
                    Some(k) => table@.contains_key(id) && table@[id] == k,
                    None => !table@.contains_key(id),
                } by {
                assert(before.contains_key(id) == (last_entry(entries@.take(i as int), id)
                    is Some));
            }
        }
        i += 1;
    }
    assert(entries@.take(i as int) =~= entries@);
    table
}

/// Whether opening the bytes with these decoders fails with this error: at the first fault, or at
/// the first block that its decoder refuses.
pub open spec fn map_fails<
    H: Fn(&[u8]) -> Result<NcfHeader, NcfError>,
    I: Fn(&[u8]) -> Result<NcfIndex, String>,
>(data: Seq<u8>, decode_header: H, decode_index: I, e: NcfError) -> bool {
    match header_fault(data) {
        Some(IoError::BadMagic) => e matches NcfError::Header(text) && text@
            == "Invalid magic bytes"@,
        Some(fault) => e == NcfError::Io(fault),
        None => {
            ||| decodes_to(decode_header, header_block(data), Err(e))
            ||| exists|metadata: NcfHeader| #[trigger]
                decodes_to(decode_header, header_block(data), Ok(metadata)) && match blocks_fault(
                    data,
                ) {
                    Some(fault) => e == NcfError::Io(fault),
                    None => e matches NcfError::Cbor(text) && decodes_to(
                        decode_index,
                        index_block(data),
                        Err(text),
                    ),
                }
        },
    }
}

impl<'a> NcfMmap<'a> {
    /// Whether the view knows where the schema block is and which entries count.
    pub open spec fn valid(&self) -> bool {
        &&& self.schema_start <= self.schema_end <= self.mmap@.len()
        &&& maps_latest(self.chunk_map@, self.index.entries@)
    }

    /// The schema block and what follows up to the index.
    pub open spec fn spec_schema_bytes(&self) -> Seq<u8> {
        self.mmap@.subrange(self.schema_start as int, self.schema_end as int)
    }

    /// Whether two views agree in everything but the tried schemas.
    pub open spec fn same_file(&self, other: &NcfMmap<'a>) -> bool {
        *self == (NcfMmap { schemas: self.schemas, ..*other })
    }

    /// Whether this view is the result of opening the bytes with these decoders.
    pub open spec fn opened<
        H: Fn(&[u8]) -> Result<NcfHeader, NcfError>,
        I: Fn(&[u8]) -> Result<NcfIndex, String>,
    >(&self, data: Seq<u8>, decode_header: H, decode_index: I) -> bool {
        &&& header_fault(data) is None
        &&& blocks_fault(data) is None
        &&& self.mmap@ == data
        &&& self.header_prefix == prefix_of(data)
        &&& self.schema_start == schema_start(data)
        &&& self.schema_end == index_start(data)
        &&& self.schemas is None
        &&& decodes_to(decode_header, header_block(data), Ok(self.metadata))
        &&& decodes_to(decode_index, index_block(data), Ok(self.index))
        &&& maps_latest(self.chunk_map@, self.index.entries@)
    }

    /// Open the bytes of a file.
    pub fn open<
        H: Fn(&[u8]) -> Result<NcfHeader, NcfError>,
        I: Fn(&[u8]) -> Result<NcfIndex, String>,
    >(mmap: &'a [u8], decode_header: H, decode_index: I) -> (r: Result<NcfMmap<'a>, NcfError>)
        requires
            forall|s: &[u8]| #[trigger] call_requires(decode_header, (s,)),
            forall|s: &[u8]| #[trigger] call_requires(decode_index, (s,)),
        ensures
            match r {
                Ok(view) => view.opened(mmap@, decode_header, decode_index) && view.valid(),
                Err(e) => map_fails(mmap@, decode_header, decode_index, e),
            },
    {
        let (header_prefix, header_end): (FileHeaderPrefix, usize) = match locate_header(mmap) {
            Ok(found) => found,
            Err(IoError::BadMagic) => return Err(
                NcfError::Header("Invalid magic bytes".to_owned()),
            ),
            Err(e) => return Err(NcfError::Io(e)),
        };
        let header: &[u8] = slice_subrange(mmap, 48, header_end);
        assert(header@ == header_block(mmap@));
        let metadata: NcfHeader = match decode_header(header) {
            Ok(metadata) => metadata,
            Err(e) => {
                assert(decodes_to(decode_header, header_block(mmap@), Err(e)));
                return Err(e);
            },
        };
        assert(decodes_to(decode_header, header_block(mmap@), Ok(metadata)));
        let (schema_start, schema_end, index_end): (usize, usize, usize) = match locate_blocks(
            mmap,
            &header_prefix,
        ) {
            Ok(found) => found,
            Err(e) => return Err(NcfError::Io(e)),
        };
        let block: &[u8] = slice_subrange(mmap, schema_end, index_end);
        assert(block@ == index_block(mmap@));
        let index: NcfIndex = match decode_index(block) {
            Ok(index) => index,
            Err(text) => {
                assert(decodes_to(decode_index, index_block(mmap@), Err(text)));
                return Err(NcfError::Cbor(text));
            },
        };
        assert(decodes_to(decode_index, index_block(mmap@), Ok(index)));
        let chunk_map: HashMap<u64, usize> = build_chunk_map(index.entries.as_slice());
        Ok(
            NcfMmap {
                mmap,
                header_prefix,
                metadata,
                schemas: None,
                schema_start,
                schema_end,
                index,
                chunk_map,
            },
        )
    }

    /// Decode the schemas on first use and return them.
    pub fn schemas<D: Fn(&[u8]) -> Result<Vec<TensorSchema>, String>>(
        &mut self,
        decode: D,
    ) -> (r: Result<&[TensorSchema], NcfError>)
        requires
            old(self).valid(),
            forall|s: &[u8]| #[trigger] call_requires(decode, (s,)),
        ensures
            final(self).same_file(old(self)),
            schemas_tried(
                old(self).schemas,
                decode,
                old(self).spec_schema_bytes(),
                final(self).schemas,
            ),
            final(self).schemas matches Some(tried) && schemas_given(tried, r),
    {
        if self.schemas.is_none() {
            let block: &[u8] = slice_subrange(self.mmap, self.schema_start, self.schema_end);
            assert(block@ == self.spec_schema_bytes());
            let tried: Result<Vec<TensorSchema>, String> = decode(block);
            assert(decodes_to(decode, old(self).spec_schema_bytes(), tried));
            self.schemas = Some(tried);
        }
        match &self.schemas {
            Some(Ok(schemas)) => Ok(schemas.as_slice()),
            Some(Err(text)) => Err(NcfError::Header(text.clone())),
            None => Ok(&[]),
        }
    }

    /// The payload of the first chunk of a tensor, if it is there.
    pub fn tensor_slice(&self, name: &str) -> (r: Option<&'a [u8]>)
        requires
            self.valid(),
        ensures
            match (
                r,
                slice_outcome(
                    self.mmap@,
                    self.index.tensor_map@,
                    self.index.entries@,
                    true,
                    name@,
                ),
            ) {
                (Some(s), Some(bytes)) => s@ == bytes,
                (None, None) => true,
                _ => false,
            },
    {
        let chunk_id: u64 = match self.index.find_chunk_id(name) {
            Some(id) => id,
            None => return None,
        };
        proof {
            lemma_last_entry(self.index.entries@, chunk_id);
        }
        match self.chunk_map.get(&chunk_id) {
            Some(i) => entry_slice(self.mmap, &self.index.entries[*i]),
            None => None,
        }
    }

    /// Check the payload of every chunk that a schema refers to and that has an entry.
    pub fn verify_all_checksums<D: Fn(&[u8]) -> Result<Vec<TensorSchema>, String>>(
        &mut self,
        decode: D,
    ) -> (r: Result<(), NcfError>)
        requires
            old(self).valid(),
            forall|s: &[u8]| #[trigger] call_requires(decode, (s,)),
        ensures
            final(self).same_file(old(self)),
            schemas_tried(
                old(self).schemas,
                decode,
                old(self).spec_schema_bytes(),
                final(self).schemas,
            ),
            match final(self).schemas {
                Some(Ok(schemas)) => match (
                    schemas_fault(
                        old(self).mmap@,
                        old(self).index.entries@,
                        true,
                        schema_views(schemas@),
                        schemas@.len() as int,
                    ),
                    r,
                ) {
                    (None, Ok(_)) => true,
                    (Some(fault), Err(NcfError::Io(e))) => e == fault,
                    _ => false,
                },
                Some(Err(text)) => r matches Err(NcfError::Header(given)) && given@ == text@,
                None => false,
            },
    {
        match self.schemas(decode) {
            Ok(_) => {},
            Err(e) => return Err(e),
        }
        let entries: &[IndexEntry] = self.index.entries.as_slice();
        let chunk_map: &HashMap<u64, usize> = &self.chunk_map;
        assert(maps_latest(chunk_map@, entries@));
        let find = |id: u64| -> (found: Option<usize>)
            ensures
                match found {
                    Some(i) => i < entries@.len() && entry_of(entries@, id, true) == Some(i as int),
                    None => entry_of(entries@, id, true) is None,
                },
            {
                proof {
                    lemma_last_entry(entries@, id);
                    assert(last_entry(entries@, id) == last_entry(entries@, id));
                }
                match chunk_map.get(&id) {
                    Some(i) => Some(*i),
                    None => None,
                }
            };
        match &self.schemas {
            Some(Ok(schemas)) => match check_chunks(
                self.mmap,
                entries,
                schemas.as_slice(),
                find,
                Ghost(true),
            ) {
                Ok(_) => Ok(()),
                Err(e) => Err(NcfError::Io(e)),
            },
            _ => Ok(()),
        }
    }
}

} // verus!
