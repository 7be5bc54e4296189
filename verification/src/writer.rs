//! Building the image of an NCF file from tensors.
//!
//! A file is the binary prefix, the header block, the schema block, the chunks, the index block
//! and a footer. How header, schemas and index are turned into bytes is left to the caller; where
//! every block and every chunk stands is decided here.

use crate::bytes::{le_bytes, put_u64};
use crate::chunk::{chunk_header_bytes, lemma_chunk_header_len, ChunkHeader};
use crate::constants::{CHUNK_CHECKSUM_SIZE, CHUNK_HEADER_SIZE, FILE_HEADER_PREFIX_SIZE};
use crate::dedup::DedupCache;
use crate::digest::{blake3_digest, hash_payload, name_hash, name_hash_of};
use crate::error::{IoError, NcfError};
use crate::header::{
    prefix_bytes, FileHeaderPrefix, NcfFlags, NcfHeader, FOOTER_MAGIC, FORMAT_VERSION, NCF_MAGIC,
};
use crate::index::{IndexEntry, NcfIndex};
use crate::name_map::NameMap;
use crate::quantize::QuantLevel;
use crate::schema::{schema_views, ChunkRef, Compression, SchemaView, TensorSchema};
use crate::text::same_text;
use vstd::prelude::*;
use vstd::string::*;

verus! {

/// Collects tensors and builds the image of the file that holds them.
pub struct NcfWriter {
    /// Header metadata to embed in the file.
    pub metadata: NcfHeader,
    /// File-level flags.
    pub flags: NcfFlags,
    /// Tensors to be written: schema and payload.
    pub tensors: Vec<(TensorSchema, Vec<u8>)>,
    /// Quantization levels to be stored in the index.
    pub tensor_quant_levels: NameMap<QuantLevel>,
}

/// What a list of tensors to be written says: schemas and payloads.
pub open spec fn tensor_views(tensors: Seq<(TensorSchema, Vec<u8>)>) -> Seq<(SchemaView, Seq<u8>)> {
    Seq::new(tensors.len(), |i: int| (tensors[i].0@, tensors[i].1@))
}

/// The digest of the payload of tensor `i`.
pub open spec fn payload_digest(ts: Seq<(SchemaView, Seq<u8>)>, i: int) -> [u8; 32] {
    blake3_digest(ts[i].1)
}

/// The first tensor at or behind `from` whose payload has the digest of tensor `i`.
pub open spec fn canonical_from(ts: Seq<(SchemaView, Seq<u8>)>, i: int, from: int) -> int
    decreases i - from,
{
    if from >= i || payload_digest(ts, from) == payload_digest(ts, i) {
        from
    } else {
        canonical_from(ts, i, from + 1)
    }
}

/// The first tensor whose payload has the digest of tensor `i`: its chunk stands for both.
pub open spec fn canonical(ts: Seq<(SchemaView, Seq<u8>)>, i: int) -> int {
    canonical_from(ts, i, 0)
}

/// Whether an earlier payload has the digest of tensor `i`.
pub open spec fn is_duplicate(ts: Seq<(SchemaView, Seq<u8>)>, i: int) -> bool {
    canonical(ts, i) < i
}

/// The header of the chunk of tensor `i`.
pub open spec fn stored_header(ts: Seq<(SchemaView, Seq<u8>)>, i: int) -> ChunkHeader {
    ChunkHeader {
        chunk_id: i as u64,
        flags: if ts[i].0.compression == Compression::Uncompressed {
            0
        } else {
            1
        },
        uncompressed_len: ts[i].1.len() as u64,
        compressed_len: ts[i].1.len() as u64,
    }
}

/// The chunk of tensor `i`: header, payload and digest.
pub open spec fn stored_chunk(ts: Seq<(SchemaView, Seq<u8>)>, i: int) -> Seq<u8> {
    chunk_header_bytes(stored_header(ts, i)) + ts[i].1 + payload_digest(ts, i)@
}

/// The chunks of the first `n` tensors; a duplicate has none.
pub open spec fn chunk_area(ts: Seq<(SchemaView, Seq<u8>)>, n: int) -> Seq<u8>
    decreases n,
{
    if n <= 0 {
        Seq::empty()
    } else if is_duplicate(ts, n - 1) {
        chunk_area(ts, n - 1)
    } else {
        chunk_area(ts, n - 1) + stored_chunk(ts, n - 1)
    }
}

/// The length that the chunks of the first `n` tensors would have without duplicates.
pub open spec fn undeduplicated_len(ts: Seq<(SchemaView, Seq<u8>)>, n: int) -> int
    decreases n,
{
    if n <= 0 {
        0
    } else {
        undeduplicated_len(ts, n - 1) + CHUNK_HEADER_SIZE + ts[n - 1].1.len() + CHUNK_CHECKSUM_SIZE
    }
}

/// Where the chunk for tensor `i` stands if the chunks start at `base`.
pub open spec fn chunk_place(ts: Seq<(SchemaView, Seq<u8>)>, base: int, i: int) -> int {
    base + chunk_area(ts, canonical(ts, i)).len()
}

/// The reference to the chunk for tensor `i`.
pub open spec fn chunk_ref(ts: Seq<(SchemaView, Seq<u8>)>, base: int, i: int) -> ChunkRef {
    ChunkRef {
        chunk_id: i as u64,
        byte_offset: chunk_place(ts, base, i) as u64,
        byte_len: (CHUNK_HEADER_SIZE + ts[i].1.len() + CHUNK_CHECKSUM_SIZE) as u64,
        uncompressed_len: ts[i].1.len() as u64,
        checksum: payload_digest(ts, i),
        canonical_offset: if is_duplicate(ts, i) {
            Some(chunk_place(ts, base, i) as u64)
        } else {
            None
        },
    }
}

/// The index entry for tensor `i`.
pub open spec fn entry_for(ts: Seq<(SchemaView, Seq<u8>)>, base: int, i: int) -> IndexEntry {
    IndexEntry {
        chunk_id: i as u64,
        byte_offset: chunk_place(ts, base, i) as u64,
        byte_len: (CHUNK_HEADER_SIZE + ts[i].1.len() + CHUNK_CHECKSUM_SIZE) as u64,
        tensor_name_hash: name_hash_of(ts[i].0.name),
    }
}

/// The index entries of the first `n` tensors.
pub open spec fn entries_for(ts: Seq<(SchemaView, Seq<u8>)>, base: int, n: int) -> Seq<IndexEntry> {
    Seq::new(n as nat, |i: int| entry_for(ts, base, i))
}

/// The references to the chunks for those of the first `n` tensors that have the given name.
pub open spec fn refs_for(
    ts: Seq<(SchemaView, Seq<u8>)>,
    base: int,
    name: Seq<char>,
    n: int,
) -> Seq<ChunkRef>
    decreases n,
{
    if n <= 0 {
        Seq::empty()
    } else if ts[n - 1].0.name == name {
        refs_for(ts, base, name, n - 1).push(chunk_ref(ts, base, n - 1))
    } else {
        refs_for(ts, base, name, n - 1)
    }
}

/// Whether no tensor before `k` has the name of tensor `k`.
pub open spec fn is_first_of_name(ts: Seq<(SchemaView, Seq<u8>)>, k: int) -> bool {
    forall|j: int| 0 <= j < k ==> (#[trigger] ts[j]).0.name != ts[k].0.name
}

/// The schemas with references to the chunks for the first `n` tensors: the first schema of a
/// name holds those of all tensors of that name.
pub open spec fn located_schemas(
    ts: Seq<(SchemaView, Seq<u8>)>,
    base: int,
    n: int,
) -> Seq<SchemaView> {
    Seq::new(
        ts.len(),
        |k: int|
            SchemaView {
                chunks: if is_first_of_name(ts, k) {
                    refs_for(ts, base, ts[k].0.name, n)
                } else {
                    Seq::empty()
                },
                ..ts[k].0
            },
    )
}

/// The chunk id of the first tensor of each name, among the first `n` tensors.
pub open spec fn first_ids(ts: Seq<(SchemaView, Seq<u8>)>, n: int) -> Map<Seq<char>, u64>
    decreases n,
{
    if n <= 0 {
        Map::empty()
    } else {
        let before = first_ids(ts, n - 1);
        if before.contains_key(ts[n - 1].0.name) {
            before
        } else {
            before.insert(ts[n - 1].0.name, (n - 1) as u64)
        }
    }
}

/// The prefix of a file with these blocks.
pub open spec fn image_prefix(
    flags: NcfFlags,
    header: Seq<u8>,
    schema: Seq<u8>,
    chunks: Seq<u8>,
    count: int,
) -> FileHeaderPrefix {
    FileHeaderPrefix {
        magic: NCF_MAGIC,
        version: FORMAT_VERSION,
        flags,
        header_len: header.len() as u64,
        schema_offset: (FILE_HEADER_PREFIX_SIZE + header.len()) as u64,
        index_offset: (FILE_HEADER_PREFIX_SIZE + header.len() + schema.len()
            + chunks.len()) as u64,
        chunk_count: count as u64,
    }
}

/// The bytes of a file with these blocks.
pub open spec fn image(
    flags: NcfFlags,
    header: Seq<u8>,
    schema: Seq<u8>,
    chunks: Seq<u8>,
    index: Seq<u8>,
    count: int,
) -> Seq<u8> {
    prefix_bytes(image_prefix(flags, header, schema, chunks, count)) + header + schema + chunks
        + index + FOOTER_MAGIC@ + le_bytes(index.len(), 8)
}

/// Where everything stands in a file.
pub struct FileLayout {
    /// The schemas, with references to the chunks.
    pub schemas: Vec<TensorSchema>,
    /// The chunks, one behind the other.
    pub chunk_data: Vec<u8>,
    /// The index entries.
    pub entries: Vec<IndexEntry>,
    /// The chunk id of the first tensor of each name.
    pub tensor_map: NameMap<u64>,
}

impl FileLayout {
    /// Whether this is the layout of the given tensors, with the chunks starting at `base`.
    pub open spec fn lays_out(self, ts: Seq<(SchemaView, Seq<u8>)>, base: int) -> bool {
        &&& schema_views(self.schemas@) == located_schemas(ts, base, ts.len() as int)
        &&& self.chunk_data@ == chunk_area(ts, ts.len() as int)
        &&& self.entries@ == entries_for(ts, base, ts.len() as int)
        &&& self.tensor_map@ == first_ids(ts, ts.len() as int)
    }
}

/// What the canonical tensor is: the first with the digest.
pub proof fn lemma_canonical_from(ts: Seq<(SchemaView, Seq<u8>)>, i: int, from: int)
    requires
        0 <= from <= i < ts.len(),
    ensures
        from <= canonical_from(ts, i, from) <= i,
        payload_digest(ts, canonical_from(ts, i, from)) == payload_digest(ts, i),
        forall|j: int|
            from <= j < canonical_from(ts, i, from) ==> #[trigger] payload_digest(ts, j)
                != payload_digest(ts, i),
    decreases i - from,
{
    if from < i && payload_digest(ts, from) != payload_digest(ts, i) {
        lemma_canonical_from(ts, i, from + 1);
    }
}

/// Chunks never take more room than they would without duplicates.
pub proof fn lemma_area_len(ts: Seq<(SchemaView, Seq<u8>)>, n: int)
    requires
        n <= ts.len(),
    ensures
        chunk_area(ts, n).len() <= undeduplicated_len(ts, n),
        undeduplicated_len(ts, n) >= 0,
    decreases n,
{
    broadcast use lemma_chunk_header_len;

    if n > 0 {
        lemma_area_len(ts, n - 1);
    }
}

proof fn lemma_undeduplicated_grows(ts: Seq<(SchemaView, Seq<u8>)>, a: int, b: int)
    requires
        0 <= a <= b <= ts.len(),
    ensures
        0 <= undeduplicated_len(ts, a) <= undeduplicated_len(ts, b),
    decreases b,
{
    if a < b {
        lemma_undeduplicated_grows(ts, a, b - 1);
    } else {
        lemma_area_len(ts, a);
    }
}

/// Tensors with one digest share one canonical tensor.
pub proof fn lemma_canonical_shared(ts: Seq<(SchemaView, Seq<u8>)>, i: int, j: int)
    requires
        0 <= i < ts.len(),
        0 <= j < ts.len(),
        payload_digest(ts, i) == payload_digest(ts, j),
    ensures
        canonical(ts, i) == canonical(ts, j),
{
    lemma_canonical_from(ts, i, 0);
    lemma_canonical_from(ts, j, 0);
    let a = canonical(ts, i);
    let b = canonical(ts, j);
    assert(payload_digest(ts, a) == payload_digest(ts, b));
}

/// A canonical tensor is its own canonical tensor.
pub proof fn lemma_canonical_is_fixed(ts: Seq<(SchemaView, Seq<u8>)>, i: int)
    requires
        0 <= i < ts.len(),
    ensures
        0 <= canonical(ts, i) <= i,
        payload_digest(ts, canonical(ts, i)) == payload_digest(ts, i),
        canonical(ts, canonical(ts, i)) == canonical(ts, i),
        !is_duplicate(ts, canonical(ts, i)),
{
    lemma_canonical_from(ts, i, 0);
    lemma_canonical_shared(ts, i, canonical(ts, i));
}

/// Adds a chunk reference to the first schema of a name.
fn push_ref(schemas: &mut Vec<TensorSchema>, name: &str, r: ChunkRef)
    ensures
        final(schemas)@.len() == old(schemas)@.len(),
        forall|k: int|
            0 <= k < old(schemas)@.len() ==> (#[trigger] final(schemas)@[k])@ == (SchemaView {
                chunks: if old(schemas)@[k].name@ == name@ && (forall|j: int|
                    0 <= j < k ==> (#[trigger] old(schemas)@[j]).name@ != name@) {
                    old(schemas)@[k].chunks@.push(r)
                } else {
                    old(schemas)@[k].chunks@
                },
                ..old(schemas)@[k]@
            }),
{
    let mut i: usize = 0;
    while i < schemas.len()
        invariant
            i <= schemas@.len(),
            *schemas == *old(schemas),
            forall|j: int| 0 <= j < i ==> (#[trigger] schemas@[j]).name@ != name@,
        decreases schemas@.len() - i,
    {
        let same: bool = same_text(schemas[i].name.as_str(), name);
        if same {
            schemas[i].chunks.push(r);
            return;
        }
        i += 1;
    }
}

impl NcfWriter {
    /// Create a writer with the given metadata and flags.
    pub fn new(metadata: NcfHeader, flags: NcfFlags) -> (w: Self)
        ensures
            w.metadata == metadata,
            w.flags == flags,
            w.tensors@ == Seq::<(TensorSchema, Vec<u8>)>::empty(),
            w.tensor_quant_levels@ == Map::<Seq<char>, QuantLevel>::empty(),
    {
        NcfWriter { metadata, flags, tensors: Vec::new(), tensor_quant_levels: NameMap::new() }
    }

    /// Set an explicit quantization level for a named tensor.
    pub fn set_tensor_quant_level(&mut self, name: String, level: QuantLevel)
        ensures
            final(self).metadata == old(self).metadata,
            final(self).flags == old(self).flags,
            final(self).tensors == old(self).tensors,
            final(self).tensor_quant_levels@ == old(self).tensor_quant_levels@.insert(name@, level),
    {
        self.tensor_quant_levels.insert(name, level);
    }

    /// Add a tensor schema and its payload to be written.
    pub fn add_tensor(&mut self, schema: TensorSchema, payload: Vec<u8>)
        ensures
            final(self).metadata == old(self).metadata,
            final(self).flags == old(self).flags,
            final(self).tensors@ == old(self).tensors@.push((schema, payload)),
            final(self).tensor_quant_levels == old(self).tensor_quant_levels,
    {
        self.tensors.push((schema, payload));
    }

    /// What the tensors say.
    pub open spec fn spec_tensors(&self) -> Seq<(SchemaView, Seq<u8>)> {
        tensor_views(self.tensors@)
    }

    /// The schemas of the tensors, without any chunk reference.
    pub fn blank_schemas(&self) -> (schemas: Vec<TensorSchema>)
        ensures
            schema_views(schemas@) == located_schemas(self.spec_tensors(), 0, 0),
            schemas@.len() == self.tensors@.len(),
            forall|k: int|
                0 <= k < schemas@.len() ==> {
                    let given = self.tensors@[k].0;
                    &&& (#[trigger] schemas@[k]).name@ == given.name@
                    &&& schemas@[k].dtype == given.dtype
                    &&& schemas@[k].shape@ == given.shape@
                    &&& schemas@[k].column_layout == given.column_layout
                    &&& schemas@[k].compression == given.compression
                    &&& schemas@[k].encoding == given.encoding
                    &&& schemas@[k].chunks@.len() == 0
                },
    {
        let ghost ts = self.spec_tensors();
        let mut schemas: Vec<TensorSchema> = Vec::new();
        let mut i: usize = 0;
        while i < self.tensors.len()
            invariant
                i <= self.tensors@.len(),
                ts == self.spec_tensors(),
                schemas@.len() == i,
                forall|k: int|
                    0 <= k < i ==> (#[trigger] schemas@[k])@ == (SchemaView {
                        chunks: Seq::empty(),
                        ..ts[k].0
                    }),
            decreases self.tensors@.len() - i,
        {
            let mut schema: TensorSchema = self.tensors[i].0.clone();
            schema.chunks = Vec::new();
            assert(schema@ == SchemaView { chunks: Seq::empty(), ..ts[i as int].0 });
            schemas.push(schema);
            i += 1;
        }
        assert(schema_views(schemas@) =~= located_schemas(ts, 0, 0));
        assert forall|k: int| 0 <= k < schemas@.len() implies (#[trigger] schemas@[k])@ == (
        SchemaView { chunks: Seq::empty(), ..self.tensors@[k].0@ }) by {
            assert(ts[k].0 == self.tensors@[k].0@);
        }
        schemas
    }

    /// Decide where everything stands in the file, given the lengths of the header block and of
    /// the schema block.
    pub fn layout(&self, header_len: u64, schema_len: u64) -> (l: FileLayout)
        requires
            FILE_HEADER_PREFIX_SIZE + header_len + schema_len + undeduplicated_len(
                self.spec_tensors(),
                self.tensors@.len() as int,
            ) <= u64::MAX,
        ensures
            l.lays_out(
                self.spec_tensors(),
                FILE_HEADER_PREFIX_SIZE + header_len + schema_len,
            ),
    {
        broadcast use lemma_chunk_header_len;

        let ghost ts = self.spec_tensors();
        let ghost n = ts.len() as int;
        let ghost base = FILE_HEADER_PREFIX_SIZE + header_len + schema_len;
        proof {
            lemma_area_len(ts, n);
        }
        let blocks_len: u64 = FILE_HEADER_PREFIX_SIZE + header_len + schema_len;
        let mut schemas: Vec<TensorSchema> = self.blank_schemas();
        let mut entries: Vec<IndexEntry> = Vec::new();
        let mut tensor_map: NameMap<u64> = NameMap::new();
        let mut chunk_data: Vec<u8> = Vec::new();
        let mut dedup: DedupCache = DedupCache::new();
        assert(located_schemas(ts, 0, 0) =~= located_schemas(ts, base, 0));
        let mut i: usize = 0;
        while i < self.tensors.len()
            invariant
                i <= self.tensors@.len(),
                ts == self.spec_tensors(),
                n == ts.len(),
                base == FILE_HEADER_PREFIX_SIZE + header_len + schema_len,
                base == blocks_len,
                base + undeduplicated_len(ts, n) <= u64::MAX,
                schema_views(schemas@) == located_schemas(ts, base, i as int),
                chunk_data@ == chunk_area(ts, i as int),
                entries@ == entries_for(ts, base, i as int),
                tensor_map@ == first_ids(ts, i as int),
                forall|j: int|
                    0 <= j < i ==> dedup@.contains_key(#[trigger] payload_digest(ts, j))
                        && dedup@[payload_digest(ts, j)] == chunk_place(ts, base, j) as u64,
                forall|d: [u8; 32]| #[trigger]
                    dedup@.contains_key(d) ==> exists|j: int|
                        0 <= j < i && payload_digest(ts, j) == d,
            decreases self.tensors@.len() - i,
        {
            let ghost at = i as int;
            proof {
                lemma_undeduplicated_grows(ts, at + 1, n);
                lemma_area_len(ts, at);
                lemma_canonical_is_fixed(ts, at);
                lemma_area_len(ts, canonical(ts, at));
                lemma_undeduplicated_grows(ts, canonical(ts, at), n);
            }
            let raw: &Vec<u8> = &self.tensors[i].1;
            let schema: &TensorSchema = &self.tensors[i].0;
            assert(raw@ == ts[at].1);
            let chunk_id: u64 = i as u64;
            let raw_len: u64 = raw.len() as u64;
            let chunk_offset: u64 = blocks_len + chunk_data.len() as u64;
            let duplicate_offset: Option<u64> = dedup.get_canonical_offset(raw.as_slice());
            let checksum: [u8; 32] = hash_payload(raw.as_slice());
            proof {
                if dedup@.contains_key(payload_digest(ts, at)) {
                    let j = choose|j: int|
                        0 <= j < i && payload_digest(ts, j) == payload_digest(ts, at);
                    lemma_canonical_shared(ts, at, j);
                    lemma_canonical_from(ts, j, 0);
                    assert(is_duplicate(ts, at));
                } else {
                    if is_duplicate(ts, at) {
                        assert(dedup@.contains_key(payload_digest(ts, canonical(ts, at))));
                    }
                    assert(canonical(ts, at) == at);
                }
                assert(duplicate_offset == chunk_ref(ts, base, at).canonical_offset);
            }
            let ghost dedup_before = dedup@;
            if duplicate_offset.is_none() {
                let chunk_header: ChunkHeader = ChunkHeader {
                    chunk_id,
                    flags: if schema.compression != Compression::Uncompressed {
                        1
                    } else {
                        0
                    },
                    uncompressed_len: raw_len,
                    compressed_len: raw_len,
                };
                assert(chunk_header == stored_header(ts, at));
                chunk_data.extend_from_slice(chunk_header.encode().as_slice());
                chunk_data.extend_from_slice(raw.as_slice());
                chunk_data.extend_from_slice(checksum.as_slice());
                assert(chunk_data@ =~= chunk_area(ts, at) + stored_chunk(ts, at));
                dedup.register_payload(raw.as_slice(), chunk_offset);
            }
            let payload_offset: u64 = match duplicate_offset {
                Some(offset) => offset,
                None => chunk_offset,
            };
            let chunk_len: u64 = CHUNK_HEADER_SIZE + raw_len + CHUNK_CHECKSUM_SIZE;
            let r: ChunkRef = ChunkRef {
                chunk_id,
                byte_offset: payload_offset,
                byte_len: chunk_len,
                uncompressed_len: raw_len,
                checksum,
                canonical_offset: duplicate_offset,
            };
            assert(r == chunk_ref(ts, base, at));
            let ghost schemas_before = schemas@;
            push_ref(&mut schemas, schema.name.as_str(), r);
            proof {
                lemma_located_step(ts, base, at, schemas_before, schemas@);
                assert forall|j: int| 0 <= j < i + 1 implies dedup@.contains_key(
                    #[trigger] payload_digest(ts, j),
                ) && dedup@[payload_digest(ts, j)] == chunk_place(ts, base, j) as u64 by {
                    if payload_digest(ts, j) == payload_digest(ts, at) {
                        lemma_canonical_shared(ts, at, j);
                    }
                }
                assert forall|d: [u8; 32]| #[trigger] dedup@.contains_key(d) implies exists|j: int|
                    0 <= j < i + 1 && payload_digest(ts, j) == d by {
                    if dedup_before.contains_key(d) {
                        let j = choose|j: int| 0 <= j < i && payload_digest(ts, j) == d;
                        assert(payload_digest(ts, j) == d);
                    } else {
                        assert(payload_digest(ts, at) == d);
                    }
                }
            }
            entries.push(
                IndexEntry {
                    chunk_id,
                    byte_offset: payload_offset,
                    byte_len: chunk_len,
                    tensor_name_hash: name_hash(schema.name.as_str()),
                },
            );
            assert(entries@ =~= entries_for(ts, base, at + 1));
            tensor_map.insert_if_absent(schema.name.clone(), chunk_id);
            i += 1;
        }
        FileLayout { schemas, chunk_data, entries, tensor_map }
    }
}

/// Put the blocks of a file together.
pub fn assemble(
    flags: NcfFlags,
    header: &[u8],
    schema: &[u8],
    chunks: &[u8],
    index: &[u8],
    count: u64,
) -> (file: Vec<u8>)
    requires
        FILE_HEADER_PREFIX_SIZE + header@.len() + schema@.len() + chunks@.len() <= u64::MAX,
    ensures
        file@ == image(flags, header@, schema@, chunks@, index@, count as int),
{
    let header_len: u64 = header.len() as u64;
    let prefix: FileHeaderPrefix = FileHeaderPrefix {
        magic: NCF_MAGIC,
        version: FORMAT_VERSION,
        flags,
        header_len,
        schema_offset: FILE_HEADER_PREFIX_SIZE + header_len,
        index_offset: FILE_HEADER_PREFIX_SIZE + header_len + schema.len() as u64
            + chunks.len() as u64,
        chunk_count: count,
    };
    let footer_magic: [u8; 8] = FOOTER_MAGIC;
    let mut file: Vec<u8> = Vec::new();
    file.extend_from_slice(prefix.encode().as_slice());
    file.extend_from_slice(header);
    file.extend_from_slice(schema);
    file.extend_from_slice(chunks);
    file.extend_from_slice(index);
    file.extend_from_slice(footer_magic.as_slice());
    put_u64(&mut file, index.len() as u64);
    assert(file@ =~= image(flags, header@, schema@, chunks@, index@, count as int));
    file
}

/// Whether an encoder can give this result for schemas that say `views`.
pub open spec fn schemas_encode_to<F: Fn(&Vec<TensorSchema>) -> Result<Vec<u8>, NcfError>>(
    encode: F,
    views: Seq<SchemaView>,
    r: Result<Vec<u8>, NcfError>,
) -> bool {
    exists|schemas: Vec<TensorSchema>|
        schema_views(schemas@) == views && #[trigger] call_ensures(encode, (&schemas,), r)
}

/// Whether an encoder can give this result for the index of the given tensors.
pub open spec fn index_encodes_to<F: Fn(&NcfIndex) -> Result<Vec<u8>, NcfError>>(
    encode: F,
    ts: Seq<(SchemaView, Seq<u8>)>,
    base: int,
    levels: Map<Seq<char>, QuantLevel>,
    r: Result<Vec<u8>, NcfError>,
) -> bool {
    exists|index: NcfIndex|
        index_describes(index, ts, base, levels) && #[trigger] call_ensures(encode, (&index,), r)
}

/// Whether this is the index of the given tensors.
pub open spec fn index_describes(
    index: NcfIndex,
    ts: Seq<(SchemaView, Seq<u8>)>,
    base: int,
    levels: Map<Seq<char>, QuantLevel>,
) -> bool {
    &&& index.entry_count == ts.len()
    &&& index.entries@ == entries_for(ts, base, ts.len() as int)
    &&& index.tensor_map@ == first_ids(ts, ts.len() as int)
    &&& index.quant_levels@ == levels
}

/// How often a file with this many tensors is laid out at most. A reference holds two offsets; an
/// encoding that takes up to nine bytes for an offset, and no fewer for a larger one, settles
/// within this bound.
pub open spec fn round_limit(count: int) -> int {
    16 * count + 8
}

/// Whether each encoding of a list differs in length from the one before.
pub open spec fn unsettled(tries: Seq<Vec<u8>>) -> bool {
    forall|i: int| 0 < i < tries.len() ==> (#[trigger] tries[i])@.len() != tries[i - 1]@.len()
}

/// Whether the last encoding of a list, and no earlier one, has the length of the one before.
pub open spec fn settles(tries: Seq<Vec<u8>>) -> bool {
    &&& tries.len() >= 2
    &&& unsettled(tries.drop_last())
    &&& tries.last()@.len() == tries[tries.len() - 2]@.len()
}

impl NcfWriter {
    /// The schemas if the chunks stand behind these two blocks.
    pub open spec fn schemas_behind(&self, header: Vec<u8>, schema: Vec<u8>) -> Seq<SchemaView> {
        located_schemas(
            self.spec_tensors(),
            FILE_HEADER_PREFIX_SIZE + header@.len() + schema@.len(),
            self.tensors@.len() as int,
        )
    }

    /// The schemas to encode after these encodings: at first without chunk references, then with
    /// references made for the length of the last encoding.
    pub open spec fn schemas_after(&self, header: Vec<u8>, tries: Seq<Vec<u8>>) -> Seq<SchemaView> {
        if tries.len() == 0 {
            located_schemas(self.spec_tensors(), 0, 0)
        } else {
            self.schemas_behind(header, tries.last())
        }
    }

    /// Whether the encoder can give these encodings, one after the other.
    pub open spec fn encodes_tries<S: Fn(&Vec<TensorSchema>) -> Result<Vec<u8>, NcfError>>(
        &self,
        encode_schemas: S,
        header: Vec<u8>,
        tries: Seq<Vec<u8>>,
    ) -> bool {
        forall|i: int|
            0 <= i < tries.len() ==> schemas_encode_to(
                encode_schemas,
                self.schemas_after(header, tries.take(i)),
                Ok(#[trigger] tries[i]),
            )
    }

    /// Whether the encoder can give this result for the index of a file whose chunks stand
    /// behind these two blocks.
    pub open spec fn encodes_index<I: Fn(&NcfIndex) -> Result<Vec<u8>, NcfError>>(
        &self,
        encode_index: I,
        header: Vec<u8>,
        schema: Vec<u8>,
        r: Result<Vec<u8>, NcfError>,
    ) -> bool {
        index_encodes_to(
            encode_index,
            self.spec_tensors(),
            FILE_HEADER_PREFIX_SIZE + header@.len() + schema@.len(),
            self.tensor_quant_levels@,
            r,
        )
    }

    /// Whether the encoders can give these blocks, each from what it is meant to hold. The schema
    /// block is the last of the tries, and its references are made for its own length.
    pub open spec fn encodes_blocks<
        H: Fn(&NcfHeader) -> Result<Vec<u8>, NcfError>,
        S: Fn(&Vec<TensorSchema>) -> Result<Vec<u8>, NcfError>,
        I: Fn(&NcfIndex) -> Result<Vec<u8>, NcfError>,
    >(
        &self,
        encode_header: H,
        encode_schemas: S,
        encode_index: I,
        header: Vec<u8>,
        tries: Seq<Vec<u8>>,
        index: Vec<u8>,
    ) -> bool {
        &&& call_ensures(encode_header, (&self.metadata,), Ok(header))
        &&& self.encodes_tries(encode_schemas, header, tries)
        &&& settles(tries)
        &&& tries.len() <= round_limit(self.tensors@.len() as int) + 1
        &&& self.encodes_index(encode_index, header, tries.last(), Ok(index))
    }

    /// Whether, after the encoders before it gave their bytes, an encoder can fail with this error
    /// on what it is meant to encode, or the encoding of the schemas does not settle.
    pub open spec fn encoding_fails<
        H: Fn(&NcfHeader) -> Result<Vec<u8>, NcfError>,
        S: Fn(&Vec<TensorSchema>) -> Result<Vec<u8>, NcfError>,
        I: Fn(&NcfIndex) -> Result<Vec<u8>, NcfError>,
    >(&self, encode_header: H, encode_schemas: S, encode_index: I, e: NcfError) -> bool {
        ||| call_ensures(encode_header, (&self.metadata,), Err(e))
        ||| exists|header: Vec<u8>, tries: Seq<Vec<u8>>|
            call_ensures(encode_header, (&self.metadata,), Ok(header))
                && #[trigger] self.encodes_tries(encode_schemas, header, tries) && unsettled(tries)
                && schemas_encode_to(encode_schemas, self.schemas_after(header, tries), Err(e))
        ||| exists|header: Vec<u8>, tries: Seq<Vec<u8>>|
            call_ensures(encode_header, (&self.metadata,), Ok(header))
                && #[trigger] self.encodes_tries(encode_schemas, header, tries) && unsettled(tries)
                && tries.len() == round_limit(self.tensors@.len() as int) + 1 && e == NcfError::Io(
                IoError::LayoutUnsettled,
            )
        ||| exists|header: Vec<u8>, tries: Seq<Vec<u8>>|
            call_ensures(encode_header, (&self.metadata,), Ok(header))
                && #[trigger] self.encodes_tries(encode_schemas, header, tries) && settles(tries)
                && self.encodes_index(encode_index, header, tries.last(), Err(e))
    }

    /// Encode the schemas and lay the file out until the references fit the encoding that holds
    /// them: the schema block and the layout.
    fn settle<S: Fn(&Vec<TensorSchema>) -> Result<Vec<u8>, NcfError>>(
        &self,
        header: &Vec<u8>,
        encode_schemas: &S,
    ) -> (r: Result<(Vec<u8>, FileLayout), NcfError>)
        requires
            forall|s: Vec<TensorSchema>| #[trigger] call_requires(*encode_schemas, (&s,)),
            forall|s: Vec<TensorSchema>, b: Vec<u8>| #[trigger]
                call_ensures(*encode_schemas, (&s,), Ok(b)) ==> FILE_HEADER_PREFIX_SIZE
                    + header@.len() + b@.len() + undeduplicated_len(
                    self.spec_tensors(),
                    self.tensors@.len() as int,
                ) <= u64::MAX,
        ensures
            match r {
                Ok(found) => {
                    &&& found.1.lays_out(
                        self.spec_tensors(),
                        FILE_HEADER_PREFIX_SIZE + header@.len() + found.0@.len(),
                    )
                    &&& FILE_HEADER_PREFIX_SIZE + header@.len() + found.0@.len()
                        + undeduplicated_len(
                        self.spec_tensors(),
                        self.tensors@.len() as int,
                    ) <= u64::MAX
                    &&& exists|tries: Seq<Vec<u8>>| #[trigger]
                        self.encodes_tries(*encode_schemas, *header, tries) && settles(tries)
                            && tries.len() <= round_limit(self.tensors@.len() as int) + 1
                            && tries.last() == found.0
                },
                Err(e) => exists|tries: Seq<Vec<u8>>| #[trigger]
                    self.encodes_tries(*encode_schemas, *header, tries) && unsettled(tries) && (
                    schemas_encode_to(*encode_schemas, self.schemas_after(*header, tries), Err(e))
                        || (tries.len() == round_limit(self.tensors@.len() as int) + 1 && e
                        == NcfError::Io(IoError::LayoutUnsettled))),
            },
    {
        let ghost ts = self.spec_tensors();
        let ghost n = ts.len() as int;
        let ghost mut tries: Seq<Vec<u8>> = Seq::empty();
        let header_len: u64 = header.len() as u64;
        let blank_schemas: Vec<TensorSchema> = self.blank_schemas();
        assert(self.encodes_tries(*encode_schemas, *header, tries));
        assert(unsettled(tries));
        let mut last: Vec<u8> = match encode_schemas(&blank_schemas) {
            Ok(bytes) => bytes,
            Err(e) => {
                assert(schemas_encode_to(
                    *encode_schemas,
                    self.schemas_after(*header, tries),
                    Err(e),
                ));
                return Err(e);
            },
        };
        proof {
            self.lemma_try_added(*encode_schemas, *header, tries, last);
            tries = tries.push(last);
            lemma_undeduplicated_least(ts, n);
        }
        let limit: u64 = 16 * self.tensors.len() as u64 + 8;
        let mut round: u64 = 0;
        while round < limit
            invariant
                ts == self.spec_tensors(),
                n == ts.len(),
                header_len == header@.len(),
                limit == round_limit(n),
                round <= limit,
                tries.len() == round + 1,
                tries.last() == last,
                unsettled(tries),
                self.encodes_tries(*encode_schemas, *header, tries),
                FILE_HEADER_PREFIX_SIZE + header@.len() + last@.len() + undeduplicated_len(ts, n)
                    <= u64::MAX,
                forall|s: Vec<TensorSchema>| #[trigger] call_requires(*encode_schemas, (&s,)),
                forall|s: Vec<TensorSchema>, b: Vec<u8>| #[trigger]
                    call_ensures(*encode_schemas, (&s,), Ok(b)) ==> FILE_HEADER_PREFIX_SIZE
                        + header@.len() + b@.len() + undeduplicated_len(ts, n) <= u64::MAX,
            decreases limit - round,
        {
            let layout: FileLayout = self.layout(header_len, last.len() as u64);
            let next: Vec<u8> = match encode_schemas(&layout.schemas) {
                Ok(bytes) => bytes,
                Err(e) => {
                    assert(schemas_encode_to(
                        *encode_schemas,
                        self.schemas_after(*header, tries),
                        Err(e),
                    ));
                    return Err(e);
                },
            };
            let ghost before = tries;
            proof {
                self.lemma_try_added(*encode_schemas, *header, tries, next);
                tries = tries.push(next);
                assert(tries.drop_last() =~= before);
            }
            if next.len() == last.len() {
                assert(settles(tries));
                return Ok((next, layout));
            }
            last = next;
            round += 1;
        }
        Err(NcfError::Io(IoError::LayoutUnsettled))
    }

    proof fn lemma_try_added<S: Fn(&Vec<TensorSchema>) -> Result<Vec<u8>, NcfError>>(
        &self,
        encode_schemas: S,
        header: Vec<u8>,
        tries: Seq<Vec<u8>>,
        next: Vec<u8>,
    )
        requires
            self.encodes_tries(encode_schemas, header, tries),
            schemas_encode_to(encode_schemas, self.schemas_after(header, tries), Ok(next)),
        ensures
            self.encodes_tries(encode_schemas, header, tries.push(next)),
    {
        let more = tries.push(next);
        assert forall|i: int| 0 <= i < more.len() implies schemas_encode_to(
            encode_schemas,
            self.schemas_after(header, more.take(i)),
            Ok(#[trigger] more[i]),
        ) by {
            if i < tries.len() {
                assert(more.take(i) =~= tries.take(i));
                assert(more[i] == tries[i]);
            } else {
                assert(more.take(i) =~= tries);
            }
        }
    }

    /// Build the image of the file. The schema block is encoded without chunk references first,
    /// then with references made for the length of the last encoding, until the length stays.
    pub fn finalize<
        H: Fn(&NcfHeader) -> Result<Vec<u8>, NcfError>,
        S: Fn(&Vec<TensorSchema>) -> Result<Vec<u8>, NcfError>,
        I: Fn(&NcfIndex) -> Result<Vec<u8>, NcfError>,
    >(&self, encode_header: H, encode_schemas: S, encode_index: I) -> (r: Result<Vec<u8>, NcfError>)
        requires
            call_requires(encode_header, (&self.metadata,)),
            forall|s: Vec<TensorSchema>| #[trigger] call_requires(encode_schemas, (&s,)),
            forall|x: NcfIndex| #[trigger] call_requires(encode_index, (&x,)),
            forall|h: Vec<u8>, s: Vec<TensorSchema>, b: Vec<u8>| #[trigger]
                call_ensures(encode_header, (&self.metadata,), Ok(h)) && #[trigger] call_ensures(
                    encode_schemas,
                    (&s,),
                    Ok(b),
                ) ==> FILE_HEADER_PREFIX_SIZE + h@.len() + b@.len() + undeduplicated_len(
                    self.spec_tensors(),
                    self.tensors@.len() as int,
                ) <= u64::MAX,
        ensures
            match r {
                Ok(file) => exists|header: Vec<u8>, tries: Seq<Vec<u8>>, index: Vec<u8>| #[trigger]
                    self.encodes_blocks(
                        encode_header,
                        encode_schemas,
                        encode_index,
                        header,
                        tries,
                        index,
                    ) && file@ == image(
                        self.flags,
                        header@,
                        tries.last()@,
                        chunk_area(self.spec_tensors(), self.tensors@.len() as int),
                        index@,
                        self.tensors@.len() as int,
                    ),
                Err(e) => self.encoding_fails(encode_header, encode_schemas, encode_index, e),
            },
    {
        let ghost ts = self.spec_tensors();
        let ghost n = ts.len() as int;
        proof {
            lemma_area_len(ts, n);
        }
        let header: Vec<u8> = match encode_header(&self.metadata) {
            Ok(bytes) => bytes,
            Err(e) => return Err(e),
        };
        let (schema, layout): (Vec<u8>, FileLayout) = match self.settle(&header, &encode_schemas) {
            Ok(found) => found,
            Err(e) => return Err(e),
        };
        let ghost tries = choose|tries: Seq<Vec<u8>>| #[trigger]
            self.encodes_tries(encode_schemas, header, tries) && settles(tries) && tries.len()
                <= round_limit(n) + 1 && tries.last() == schema;
        let count: u64 = self.tensors.len() as u64;
        let index: NcfIndex = NcfIndex::with_quant_levels(
            layout.entries,
            layout.tensor_map,
            self.tensor_quant_levels.clone(),
        );
        assert(index_describes(
            index,
            ts,
            FILE_HEADER_PREFIX_SIZE + header@.len() + schema@.len(),
            self.tensor_quant_levels@,
        ));
        let index_bytes: Vec<u8> = match encode_index(&index) {
            Ok(bytes) => bytes,
            Err(e) => {
                assert(self.encodes_index(encode_index, header, schema, Err(e)));
                assert(self.encodes_tries(encode_schemas, header, tries));
                return Err(e);
            },
        };
        assert(self.encodes_blocks(
            encode_header,
            encode_schemas,
            encode_index,
            header,
            tries,
            index_bytes,
        ));
        Ok(
            assemble(
                self.flags,
                header.as_slice(),
                schema.as_slice(),
                layout.chunk_data.as_slice(),
                index_bytes.as_slice(),
                count,
            ),
        )
    }
}

proof fn lemma_undeduplicated_least(ts: Seq<(SchemaView, Seq<u8>)>, n: int)
    requires
        0 <= n <= ts.len(),
    ensures
        undeduplicated_len(ts, n) >= 60 * n,
    decreases n,
{
    if n > 0 {
        lemma_undeduplicated_least(ts, n - 1);
    }
}

/// One more reference goes to the first schema of its name.
proof fn lemma_located_step(
    ts: Seq<(SchemaView, Seq<u8>)>,
    base: int,
    at: int,
    before: Seq<TensorSchema>,
    after: Seq<TensorSchema>,
)
    requires
        0 <= at < ts.len(),
        schema_views(before) == located_schemas(ts, base, at),
        after.len() == before.len(),
        forall|k: int|
            0 <= k < before.len() ==> (#[trigger] after[k])@ == (SchemaView {
                chunks: if before[k].name@ == ts[at].0.name && (forall|j: int|
                    0 <= j < k ==> (#[trigger] before[j]).name@ != ts[at].0.name) {
                    before[k].chunks@.push(chunk_ref(ts, base, at))
                } else {
                    before[k].chunks@
                },
                ..before[k]@
            }),
    ensures
        schema_views(after) == located_schemas(ts, base, at + 1),
{
    let name = ts[at].0.name;
    assert(before.len() == ts.len()) by {
        assert(schema_views(before).len() == before.len());
    }
    assert forall|k: int| 0 <= k < before.len() implies (#[trigger] before[k])@ == located_schemas(
        ts,
        base,
        at,
    )[k] by {
        assert(schema_views(before)[k] == before[k]@);
    }
    assert forall|k: int| 0 <= k < ts.len() implies (#[trigger] after[k])@ == located_schemas(
        ts,
        base,
        at + 1,
    )[k] by {
        assert(before[k]@ == located_schemas(ts, base, at)[k]);
        assert(before[k].name@ == ts[k].0.name);
        if before[k].name@ == name {
            if forall|j: int| 0 <= j < k ==> (#[trigger] before[j]).name@ != name {
                assert forall|j: int| 0 <= j < k implies (#[trigger] ts[j]).0.name
                    != ts[k].0.name by {
                    assert(before[j]@ == located_schemas(ts, base, at)[j]);
                    assert(before[j].name@ != name);
                }
                assert(is_first_of_name(ts, k));
            } else {
                let j = choose|j: int| 0 <= j < k && (#[trigger] before[j]).name@ == name;
                assert(before[j]@ == located_schemas(ts, base, at)[j]);
                assert(ts[j].0.name == name);
                assert(!is_first_of_name(ts, k));
            }
        }
        assert(after[k]@.chunks =~= located_schemas(ts, base, at + 1)[k].chunks);
    }
    assert(schema_views(after) =~= located_schemas(ts, base, at + 1));
}

/// Whether the length of the encoded schemas does not fall when the chunks stand farther back, and
/// grows by at most eight bytes for each of the two offsets of a reference.
pub open spec fn grows_with_offsets<S: Fn(&Vec<TensorSchema>) -> Result<Vec<u8>, NcfError>>(
    encode: S,
    ts: Seq<(SchemaView, Seq<u8>)>,
) -> bool {
    forall|near: int, far: int, a: Vec<u8>, b: Vec<u8>|
        near <= far && #[trigger] schemas_encode_to(
            encode,
            located_schemas(ts, near, ts.len() as int),
            Ok(a),
        ) && #[trigger] schemas_encode_to(
            encode,
            located_schemas(ts, far, ts.len() as int),
            Ok(b),
        ) ==> a@.len() <= b@.len() <= a@.len() + 16 * ts.len()
}

proof fn lemma_tries_drift<S: Fn(&Vec<TensorSchema>) -> Result<Vec<u8>, NcfError>>(
    writer: NcfWriter,
    encode: S,
    header: Vec<u8>,
    tries: Seq<Vec<u8>>,
    i: int,
)
    requires
        writer.encodes_tries(encode, header, tries),
        unsettled(tries),
        grows_with_offsets(encode, writer.spec_tensors()),
        1 <= i < tries.len(),
    ensures
        tries[1]@.len() > tries[0]@.len() ==> tries[i]@.len() > tries[i - 1]@.len()
            && tries[i]@.len() >= tries[1]@.len() + (i - 1),
        tries[1]@.len() < tries[0]@.len() ==> tries[i]@.len() < tries[i - 1]@.len()
            && tries[i]@.len() + (i - 1) <= tries[1]@.len(),
    decreases i,
{
    if i > 1 {
        lemma_tries_drift(writer, encode, header, tries, i - 1);
        let ts = writer.spec_tensors();
        let n = ts.len() as int;
        let head = FILE_HEADER_PREFIX_SIZE + header@.len();
        assert(tries.take(i).last() == tries[i - 1]);
        assert(tries.take(i - 1).last() == tries[i - 2]);
        assert(schemas_encode_to(
            encode,
            located_schemas(ts, head + tries[i - 1]@.len(), n),
            Ok(tries[i]),
        ));
        assert(schemas_encode_to(
            encode,
            located_schemas(ts, head + tries[i - 2]@.len(), n),
            Ok(tries[i - 1]),
        ));
        assert(tries[i]@.len() != tries[i - 1]@.len());
    }
}

/// The layout settles for every encoder whose results grow with the offsets, and by no more than
/// eight bytes for each: it never comes to the limit of rounds.
pub proof fn law_layout_settles<S: Fn(&Vec<TensorSchema>) -> Result<Vec<u8>, NcfError>>(
    writer: NcfWriter,
    encode: S,
    header: Vec<u8>,
    tries: Seq<Vec<u8>>,
)
    requires
        writer.encodes_tries(encode, header, tries),
        grows_with_offsets(encode, writer.spec_tensors()),
        tries.len() == round_limit(writer.tensors@.len() as int) + 1,
    ensures
        !unsettled(tries),
{
    if unsettled(tries) {
        let ts = writer.spec_tensors();
        let n = ts.len() as int;
        let m = tries.len() - 1;
        let head = FILE_HEADER_PREFIX_SIZE + header@.len();
        assert(tries[1]@.len() != tries[0]@.len());
        lemma_tries_drift(writer, encode, header, tries, m);
        lemma_tries_drift(writer, encode, header, tries, m - 1);
        assert(tries.take(m).last() == tries[m - 1]);
        assert(tries.take(1).last() == tries[0]);
        assert(schemas_encode_to(
            encode,
            located_schemas(ts, head + tries[m - 1]@.len(), n),
            Ok(tries[m]),
        ));
        assert(schemas_encode_to(
            encode,
            located_schemas(ts, head + tries[0]@.len(), n),
            Ok(tries[1]),
        ));
    }
}

/// Whether an encoder gives one result for schemas that say the same.
pub open spec fn is_schema_function<S: Fn(&Vec<TensorSchema>) -> Result<Vec<u8>, NcfError>>(
    encode: S,
) -> bool {
    forall|views: Seq<SchemaView>, a: Result<Vec<u8>, NcfError>, b: Result<Vec<u8>, NcfError>|
        #[trigger] schemas_encode_to(encode, views, a) && #[trigger] schemas_encode_to(
            encode,
            views,
            b,
        ) ==> same_bytes_or_failure(a, b)
}

/// Whether two results are the same bytes or both failures.
pub open spec fn same_bytes_or_failure(
    a: Result<Vec<u8>, NcfError>,
    b: Result<Vec<u8>, NcfError>,
) -> bool {
    match (a, b) {
        (Ok(x), Ok(y)) => x@ == y@,
        (Err(_), Err(_)) => true,
        _ => false,
    }
}

/// Whether an encoder gives one result for an index that says the same.
pub open spec fn is_index_function<I: Fn(&NcfIndex) -> Result<Vec<u8>, NcfError>>(
    encode: I,
) -> bool {
    forall|
        ts: Seq<(SchemaView, Seq<u8>)>,
        base: int,
        levels: Map<Seq<char>, QuantLevel>,
        a: Result<Vec<u8>, NcfError>,
        b: Result<Vec<u8>, NcfError>,
    |
        #[trigger] index_encodes_to(encode, ts, base, levels, a) && #[trigger] index_encodes_to(
            encode,
            ts,
            base,
            levels,
            b,
        ) ==> same_bytes_or_failure(a, b)
}

proof fn lemma_tries_agree<S: Fn(&Vec<TensorSchema>) -> Result<Vec<u8>, NcfError>>(
    writer: NcfWriter,
    encode: S,
    header: Vec<u8>,
    again: Vec<u8>,
    a: Seq<Vec<u8>>,
    b: Seq<Vec<u8>>,
    i: int,
)
    requires
        is_schema_function(encode),
        header@ == again@,
        writer.encodes_tries(encode, header, a),
        writer.encodes_tries(encode, again, b),
        0 <= i < a.len(),
        i < b.len(),
    ensures
        a[i]@ == b[i]@,
        writer.schemas_after(header, a.take(i)) == writer.schemas_after(again, b.take(i)),
    decreases i,
{
    if i > 0 {
        lemma_tries_agree(writer, encode, header, again, a, b, i - 1);
        assert(a.take(i).last() == a[i - 1]);
        assert(b.take(i).last() == b[i - 1]);
    }
    assert(schemas_encode_to(encode, writer.schemas_after(header, a.take(i)), Ok(a[i])));
    assert(schemas_encode_to(encode, writer.schemas_after(again, b.take(i)), Ok(b[i])));
}

proof fn lemma_settled_no_sooner<S: Fn(&Vec<TensorSchema>) -> Result<Vec<u8>, NcfError>>(
    writer: NcfWriter,
    encode: S,
    header: Vec<u8>,
    again: Vec<u8>,
    a: Seq<Vec<u8>>,
    b: Seq<Vec<u8>>,
)
    requires
        is_schema_function(encode),
        header@ == again@,
        writer.encodes_tries(encode, header, a),
        writer.encodes_tries(encode, again, b),
        settles(a),
        unsettled(b) || settles(b),
    ensures
        unsettled(b) ==> b.len() < a.len(),
        settles(b) ==> b.len() >= a.len(),
{
    let m = a.len() - 1;
    if m < b.len() {
        lemma_tries_agree(writer, encode, header, again, a, b, m);
        lemma_tries_agree(writer, encode, header, again, a, b, m - 1);
        assert(b[m]@.len() == b[m - 1]@.len());
    } else if settles(b) {
        let k = b.len() - 1;
        lemma_tries_agree(writer, encode, header, again, a, b, k);
        lemma_tries_agree(writer, encode, header, again, a, b, k - 1);
        assert(k < m);
        assert(a.drop_last()[k] == a[k]);
        assert(a.drop_last()[k - 1] == a[k - 1]);
        assert(a.drop_last()[k]@.len() != a.drop_last()[k - 1]@.len());
    }
}

/// Whether an encoder gives one result for a header.
pub open spec fn is_header_function<H: Fn(&NcfHeader) -> Result<Vec<u8>, NcfError>>(
    encode: H,
    header: NcfHeader,
) -> bool {
    forall|a: Result<Vec<u8>, NcfError>, b: Result<Vec<u8>, NcfError>|
        #[trigger] call_ensures(encode, (&header,), a) && #[trigger] call_ensures(
            encode,
            (&header,),
            b,
        ) ==> same_bytes_or_failure(a, b)
}

/// Blocks that the encoders give for a writer are the blocks that they give again.
proof fn lemma_blocks_agree<
    H: Fn(&NcfHeader) -> Result<Vec<u8>, NcfError>,
    S: Fn(&Vec<TensorSchema>) -> Result<Vec<u8>, NcfError>,
    I: Fn(&NcfIndex) -> Result<Vec<u8>, NcfError>,
>(
    writer: NcfWriter,
    encode_header: H,
    encode_schemas: S,
    encode_index: I,
    header: Vec<u8>,
    tries: Seq<Vec<u8>>,
    index: Vec<u8>,
    header2: Vec<u8>,
    tries2: Seq<Vec<u8>>,
    index2: Vec<u8>,
)
    requires
        is_header_function(encode_header, writer.metadata),
        is_schema_function(encode_schemas),
        is_index_function(encode_index),
        writer.encodes_blocks(
            encode_header,
            encode_schemas,
            encode_index,
            header,
            tries,
            index,
        ),
        writer.encodes_blocks(
            encode_header,
            encode_schemas,
            encode_index,
            header2,
            tries2,
            index2,
        ),
    ensures
        header2@ == header@,
        tries2.last()@ == tries.last()@,
        index2@ == index@,
{
    assert(same_bytes_or_failure(Ok(header), Ok(header2)));
    lemma_settled_no_sooner(writer, encode_schemas, header, header2, tries, tries2);
    lemma_settled_no_sooner(writer, encode_schemas, header2, header, tries2, tries);
    let last = tries.len() - 1;
    lemma_tries_agree(writer, encode_schemas, header, header2, tries, tries2, last);
    assert(writer.encodes_index(encode_index, header, tries.last(), Ok(index)));
    assert(writer.encodes_index(encode_index, header2, tries2.last(), Ok(index2)));
    assert(same_bytes_or_failure(Ok(index), Ok(index2)));
}

/// Where the schemas settled once, encoding them again neither fails nor comes to the limit.
proof fn lemma_schemas_settle_again<S: Fn(&Vec<TensorSchema>) -> Result<Vec<u8>, NcfError>>(
    writer: NcfWriter,
    encode: S,
    header: Vec<u8>,
    tries: Seq<Vec<u8>>,
    header2: Vec<u8>,
    tries2: Seq<Vec<u8>>,
    e: NcfError,
)
    requires
        is_schema_function(encode),
        header@ == header2@,
        writer.encodes_tries(encode, header, tries),
        settles(tries),
        tries.len() <= round_limit(writer.tensors@.len() as int) + 1,
        writer.encodes_tries(encode, header2, tries2),
        unsettled(tries2),
    ensures
        !schemas_encode_to(encode, writer.schemas_after(header2, tries2), Err(e)),
        tries2.len() < round_limit(writer.tensors@.len() as int) + 1,
{
    lemma_settled_no_sooner(writer, encode, header, header2, tries, tries2);
    let k = tries2.len() as int;
    if k > 0 {
        lemma_tries_agree(writer, encode, header, header2, tries, tries2, k - 1);
        assert(tries.take(k).last() == tries[k - 1]);
        assert(tries2.last() == tries2[k - 1]);
    }
    let views = writer.schemas_after(header, tries.take(k));
    assert(schemas_encode_to(encode, views, Ok(tries[k])));
    assert(views == writer.schemas_after(header2, tries2));
    if schemas_encode_to(encode, views, Err(e)) {
        assert(same_bytes_or_failure(Ok(tries[k]), Err(e)));
    }
}

/// Where the index was encoded once, encoding it again does not fail.
proof fn lemma_index_encodes_again<
    H: Fn(&NcfHeader) -> Result<Vec<u8>, NcfError>,
    S: Fn(&Vec<TensorSchema>) -> Result<Vec<u8>, NcfError>,
    I: Fn(&NcfIndex) -> Result<Vec<u8>, NcfError>,
>(
    writer: NcfWriter,
    encode_header: H,
    encode_schemas: S,
    encode_index: I,
    header: Vec<u8>,
    tries: Seq<Vec<u8>>,
    index: Vec<u8>,
    header2: Vec<u8>,
    tries2: Seq<Vec<u8>>,
    e: NcfError,
)
    requires
        is_header_function(encode_header, writer.metadata),
        is_schema_function(encode_schemas),
        is_index_function(encode_index),
        writer.encodes_blocks(
            encode_header,
            encode_schemas,
            encode_index,
            header,
            tries,
            index,
        ),
        header@ == header2@,
        writer.encodes_tries(encode_schemas, header2, tries2),
        settles(tries2),
    ensures
        !writer.encodes_index(encode_index, header2, tries2.last(), Err(e)),
{
    lemma_settled_no_sooner(writer, encode_schemas, header, header2, tries, tries2);
    lemma_settled_no_sooner(writer, encode_schemas, header2, header, tries2, tries);
    let last = tries.len() - 1;
    lemma_tries_agree(writer, encode_schemas, header, header2, tries, tries2, last);
    assert(writer.encodes_index(encode_index, header, tries.last(), Ok(index)));
    if writer.encodes_index(encode_index, header2, tries2.last(), Err(e)) {
        assert(same_bytes_or_failure(Ok(index), Err(e)));
    }
}

/// Where every block was encoded once, no encoder fails.
proof fn lemma_no_encoder_fails<
    H: Fn(&NcfHeader) -> Result<Vec<u8>, NcfError>,
    S: Fn(&Vec<TensorSchema>) -> Result<Vec<u8>, NcfError>,
    I: Fn(&NcfIndex) -> Result<Vec<u8>, NcfError>,
>(
    writer: NcfWriter,
    encode_header: H,
    encode_schemas: S,
    encode_index: I,
    header: Vec<u8>,
    tries: Seq<Vec<u8>>,
    index: Vec<u8>,
    e: NcfError,
)
    requires
        is_header_function(encode_header, writer.metadata),
        is_schema_function(encode_schemas),
        is_index_function(encode_index),
        writer.encodes_blocks(
            encode_header,
            encode_schemas,
            encode_index,
            header,
            tries,
            index,
        ),
    ensures
        !writer.encoding_fails(encode_header, encode_schemas, encode_index, e),
{
    let n = writer.tensors@.len() as int;
    if call_ensures(encode_header, (&writer.metadata,), Err(e)) {
        assert(same_bytes_or_failure(Ok(header), Err(e)));
    }
    assert forall|header2: Vec<u8>, tries2: Seq<Vec<u8>>|
        call_ensures(encode_header, (&writer.metadata,), Ok(header2))
            && #[trigger] writer.encodes_tries(encode_schemas, header2, tries2)
            && unsettled(tries2) implies !schemas_encode_to(
        encode_schemas,
        writer.schemas_after(header2, tries2),
        Err(e),
    ) && tries2.len() < round_limit(n) + 1 by {
        assert(same_bytes_or_failure(Ok(header), Ok(header2)));
        lemma_schemas_settle_again(writer, encode_schemas, header, tries, header2, tries2, e);
    }
    assert forall|header2: Vec<u8>, tries2: Seq<Vec<u8>>|
        call_ensures(encode_header, (&writer.metadata,), Ok(header2))
            && #[trigger] writer.encodes_tries(encode_schemas, header2, tries2)
            && settles(tries2) implies !writer.encodes_index(
        encode_index,
        header2,
        tries2.last(),
        Err(e),
    ) by {
        assert(same_bytes_or_failure(Ok(header), Ok(header2)));
        lemma_index_encodes_again(
            writer,
            encode_header,
            encode_schemas,
            encode_index,
            header,
            tries,
            index,
            header2,
            tries2,
            e,
        );
    }
}

/// Finalizing a writer again gives the same bytes again, and does not fail, if the encoders give
/// one result for what says the same.
pub proof fn law_finalize_is_repeatable<
    H: Fn(&NcfHeader) -> Result<Vec<u8>, NcfError>,
    S: Fn(&Vec<TensorSchema>) -> Result<Vec<u8>, NcfError>,
    I: Fn(&NcfIndex) -> Result<Vec<u8>, NcfError>,
>(
    writer: NcfWriter,
    encode_header: H,
    encode_schemas: S,
    encode_index: I,
    header: Vec<u8>,
    tries: Seq<Vec<u8>>,
    index: Vec<u8>,
)
    requires
        is_header_function(encode_header, writer.metadata),
        is_schema_function(encode_schemas),
        is_index_function(encode_index),
        writer.encodes_blocks(
            encode_header,
            encode_schemas,
            encode_index,
            header,
            tries,
            index,
        ),
    ensures
        forall|header2: Vec<u8>, tries2: Seq<Vec<u8>>, index2: Vec<u8>| #[trigger]
            writer.encodes_blocks(
                encode_header,
                encode_schemas,
                encode_index,
                header2,
                tries2,
                index2,
            ) ==> header2@ == header@ && tries2.last()@ == tries.last()@ && index2@ == index@,
        forall|e: NcfError|
            !#[trigger] writer.encoding_fails(encode_header, encode_schemas, encode_index, e),
{
    assert forall|header2: Vec<u8>, tries2: Seq<Vec<u8>>, index2: Vec<u8>| #[trigger]
        writer.encodes_blocks(
            encode_header,
            encode_schemas,
            encode_index,
            header2,
            tries2,
            index2,
        ) implies header2@ == header@ && tries2.last()@ == tries.last()@ && index2@ == index@ by {
        lemma_blocks_agree(
            writer,
            encode_header,
            encode_schemas,
            encode_index,
            header,
            tries,
            index,
            header2,
            tries2,
            index2,
        );
    }
    assert forall|e: NcfError|
        !#[trigger] writer.encoding_fails(encode_header, encode_schemas, encode_index, e) by {
        lemma_no_encoder_fails(
            writer,
            encode_header,
            encode_schemas,
            encode_index,
            header,
            tries,
            index,
            e,
        );
    }
}

} // verus!
