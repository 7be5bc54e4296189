//! The index block: where chunks stand and which chunk a tensor starts with.

use crate::digest::{name_hash, name_hash_of, xxh3_hash};
use crate::name_map::NameMap;
use crate::quantize::QuantLevel;
use crate::schema::{schema_views, SchemaView, TensorSchema};
use vstd::prelude::*;
use vstd::string::*;

verus! {

/// Single entry of the index, describing where a chunk stands.
#[derive(Debug, Clone, Copy, PartialEq, Eq, Structural)]
pub struct IndexEntry {
    /// Chunk identifier.
    pub chunk_id: u64,
    /// Byte offset of the chunk header within the file.
    pub byte_offset: u64,
    /// Length of the chunk: header, payload and checksum.
    pub byte_len: u64,
    /// Hash of the tensor name.
    pub tensor_name_hash: u64,
}

/// In-memory form of the index block.
#[derive(Debug)]
pub struct NcfIndex {
    /// Number of entries.
    pub entry_count: u64,
    /// Entries of the stored chunks.
    pub entries: Vec<IndexEntry>,
    /// Primary chunk id of each tensor name.
    pub tensor_map: NameMap<u64>,
    /// Quantization level of each tensor name that has one.
    pub quant_levels: NameMap<QuantLevel>,
}

/// The value of a name, if it has one.
pub open spec fn lookup<V>(m: Map<Seq<char>, V>, name: Seq<char>) -> Option<V> {
    if m.contains_key(name) {
        Some(m[name])
    } else {
        None
    }
}

/// The entry for the first chunk of a schema.
pub open spec fn first_chunk_entry(schema: SchemaView) -> IndexEntry {
    IndexEntry {
        chunk_id: schema.chunks[0].chunk_id,
        byte_offset: schema.chunks[0].byte_offset,
        byte_len: schema.chunks[0].byte_len,
        tensor_name_hash: name_hash_of(schema.name),
    }
}

/// The entries for the first chunks of those schemas that have chunks, in order.
pub open spec fn first_chunk_entries(schemas: Seq<SchemaView>) -> Seq<IndexEntry>
    decreases schemas.len(),
{
    if schemas.len() == 0 {
        Seq::empty()
    } else {
        let before = first_chunk_entries(schemas.drop_last());
        if schemas.last().chunks.len() == 0 {
            before
        } else {
            before.push(first_chunk_entry(schemas.last()))
        }
    }
}

/// The first chunk id of each name; of schemas with one name the last with chunks counts.
pub open spec fn first_chunk_ids(schemas: Seq<SchemaView>) -> Map<Seq<char>, u64>
    decreases schemas.len(),
{
    if schemas.len() == 0 {
        Map::empty()
    } else {
        let before = first_chunk_ids(schemas.drop_last());
        if schemas.last().chunks.len() == 0 {
            before
        } else {
            before.insert(schemas.last().name, schemas.last().chunks[0].chunk_id)
        }
    }
}

impl NcfIndex {
    /// Construct an index from entries and a tensor map.
    pub fn new(entries: Vec<IndexEntry>, tensor_map: NameMap<u64>) -> (r: Self)
        ensures
            r.entry_count == entries@.len(),
            r.entries@ == entries@,
            r.tensor_map@ == tensor_map@,
            r.quant_levels@ == Map::<Seq<char>, QuantLevel>::empty(),
    {
        let entry_count: u64 = entries.len() as u64;
        NcfIndex { entry_count, entries, tensor_map, quant_levels: NameMap::new() }
    }

    /// Construct an index with explicit quantization levels.
    pub fn with_quant_levels(
        entries: Vec<IndexEntry>,
        tensor_map: NameMap<u64>,
        quant_levels: NameMap<QuantLevel>,
    ) -> (r: Self)
        ensures
            r.entry_count == entries@.len(),
            r.entries@ == entries@,
            r.tensor_map@ == tensor_map@,
            r.quant_levels@ == quant_levels@,
    {
        let entry_count: u64 = entries.len() as u64;
        NcfIndex { entry_count, entries, tensor_map, quant_levels }
    }

    /// Find the primary chunk id of a tensor name.
    pub fn find_chunk_id(&self, name: &str) -> (r: Option<u64>)
        ensures
            r == lookup(self.tensor_map@, name@),
    {
        match self.tensor_map.get(name) {
            Some(id) => Some(*id),
            None => None,
        }
    }

    /// Build a minimal index from schemas, with the first chunk of each tensor.
    pub fn build_from_schemas(schemas: &[TensorSchema]) -> (r: Self)
        ensures
            r.entry_count == r.entries@.len(),
            r.entries@ == first_chunk_entries(schema_views(schemas@)),
            r.tensor_map@ == first_chunk_ids(schema_views(schemas@)),
            r.quant_levels@ == Map::<Seq<char>, QuantLevel>::empty(),
    {
        let ghost views = schema_views(schemas@);
        let mut entries: Vec<IndexEntry> = Vec::new();
        let mut tensor_map: NameMap<u64> = NameMap::new();
        let mut i: usize = 0;
        assert(views.take(0) =~= Seq::<SchemaView>::empty());
        while i < schemas.len()
            invariant
                i <= schemas@.len(),
                views == schema_views(schemas@),
                entries@ == first_chunk_entries(views.take(i as int)),
                tensor_map@ == first_chunk_ids(views.take(i as int)),
            decreases schemas@.len() - i,
        {
            let schema: &TensorSchema = &schemas[i];
            assert(views.take(i + 1).drop_last() =~= views.take(i as int));
            if schema.chunks.len() > 0 {
                entries.push(
                    IndexEntry {
                        chunk_id: schema.chunks[0].chunk_id,
                        byte_offset: schema.chunks[0].byte_offset,
                        byte_len: schema.chunks[0].byte_len,
                        tensor_name_hash: name_hash(schema.name.as_str()),
                    },
                );
                tensor_map.insert(schema.name.clone(), schema.chunks[0].chunk_id);
            }
            i += 1;
        }
        assert(views.take(i as int) =~= views);
        NcfIndex::new(entries, tensor_map)
    }
}

/// Position of the first entry of a chunk, if there is one.
pub open spec fn first_entry(entries: Seq<IndexEntry>, chunk_id: u64) -> Option<int>
    decreases entries.len(),
{
    if entries.len() == 0 {
        None
    } else {
        match first_entry(entries.drop_last(), chunk_id) {
            Some(i) => Some(i),
            None => if entries.last().chunk_id == chunk_id {
                Some(entries.len() - 1)
            } else {
                None
            },
        }
    }
}

/// Position of the last entry of a chunk, if there is one.
pub open spec fn last_entry(entries: Seq<IndexEntry>, chunk_id: u64) -> Option<int>
    decreases entries.len(),
{
    if entries.len() == 0 {
        None
    } else if entries.last().chunk_id == chunk_id {
        Some(entries.len() - 1)
    } else {
        last_entry(entries.drop_last(), chunk_id)
    }
}

/// What the position of a first entry means.
pub proof fn lemma_first_entry(entries: Seq<IndexEntry>, chunk_id: u64)
    ensures
        match first_entry(entries, chunk_id) {
            Some(i) => {
                &&& 0 <= i < entries.len()
                &&& entries[i].chunk_id == chunk_id
                &&& forall|j: int| 0 <= j < i ==> (#[trigger] entries[j]).chunk_id != chunk_id
            },
            None => forall|j: int|
                0 <= j < entries.len() ==> (#[trigger] entries[j]).chunk_id != chunk_id,
        },
    decreases entries.len(),
{
    if entries.len() > 0 {
        let t = entries.drop_last();
        lemma_first_entry(t, chunk_id);
        assert(forall|j: int| 0 <= j < t.len() ==> (#[trigger] entries[j]) == t[j]);
    }
}

/// What the position of a last entry means.
pub proof fn lemma_last_entry(entries: Seq<IndexEntry>, chunk_id: u64)
    ensures
        match last_entry(entries, chunk_id) {
            Some(i) => {
                &&& 0 <= i < entries.len()
                &&& entries[i].chunk_id == chunk_id
                &&& forall|j: int|
                    i < j < entries.len() ==> (#[trigger] entries[j]).chunk_id != chunk_id
            },
            None => forall|j: int|
                0 <= j < entries.len() ==> (#[trigger] entries[j]).chunk_id != chunk_id,
        },
    decreases entries.len(),
{
    if entries.len() > 0 {
        let t = entries.drop_last();
        lemma_last_entry(t, chunk_id);
        assert(forall|j: int| 0 <= j < t.len() ==> (#[trigger] entries[j]) == t[j]);
    }
}

/// Whether no chunk id occurs twice.
pub open spec fn distinct_ids(entries: Seq<IndexEntry>) -> bool {
    forall|i: int, j: int|
        0 <= i < j < entries.len() ==> (#[trigger] entries[i]).chunk_id != (
        #[trigger] entries[j]).chunk_id
}

/// Where no chunk id occurs twice, the first entry of a chunk is also its last.
pub proof fn law_distinct_ids_agree(entries: Seq<IndexEntry>, chunk_id: u64)
    requires
        distinct_ids(entries),
    ensures
        first_entry(entries, chunk_id) == last_entry(entries, chunk_id),
{
    lemma_first_entry(entries, chunk_id);
    lemma_last_entry(entries, chunk_id);
}

/// The first entry of a chunk.
pub fn find_entry(entries: &[IndexEntry], chunk_id: u64) -> (r: Option<usize>)
    ensures
        match r {
            Some(i) => i < entries@.len() && first_entry(entries@, chunk_id) == Some(i as int),
            None => first_entry(entries@, chunk_id) is None,
        },
{
    let mut i: usize = 0;
    while i < entries.len()
        invariant
            i <= entries@.len(),
            forall|j: int| 0 <= j < i ==> (#[trigger] entries@[j]).chunk_id != chunk_id,
        decreases entries@.len() - i,
    {
        if entries[i].chunk_id == chunk_id {
            proof {
                lemma_first_entry(entries@, chunk_id);
            }
            return Some(i);
        }
        i += 1;
    }
    proof {
        lemma_first_entry(entries@, chunk_id);
    }
    None
}

/// An index built from schemas is complete: the name of every schema with chunks leads to a chunk
/// that has an entry.
pub proof fn law_built_index_is_complete(schemas: Seq<SchemaView>, i: int)
    requires
        0 <= i < schemas.len(),
        schemas[i].chunks.len() > 0,
    ensures
        lookup(first_chunk_ids(schemas), schemas[i].name) matches Some(id) && first_entry(
            first_chunk_entries(schemas),
            id,
        ) is Some,
{
    lemma_built_index(schemas, i);
    let id = first_chunk_ids(schemas)[schemas[i].name];
    lemma_first_entry(first_chunk_entries(schemas), id);
}

proof fn lemma_built_index(schemas: Seq<SchemaView>, i: int)
    requires
        0 <= i < schemas.len(),
        schemas[i].chunks.len() > 0,
    ensures
        first_chunk_ids(schemas).contains_key(schemas[i].name),
        exists|k: int|
            0 <= k < first_chunk_entries(schemas).len() && (#[trigger] first_chunk_entries(
                schemas,
            )[k]).chunk_id == first_chunk_ids(schemas)[schemas[i].name],
    decreases schemas.len(),
{
    let t = schemas.drop_last();
    let entries = first_chunk_entries(schemas);
    let name = schemas[i].name;
    if schemas.last().chunks.len() > 0 && schemas.last().name == name {
        let k = entries.len() - 1;
        assert(entries[k].chunk_id == first_chunk_ids(schemas)[name]);
    } else {
        assert(i < t.len());
        assert(t[i] == schemas[i]);
        lemma_built_index(t, i);
        let before = first_chunk_entries(t);
        let k = choose|k: int|
            0 <= k < before.len() && (#[trigger] before[k]).chunk_id == first_chunk_ids(t)[name];
        assert(entries[k] == before[k]);
    }
}

/// Building an index goes schema by schema. A schema without chunks adds nothing. One with chunks
/// adds one entry, with id, place and length of its first chunk and the hash of its name, and its
/// name then leads to that chunk; other names lead where they led.
pub proof fn law_schema_adds_its_first_chunk(
    schemas: Seq<SchemaView>,
    schema: SchemaView,
    other: Seq<char>,
)
    requires
        other != schema.name,
    ensures
        first_chunk_entries(Seq::empty()).len() == 0,
        first_chunk_ids(Seq::empty()) == Map::<Seq<char>, u64>::empty(),
        schema.chunks.len() == 0 ==> first_chunk_entries(schemas.push(schema))
            == first_chunk_entries(schemas) && first_chunk_ids(schemas.push(schema))
            == first_chunk_ids(schemas),
        schema.chunks.len() > 0 ==> {
            let entries = first_chunk_entries(schemas.push(schema));
            let ids = first_chunk_ids(schemas.push(schema));
            let c = schema.chunks[0];
            &&& entries.len() == first_chunk_entries(schemas).len() + 1
            &&& entries.drop_last() == first_chunk_entries(schemas)
            &&& entries.last().chunk_id == c.chunk_id
            &&& entries.last().byte_offset == c.byte_offset
            &&& entries.last().byte_len == c.byte_len
            &&& entries.last().tensor_name_hash == xxh3_hash(vstd::utf8::encode_utf8(schema.name))
            &&& ids.contains_key(schema.name)
            &&& ids[schema.name] == c.chunk_id
            &&& ids.contains_key(other) <==> first_chunk_ids(schemas).contains_key(other)
            &&& ids.contains_key(other) ==> ids[other] == first_chunk_ids(schemas)[other]
        },
{
    assert(schemas.push(schema).drop_last() =~= schemas);
    let before = first_chunk_entries(schemas);
    assert(before.push(first_chunk_entry(schema)).drop_last() =~= before);
}

} // verus!
