use ciborium::value::Value;
use ncf::blocks::{entry_slice, find_named, locate_blocks, locate_header, locate_payload, read_named};
use ncf::error::{IoError, IoErrorKind, NcfError};
use ncf::handle::NcfReaderHandle;
use ncf::header::{Metadata, NcfFlags, NcfHeader};
use ncf::index::{IndexEntry, NcfIndex};
use ncf::mmap::NcfMmap;
use ncf::name_map::NameMap;
use ncf::prefetch::{
    advise_region, fetch_payload, predict_next, prefetch_entry, PrefetchBuffer, PrefetchOptions,
    PrefetchReader,
};
use ncf::quantize::QuantLevel;
use ncf::reader::{BorrowedNcfIndex, NcfReader, ReaderOptions};
use ncf::schema::{ChunkRef, Compression, DType, Encoding, Layout, TensorSchema};
use ncf::writer::{assemble, NcfWriter};

fn uint(n: u64) -> Value {
    Value::Integer(n.into())
}

fn number(v: &Value) -> Result<u64, String> {
    match v {
        Value::Integer(i) => u64::try_from(*i).map_err(|_| "negative".to_string()),
        _ => Err("not a number".to_string()),
    }
}

fn text(v: &Value) -> Result<String, String> {
    match v {
        Value::Text(s) => Ok(s.clone()),
        _ => Err("not a text".to_string()),
    }
}

fn list(v: &Value) -> Result<&Vec<Value>, String> {
    match v {
        Value::Array(items) => Ok(items),
        _ => Err("not a list".to_string()),
    }
}

fn to_bytes(v: &Value) -> Vec<u8> {
    let mut bytes = Vec::new();
    ciborium::ser::into_writer(v, &mut bytes).expect("encode");
    bytes
}

fn from_bytes(bytes: &[u8]) -> Result<Value, String> {
    ciborium::de::from_reader(bytes).map_err(|e| format!("{}", e))
}

fn encode_header(h: &NcfHeader) -> Result<Vec<u8>, NcfError> {
    Ok(to_bytes(&Value::Array(vec![
        Value::Text(h.metadata.model_name.clone()),
        Value::Text(h.metadata.architecture.clone()),
        uint(h.metadata.created_at),
    ])))
}

fn decode_header(bytes: &[u8]) -> Result<NcfHeader, NcfError> {
    let read = || -> Result<NcfHeader, String> {
        let value = from_bytes(bytes)?;
        let items = list(&value)?;
        Ok(header_named(&text(&items[0])?, &text(&items[1])?))
    };
    read().map_err(NcfError::Cbor)
}

fn encode_schemas(schemas: &Vec<TensorSchema>) -> Result<Vec<u8>, NcfError> {
    let items = schemas
        .iter()
        .map(|s| {
            let chunks = s
                .chunks
                .iter()
                .map(|c| {
                    Value::Array(vec![
                        uint(c.chunk_id),
                        uint(c.byte_offset),
                        uint(c.byte_len),
                        uint(c.uncompressed_len),
                        Value::Bytes(c.checksum.to_vec()),
                        match c.canonical_offset {
                            Some(offset) => uint(offset),
                            None => Value::Null,
                        },
                    ])
                })
                .collect();
            Value::Array(vec![
                Value::Text(s.name.clone()),
                Value::Array(s.shape.iter().map(|d| uint(*d)).collect()),
                Value::Array(chunks),
            ])
        })
        .collect();
    Ok(to_bytes(&Value::Array(items)))
}

fn decode_schemas(bytes: &[u8]) -> Result<Vec<TensorSchema>, String> {
    let value = from_bytes(bytes)?;
    let mut schemas = Vec::new();
    for item in list(&value)? {
        let fields = list(item)?;
        let mut schema = plain_schema(&text(&fields[0])?);
        schema.shape.clear();
        for d in list(&fields[1])? {
            schema.shape.push(number(d)?);
        }
        for c in list(&fields[2])? {
            let c = list(c)?;
            let mut checksum = [0u8; 32];
            match &c[4] {
                Value::Bytes(b) => checksum.copy_from_slice(b),
                _ => return Err("not bytes".to_string()),
            }
            schema.chunks.push(ChunkRef {
                chunk_id: number(&c[0])?,
                byte_offset: number(&c[1])?,
                byte_len: number(&c[2])?,
                uncompressed_len: number(&c[3])?,
                checksum,
                canonical_offset: number(&c[5]).ok(),
            });
        }
        schemas.push(schema);
    }
    Ok(schemas)
}

fn encode_index(index: &NcfIndex) -> Result<Vec<u8>, NcfError> {
    let entries = index
        .entries
        .iter()
        .map(|e| {
            Value::Array(vec![
                uint(e.chunk_id),
                uint(e.byte_offset),
                uint(e.byte_len),
                uint(e.tensor_name_hash),
            ])
        })
        .collect();
    let names = index
        .tensor_map
        .entries()
        .iter()
        .map(|(name, id)| Value::Array(vec![Value::Text(name.clone()), uint(*id)]))
        .collect();
    Ok(to_bytes(&Value::Array(vec![Value::Array(entries), Value::Array(names)])))
}

fn decode_index(bytes: &[u8]) -> Result<NcfIndex, String> {
    let value = from_bytes(bytes)?;
    let parts = list(&value)?;
    let mut entries = Vec::new();
    for e in list(&parts[0])? {
        let e = list(e)?;
        entries.push(IndexEntry {
            chunk_id: number(&e[0])?,
            byte_offset: number(&e[1])?,
            byte_len: number(&e[2])?,
            tensor_name_hash: number(&e[3])?,
        });
    }
    let mut tensor_map = NameMap::new();
    for pair in list(&parts[1])? {
        let pair = list(pair)?;
        tensor_map.insert(text(&pair[0])?, number(&pair[1])?);
    }
    Ok(NcfIndex::new(entries, tensor_map))
}

fn decode_borrowed(bytes: &[u8]) -> Result<BorrowedNcfIndex, String> {
    let index = decode_index(bytes)?;
    Ok(BorrowedNcfIndex {
        entry_count: index.entry_count,
        entries: index.entries,
        tensor_map: index.tensor_map,
    })
}

fn header_named(model_name: &str, architecture: &str) -> NcfHeader {
    NcfHeader {
        metadata: Metadata {
            model_name: model_name.to_string(),
            architecture: architecture.to_string(),
            created_at: 1_700_000_000,
            author: Some("tester".to_string()),
            license: None,
            quantization: None,
            custom: NameMap::new(),
        },
    }
}

fn plain_schema(name: &str) -> TensorSchema {
    TensorSchema {
        name: name.to_string(),
        dtype: DType::U8,
        shape: vec![4, 16],
        column_layout: Layout::RowMajor,
        compression: Compression::Uncompressed,
        encoding: Encoding::Plain,
        chunks: Vec::new(),
    }
}

fn writer_of(tensors: &[(&str, &[u8])]) -> NcfWriter {
    let model = "m".repeat(300);
    let mut writer = NcfWriter::new(header_named(&model, "test-arch"), NcfFlags::empty());
    for (name, payload) in tensors {
        writer.add_tensor(plain_schema(name), payload.to_vec());
    }
    writer
}

fn file_of(tensors: &[(&str, &[u8])]) -> Vec<u8> {
    writer_of(tensors)
        .finalize(encode_header, encode_schemas, encode_index)
        .expect("finalize")
}

fn opened(file: &[u8]) -> NcfReader<'_> {
    NcfReader::open(file, decode_header, decode_borrowed).expect("open")
}

fn io_error<T>(r: Result<T, NcfError>) -> IoError {
    match r {
        Err(NcfError::Io(e)) => e,
        _ => panic!("expected an I/O level error"),
    }
}

#[test]
fn roundtrip_write_and_read_tensor() {
    let bytes: Vec<u8> = (0u8..64).collect();
    let model = "integration_test";
    let mut writer = NcfWriter::new(header_named(model, "test-arch"), NcfFlags::empty());
    let mut schema = plain_schema("tensor0");
    schema.shape = vec![bytes.len() as u64];
    writer.add_tensor(schema, bytes.clone());
    let file = writer
        .finalize(encode_header, encode_schemas, encode_index)
        .expect("failed to write ncf fixture");
    let mut reader =
        NcfReader::open(&file, decode_header, decode_borrowed).expect("failed to open written ncf");
    let data = reader
        .read_tensor("tensor0", decode_schemas)
        .expect("read_tensor failed")
        .expect("tensor missing");
    assert_eq!(data, bytes);
}

#[test]
fn tensors_of_one_name_are_joined() {
    let file = file_of(&[("a", &[1, 2]), ("b", &[3]), ("a", &[4, 5, 6])]);
    let mut reader = opened(&file);
    assert_eq!(
        reader.read_tensor("a", decode_schemas).expect("read"),
        Some(vec![1, 2, 4, 5, 6])
    );
    assert_eq!(reader.read_tensor("b", decode_schemas).expect("read"), Some(vec![3]));
    assert_eq!(reader.read_tensor("c", decode_schemas).expect("read"), None);
    assert_eq!(reader.tensor_slice("a"), Some(&[1u8, 2][..]));
    assert_eq!(reader.tensor_slice("c"), None);
    assert_eq!(reader.schema_count().expect("count"), 2);
    let schemas = reader.schemas(decode_schemas).expect("schemas");
    assert_eq!(schemas.len(), 3);
    assert_eq!(schemas[0].chunks.len(), 2);
    assert_eq!(schemas[2].chunks.len(), 0);
    let found = reader.find_schema("b", decode_schemas).expect("schemas");
    assert_eq!(found.expect("schema").chunks[0].chunk_id, 1);
    assert!(reader.find_schema("c", decode_schemas).expect("schemas").is_none());
}

#[test]
fn duplicate_payload_is_stored_once() {
    let writer = writer_of(&[("a", &[7; 10]), ("b", &[8; 3]), ("c", &[7; 10])]);
    let layout = writer.layout(100, 200);
    assert_eq!(layout.chunk_data.len(), (28 + 10 + 32) + (28 + 3 + 32));
    assert_eq!(layout.schemas[0].chunks[0].byte_offset, 348);
    assert_eq!(layout.schemas[0].chunks[0].canonical_offset, None);
    assert_eq!(layout.schemas[1].chunks[0].byte_offset, 348 + 70);
    assert_eq!(layout.schemas[2].chunks[0].byte_offset, 348);
    assert_eq!(layout.schemas[2].chunks[0].canonical_offset, Some(348));
    assert_eq!(layout.schemas[2].chunks[0].byte_len, 70);
    assert_eq!(layout.entries[2].chunk_id, 2);
    assert_eq!(layout.entries[2].byte_offset, 348);
    assert_eq!(layout.tensor_map.get("c"), Some(&2));
    let file = file_of(&[("a", &[7; 10]), ("b", &[8; 3]), ("c", &[7; 10])]);
    let mut reader = opened(&file);
    assert_eq!(reader.read_tensor("c", decode_schemas).expect("read"), Some(vec![7; 10]));
}

#[test]
fn empty_payload_has_the_blake3_digest_of_nothing() {
    let layout = writer_of(&[("e", &[])]).layout(0, 0);
    let digest = layout.schemas[0].chunks[0].checksum;
    assert_eq!(&digest[..8], &[0xaf, 0x13, 0x49, 0xb9, 0xf5, 0xf9, 0xa1, 0xa6]);
    assert_eq!(&digest[24..], &[0xcc, 0x9a, 0x93, 0xca, 0xe4, 0x1f, 0x32, 0x62]);
    assert_eq!(&layout.chunk_data[28..], &digest[..]);
}

#[test]
fn compressed_tensor_is_flagged_in_its_chunk() {
    let mut writer = writer_of(&[]);
    let mut schema = plain_schema("z");
    schema.compression = Compression::Zstd;
    writer.add_tensor(schema, vec![1]);
    let layout = writer.layout(0, 0);
    assert_eq!(&layout.chunk_data[..12], &[0, 0, 0, 0, 0, 0, 0, 0, 1, 0, 0, 0]);
    let blank = writer.blank_schemas();
    assert_eq!(blank[0].chunks.len(), 0);
    assert_eq!(blank[0].name, "z");
}

#[test]
fn blocks_stand_one_behind_the_other() {
    let file = assemble(NcfFlags { bits: 4 }, b"HH", b"SSS", b"CCCC", b"IIIII", 9);
    assert_eq!(file.len(), 48 + 2 + 3 + 4 + 5 + 16);
    assert_eq!(&file[48..62], b"HHSSSCCCCIIIII");
    assert_eq!(&file[62..70], b"NCFEND!!");
    assert_eq!(&file[70..], &[5, 0, 0, 0, 0, 0, 0, 0]);
    let (prefix, header_end) = locate_header(&file).expect("header");
    assert_eq!(header_end, 50);
    assert_eq!(prefix.flags.bits(), 4);
    assert_eq!(prefix.chunk_count, 9);
    assert_eq!(locate_blocks(&file, &prefix).expect("blocks"), (50, 57, 62));
}

#[test]
fn quant_levels_reach_the_index() {
    let mut writer = writer_of(&[("a", &[1])]);
    writer.set_tensor_quant_level("a".to_string(), QuantLevel::Q2);
    let check = |index: &NcfIndex| -> Result<Vec<u8>, NcfError> {
        assert_eq!(index.quant_levels.get("a"), Some(&QuantLevel::Q2));
        assert_eq!(index.entry_count, 1);
        encode_index(index)
    };
    assert!(writer.finalize(encode_header, encode_schemas, check).is_ok());
}

#[test]
fn failing_encoder_fails_the_file() {
    let writer = writer_of(&[("a", &[1])]);
    let no_header = |_: &NcfHeader| -> Result<Vec<u8>, NcfError> {
        Err(NcfError::CborSer("h".to_string()))
    };
    let no_schemas = |_: &Vec<TensorSchema>| -> Result<Vec<u8>, NcfError> {
        Err(NcfError::CborSer("s".to_string()))
    };
    let no_index = |_: &NcfIndex| -> Result<Vec<u8>, NcfError> {
        Err(NcfError::CborSer("i".to_string()))
    };
    let e = writer.finalize(no_header, encode_schemas, encode_index).expect_err("header");
    assert_eq!(e.message(), "CBOR serialize error: h");
    let e = writer.finalize(encode_header, no_schemas, encode_index).expect_err("schemas");
    assert_eq!(e.message(), "CBOR serialize error: s");
    let e = writer.finalize(encode_header, encode_schemas, no_index).expect_err("index");
    assert_eq!(e.message(), "CBOR serialize error: i");
}

#[test]
fn damaged_files_are_refused() {
    let good = file_of(&[("a", &[1, 2, 3])]);
    let open = |file: &[u8]| io_error(NcfReader::open(file, decode_header, decode_borrowed).map(|_| ()));
    assert!(matches!(open(&good[..47]), IoError::FileTooSmall { len: 47 }));
    let mut file = good.clone();
    file[0] = 0;
    assert!(matches!(open(&file), IoError::BadMagic));
    let mut file = good.clone();
    file[16..24].copy_from_slice(&u64::MAX.to_le_bytes());
    assert!(matches!(open(&file), IoError::HeaderOverflow));
    let mut file = good.clone();
    file[16..24].copy_from_slice(&(good.len() as u64).to_le_bytes());
    assert!(matches!(open(&file), IoError::HeaderOutOfBounds { .. }));
    let mut file = good.clone();
    file[48] = 0xFF;
    assert!(matches!(open(&file), IoError::Decode(_)));
    let mut file = good.clone();
    file[32..40].copy_from_slice(&u64::MAX.to_le_bytes());
    assert!(matches!(open(&file), IoError::SchemaOutOfBounds { .. }));
    let at = good.len() - 16;
    let mut file = good.clone();
    file[at] = b'X';
    assert!(matches!(open(&file), IoError::BadFooterMagic));
    let mut file = good.clone();
    file[at + 8..].copy_from_slice(&u64::MAX.to_le_bytes());
    assert!(matches!(open(&file), IoError::IndexOverflow));
    let mut file = good.clone();
    file[at + 8..].copy_from_slice(&1000u64.to_le_bytes());
    assert!(matches!(open(&file), IoError::IndexOverlapsFooter { .. }));
    let mut file = good.clone();
    file[at + 8..].copy_from_slice(&0u64.to_le_bytes());
    assert!(matches!(open(&file), IoError::Decode(_)));
}

#[test]
fn mapped_file_reports_some_damage_otherwise() {
    let good = file_of(&[("a", &[1, 2, 3])]);
    let open = |file: &[u8]| NcfMmap::open(file, decode_header, decode_index).map(|_| ());
    let mut file = good.clone();
    file[0] = 0;
    assert!(matches!(open(&file), Err(NcfError::Header(_))));
    let mut file = good.clone();
    file[48] = 0xFF;
    assert!(matches!(open(&file), Err(NcfError::Cbor(_))));
    let at = good.len() - 8;
    let mut file = good.clone();
    file[at..].copy_from_slice(&0u64.to_le_bytes());
    assert!(matches!(open(&file), Err(NcfError::Cbor(_))));
    assert!(matches!(open(&good[..9]), Err(NcfError::Io(IoError::FileTooSmall { len: 9 }))));
}

#[test]
fn undecodable_schemas_are_a_header_error() {
    let file = file_of(&[("a", &[1])]);
    let refuse = |_: &[u8]| -> Result<Vec<TensorSchema>, String> { Err("no schemas".to_string()) };
    let mut reader = opened(&file);
    match reader.read_tensor("a", refuse) {
        Err(NcfError::Header(text)) => assert_eq!(text, "no schemas"),
        _ => panic!("expected a header error"),
    }
    match reader.inspect(decode_schemas) {
        Err(NcfError::Header(text)) => assert_eq!(text, "no schemas"),
        _ => panic!("the first result stays"),
    }
    let mut view = NcfMmap::open(&file, decode_header, decode_index).expect("open");
    assert!(matches!(view.verify_all_checksums(refuse), Err(NcfError::Header(_))));
}

#[test]
fn bad_chunk_extents_are_refused() {
    let data = [0u8; 100];
    assert_eq!(locate_payload(&data, 10, 70).expect("payload"), (38, 48));
    let fault = |offset: u64, len: u64| locate_payload(&data, offset, len).expect_err("fault");
    assert!(matches!(fault(u64::MAX, 60), IoError::ChunkOffsetOverflow));
    assert!(matches!(
        fault(73, 60),
        IoError::ChunkOffsetOutOfBounds { offset: 101, file_size: 100 }
    ));
    assert!(matches!(fault(0, 59), IoError::ChunkTooSmall { total_len: 59, overhead: 60 }));
    assert!(matches!(fault(72, u64::MAX), IoError::ChunkDataOverflow));
    assert!(matches!(
        fault(72, 61),
        IoError::ChunkDataOutOfBounds { end: 101, file_size: 100 }
    ));
    let entry = IndexEntry { chunk_id: 0, byte_offset: 72, byte_len: 60, tensor_name_hash: 0 };
    assert_eq!(entry_slice(&data, &entry), Some(&[][..]));
    let mut schema = plain_schema("a");
    schema.chunks.push(ChunkRef {
        chunk_id: 0,
        byte_offset: 0,
        byte_len: 1,
        uncompressed_len: 0,
        checksum: [0; 32],
        canonical_offset: None,
    });
    let schemas = [schema];
    assert_eq!(find_named(&schemas, "a"), Some(0));
    assert!(matches!(
        read_named(&data, &schemas, "a"),
        Err(IoError::ChunkTooSmall { .. })
    ));
    assert!(matches!(read_named(&data, &schemas, "b"), Ok(None)));
}

#[test]
fn checksums_of_a_written_file_pass() {
    let mut file = file_of(&[("a", &[1, 2, 3]), ("b", &[9; 40])]);
    let mut view = NcfMmap::open(&file, decode_header, decode_index).expect("open");
    assert!(view.verify_all_checksums(decode_schemas).is_ok());
    assert_eq!(view.tensor_slice("b"), Some(&[9u8; 40][..]));
    assert_eq!(view.tensor_slice("c"), None);
    assert_eq!(view.schemas(decode_schemas).expect("schemas").len(), 2);
    let offset = view.index.entries[1].byte_offset as usize;
    file[offset + 28] = 10;
    let mut view = NcfMmap::open(&file, decode_header, decode_index).expect("open");
    assert!(matches!(
        io_error(view.verify_all_checksums(decode_schemas)),
        IoError::ChecksumMismatch
    ));
    let reader = PrefetchReader::open(&file, decode_header, decode_schemas, decode_index)
        .expect("open");
    assert!(matches!(io_error(reader.verify_all_checksums()), IoError::ChecksumMismatch));
}

#[test]
fn later_entry_counts_in_a_mapped_file() {
    let entries = vec![
        IndexEntry { chunk_id: 0, byte_offset: 0, byte_len: 61, tensor_name_hash: 0 },
        IndexEntry { chunk_id: 0, byte_offset: 1, byte_len: 61, tensor_name_hash: 0 },
    ];
    let mut names = NameMap::new();
    names.insert("a".to_string(), 0);
    let index = to_bytes(&Value::Array(vec![
        Value::Array(
            entries
                .iter()
                .map(|e| Value::Array(vec![uint(e.chunk_id), uint(e.byte_offset), uint(61), uint(0)]))
                .collect(),
        ),
        Value::Array(vec![Value::Array(vec![Value::Text("a".to_string()), uint(0)])]),
    ]));
    let header = encode_header(&header_named("m", "a")).expect("header");
    let schema = encode_schemas(&vec![]).expect("schemas");
    let file = assemble(NcfFlags::empty(), &header, &schema, &[], &index, 2);
    let view = NcfMmap::open(&file, decode_header, decode_index).expect("open");
    assert_eq!(view.tensor_slice("a"), Some(&file[29..30]));
    assert_eq!(opened(&file).tensor_slice("a"), Some(&file[28..29]));
    assert_eq!(names.get("a"), Some(&0));
}

#[test]
fn file_is_described_in_lines() {
    let mut writer = NcfWriter::new(header_named("demo", "arch-1"), NcfFlags::empty());
    writer.add_tensor(plain_schema("w"), vec![0; 64]);
    let file = writer
        .finalize(encode_header, encode_schemas, encode_index)
        .expect("finalize");
    let mut reader = opened(&file);
    let lines = reader.inspect(decode_schemas).expect("inspect");
    assert_eq!(
        lines,
        vec!["Model: demo", "Architecture: arch-1", "Tensors: 1", " - w U8 [4, 16]"]
    );
    assert_eq!(reader.metadata().metadata.model_name, "demo");
    assert_eq!(reader.header_prefix().chunk_count, 1);
}

#[test]
fn prefetch_reader_reads_the_same_bytes() {
    let file = file_of(&[("a", &[1, 2, 3]), ("b", &[4, 5])]);
    let reader = PrefetchReader::open(&file, decode_header, decode_schemas, decode_index)
        .expect("open");
    let mut buffer = PrefetchBuffer::new();
    let direct = reader.read_tensor(&mut buffer, "b").expect("read");
    assert_eq!(direct, Some(vec![4, 5]));
    let a = reader.find_entry("a").expect("entry");
    let b = reader.find_entry("b").expect("entry");
    assert_eq!(predict_next(&reader.index.entries, a.byte_offset), Some(b));
    assert_eq!(predict_next(&reader.index.entries, b.byte_offset), None);
    prefetch_entry(&file, &mut buffer, &b);
    assert_eq!(buffer.take(b.chunk_id), Some(vec![4, 5]));
    prefetch_entry(&file, &mut buffer, &b);
    assert_eq!(reader.read_tensor(&mut buffer, "b").expect("read"), Some(vec![4, 5]));
    assert_eq!(buffer.take(b.chunk_id), None);
    assert_eq!(reader.read_tensor(&mut buffer, "none").expect("read"), None);
    assert_eq!(reader.tensor_slice("a"), Some(&[1u8, 2, 3][..]));
    assert!(reader.verify_all_checksums().is_ok());
    assert_eq!(reader.schemas().expect("schemas").len(), 2);
    assert_eq!(reader.header_prefix().chunk_count, 2);
    assert_eq!(reader.metadata().metadata.architecture, "test-arch");
    assert_eq!(reader.inspect().expect("inspect").len(), 5);
}

#[test]
fn prefetch_buffer_claims_and_keeps() {
    let mut buffer = PrefetchBuffer::new();
    assert!(buffer.begin(5));
    assert!(!buffer.begin(5));
    buffer.finish(5, Some(bytes::Bytes::from_static(b"first")));
    assert!(buffer.begin(5));
    buffer.finish(5, Some(bytes::Bytes::from_static(b"later")));
    assert_eq!(buffer.take(5), Some(b"first".to_vec()));
    assert_eq!(buffer.take(5), None);
    let data = [3u8; 40];
    let within = IndexEntry { chunk_id: 1, byte_offset: 2, byte_len: 70, tensor_name_hash: 0 };
    assert_eq!(fetch_payload(&data, &within).expect("payload").to_vec(), vec![3u8; 10]);
    let past = IndexEntry { byte_len: 71, ..within };
    assert!(fetch_payload(&data, &past).is_none());
    let at_end = IndexEntry { byte_offset: 12, byte_len: 60, ..within };
    assert!(fetch_payload(&data, &at_end).is_none());
}

#[test]
fn prefetch_read_past_the_end_is_refused() {
    let file = file_of(&[("a", &[1, 2, 3])]);
    let mut reader = PrefetchReader::open(&file, decode_header, decode_schemas, decode_index)
        .expect("open");
    reader.index.entries[0].byte_len = 100_000;
    let mut buffer = PrefetchBuffer::new();
    assert!(matches!(
        io_error(reader.read_tensor(&mut buffer, "a")),
        IoError::ChunkDataPastEnd
    ));
    assert_eq!(reader.tensor_slice("a"), None);
    assert!(matches!(io_error(reader.verify_all_checksums()), IoError::ChunkDataPastEnd));
    reader.index.entries[0].byte_offset = u64::MAX;
    assert!(matches!(io_error(reader.verify_all_checksums()), IoError::ChunkOffsetOverflow));
    reader.index.entries[0].byte_offset = 0;
    reader.index.entries[0].byte_len = u64::MAX;
    assert!(matches!(io_error(reader.verify_all_checksums()), IoError::ChunkDataPastEnd));
    reader.index.entries[0].byte_offset = 100;
    assert!(matches!(io_error(reader.verify_all_checksums()), IoError::ChunkDataOverflow));
}

#[test]
fn nearest_later_chunk_is_predicted() {
    let at = |chunk_id: u64, byte_offset: u64| IndexEntry {
        chunk_id,
        byte_offset,
        byte_len: 0,
        tensor_name_hash: 0,
    };
    let entries = [at(0, 90), at(1, 30), at(2, 30), at(3, 10)];
    assert_eq!(predict_next(&entries, 10), Some(at(1, 30)));
    assert_eq!(predict_next(&entries, 30), Some(at(0, 90)));
    assert_eq!(predict_next(&entries, 90), None);
    assert_eq!(predict_next(&entries, 0), Some(at(3, 10)));
}

#[test]
fn advised_region_is_cut_at_the_end() {
    assert_eq!(advise_region(100, 10, 20), Some((10, 20)));
    assert_eq!(advise_region(100, 90, 20), Some((90, 10)));
    assert_eq!(advise_region(100, 100, 1), None);
    assert_eq!(advise_region(100, 5, 0), None);
}

#[test]
fn options_have_their_defaults() {
    assert!(PrefetchOptions::default().enabled);
    assert!(!ReaderOptions::default().prefetch);
}

#[test]
fn handle_reads_either_way() {
    let file = file_of(&[("a", &[1, 2, 3]), ("b", &[4])]);
    let mut buffer = PrefetchBuffer::new();
    for prefetch in [false, true] {
        let mut handle = NcfReaderHandle::open_with_options(
            &file,
            ReaderOptions { prefetch },
            decode_header,
            decode_schemas,
            decode_borrowed,
            decode_index,
        )
        .expect("open");
        assert_eq!(matches!(handle, NcfReaderHandle::Prefetch(_)), prefetch);
        assert_eq!(handle.metadata().metadata.architecture, "test-arch");
        assert_eq!(handle.header_prefix().chunk_count, 2);
        assert_eq!(handle.tensor_slice("b"), Some(&[4u8][..]));
        assert_eq!(handle.schemas(decode_schemas).expect("schemas").len(), 2);
        assert_eq!(
            handle.read_tensor("a", decode_schemas, &mut buffer).expect("read"),
            Some(vec![1, 2, 3])
        );
        assert_eq!(handle.inspect(decode_schemas).expect("inspect")[2], "Tensors: 2");
    }
}

#[test]
fn prefetch_open_reports_damage() {
    let good = file_of(&[("a", &[1])]);
    let open = |file: &[u8]| {
        PrefetchReader::open(file, decode_header, decode_schemas, decode_index).map(|_| ())
    };
    assert!(matches!(io_error(open(&good[..20])), IoError::FileTooSmall { len: 20 }));
    let mut file = good.clone();
    file[1] = 0;
    assert!(matches!(io_error(open(&file)), IoError::BadMagic));
    let mut file = good.clone();
    file[16..24].copy_from_slice(&u64::MAX.to_le_bytes());
    assert!(matches!(io_error(open(&file)), IoError::HeaderOverflow));
    let mut file = good.clone();
    file[48] = 0xFF;
    assert!(matches!(open(&file), Err(NcfError::Cbor(_))));
    let at = good.len() - 8;
    let mut file = good.clone();
    file[at..].copy_from_slice(&u64::MAX.to_le_bytes());
    assert!(matches!(io_error(open(&file)), IoError::IndexOverflow));
    let mut file = good.clone();
    file[at..].copy_from_slice(&0u64.to_le_bytes());
    assert!(matches!(io_error(open(&file)), IoError::Decode(_)));
}

#[test]
fn schema_block_that_outgrows_its_references_is_laid_out_again() {
    let model = "m".repeat(150);
    let mut writer = NcfWriter::new(header_named(&model, "t"), NcfFlags::empty());
    writer.add_tensor(plain_schema("w"), vec![1, 2, 3]);
    let header_len = encode_header(&writer.metadata).expect("header").len() as u64;
    let blank_len = encode_schemas(&writer.blank_schemas()).expect("schemas").len() as u64;
    let first = writer.layout(header_len, blank_len);
    let first_len = encode_schemas(&first.schemas).expect("schemas").len() as u64;
    let second = writer.layout(header_len, first_len);
    let second_len = encode_schemas(&second.schemas).expect("schemas").len() as u64;
    assert_eq!(second_len, first_len + 1);
    let file = writer
        .finalize(encode_header, encode_schemas, encode_index)
        .expect("finalize");
    let mut reader = opened(&file);
    assert_eq!(
        reader.read_tensor("w", decode_schemas).expect("read"),
        Some(vec![1, 2, 3])
    );
    let mut view = NcfMmap::open(&file, decode_header, decode_index).expect("open");
    assert!(view.verify_all_checksums(decode_schemas).is_ok());
    let at = view.index.entries[0].byte_offset as usize;
    assert_eq!(at as u64, 48 + header_len + second_len);
    assert_eq!(&file[at + 28..at + 31], &[1, 2, 3]);
    assert_eq!(view.index.entries[0].byte_len, 63);
}

#[test]
fn every_model_name_length_is_read_back() {
    for len in 0..400usize {
        let model = "m".repeat(len);
        let mut writer = NcfWriter::new(header_named(&model, "t"), NcfFlags::empty());
        writer.add_tensor(plain_schema("w"), vec![1, 2, 3]);
        writer.add_tensor(plain_schema("v"), vec![4; 7]);
        let file = writer
            .finalize(encode_header, encode_schemas, encode_index)
            .expect("finalize");
        let mut reader = opened(&file);
        assert_eq!(reader.read_tensor("v", decode_schemas).expect("read"), Some(vec![4; 7]));
        assert_eq!(reader.tensor_slice("w"), Some(&[1u8, 2, 3][..]));
    }
}

#[test]
fn schema_block_that_never_settles_is_refused() {
    let writer = writer_of(&[("w", &[1])]);
    let lengths = std::cell::Cell::new(0usize);
    let growing = |_: &Vec<TensorSchema>| -> Result<Vec<u8>, NcfError> {
        lengths.set(lengths.get() + 1);
        Ok(vec![0; lengths.get()])
    };
    assert!(matches!(
        io_error(writer.finalize(encode_header, growing, encode_index)),
        IoError::LayoutUnsettled
    ));
    assert_eq!(lengths.get(), 25);
}

#[test]
fn finalizing_twice_gives_the_same_bytes() {
    let writer = writer_of(&[("a", &[1, 2]), ("b", &[3]), ("a", &[1, 2])]);
    let once = writer.finalize(encode_header, encode_schemas, encode_index).expect("finalize");
    let twice = writer.finalize(encode_header, encode_schemas, encode_index).expect("finalize");
    assert_eq!(once, twice);
}

#[test]
fn prefetching_joins_all_chunks_of_a_name() {
    let file = file_of(&[("a", &[1, 2]), ("b", &[3]), ("a", &[4, 5, 6]), ("a", &[])]);
    let mut direct = opened(&file);
    let reader = PrefetchReader::open(&file, decode_header, decode_schemas, decode_index)
        .expect("open");
    assert_eq!(direct.header_prefix().index_offset, reader.header_prefix().index_offset);
    assert_eq!(direct.header_prefix().chunk_count, reader.header_prefix().chunk_count);
    assert_eq!(
        direct.metadata().metadata.model_name,
        reader.metadata().metadata.model_name
    );
    let entries = reader.index.entries.clone();
    for ahead in [vec![], vec![0usize], vec![2], vec![0, 1, 2, 3]] {
        let mut buffer = PrefetchBuffer::new();
        for &i in &ahead {
            prefetch_entry(&file, &mut buffer, &entries[i]);
            assert!(buffer.contains(entries[i].chunk_id));
        }
        for name in ["a", "b", "c"] {
            assert_eq!(
                reader.read_tensor(&mut buffer, name).expect("read"),
                direct.read_tensor(name, decode_schemas).expect("read")
            );
        }
        assert!(!buffer.contains(0) && !buffer.contains(1) && !buffer.contains(2));
    }
    let mut buffer = PrefetchBuffer::new();
    assert_eq!(
        reader.read_tensor(&mut buffer, "a").expect("read"),
        Some(vec![1, 2, 4, 5, 6])
    );
}

#[test]
fn prefetch_read_refuses_a_bad_further_chunk() {
    let file = file_of(&[("a", &[1, 2]), ("a", &[3, 4])]);
    let mut reader = PrefetchReader::open(&file, decode_header, decode_schemas, decode_index)
        .expect("open");
    reader.schemas[0].chunks[1].byte_len = 59;
    let mut buffer = PrefetchBuffer::new();
    assert!(matches!(
        io_error(reader.read_tensor(&mut buffer, "a")),
        IoError::ChunkTooSmall { total_len: 59, overhead: 60 }
    ));
    prefetch_entry(&file, &mut buffer, &reader.index.entries[1]);
    assert_eq!(reader.read_tensor(&mut buffer, "a").expect("read"), Some(vec![1, 2, 3, 4]));
}

#[test]
fn handles_agree_on_joined_tensors() {
    let file = file_of(&[("a", &[1, 2, 3]), ("b", &[4]), ("a", &[5])]);
    let mut buffer = PrefetchBuffer::new();
    for prefetch in [false, true] {
        let mut handle = NcfReaderHandle::open_with_options(
            &file,
            ReaderOptions { prefetch },
            decode_header,
            decode_schemas,
            decode_borrowed,
            decode_index,
        )
        .expect("open");
        assert_eq!(
            handle.read_tensor("a", decode_schemas, &mut buffer).expect("read"),
            Some(vec![1, 2, 3, 5])
        );
        assert_eq!(handle.read_tensor("c", decode_schemas, &mut buffer).expect("read"), None);
    }
}

#[test]
fn every_changed_payload_byte_is_found() {
    let good = file_of(&[("a", &[1, 2, 3]), ("b", &[9; 4]), ("c", &[1, 2, 3])]);
    let entries = NcfMmap::open(&good, decode_header, decode_index).expect("open").index.entries;
    for entry in &entries {
        let start = entry.byte_offset as usize + 28;
        for at in start..start + entry.byte_len as usize - 60 {
            let mut file = good.clone();
            file[at] ^= 0x40;
            assert!(NcfReader::open(&file, decode_header, decode_borrowed).is_ok());
            let mut view = NcfMmap::open(&file, decode_header, decode_index).expect("open");
            let e = io_error(view.verify_all_checksums(decode_schemas));
            assert!(matches!(e, IoError::ChecksumMismatch));
            assert_eq!(e.kind(), IoErrorKind::InvalidData);
            let reader = PrefetchReader::open(&file, decode_header, decode_schemas, decode_index)
                .expect("open");
            assert!(matches!(io_error(reader.verify_all_checksums()), IoError::ChecksumMismatch));
        }
    }
}

#[test]
fn distinct_names_are_all_counted() {
    let file = file_of(&[("a", &[1]), ("b", &[1]), ("c", &[2])]);
    assert_eq!(opened(&file).schema_count().expect("count"), 3);
}
