use ncf::bytes::{get_u32, get_u64, same_bytes, to_array};
use ncf::chunk::ChunkHeader;
use ncf::dedup::DedupCache;
use ncf::digest::name_hash;
use ncf::error::{IoError, IoErrorKind, NcfError};
use ncf::header::{
    FileHeaderPrefix, NcfFlags, COMPRESSED, ENCRYPTED, FOOTER_MAGIC, NCF_MAGIC, STREAMING_SAFE,
};
use ncf::index::{find_entry, IndexEntry, NcfIndex};
use ncf::layout::{align_tensor_avx512, AlignedVec, ChunkMetadata};
use ncf::name_map::NameMap;
use ncf::schema::{ChunkRef, Compression, DType, Encoding, Layout, TensorSchema};

fn entry(chunk_id: u64, byte_offset: u64) -> IndexEntry {
    IndexEntry { chunk_id, byte_offset, byte_len: 60, tensor_name_hash: 0 }
}

fn schema(name: &str, ids: &[u64]) -> TensorSchema {
    TensorSchema {
        name: name.to_string(),
        dtype: DType::U8,
        shape: vec![1],
        column_layout: Layout::RowMajor,
        compression: Compression::Uncompressed,
        encoding: Encoding::Plain,
        chunks: ids
            .iter()
            .map(|id| ChunkRef {
                chunk_id: *id,
                byte_offset: 10 + *id,
                byte_len: 60 + *id,
                uncompressed_len: *id,
                checksum: [0; 32],
                canonical_offset: None,
            })
            .collect(),
    }
}

#[test]
fn integers_are_little_endian() {
    let data = [0u8, 1, 2, 3, 4, 5, 6, 7, 8];
    assert_eq!(get_u32(&data, 1), 0x0403_0201);
    assert_eq!(get_u64(&data, 1), 0x0807_0605_0403_0201);
    let array: [u8; 2] = to_array(&vec![9, 8]);
    assert_eq!(array, [9, 8]);
    assert!(same_bytes(&[1, 2], &[1, 2]));
    assert!(!same_bytes(&[1, 2], &[1, 3]));
    assert!(!same_bytes(&[1, 2], &[1]));
}

#[test]
fn chunk_header_has_fixed_form() {
    let header = ChunkHeader { chunk_id: 1, flags: 2, uncompressed_len: 3, compressed_len: 4 };
    let expected = [
        1u8, 0, 0, 0, 0, 0, 0, 0, 2, 0, 0, 0, 3, 0, 0, 0, 0, 0, 0, 0, 4, 0, 0, 0, 0, 0, 0, 0,
    ];
    assert_eq!(header.encode(), expected);
    let mut longer = expected.to_vec();
    longer.push(77);
    let back = ChunkHeader::decode(&longer).expect("decode");
    assert_eq!(back.encode(), expected);
}

#[test]
fn short_chunk_header_is_refused() {
    match ChunkHeader::decode(&[0u8; 27]) {
        Err(NcfError::Header(text)) => assert_eq!(text, "Chunk header too short"),
        _ => panic!("expected a header error"),
    }
}

#[test]
fn prefix_has_fixed_form() {
    let mut prefix = FileHeaderPrefix::new(NcfFlags { bits: COMPRESSED | STREAMING_SAFE });
    prefix.header_len = 0x0102;
    prefix.schema_offset = 0x0304;
    prefix.index_offset = 0x0506;
    prefix.chunk_count = 7;
    let bytes = prefix.encode();
    assert_eq!(&bytes[..8], b"NCF\0\xDE\xAD\xBE\xEF");
    assert_eq!(&bytes[8..16], &[0, 0, 1, 0, 5, 0, 0, 0]);
    assert_eq!(&bytes[16..24], &[2, 1, 0, 0, 0, 0, 0, 0]);
    assert_eq!(&bytes[24..32], &[4, 3, 0, 0, 0, 0, 0, 0]);
    assert_eq!(&bytes[32..40], &[6, 5, 0, 0, 0, 0, 0, 0]);
    assert_eq!(&bytes[40..], &[7, 0, 0, 0, 0, 0, 0, 0]);
    let back = FileHeaderPrefix::decode(&bytes).expect("decode");
    assert_eq!(back.encode(), bytes);
    assert_eq!(NCF_MAGIC, *b"NCF\0\xDE\xAD\xBE\xEF");
    assert_eq!(FOOTER_MAGIC, *b"NCFEND!!");
}

#[test]
fn unknown_flags_are_dropped() {
    let prefix = FileHeaderPrefix::new(NcfFlags { bits: 0xFFFF_FFFF });
    let back = FileHeaderPrefix::decode(&prefix.encode()).expect("decode");
    assert_eq!(back.flags.bits(), 7);
    assert_eq!(NcfFlags::from_bits_truncate(0x18).bits(), 0);
}

#[test]
fn bad_prefix_is_refused() {
    match FileHeaderPrefix::decode(&[0u8; 47]) {
        Err(NcfError::Header(text)) => assert_eq!(text, "Header prefix too short"),
        _ => panic!("expected a header error"),
    }
    match FileHeaderPrefix::decode(&[0u8; 48]) {
        Err(e) => assert_eq!(e.message(), "Header parse error: Invalid magic bytes"),
        _ => panic!("expected a header error"),
    }
}

#[test]
fn flags_are_displayed_by_name() {
    assert_eq!(NcfFlags::empty().display(), "");
    assert_eq!(NcfFlags { bits: ENCRYPTED }.display(), "ENCRYPTED");
    assert_eq!(NcfFlags { bits: 7 }.display(), "COMPRESSED|ENCRYPTED|STREAMING_SAFE");
    assert!(NcfFlags { bits: 7 }.contains(NcfFlags { bits: ENCRYPTED }));
    assert!(!NcfFlags { bits: 1 }.contains(NcfFlags { bits: ENCRYPTED }));
}

#[test]
fn names_are_hashed_with_xxh3() {
    assert_eq!(name_hash(""), 0x2d06_8005_38d3_94c2);
    assert_ne!(name_hash("a"), name_hash("b"));
}

#[test]
fn first_registration_of_a_payload_stays() {
    let mut cache = DedupCache::default();
    assert_eq!(cache.get_canonical_offset(b"abc"), None);
    assert_eq!(cache.register_payload(b"abc", 48), None);
    assert_eq!(cache.register_payload(b"abc", 99), Some(48));
    assert_eq!(cache.get_canonical_offset(b"abc"), Some(48));
    assert_eq!(cache.get_canonical_offset(b"abd"), None);
    assert_eq!(cache.register_payload(b"abd", 99), None);
    assert_eq!(cache.get_canonical_offset(b"abc"), Some(48));
}

#[test]
fn index_is_built_from_first_chunks() {
    let schemas = vec![
        schema("a", &[4, 5]),
        schema("none", &[]),
        schema("b", &[6]),
        schema("a", &[7]),
    ];
    let index = NcfIndex::build_from_schemas(&schemas);
    assert_eq!(index.entry_count, 3);
    let expected = IndexEntry {
        chunk_id: 4,
        byte_offset: 14,
        byte_len: 64,
        tensor_name_hash: name_hash("a"),
    };
    assert_eq!(index.entries[0], expected);
    assert_eq!(index.find_chunk_id("a"), Some(7));
    assert_eq!(find_entry(&index.entries, 7), Some(2));
    assert_eq!(index.find_chunk_id("b"), Some(6));
    assert_eq!(index.find_chunk_id("none"), None);
    assert_eq!(index.quant_levels.len(), 0);
}

#[test]
fn first_entry_of_a_chunk_is_found() {
    let entries = [entry(3, 0), entry(5, 1), entry(3, 2)];
    assert_eq!(find_entry(&entries, 3), Some(0));
    assert_eq!(find_entry(&entries, 5), Some(1));
    assert_eq!(find_entry(&entries, 4), None);
    let index = NcfIndex::new(entries.to_vec(), NameMap::new());
    assert_eq!(index.entry_count, 3);
}

#[test]
fn name_map_holds_one_value_per_name() {
    let mut map: NameMap<u64> = NameMap::new();
    map.insert("a".to_string(), 1);
    map.insert("b".to_string(), 2);
    map.insert("a".to_string(), 3);
    map.insert_if_absent("b".to_string(), 4);
    map.insert_if_absent("c".to_string(), 5);
    assert_eq!(map.len(), 3);
    assert_eq!(map.get("a"), Some(&3));
    assert_eq!(map.get("b"), Some(&2));
    assert_eq!(map.get("c"), Some(&5));
    assert_eq!(map.get("d"), None);
    assert_eq!(map.clone().entries().len(), 3);
}

#[test]
fn aligned_vec_holds_a_copy() {
    let mut v = align_tensor_avx512(&[1, 2, 3]);
    v.as_mut_slice()[1] = 9;
    assert_eq!(v.as_slice(), &[1, 9, 3]);
    assert_eq!(AlignedVec::new(&[]).as_slice().len(), 0);
    assert_eq!(
        ChunkMetadata::new(1, 2, 3),
        ChunkMetadata { chunk_id: 1, byte_offset: 2, byte_len: 3, simd_width: 64 }
    );
}

#[test]
fn errors_have_their_texts() {
    let cases: Vec<(IoError, &str)> = vec![
        (IoError::FileTooSmall { len: 5 }, "file too small: 5 bytes, need at least 48"),
        (IoError::BadMagic, "Header parse error: Invalid magic bytes"),
        (IoError::HeaderOverflow, "header size overflow"),
        (
            IoError::HeaderOutOfBounds { end: 60, file_size: 50 },
            "header block out of bounds: end=60, file_size=50",
        ),
        (
            IoError::SchemaOutOfBounds { start: 1, end: 2, file_size: 3 },
            "schema block out of bounds: start=1, end=2, file_size=3",
        ),
        (IoError::BadFooterMagic, "missing or invalid footer magic"),
        (IoError::IndexOverflow, "index size overflow"),
        (
            IoError::IndexOverlapsFooter { end: 1, footer_pos: 0 },
            "index block overlaps footer: end=1, footer_pos=0",
        ),
        (IoError::ChunkOffsetOverflow, "chunk offset overflow"),
        (
            IoError::ChunkOffsetOutOfBounds { offset: 9, file_size: 8 },
            "chunk offset out of bounds: offset=9, file_size=8",
        ),
        (
            IoError::ChunkTooSmall { total_len: 59, overhead: 60 },
            "chunk size too small: total_len=59, overhead=60",
        ),
        (IoError::ChunkDataOverflow, "chunk data size overflow"),
        (
            IoError::ChunkDataOutOfBounds { end: 9, file_size: 8 },
            "chunk data out of bounds: end=9, file_size=8",
        ),
        (IoError::ChunkDataPastEnd, "chunk data out of bounds"),
        (IoError::ChecksumMismatch, "checksum mismatch"),
        (IoError::LayoutUnsettled, "schema block length does not settle"),
        (IoError::MissingSnapshot, "missing full KV snapshot"),
        (
            IoError::MissingSnapshotFor { target: 12 },
            "missing full KV snapshot for target index 12",
        ),
        (IoError::Decode("broken".to_string()), "broken"),
        (
            IoError::Codec { kind: IoErrorKind::Other, text: "codec".to_string() },
            "codec",
        ),
    ];
    for (e, text) in &cases {
        assert_eq!(e.message(), *text);
    }
    assert_eq!(cases[0].0.kind(), IoErrorKind::UnexpectedEof);
    assert_eq!(cases[1].0.kind(), IoErrorKind::InvalidData);
    assert_eq!(cases[19].0.kind(), IoErrorKind::Other);
    assert_eq!(NcfError::Io(IoError::BadFooterMagic).message(), "IO error: missing or invalid footer magic");
    assert_eq!(NcfError::Cbor("x".to_string()).message(), "CBOR deserialize error: x");
    assert_eq!(NcfError::CborSer("x".to_string()).message(), "CBOR serialize error: x");
    assert_eq!(NcfError::Header("x".to_string()).message(), "Header parse error: x");
}

#[test]
fn dtypes_have_their_names() {
    assert_eq!(DType::BF16.name(), "BF16");
    assert_eq!(DType::Q4_0.name(), "Q4_0");
    assert_eq!(DType::Custom(120).name(), "Custom(120)");
}
