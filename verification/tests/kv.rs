use ncf::error::{IoError, IoErrorKind, NcfError};
use ncf::kv_delta::{
    apply_delta, delta_record, xor_payloads, KvChunk, KvDeltaEncoder, KvEncoding,
};
use ncf::kv_stream::{KvStep, KvStreamReader, Spill};

fn chain(payloads: &[Vec<u8>]) -> Vec<KvChunk> {
    KvDeltaEncoder::encode(payloads).expect("encode")
}

#[test]
fn payloads_are_combined_bytewise() {
    assert_eq!(xor_payloads(&[1, 2, 3], &[1, 1]), vec![0, 3]);
    assert_eq!(xor_payloads(&[1, 2], &[1, 1, 9]), vec![0, 3, 9]);
    assert_eq!(xor_payloads(&[], &[1]), vec![1]);
}

#[test]
fn kv_chain_is_decoded_at_every_index() {
    let payloads: Vec<Vec<u8>> = (0..5u8).map(|i| vec![i, 2 * i, 200 - i]).collect();
    let encoded = chain(&payloads);
    assert_eq!(encoded.len(), 5);
    assert_eq!(encoded[0].kv_encoding, KvEncoding::Full);
    assert_eq!(encoded[0].payload, payloads[0]);
    assert_eq!(encoded[3].kv_encoding, KvEncoding::Delta { base_offset: 0 });
    assert_eq!(encoded[3].token_index, 3);
    assert_eq!(&encoded[3].payload[..4], &[0x28, 0xB5, 0x2F, 0xFD]);
    for i in 0..5usize {
        assert_eq!(KvDeltaEncoder::decode(&encoded, i as u64).expect("decode"), payloads[i]);
    }
    assert_eq!(KvDeltaEncoder::decode(&encoded, 99).expect("decode"), payloads[4]);
}

#[test]
fn kv_payloads_may_grow_and_shrink() {
    let payloads = vec![vec![1, 2, 3], vec![4, 5], vec![6, 7, 8, 9], vec![], vec![10]];
    let encoded = chain(&payloads);
    for i in 0..5usize {
        assert_eq!(KvDeltaEncoder::decode(&encoded, i as u64).expect("decode"), payloads[i]);
    }
    let encoded = chain(&[vec![1], vec![2, 3]]);
    assert_eq!(KvDeltaEncoder::decode(&encoded, 1).expect("decode"), vec![2, 3]);
}

#[test]
fn every_thousandth_record_is_a_snapshot() {
    let payloads: Vec<Vec<u8>> = (0..1002u32).map(|i| vec![(i % 251) as u8]).collect();
    let encoded = chain(&payloads);
    assert_eq!(encoded[999].kv_encoding, KvEncoding::Delta { base_offset: 0 });
    assert_eq!(encoded[1000].kv_encoding, KvEncoding::Full);
    assert_eq!(encoded[1001].kv_encoding, KvEncoding::Delta { base_offset: 1000 });
    assert_eq!(KvDeltaEncoder::decode(&encoded, 1001).expect("decode"), payloads[1001]);
    assert!(chain(&[]).is_empty());
}

#[test]
fn chain_without_snapshot_is_refused() {
    let lone = vec![KvChunk::delta_snapshot(0, 0, vec![1])];
    match KvDeltaEncoder::decode(&lone, 7) {
        Err(e) => {
            assert_eq!(e.message(), "missing full KV snapshot for target index 7");
            assert_eq!(e.kind(), IoErrorKind::InvalidData);
        }
        Ok(_) => panic!("expected an error"),
    }
    let late = vec![KvChunk::full_snapshot(5, vec![1])];
    assert!(KvDeltaEncoder::decode(&late, 4).is_err());
    assert_eq!(KvDeltaEncoder::decode(&late, 5).expect("decode"), vec![1]);
}

#[test]
fn broken_delta_is_refused() {
    let broken = vec![
        KvChunk::full_snapshot(0, vec![1, 2]),
        KvChunk::delta_snapshot(1, 0, vec![1, 2, 3]),
    ];
    match KvDeltaEncoder::decode(&broken, 1) {
        Err(e) => {
            assert!(matches!(e, IoError::Codec { .. }));
            assert_eq!(e.kind(), IoErrorKind::Other);
            let original = zstd::decode_all(&[1u8, 2, 3][..]).expect_err("no stream");
            assert_eq!(e.message(), original.to_string());
        }
        Ok(_) => panic!("expected an error"),
    }
    assert_eq!(KvDeltaEncoder::decode(&broken, 0).expect("decode"), vec![1, 2]);
    let mut reader = KvStreamReader::new("/tmp".to_string());
    assert!(matches!(
        reader.reconstruct(&broken, 1),
        Err(NcfError::Io(IoError::Codec { .. }))
    ));
}

#[test]
fn class_and_text_of_a_broken_delta_are_handed_on() {
    let mut encoded = chain(&[vec![1, 2], vec![3, 4]]);
    let len = encoded[1].payload.len();
    encoded[1].payload.truncate(len - 1);
    let original = zstd::decode_all(&encoded[1].payload[..]).expect_err("cut off");
    assert_eq!(original.kind(), std::io::ErrorKind::UnexpectedEof);
    let mut reader = KvStreamReader::new("/tmp".to_string());
    match reader.reconstruct(&encoded, 1) {
        Err(NcfError::Io(e)) => {
            assert_eq!(e.kind(), IoErrorKind::UnexpectedEof);
            assert_eq!(e.message(), original.to_string());
        }
        _ => panic!("expected an error"),
    }
    match KvDeltaEncoder::decode(&encoded, 1) {
        Err(e) => {
            assert_eq!(e.kind(), IoErrorKind::Other);
            assert_eq!(e.message(), original.to_string());
        }
        Ok(_) => panic!("expected an error"),
    }
}

#[test]
fn steps_pass_codec_results_on() {
    let record = delta_record(3, 1, Ok(vec![9])).expect("record");
    assert_eq!(record.token_index, 3);
    assert_eq!(record.kv_encoding, KvEncoding::Delta { base_offset: 1 });
    assert_eq!(record.clone().payload, vec![9]);
    assert!(delta_record(3, 1, Err(IoError::BadMagic)).is_err());
    assert_eq!(apply_delta(&[1, 2], Ok(vec![3, 3])).expect("delta"), vec![2, 1]);
    assert_eq!(apply_delta(&[1], Ok(vec![3, 3])).expect("delta"), vec![2, 3]);
    assert!(apply_delta(&[1, 2], Err(IoError::BadMagic)).is_err());
}

#[test]
fn stream_reader_keeps_what_it_rebuilt() {
    let payloads = vec![vec![1, 2], vec![3, 4], vec![5, 6]];
    let encoded = chain(&payloads);
    let mut reader = KvStreamReader::new("/var/spill".to_string());
    assert_eq!(reader.temp_dir(), "/var/spill");
    match reader.reconstruct(&encoded, 2) {
        Ok(KvStep::Rebuilt(p)) => assert_eq!(p, vec![5, 6]),
        _ => panic!("expected a rebuilt payload"),
    }
    assert!(reader.next_spill().is_none());
    match reader.reconstruct(&[], 2) {
        Ok(KvStep::Ready(p)) => assert_eq!(p, vec![5, 6]),
        _ => panic!("expected a cached payload"),
    }
    assert!(matches!(
        reader.reconstruct(&[], 1),
        Err(NcfError::Io(IoError::MissingSnapshot))
    ));
}

#[test]
fn spilled_payload_is_read_back() {
    let mut reader = KvStreamReader::new("/tmp".to_string());
    let spill = Spill { token: 41, name: "ncf_kv_41.cache".to_string(), payload: vec![7, 8] };
    reader.spill_written(&spill);
    match reader.reconstruct(&[], 41) {
        Ok(KvStep::ReadSpill { name }) => assert_eq!(name, "ncf_kv_41.cache"),
        _ => panic!("expected a spill file"),
    }
    assert_eq!(reader.loaded(41, vec![7, 8]), vec![7, 8]);
    match reader.reconstruct(&[], 41) {
        Ok(KvStep::Ready(p)) => assert_eq!(p, vec![7, 8]),
        _ => panic!("expected a cached payload"),
    }
}

#[test]
fn least_recently_used_payload_is_spilled_first() {
    let mut reader = KvStreamReader::new("/tmp".to_string());
    reader.loaded(1, vec![1]);
    reader.loaded(3, vec![3, 3]);
    let mut block = vec![0u8; 1 << 26];
    for _ in 0..225 {
        block = reader.loaded(2, block);
    }
    assert!(matches!(reader.reconstruct(&[], 1), Ok(KvStep::Ready(_))));
    let first = reader.next_spill().expect("a payload to spill");
    assert_eq!((first.token, first.name.as_str()), (3, "ncf_kv_3.cache"));
    assert_eq!(first.payload, vec![3, 3]);
    reader.spill_written(&first);
    let second = reader.next_spill().expect("a payload to spill");
    assert_eq!(second.token, 2);
    assert_eq!(second.payload.len(), 1 << 26);
    reader.spill_written(&second);
    match reader.reconstruct(&[], 3) {
        Ok(KvStep::ReadSpill { name }) => assert_eq!(name, "ncf_kv_3.cache"),
        _ => panic!("expected a spill file"),
    }
}

#[test]
fn spilling_stops_below_the_threshold() {
    let mut reader = KvStreamReader::new("/tmp".to_string());
    let nothing = |_: &Spill| -> Result<(), String> { panic!("nothing to spill") };
    assert!(reader.evict_if_needed(nothing).is_ok());
    reader.loaded(1, vec![1]);
    let mut block = vec![0u8; 1 << 26];
    for _ in 0..225 {
        block = reader.loaded(2, block);
    }
    assert!(reader.is_cached(1) && reader.is_cached(2) && reader.has_room());
    let refused = |spill: &Spill| -> Result<(), String> { Err(spill.name.clone()) };
    assert_eq!(reader.evict_if_needed(refused), Err("ncf_kv_1.cache".to_string()));
    assert!(!reader.is_cached(1));
    let written = |spill: &Spill| -> Result<(), String> {
        assert_eq!((spill.token, spill.payload.len()), (2, 1 << 26));
        Ok(())
    };
    assert_eq!(reader.evict_if_needed(written), Ok(()));
    assert!(!reader.is_cached(2));
    assert!(reader.next_spill().is_none());
}

#[test]
fn payload_is_given_again_after_other_steps() {
    let payloads = vec![vec![1, 2], vec![3, 4, 5], vec![6]];
    let encoded = chain(&payloads);
    let mut reader = KvStreamReader::new("/tmp".to_string());
    for target in [1u64, 0, 2, 1, 2, 0] {
        let got = match reader.reconstruct(&encoded, target) {
            Ok(KvStep::Rebuilt(p)) | Ok(KvStep::Ready(p)) => p,
            _ => panic!("expected a payload"),
        };
        assert_eq!(got, payloads[target as usize]);
    }
}
