use ncf::from_gguf::{convert_tensors, gguf_to_ncf, gguf_type_to_dtype, GgufError, GgufTensor};
use ncf::from_safetensors::{
    convert_archive, dtype_named, safetensors_to_ncf, ArchiveTensor,
};
use ncf::gguf_flat::flatten;
use ncf::gguf_nesting::nesting_within;
use ncf::header::NcfFlags;
use ncf::inference::{context_limit, generate, NcfModel};
use ncf::json_pairs::reduce_pairs;
use ncf::quantize::{QuantLevel, ScaledValues};
use ncf::schema::DType;
use ncf::writer::NcfWriter;

fn scale(payload: &[u8], depth: usize) -> ScaledValues {
    let top = (1u32 << depth) - 1;
    ScaledValues::Steps((0..payload.len() / 4).map(|i| if i == 0 { top } else { 1 }).collect())
}

fn put_text(out: &mut Vec<u8>, text: &str) {
    out.extend_from_slice(&(text.len() as u64).to_le_bytes());
    out.extend_from_slice(text.as_bytes());
}

fn gguf_file(tensors: &[(&str, &[u64], u32, u64)], tail: &[u8]) -> Vec<u8> {
    let mut out = b"GGUF".to_vec();
    out.extend_from_slice(&3u32.to_le_bytes());
    out.extend_from_slice(&(tensors.len() as u64).to_le_bytes());
    out.extend_from_slice(&0u64.to_le_bytes());
    for (name, dims, code, offset) in tensors {
        put_text(&mut out, name);
        out.extend_from_slice(&(dims.len() as u32).to_le_bytes());
        for d in dims.iter() {
            out.extend_from_slice(&d.to_le_bytes());
        }
        out.extend_from_slice(&code.to_le_bytes());
        out.extend_from_slice(&offset.to_le_bytes());
    }
    out.extend_from_slice(tail);
    out
}

fn gguf_tensor(name: &str, dims: &[u64], type_code: u32, offset: u64) -> GgufTensor {
    GgufTensor { name: name.to_string(), dimensions: dims.to_vec(), type_code, offset }
}

fn gguf(data: &[u8]) -> Result<NcfWriter, GgufError> {
    gguf_to_ncf(data, "model.gguf", None, 12, Some("me"))
}

fn safetensors_file(header: &str, payload: &[u8]) -> Vec<u8> {
    let mut out = (header.len() as u64).to_le_bytes().to_vec();
    out.extend_from_slice(header.as_bytes());
    out.extend_from_slice(payload);
    out
}

#[test]
fn empty_input_is_refused() {
    assert!(safetensors_to_ncf(&[], "empty", None, 0, None, scale).is_err());
    assert!(matches!(
        gguf_to_ncf(&[], "empty", None, 0, None),
        Err(GgufError::Incomplete) | Err(GgufError::Parse(_))
    ));
}

fn nested_value(out: &mut Vec<u8>, depth: usize, leaf: &[u8]) {
    for _ in 1..depth {
        out.extend_from_slice(&9u32.to_le_bytes());
        out.extend_from_slice(&1u64.to_le_bytes());
    }
    out.extend_from_slice(leaf);
}

fn byte_array(bytes: &[u8]) -> Vec<u8> {
    let mut out = 0u32.to_le_bytes().to_vec();
    out.extend_from_slice(&(bytes.len() as u64).to_le_bytes());
    out.extend_from_slice(bytes);
    out
}

fn with_metadata(entries: &[(&[u8], Vec<u8>)], tensors: &[u8], tensor_count: u64) -> Vec<u8> {
    let mut out = b"GGUF".to_vec();
    out.extend_from_slice(&3u32.to_le_bytes());
    out.extend_from_slice(&tensor_count.to_le_bytes());
    out.extend_from_slice(&(entries.len() as u64).to_le_bytes());
    for (name, value) in entries {
        out.extend_from_slice(&(name.len() as u64).to_le_bytes());
        out.extend_from_slice(name);
        out.extend_from_slice(&9u32.to_le_bytes());
        out.extend_from_slice(value);
    }
    out.extend_from_slice(tensors);
    out
}

fn nested_gguf(depth: usize) -> Vec<u8> {
    let mut value = Vec::new();
    nested_value(&mut value, depth, &byte_array(&[7]));
    with_metadata(&[(b"k", value)], &[], 0)
}

#[test]
fn metadata_arrays_are_measured() {
    assert!(nesting_within(&nested_gguf(1), 1));
    assert!(!nesting_within(&nested_gguf(2), 1));
    assert!(nesting_within(&nested_gguf(7), 7));
    assert!(!nesting_within(&nested_gguf(8), 7));
    assert!(nesting_within(&[], 0));
}

#[test]
fn deeply_nested_gguf_metadata_is_converted() {
    let mut tensors = Vec::new();
    put_text(&mut tensors, "w");
    tensors.extend_from_slice(&1u32.to_le_bytes());
    tensors.extend_from_slice(&3u64.to_le_bytes());
    tensors.extend_from_slice(&16u32.to_le_bytes());
    for depth in [1usize, 2, 64, 65, 200_000] {
        let mut value = Vec::new();
        nested_value(&mut value, depth, &byte_array(&[1, 2, 3]));
        let entries = [
            (&b"a"[..], byte_array(&[9])),
            (&b"k"[..], value),
            (&b"z"[..], byte_array(&[])),
        ];
        let mut info = tensors.clone();
        let offset = (with_metadata(&entries, &tensors, 1).len() + 8) as u64;
        info.extend_from_slice(&offset.to_le_bytes());
        let mut data = with_metadata(&entries, &info, 1);
        data.extend_from_slice(&[7, 8, 9]);
        let writer = gguf(&data).expect("convert");
        assert_eq!(writer.tensors.len(), 1);
        assert_eq!(writer.tensors[0].0.name, "w");
        assert_eq!(writer.tensors[0].1, vec![7, 8, 9]);
        assert!(matches!(gguf(&data[..data.len() - 4]), Err(GgufError::Incomplete)));
    }
}

#[test]
fn nested_metadata_is_flattened() {
    let mut value = 9u32.to_le_bytes().to_vec();
    value.extend_from_slice(&3u64.to_le_bytes());
    value.extend_from_slice(&byte_array(&[5, 6]));
    value.extend_from_slice(&9u32.to_le_bytes());
    value.extend_from_slice(&0u64.to_le_bytes());
    value.extend_from_slice(&byte_array(&[4]));
    let data = with_metadata(&[(b"k", value), (b"n", byte_array(&[1]))], b"rest", 2);
    let flat = [
        (&b"k"[..], byte_array(&[])),
        (&b""[..], byte_array(&[5, 6])),
        (&b""[..], byte_array(&[4])),
        (&b"n"[..], byte_array(&[1])),
    ];
    assert_eq!(flatten(&data), with_metadata(&flat, b"rest", 2));
    let plain = with_metadata(&[(b"n", byte_array(&[1]))], b"rest", 2);
    assert_eq!(flatten(&plain), plain);
}

#[test]
fn bad_bytes_in_deep_gguf_metadata_are_refused() {
    let deep = |name: &[u8], leaf: &[u8]| {
        let mut value = Vec::new();
        nested_value(&mut value, 100, leaf);
        with_metadata(&[(name, value)], &[], 0)
    };
    assert!(gguf(&deep(b"k", &byte_array(&[1]))).is_ok());
    let mut bad_bool = 7u32.to_le_bytes().to_vec();
    bad_bool.extend_from_slice(&1u64.to_le_bytes());
    bad_bool.push(2);
    assert!(matches!(gguf(&deep(b"k", &bad_bool)), Err(GgufError::Parse(_))));
    assert!(matches!(gguf(&deep(&[0xFF], &byte_array(&[1]))), Err(GgufError::Parse(_))));
    let mut bad_type = 13u32.to_le_bytes().to_vec();
    bad_type.extend_from_slice(&1u64.to_le_bytes());
    assert!(matches!(gguf(&deep(b"k", &bad_type)), Err(GgufError::Parse(_))));
    assert!(matches!(gguf(&deep(b"k", &0u32.to_le_bytes())), Err(GgufError::Incomplete)));
    let cut = deep(b"k", &byte_array(&[1, 2]));
    assert!(matches!(gguf(&cut[..cut.len() - 1]), Err(GgufError::Incomplete)));
}

fn one_tensor(name: &str, shape: &str, offsets: &str) -> String {
    format!(
        "\"{}\":{{\"dtype\":\"U8\",\"shape\":{},\"data_offsets\":{}}}",
        name, shape, offsets
    )
}

fn converted(header: &str) -> Result<usize, String> {
    let data = safetensors_file(header, &[]);
    safetensors_to_ncf(&data, "m", None, 0, None, scale).map(|writer| writer.tensors.len())
}

#[test]
fn large_numbers_count_in_offsets_only() {
    let step = (1u64 << 61) - 1;
    let mut parts: Vec<String> = Vec::new();
    for i in 0..8u64 {
        let from = step * i;
        parts.push(one_tensor(
            &format!("t{}", i),
            &format!("[{}]", step),
            &format!("[{},{}]", from, from + step),
        ));
    }
    assert!(converted(&format!("{{{}}}", parts.join(","))).is_err());
    let top = u64::MAX;
    let usual = one_tensor("t", &format!("[0,{}]", top), "[0,0]");
    assert_eq!(converted(&format!("{{{}}}", usual)), Ok(1));
    let both = one_tensor("t", &format!("[0,{},{}]", top, top), "[0,0]");
    assert_eq!(converted(&format!("{{{}}}", both)), Ok(1));
    let extra = usual.replace("\"dtype\"", &format!("\"x\":[ {} , {} ],\"dtype\"", top, top));
    assert_eq!(converted(&format!("{{{}}}", extra)), Ok(1));
    let named = one_tensor(&format!("[{},{}]", top, top), "[0]", "[0,0]");
    assert_eq!(converted(&format!("{{{}}}", named)), Ok(1));
    let shadowed = one_tensor("t", "[0]", &format!("[{},{}]", top - 8, top));
    assert_eq!(converted(&format!("{{{},{}}}", shadowed, usual)), Ok(1));
    assert!(converted(&format!("{{{}}}", shadowed)).is_err());
    let shape = one_tensor("t", &format!("[{},{}]", top, top), "[0,0]");
    assert!(converted(&format!("{{{}}}", shape)).is_err());
    let zeros = extra.replace("[ ", "[ 0");
    assert!(converted(&format!("{{{}}}", zeros)).is_err());
}

#[test]
fn second_of_two_large_numbers_becomes_one() {
    let reduced = |text: &[u8]| reduce_pairs(text, 50, 99);
    assert_eq!(reduced(b"[60, 77 ]"), b"[60, 1  ]");
    assert_eq!(reduced(b"[[51,99],[51,100],[50,60]]"), b"[[51,1 ],[51,100],[50,60]]");
    for same in [&b"[60,77,60]"[..], b"[60]", b"\"[60,77]\"", b"[060,77]", b"[60,-77]", b"[60,77"] {
        assert_eq!(reduced(same), same);
    }
}

#[test]
fn gguf_types_are_mapped() {
    let expected = [
        (0, DType::F32),
        (1, DType::F16),
        (2, DType::Q4_0),
        (3, DType::Q4_0),
        (6, DType::Custom(5)),
        (7, DType::Custom(6)),
        (8, DType::Q8_0),
        (9, DType::Custom(9)),
        (10, DType::Q4K),
        (11, DType::Custom(11)),
        (12, DType::Q4K),
        (13, DType::Custom(13)),
        (14, DType::Custom(14)),
        (15, DType::Q8_0),
        (16, DType::I8),
        (17, DType::I16),
        (18, DType::I32),
        (19, DType::Custom(0)),
    ];
    for (code, dtype) in expected {
        assert_eq!(gguf_type_to_dtype(code), dtype);
    }
}

#[test]
fn gguf_payload_ends_where_the_next_begins() {
    let data: Vec<u8> = (0..20).collect();
    let tensors = vec![
        gguf_tensor("c", &[2], 18, 12),
        gguf_tensor("a", &[9], 2, 2),
        gguf_tensor("b", &[1, 2], 17, 8),
    ];
    let converted = convert_tensors(&tensors, &data).expect("convert");
    assert_eq!(converted[0].1, (12..20).collect::<Vec<u8>>());
    assert_eq!(converted[1].1, (2..8).collect::<Vec<u8>>());
    assert_eq!(converted[2].1, (8..12).collect::<Vec<u8>>());
    assert_eq!(converted[2].0.dtype, DType::I16);
    assert_eq!(converted[2].0.shape, vec![1, 2]);
    assert_eq!(converted[2].0.name, "b");
    let shared = vec![gguf_tensor("a", &[9], 2, 2), gguf_tensor("b", &[9], 2, 2)];
    let converted = convert_tensors(&shared, &data).expect("convert");
    assert!(converted[0].1.is_empty());
    assert!(converted[1].1.is_empty());
}

#[test]
fn gguf_size_mismatch_is_reported() {
    let data = [0u8; 10];
    let tensors = vec![gguf_tensor("w", &[2, 2], 0, 4)];
    let e = convert_tensors(&tensors, &data).expect_err("mismatch");
    assert_eq!(
        e.message(),
        "payload size mismatch for tensor 'w': expected 16 bytes (4 elements * 4 bytes), got 6 bytes"
    );
    let huge = vec![gguf_tensor("w", &[u64::MAX, u64::MAX], 16, 4)];
    match convert_tensors(&huge, &data) {
        Err(GgufError::SizeMismatch { expected, elems, elem_size, got, .. }) => {
            assert_eq!(expected, usize::MAX);
            assert_eq!((elems, elem_size, got), (u64::MAX, 1, 6));
        }
        _ => panic!("expected a mismatch"),
    }
}

#[test]
fn gguf_file_is_converted() {
    let offset = gguf_file(&[("w", &[3], 16, 0)], &[]).len() as u64;
    let data = gguf_file(&[("w", &[3], 16, offset)], &[7, 8, 9]);
    let writer = gguf(&data).expect("convert");
    assert_eq!(writer.tensors.len(), 1);
    assert_eq!(writer.tensors[0].0.name, "w");
    assert_eq!(writer.tensors[0].0.dtype, DType::I8);
    assert_eq!(writer.tensors[0].0.shape, vec![3]);
    assert_eq!(writer.tensors[0].1, vec![7, 8, 9]);
    let metadata = &writer.metadata.metadata;
    assert_eq!(metadata.model_name, "model.gguf");
    assert_eq!(metadata.architecture, "gguf-converted");
    assert_eq!(metadata.created_at, 12);
    assert_eq!(metadata.author, Some("me".to_string()));
    assert_eq!(metadata.license, None);
    assert_eq!(metadata.custom.len(), 0);
}

#[test]
fn gguf_failures_are_told_apart() {
    let full = gguf_file(&[("w", &[3], 16, 0)], &[]);
    match gguf(&full[..full.len() - 1]) {
        Err(e) => assert_eq!(e.message(), "failed to parse GGUF file"),
        Ok(_) => panic!("expected an error"),
    }
    match gguf(b"GGUX0000") {
        Err(GgufError::Parse(text)) => {
            assert!(text.starts_with("failed to parse GGUF file: "));
            let e = GgufError::Parse(text.clone());
            assert_eq!(e.message(), format!("failed to parse GGUF file: {}", text));
        }
        _ => panic!("expected a parse error"),
    }
    let far = gguf_file(&[("w", &[3], 2, 1000)], &[]);
    match gguf(&far) {
        Err(e) => assert_eq!(e.message(), "offset of tensor 'w' out of bounds: 1000"),
        Ok(_) => panic!("expected an error"),
    }
    assert!(matches!(gguf(&full), Err(GgufError::SizeMismatch { .. })));
}

#[test]
fn safetensors_types_are_mapped() {
    assert_eq!(dtype_named("F32"), DType::F32);
    assert_eq!(dtype_named("F16"), DType::F16);
    assert_eq!(dtype_named("BF16"), DType::BF16);
    assert_eq!(dtype_named("I32"), DType::I32);
    assert_eq!(dtype_named("I16"), DType::I16);
    assert_eq!(dtype_named("I8"), DType::I8);
    assert_eq!(dtype_named("U8"), DType::U8);
    assert_eq!(dtype_named("F64"), DType::Custom(0));
}

#[test]
fn safetensors_file_is_converted() {
    let header = concat_header();
    let mut payload = vec![0u8; 8];
    payload.extend_from_slice(&[5, 6, 7]);
    let data = safetensors_file(&header, &payload);
    let writer = safetensors_to_ncf(&data, "m", Some("arch"), 3, None, scale).expect("convert");
    assert_eq!(writer.tensors.len(), 2);
    for (schema, bytes) in &writer.tensors {
        if schema.name == "embedding" {
            assert_eq!(schema.dtype, DType::Q4_0);
            assert_eq!(schema.shape, vec![2, 1]);
            assert_eq!(*bytes, vec![0x1F]);
        } else {
            assert_eq!(schema.name, "ids");
            assert_eq!(schema.dtype, DType::Q4K);
            assert_eq!(schema.shape, vec![3]);
            assert_eq!(*bytes, vec![5, 6, 7]);
        }
    }
    assert_eq!(writer.tensor_quant_levels.len(), 2);
    assert_eq!(writer.tensor_quant_levels.get("embedding"), Some(&QuantLevel::Q4));
    assert_eq!(writer.metadata.metadata.architecture, "arch");
    let default = safetensors_to_ncf(&data, "m", None, 3, None, scale).expect("convert");
    assert_eq!(default.metadata.metadata.architecture, "safetensors-converted");
    assert!(safetensors_to_ncf(&data[..data.len() - 1], "m", None, 3, None, scale).is_err());
}

fn concat_header() -> String {
    let first = "\"embedding\":{\"dtype\":\"F32\",\"shape\":[2,1],\"data_offsets\":[0,8]}";
    let second = "\"ids\":{\"dtype\":\"U8\",\"shape\":[3],\"data_offsets\":[8,11]}";
    format!("{{{},{}}}", first, second)
}

#[test]
fn ragged_float_payload_stays() {
    let tensor = ArchiveTensor {
        name: "norm".to_string(),
        dtype: "F32".to_string(),
        shape: vec![1],
        data: vec![1, 2, 3],
    };
    let header = gguf_to_ncf(&gguf_file(&[], &[]), "m", None, 0, None).expect("empty").metadata;
    let mut writer = NcfWriter::new(header, NcfFlags::empty());
    convert_archive(&mut writer, &[tensor], scale);
    assert_eq!(writer.tensors[0].1, vec![1, 2, 3]);
    assert_eq!(writer.tensors[0].0.dtype, DType::Q4K);
}

#[test]
fn generated_text_names_its_options() {
    let model = NcfModel::new("p".to_string(), true, false);
    assert_eq!(model.generate("hi", true, 12), "hi [streaming] [max_tokens=12]");
    assert_eq!(generate("hi", false, 0), "hi [max_tokens=0]");
    assert_eq!(model.context_limit(), 2048);
    assert_eq!(context_limit(), 2048);
    assert_eq!(model.path, "p");
}
