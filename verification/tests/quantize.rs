use ncf::quantize::{quantize_f32, AdaptiveQuantizer, QuantLevel, ScaledValues};
use ncf::schema::DType;

#[test]
fn level_goes_by_name() {
    assert_eq!(AdaptiveQuantizer::assign_quant_level("L0.Attention_Weight"), QuantLevel::Q8);
    assert_eq!(AdaptiveQuantizer::assign_quant_level("ffn_gate.1"), QuantLevel::Q2);
    assert_eq!(AdaptiveQuantizer::assign_quant_level("x.FFN_DOWN"), QuantLevel::Q2);
    assert_eq!(AdaptiveQuantizer::assign_quant_level("tok_embedding"), QuantLevel::Q4);
    assert_eq!(AdaptiveQuantizer::assign_quant_level("norm"), QuantLevel::Q4_K_M);
    assert_eq!(
        AdaptiveQuantizer::assign_quant_level("embedding.attention_weight"),
        QuantLevel::Q8
    );
    assert_eq!(AdaptiveQuantizer::bit_depth(QuantLevel::Q4_K_M), 4);
}

#[test]
fn steps_are_packed_low_bits_first() {
    let input = vec![0u8; 12];
    let four = ScaledValues::Steps(vec![1, 15, 8]);
    assert_eq!(quantize_f32(&input, 4, &four), vec![0xF1, 0x08]);
    let two = ScaledValues::Steps(vec![3, 0, 2]);
    assert_eq!(quantize_f32(&input, 2, &two), vec![0b10_00_11]);
    let eight = ScaledValues::Steps(vec![0, 128, 255]);
    assert_eq!(quantize_f32(&input, 8, &eight), vec![0, 128, 255]);
    let three = ScaledValues::Steps(vec![7, 1, 5]);
    let packed = quantize_f32(&input, 3, &three);
    assert_eq!(packed, vec![0b01_001_111, 0b1]);
    let number = packed[0] as u32 + 256 * packed[1] as u32;
    assert_eq!((number >> 6) & 7, 5);
}

#[test]
fn other_payloads_stay() {
    assert_eq!(quantize_f32(&[1, 2, 3], 4, &ScaledValues::Constant), vec![1, 2, 3]);
    assert_eq!(quantize_f32(&[1, 2, 3, 4], 0, &ScaledValues::Constant), vec![1, 2, 3, 4]);
    assert_eq!(quantize_f32(&[1, 2, 3, 4], 4, &ScaledValues::Constant), vec![0]);
    assert!(quantize_f32(&[], 4, &ScaledValues::Constant).is_empty());
    assert_eq!(quantize_f32(&[1, 2, 3], 64, &ScaledValues::Constant), vec![1, 2, 3]);
    assert_eq!(quantize_f32(&[1, 2, 3, 4], 32, &ScaledValues::Constant), vec![0]);
}

#[test]
fn tensor_is_quantized_by_name_and_type() {
    let steps = ScaledValues::Steps(vec![9]);
    let (dtype, data, level) =
        AdaptiveQuantizer::quantize_tensor("embedding", DType::F32, &[0; 4], &steps);
    assert_eq!((dtype, level), (DType::Q4_0, QuantLevel::Q4));
    assert_eq!(data, vec![9]);
    let (dtype, data, level) =
        AdaptiveQuantizer::quantize_tensor("ffn_gate", DType::F16, &[1, 2], &steps);
    assert_eq!((dtype, level), (DType::Custom(2), QuantLevel::Q2));
    assert_eq!(data, vec![1, 2]);
    let (dtype, _, _) = AdaptiveQuantizer::quantize_tensor("w", DType::U8, &[], &steps);
    assert_eq!(dtype, DType::Q4K);
    let (dtype, _, _) =
        AdaptiveQuantizer::quantize_tensor("attention_weight", DType::U8, &[], &steps);
    assert_eq!(dtype, DType::Q8_0);
}

#[test]
fn quant_map_has_every_name() {
    let names = vec!["embedding".to_string(), "norm".to_string(), "embedding".to_string()];
    let map = AdaptiveQuantizer::build_quant_map(&names);
    assert_eq!(map.len(), 2);
    assert_eq!(map.get("embedding"), Some(&QuantLevel::Q4));
    assert_eq!(map.get("norm"), Some(&QuantLevel::Q4_K_M));
}
