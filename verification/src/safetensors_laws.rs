//! What the conversion of a safetensors file gives.

use crate::bytes::le_value;
use crate::from_safetensors::{
    are_converted, dtype_of_name, is_converted_payload, is_scaling, json_header, lists_content,
    maps_levels, offset_floor, parseable, ArchiveTensor,
};
use crate::json_pairs::{
    breaks_number, has_large_pair, is_large_pair, law_only_digits_change, law_plain_text_stays,
    law_text_without_long_numbers_stays,
};
use crate::quantize::{depth_of, level_of, quantized, QuantLevel, ScaledValues};
use crate::quantize_laws::{
    has_word, law_eight_bit_values_are_bytes, law_flat_and_ragged_payloads,
    law_four_bit_values_are_nibbles, law_level_decides_width_and_type, law_name_decides_level,
    law_two_bit_values_are_quarters,
};
use crate::schema::{Compression, DType, Encoding, Layout, TensorSchema};
use vstd::arithmetic::power2::lemma2_to64;
use vstd::prelude::*;
use vstd::string::*;

verus! {

/// The types of a safetensors file stand for the types of the same name; every other name stands
/// for the custom type 0.
pub proof fn law_type_names(name: Seq<char>)
    ensures
        dtype_of_name("F32"@) == DType::F32,
        dtype_of_name("F16"@) == DType::F16,
        dtype_of_name("BF16"@) == DType::BF16,
        dtype_of_name("I32"@) == DType::I32,
        dtype_of_name("I16"@) == DType::I16,
        dtype_of_name("I8"@) == DType::I8,
        dtype_of_name("U8"@) == DType::U8,
        name != "F32"@ && name != "F16"@ && name != "BF16"@ && name != "I32"@ && name != "I16"@
            && name != "I8"@ && name != "U8"@ ==> dtype_of_name(name) == DType::Custom(0),
        dtype_of_name(name) == DType::F32 ==> name == "F32"@,
{
    reveal_strlit("F32");
    reveal_strlit("F16");
    reveal_strlit("BF16");
    reveal_strlit("I32");
    reveal_strlit("I16");
    reveal_strlit("I8");
    reveal_strlit("U8");
    assert("F32"@[1] == '3' && "F16"@[1] == '1' && "I32"@[1] == '3' && "I16"@[1] == '1');
    assert("F32"@[0] == 'F' && "F16"@[0] == 'F' && "I32"@[0] == 'I' && "I16"@[0] == 'I');
    assert("I8"@[0] == 'I' && "U8"@[0] == 'U');
}

/// The payload of a tensor whose type is not F32 is kept byte for byte, and so is one of type F32
/// that is no whole number of floats.
pub proof fn law_other_payloads_are_kept<S: Fn(&[u8], usize) -> ScaledValues>(
    tensors: Seq<ArchiveTensor>,
    scale: S,
    converted: Seq<(TensorSchema, Vec<u8>)>,
    i: int,
)
    requires
        are_converted(tensors, scale, converted),
        0 <= i < tensors.len(),
        tensors[i].dtype@ != "F32"@ || tensors[i].data@.len() % 4 != 0,
    ensures
        converted[i].1@ == tensors[i].data@,
{
    law_type_names(tensors[i].dtype@);
    assert(is_converted_payload(tensors[i], scale, converted[i].1@));
}

/// Whether a payload holds scaled values at eight bits: zeros where they do not spread, else the
/// step of each.
pub open spec fn holds_bytes(payload: Seq<u8>, count: int, scaled: ScaledValues) -> bool {
    &&& payload.len() == count
    &&& match scaled {
        ScaledValues::Constant => forall|i: int| 0 <= i < count ==> #[trigger] payload[i] == 0,
        ScaledValues::Steps(steps) => forall|i: int|
            0 <= i < count ==> #[trigger] payload[i] == steps@[i],
    }
}

/// The same at four bits, two values in a byte.
pub open spec fn holds_nibbles(payload: Seq<u8>, count: int, scaled: ScaledValues) -> bool {
    match scaled {
        ScaledValues::Constant => payload.len() == count && forall|i: int|
            0 <= i < count ==> #[trigger] payload[i] == 0,
        ScaledValues::Steps(steps) => payload.len() == (count + 1) / 2 && forall|j: int|
            0 <= j < payload.len() ==> #[trigger] payload[j] == steps@[2 * j] + (if 2 * j + 1
                < count {
                16 * steps@[2 * j + 1]
            } else {
                0
            }),
    }
}

/// The same at two bits, four values in a byte.
pub open spec fn holds_quarters(payload: Seq<u8>, count: int, scaled: ScaledValues) -> bool {
    match scaled {
        ScaledValues::Constant => payload.len() == count && forall|i: int|
            0 <= i < count ==> #[trigger] payload[i] == 0,
        ScaledValues::Steps(steps) => {
            let step = |i: int|
                if i < count {
                    steps@[i] as int
                } else {
                    0
                };
            payload.len() == (count + 3) / 4 && forall|j: int|
                0 <= j < payload.len() ==> #[trigger] payload[j] == step(4 * j) + 4 * step(4 * j + 1)
                    + 16 * step(4 * j + 2) + 64 * step(4 * j + 3)
        },
    }
}

/// A tensor of type F32 is scaled and quantized at the width that its name calls for: to eight bits
/// with `attention_weight` in it, to two with `ffn_gate` or `ffn_down`, to four with any other.
pub proof fn law_floats_are_quantized<S: Fn(&[u8], usize) -> ScaledValues>(
    tensors: Seq<ArchiveTensor>,
    scale: S,
    converted: Seq<(TensorSchema, Vec<u8>)>,
    i: int,
)
    requires
        is_scaling(scale),
        are_converted(tensors, scale, converted),
        0 <= i < tensors.len(),
        tensors[i].dtype@ == "F32"@,
        tensors[i].data@.len() % 4 == 0,
    ensures
        ({
            let t = tensors[i];
            let payload = converted[i].1@;
            let count = (t.data@.len() / 4) as int;
            exists|data: &[u8], depth: usize, scaled: ScaledValues| #[trigger]
                call_ensures(scale, (data, depth), scaled) && data@ == t.data@ && if has_word(
                    t.name@,
                    "attention_weight"@,
                ) {
                    depth == 8 && holds_bytes(payload, count, scaled)
                } else if has_word(t.name@, "ffn_gate"@) || has_word(t.name@, "ffn_down"@) {
                    depth == 2 && holds_quarters(payload, count, scaled)
                } else {
                    depth == 4 && holds_nibbles(payload, count, scaled)
                }
        }),
{
    let t = tensors[i];
    let payload = converted[i].1@;
    let count = (t.data@.len() / 4) as int;
    law_type_names(t.dtype@);
    law_name_decides_level(t.name@);
    law_level_decides_width_and_type();
    lemma2_to64();
    assert(is_converted_payload(t, scale, payload));
    let (data, depth, scaled) = choose|data: &[u8], depth: usize, scaled: ScaledValues|
        data@ == t.data@ && depth == depth_of(level_of(t.name@)) && #[trigger] call_ensures(
            scale,
            (data, depth),
            scaled,
        ) && payload == quantized(t.data@, depth as nat, scaled);
    law_flat_and_ragged_payloads(t.name@, t.data@, scaled);
    if let ScaledValues::Steps(steps) = scaled {
        if has_word(t.name@, "attention_weight"@) {
            law_eight_bit_values_are_bytes(t.name@, t.data@, steps);
        } else if has_word(t.name@, "ffn_gate"@) || has_word(t.name@, "ffn_down"@) {
            law_two_bit_values_are_quarters(t.name@, t.data@, steps);
        } else {
            law_four_bit_values_are_nibbles(t.name@, t.data@, steps);
        }
    }
    assert(call_ensures(scale, (data, depth), scaled));
}

/// A converted tensor keeps its name and its extents. Its name decides the type that is announced:
/// Q8_0 with `attention_weight` in it, else the custom type 2 with `ffn_gate` or `ffn_down`, else
/// Q4_0 with `embedding`, else Q4K.
pub proof fn law_converted_schema_follows_the_name<S: Fn(&[u8], usize) -> ScaledValues>(
    tensors: Seq<ArchiveTensor>,
    scale: S,
    converted: Seq<(TensorSchema, Vec<u8>)>,
    i: int,
)
    requires
        are_converted(tensors, scale, converted),
        0 <= i < tensors.len(),
    ensures
        ({
            let name = tensors[i].name@;
            let schema = converted[i].0;
            &&& converted.len() == tensors.len()
            &&& schema.name@ == name
            &&& schema.shape@ == tensors[i].shape@
            &&& schema.column_layout == Layout::RowMajor
            &&& schema.compression == Compression::Uncompressed
            &&& schema.encoding == Encoding::Plain
            &&& schema.chunks@.len() == 0
            &&& schema.dtype == (if has_word(name, "attention_weight"@) {
                DType::Q8_0
            } else if has_word(name, "ffn_gate"@) || has_word(name, "ffn_down"@) {
                DType::Custom(2)
            } else if has_word(name, "embedding"@) {
                DType::Q4_0
            } else {
                DType::Q4K
            })
        }),
{
    law_name_decides_level(tensors[i].name@);
    law_level_decides_width_and_type();
    let view = converted[i].0@;
    assert(view.name == tensors[i].name@);
}

/// The levels that go with a converted file are those of the names of its tensors, and no others.
pub proof fn law_levels_follow_the_names(
    levels: Map<Seq<char>, QuantLevel>,
    tensors: Seq<ArchiveTensor>,
    name: Seq<char>,
)
    requires
        maps_levels(levels, tensors),
    ensures
        levels.contains_key(name) <==> exists|i: int|
            0 <= i < tensors.len() && (#[trigger] tensors[i]).name@ == name,
        levels.contains_key(name) ==> levels[name] == (if has_word(name, "attention_weight"@) {
            QuantLevel::Q8
        } else if has_word(name, "ffn_gate"@) || has_word(name, "ffn_down"@) {
            QuantLevel::Q2
        } else if has_word(name, "embedding"@) {
            QuantLevel::Q4
        } else {
            QuantLevel::Q4_K_M
        }),
{
    law_name_decides_level(name);
}

/// Every tensor of a file is converted once: its name is among the converted ones, and no two of
/// those have one name.
pub proof fn law_every_tensor_is_converted_once<S: Fn(&[u8], usize) -> ScaledValues>(
    content: Map<Seq<char>, (Seq<char>, Seq<u64>, Seq<u8>)>,
    tensors: Seq<ArchiveTensor>,
    scale: S,
    converted: Seq<(TensorSchema, Vec<u8>)>,
    name: Seq<char>,
)
    requires
        lists_content(tensors, content),
        are_converted(tensors, scale, converted),
    ensures
        content.contains_key(name) <==> exists|i: int|
            0 <= i < converted.len() && (#[trigger] converted[i]).0.name@ == name,
        forall|i: int, j: int|
            0 <= i < j < converted.len() ==> (#[trigger] converted[i]).0.name@ != (
            #[trigger] converted[j]).0.name@,
        forall|i: int|
            0 <= i < converted.len() && (#[trigger] converted[i]).0.name@ == name ==> {
                &&& content.contains_key(name)
                &&& converted[i].0.shape@ == content[name].1
                &&& content[name].0 != "F32"@ ==> converted[i].1@ == content[name].2
            },
{
    assert forall|i: int| 0 <= i < converted.len() implies (#[trigger] converted[i]).0.name@
        == tensors[i].name@ && converted[i].0.shape@ == tensors[i].shape@ by {
        law_converted_schema_follows_the_name(tensors, scale, converted, i);
    }
    if content.contains_key(name) {
        let i = choose|i: int| 0 <= i < tensors.len() && (#[trigger] tensors[i]).name@ == name;
        assert(converted[i].0.name@ == name);
    }
    assert forall|i: int, j: int| 0 <= i < j < converted.len() implies (
    #[trigger] converted[i]).0.name@ != (#[trigger] converted[j]).0.name@ by {
        assert(tensors[i].name@ != tensors[j].name@);
    }
    assert forall|i: int|
        0 <= i < converted.len() && (#[trigger] converted[i]).0.name@ == name implies {
        &&& content.contains_key(name)
        &&& converted[i].0.shape@ == content[name].1
        &&& content[name].0 != "F32"@ ==> converted[i].1@ == content[name].2
    } by {
        assert(tensors[i].name@ == name);
        if tensors[i].dtype@ != "F32"@ {
            law_other_payloads_are_kept(tensors, scale, converted, i);
        }
    }
}

/// A file is parsed as it is, unless an array of exactly two numbers in the second half of the
/// addresses stands in its header.
pub proof fn law_file_without_large_numbers_is_parsed_as_it_is(data: Seq<u8>)
    requires
        json_header(data) matches Some(header) ==> !has_large_pair(
            header,
            (usize::MAX / 2) as nat,
            usize::MAX as nat,
        ),
    ensures
        parseable(data) == data,
{
    if let Some(header) = json_header(data) {
        assert forall|a: int| !is_large_pair(
            header,
            a,
            offset_floor(),
            usize::MAX as nat,
        ) by {
            if is_large_pair(header, a, offset_floor(), usize::MAX as nat) {
                assert(is_large_pair(header, a, (usize::MAX / 2) as nat, usize::MAX as nat));
            }
        }
        law_plain_text_stays(header, offset_floor(), usize::MAX as nat);
        assert(parseable(data) =~= data);
    }
}

/// A file is parsed as it is, if its header, which follows the eight bytes of its length, has no ten
/// digits in a row. The same holds of a file that is too short for its header.
pub proof fn law_file_without_long_numbers_is_parsed_as_it_is(data: Seq<u8>)
    requires
        ({
            let len = le_value(data.subrange(0, 8));
            data.len() >= 8 && 8 + len <= data.len() ==> forall|i: int|
                8 <= i && i + 10 <= 8 + len ==> #[trigger] breaks_number(data, i)
        }),
    ensures
        parseable(data) == data,
{
    if let Some(header) = json_header(data) {
        assert forall|i: int| 0 <= i && i + 10 <= header.len() implies #[trigger] breaks_number(
            header,
            i,
        ) by {
            assert(breaks_number(data, 8 + i));
            let k = choose|k: int| 8 + i <= k < 8 + i + 10 && !(0x30 <= #[trigger] data[k] <= 0x39);
            assert(header[k - 8] == data[k]);
        }
        law_text_without_long_numbers_stays(header, offset_floor(), usize::MAX as nat);
        assert(parseable(data) =~= data);
    }
}

/// A file that is parsed in place of another has the same length, and the same bytes in front of
/// the header, behind it, and in it wherever no digit stands.
pub proof fn law_only_digits_of_the_header_change(data: Seq<u8>, k: int)
    requires
        0 <= k < data.len(),
    ensures
        parseable(data).len() == data.len(),
        k < 8 || !(0x30 <= data[k] <= 0x39) ==> parseable(data)[k] == data[k],
        data.len() >= 8 && k >= 8 + le_value(data.subrange(0, 8)) ==> parseable(data)[k] == data[k],
{
    if let Some(header) = json_header(data) {
        if header.len() > 0 {
            law_only_digits_change(header, offset_floor(), usize::MAX as nat, 0);
        } else {
            assert forall|a: int| !is_large_pair(
                header,
                a,
                offset_floor(),
                usize::MAX as nat,
            ) by {}
            law_plain_text_stays(header, offset_floor(), usize::MAX as nat);
        }
        if 8 <= k < 8 + header.len() {
            law_only_digits_change(header, offset_floor(), usize::MAX as nat, k - 8);
            assert(header[k - 8] == data[k]);
        }
    }
}

} // verus!
