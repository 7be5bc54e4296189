//! Conversion of safetensors files.

use crate::bytes::{copy_bytes, get_u64, le_value, same_bytes};
use crate::convert::{converted_header, is_converted_header, text_or, text_view};
use crate::header::{NcfFlags, NcfHeader};
use crate::json_pairs::{has_large_pair, law_plain_text_stays, pairs_reduced, reduce_pairs};
use crate::quantize::{
    depth_of, level_of, quantized, scaling_fits, stored_dtype, AdaptiveQuantizer, QuantLevel,
    ScaledValues,
};
use crate::schema::{Compression, DType, Encoding, Layout, SchemaView, TensorSchema};
use crate::text::same_text;
use crate::writer::NcfWriter;
use vstd::prelude::*;
use vstd::slice::slice_subrange;
use vstd::string::*;

verus! {

/// Bytes of the length in front of the header.
pub const LENGTH_SIZE: usize = 8;

/// Longest header that the parser reads.
pub const MAX_HEADER_LEN: usize = 100_000_000;

/// The JSON header of a file, if the parser comes to read one.
pub open spec fn json_header(data: Seq<u8>) -> Option<Seq<u8>> {
    if data.len() < LENGTH_SIZE {
        None
    } else {
        let len = le_value(data.subrange(0, LENGTH_SIZE as int));
        if len > MAX_HEADER_LEN || LENGTH_SIZE + len > data.len() {
            None
        } else {
            Some(data.subrange(LENGTH_SIZE as int, LENGTH_SIZE + len))
        }
    }
}

/// Where the end of a tensor is so large that the parser cannot add the header's length to it,
/// start and end are both above this number: a tensor spans at most an eighth of the addresses.
pub open spec fn offset_floor() -> nat {
    (usize::MAX - usize::MAX / 8 - LENGTH_SIZE - MAX_HEADER_LEN) as nat
}

/// Whether the parser can add the header's length to every end of a tensor that it may come to:
/// no two numbers that stand as an array in the header are both that large.
pub open spec fn ends_addable(data: Seq<u8>) -> bool {
    json_header(data) matches Some(header) ==> !has_large_pair(
        header,
        offset_floor(),
        usize::MAX as nat,
    )
}

/// The file that is parsed in place of the given one. It is the given file, unless the header has
/// an array of exactly two numbers that are both so large that, as the offsets of a tensor, they
/// lead the parser to a sum that is not addressable. The second number of such an array is then
/// replaced by one, in as many bytes.
///
/// The parser accepts both files or neither, and finds the same tensors in them. As offsets the
/// two numbers fit no file, and one is an end before its start; as a shape they are too many
/// elements, with or without the second. Anywhere else the parser takes no notice of numbers.
pub open spec fn parseable(data: Seq<u8>) -> Seq<u8> {
    match json_header(data) {
        None => data,
        Some(header) => data.subrange(0, LENGTH_SIZE as int) + pairs_reduced(
            header,
            offset_floor(),
            usize::MAX as nat,
        ) + data.subrange(LENGTH_SIZE + header.len(), data.len() as int),
    }
}

/// A file is parsed as it is, if its header has no array of two such large numbers.
pub proof fn law_usual_file_is_parsed_as_it_is(data: Seq<u8>)
    requires
        ends_addable(data),
    ensures
        parseable(data) == data,
{
    if let Some(header) = json_header(data) {
        law_plain_text_stays(header, offset_floor(), usize::MAX as nat);
        assert(parseable(data) =~= data);
    }
}

/// The file to parse in place of the given one, if it is not that one.
fn replaced_file(data: &[u8]) -> (r: Option<Vec<u8>>)
    ensures
        match r {
            Some(file) => file@ == parseable(data@) && ends_addable(file@),
            None => data@ == parseable(data@) && ends_addable(data@),
        },
{
    let size: usize = data.len();
    if size < LENGTH_SIZE {
        return None;
    }
    let len: u64 = get_u64(data, 0);
    if len > MAX_HEADER_LEN as u64 || len as usize > size - LENGTH_SIZE {
        return None;
    }
    let end: usize = LENGTH_SIZE + len as usize;
    let floor: usize = usize::MAX - usize::MAX / 8 - LENGTH_SIZE - MAX_HEADER_LEN;
    let header: &[u8] = slice_subrange(data, LENGTH_SIZE, end);
    let reduced: Vec<u8> = reduce_pairs(header, floor as u64, usize::MAX as u64);
    assert(json_header(data@) == Some(header@));
    if same_bytes(header, reduced.as_slice()) {
        proof {
            law_usual_file_is_parsed_as_it_is(data@);
        }
        return None;
    }
    let mut file: Vec<u8> = copy_bytes(slice_subrange(data, 0, LENGTH_SIZE));
    file.extend_from_slice(reduced.as_slice());
    file.extend_from_slice(slice_subrange(data, end, size));
    proof {
        assert(file@ =~= parseable(data@));
        assert(file@.subrange(0, LENGTH_SIZE as int) =~= data@.subrange(0, LENGTH_SIZE as int));
        assert(file@.subrange(LENGTH_SIZE as int, end as int) =~= reduced@);
    }
    Some(file)
}

/// One tensor of a safetensors file.
#[derive(Debug)]
pub struct ArchiveTensor {
    /// Tensor name.
    pub name: String,
    /// Name of the element type.
    pub dtype: String,
    /// Extent of each dimension.
    pub shape: Vec<u64>,
    /// The payload.
    pub data: Vec<u8>,
}

/// What a safetensors file holds: the name of the element type, the shape and the payload of each
/// tensor name; nothing if it is no such file.
pub uninterp spec fn safetensors_content(data: Seq<u8>) -> Option<
    Map<Seq<char>, (Seq<char>, Seq<u64>, Seq<u8>)>,
>;

/// Whether a list of tensors has each tensor of a file exactly once.
pub open spec fn lists_content(
    tensors: Seq<ArchiveTensor>,
    content: Map<Seq<char>, (Seq<char>, Seq<u64>, Seq<u8>)>,
) -> bool {
    &&& forall|i: int, j: int|
        0 <= i < j < tensors.len() ==> (#[trigger] tensors[i]).name@ != (
        #[trigger] tensors[j]).name@
    &&& forall|i: int|
        0 <= i < tensors.len() ==> content.contains_key((#[trigger] tensors[i]).name@)
            && content[tensors[i].name@] == (tensors[i].dtype@, tensors[i].shape@, tensors[i].data@)
    &&& forall|name: Seq<char>| #[trigger]
        content.contains_key(name) ==> exists|i: int|
            0 <= i < tensors.len() && (#[trigger] tensors[i]).name@ == name
}

/// Calls `safetensors::SafeTensors::deserialize` and takes the tensors out with `iter`, the
/// element type by its displayed name. Claimed of it, where the last end of a tensor is small
/// enough for the parser to add the header's length to it: whether it succeeds, and which
/// tensors it then gives for which names, is a function of the bytes alone. Nothing is claimed of
/// the order of the tensors, which is that of a hash map, nor of the text of an error.
#[verifier::external_body]
fn open_archive(data: &[u8]) -> (r: Result<Vec<ArchiveTensor>, String>)
    requires
        ends_addable(data@),
    ensures
        match r {
            Ok(tensors) => safetensors_content(data@) matches Some(content) && lists_content(
                tensors@,
                content,
            ),
            Err(_) => safetensors_content(data@) is None,
        },
{
    let archive = safetensors::SafeTensors::deserialize(data).map_err(|e| e.to_string())?;
    let tensors = archive.iter().map(
        |(name, t)| ArchiveTensor {
            name: name.to_string(),
            dtype: t.dtype().to_string(),
            shape: t.shape().iter().map(|v| *v as u64).collect(),
            data: t.data().to_vec(),
        },
    );
    Ok(tensors.collect())
}

/// The element type that a name stands for.
pub open spec fn dtype_of_name(name: Seq<char>) -> DType {
    if name == "F32"@ {
        DType::F32
    } else if name == "F16"@ {
        DType::F16
    } else if name == "BF16"@ {
        DType::BF16
    } else if name == "I32"@ {
        DType::I32
    } else if name == "I16"@ {
        DType::I16
    } else if name == "I8"@ {
        DType::I8
    } else if name == "U8"@ {
        DType::U8
    } else {
        DType::Custom(0)
    }
}

/// The element type that a name stands for.
pub fn dtype_named(name: &str) -> (d: DType)
    ensures
        d == dtype_of_name(name@),
{
    if same_text(name, "F32") {
        DType::F32
    } else if same_text(name, "F16") {
        DType::F16
    } else if same_text(name, "BF16") {
        DType::BF16
    } else if same_text(name, "I32") {
        DType::I32
    } else if same_text(name, "I16") {
        DType::I16
    } else if same_text(name, "I8") {
        DType::I8
    } else if same_text(name, "U8") {
        DType::U8
    } else {
        DType::Custom(0)
    }
}

/// The schema of a converted tensor.
pub open spec fn converted_schema(t: ArchiveTensor) -> SchemaView {
    SchemaView {
        name: t.name@,
        dtype: stored_dtype(level_of(t.name@)),
        shape: t.shape@,
        column_layout: Layout::RowMajor,
        compression: Compression::Uncompressed,
        encoding: Encoding::Plain,
        chunks: Seq::empty(),
    }
}

/// Whether this is the payload of a converted tensor: the quantized values of a tensor of 32-bit
/// floats, and any other payload unchanged.
pub open spec fn is_converted_payload<S: Fn(&[u8], usize) -> ScaledValues>(
    t: ArchiveTensor,
    scale: S,
    payload: Seq<u8>,
) -> bool {
    if dtype_of_name(t.dtype@) == DType::F32 && t.data@.len() % 4 == 0 {
        exists|data: &[u8], depth: usize, scaled: ScaledValues|
            data@ == t.data@ && depth == depth_of(level_of(t.name@)) && #[trigger] call_ensures(
                scale,
                (data, depth),
                scaled,
            ) && payload == quantized(t.data@, depth as nat, scaled)
    } else {
        payload == t.data@
    }
}

/// Whether a function scales payloads of whole 32-bit floats, at every depth in use.
pub open spec fn is_scaling<S: Fn(&[u8], usize) -> ScaledValues>(scale: S) -> bool {
    &&& forall|data: &[u8], depth: usize| #[trigger] call_requires(scale, (data, depth))
    &&& forall|data: &[u8], depth: usize, scaled: ScaledValues| #[trigger]
        call_ensures(scale, (data, depth), scaled) && data@.len() % 4 == 0 && 0 < depth <= 8
            ==> scaling_fits(scaled, data@.len() / 4, depth as nat)
}

/// Whether these are the converted tensors, in the same order.
pub open spec fn are_converted<S: Fn(&[u8], usize) -> ScaledValues>(
    tensors: Seq<ArchiveTensor>,
    scale: S,
    converted: Seq<(TensorSchema, Vec<u8>)>,
) -> bool {
    &&& converted.len() == tensors.len()
    &&& forall|i: int|
        0 <= i < tensors.len() ==> (#[trigger] converted[i]).0@ == converted_schema(tensors[i])
            && is_converted_payload(tensors[i], scale, converted[i].1@)
}

/// Whether a map holds the level of each tensor name and nothing else.
pub open spec fn maps_levels(
    levels: Map<Seq<char>, QuantLevel>,
    tensors: Seq<ArchiveTensor>,
) -> bool {
    &&& forall|name: Seq<char>| #[trigger]
        levels.contains_key(name) <==> exists|i: int|
            0 <= i < tensors.len() && (#[trigger] tensors[i]).name@ == name
    &&& forall|name: Seq<char>| #[trigger]
        levels.contains_key(name) ==> levels[name] == level_of(name)
}

/// Add the converted tensors to a writer without tensors, and the level of each.
pub fn convert_archive<S: Fn(&[u8], usize) -> ScaledValues>(
    writer: &mut NcfWriter,
    tensors: &[ArchiveTensor],
    scale: S,
)
    requires
        old(writer).tensors@.len() == 0,
        old(writer).tensor_quant_levels@ == Map::<Seq<char>, QuantLevel>::empty(),
        is_scaling(scale),
    ensures
        final(writer).metadata == old(writer).metadata,
        final(writer).flags == old(writer).flags,
        are_converted(tensors@, scale, final(writer).tensors@),
        maps_levels(final(writer).tensor_quant_levels@, tensors@),
{
    let mut i: usize = 0;
    assert(maps_levels(writer.tensor_quant_levels@, tensors@.take(0)));
    while i < tensors.len()
        invariant
            i <= tensors@.len(),
            is_scaling(scale),
            writer.metadata == old(writer).metadata,
            writer.flags == old(writer).flags,
            writer.tensors@.len() == i,
            forall|k: int|
                0 <= k < i ==> (#[trigger] writer.tensors@[k]).0@ == converted_schema(tensors@[k])
                    && is_converted_payload(tensors@[k], scale, writer.tensors@[k].1@),
            maps_levels(writer.tensor_quant_levels@, tensors@.take(i as int)),
        decreases tensors@.len() - i,
    {
        let t: &ArchiveTensor = &tensors[i];
        let dtype: DType = dtype_named(t.dtype.as_str());
        let depth: usize = AdaptiveQuantizer::bit_depth(
            AdaptiveQuantizer::assign_quant_level(t.name.as_str()),
        );
        let scaled: ScaledValues = if dtype == DType::F32 && t.data.len() % 4 == 0 {
            scale(t.data.as_slice(), depth)
        } else {
            ScaledValues::Constant
        };
        let (stored, payload, level): (DType, Vec<u8>, QuantLevel) =
            AdaptiveQuantizer::quantize_tensor(
            t.name.as_str(),
            dtype,
            t.data.as_slice(),
            &scaled,
        );
        assert(is_converted_payload(*t, scale, payload@));
        let shape: Vec<u64> = t.shape.clone();
        assert(shape@ =~= t.shape@);
        let schema: TensorSchema = TensorSchema {
            name: t.name.clone(),
            dtype: stored,
            shape,
            column_layout: Layout::RowMajor,
            compression: Compression::Uncompressed,
            encoding: Encoding::Plain,
            chunks: Vec::new(),
        };
        assert(schema@ =~= converted_schema(*t));
        let ghost before = writer.tensor_quant_levels@;
        writer.add_tensor(schema, payload);
        writer.set_tensor_quant_level(t.name.clone(), level);
        proof {
            lemma_levels_step(before, writer.tensor_quant_levels@, tensors@, i as int);
        }
        i += 1;
    }
    assert(tensors@.take(i as int) =~= tensors@);
}

proof fn lemma_levels_step(
    before: Map<Seq<char>, QuantLevel>,
    after: Map<Seq<char>, QuantLevel>,
    tensors: Seq<ArchiveTensor>,
    i: int,
)
    requires
        0 <= i < tensors.len(),
        maps_levels(before, tensors.take(i)),
        after == before.insert(tensors[i].name@, level_of(tensors[i].name@)),
    ensures
        maps_levels(after, tensors.take(i + 1)),
{
    let old_list = tensors.take(i);
    let list = tensors.take(i + 1);
    assert forall|name: Seq<char>| #[trigger] after.contains_key(name) <==> exists|k: int|
        0 <= k < list.len() && (#[trigger] list[k]).name@ == name by {
        if after.contains_key(name) {
            if before.contains_key(name) {
                let k = choose|k: int| 0 <= k < old_list.len() && (#[trigger] old_list[k]).name@ == name;
                assert(list[k].name@ == name);
            } else {
                assert(list[i].name@ == name);
            }
        }
        if exists|k: int| 0 <= k < list.len() && (#[trigger] list[k]).name@ == name {
            let k = choose|k: int| 0 <= k < list.len() && (#[trigger] list[k]).name@ == name;
            if k < i {
                assert(old_list[k].name@ == name);
                assert(before.contains_key(name));
            }
        }
    }
    assert forall|name: Seq<char>| #[trigger] after.contains_key(name) implies after[name]
        == level_of(name) by {
        if name != tensors[i].name@ {
            assert(before.contains_key(name));
        }
    }
}

/// Convert a safetensors file: the writer of the NCF file that holds its quantized tensors, or a
/// failure. The order of the tensors is not determined.
pub fn safetensors_to_ncf<S: Fn(&[u8], usize) -> ScaledValues>(
    data: &[u8],
    model_name: &str,
    architecture: Option<&str>,
    created_at: u64,
    author: Option<&str>,
    scale: S,
) -> (r: Result<NcfWriter, String>)
    requires
        is_scaling(scale),
    ensures
        match r {
            Ok(writer) => {
                &&& safetensors_content(parseable(data@)) matches Some(content)
                &&& exists|tensors: Seq<ArchiveTensor>| #[trigger]
                    lists_content(tensors, content) && are_converted(
                        tensors,
                        scale,
                        writer.tensors@,
                    ) && maps_levels(writer.tensor_quant_levels@, tensors)
                &&& is_converted_header(
                    writer.metadata,
                    model_name@,
                    text_or(architecture, "safetensors-converted"@),
                    created_at,
                    text_view(author),
                )
                &&& writer.flags.bits == 0
            },
            Err(_) => safetensors_content(parseable(data@)) is None,
        },
{
    let opened: Result<Vec<ArchiveTensor>, String> = match replaced_file(data) {
        Some(file) => open_archive(file.as_slice()),
        None => open_archive(data),
    };
    let tensors: Vec<ArchiveTensor> = match opened {
        Ok(tensors) => tensors,
        Err(text) => return Err(text),
    };
    let header: NcfHeader = converted_header(
        model_name,
        architecture,
        "safetensors-converted",
        created_at,
        author,
    );
    let mut writer: NcfWriter = NcfWriter::new(header, NcfFlags::empty());
    convert_archive(&mut writer, tensors.as_slice(), scale);
    Ok(writer)
}

} // verus!
