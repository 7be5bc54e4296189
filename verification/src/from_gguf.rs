//! Conversion of GGUF files.

use crate::bytes::copy_bytes;
use crate::convert::{converted_header, is_converted_header, text_or, text_view};
use crate::gguf_flat::{flatten, flattened};
use crate::gguf_nesting::{nesting_within, nests_within};
use crate::header::{NcfFlags, NcfHeader};
use crate::quantize::QuantLevel;
use crate::schema::{Compression, DType, Encoding, Layout, SchemaView, TensorSchema};
use crate::text::{append_decimal, decimal};
use crate::writer::{tensor_views, NcfWriter};
use vstd::prelude::*;
use vstd::slice::slice_subrange;
use vstd::string::*;

verus! {

/// A failure of the conversion of a GGUF file.
#[derive(Debug)]
pub enum GgufError {
    /// The parser refused the file; holds its own text.
    Parse(String),
    /// The file ends too early.
    Incomplete,
    /// A tensor lies behind the end of the file.
    OffsetOutOfBounds { name: String, offset: u64 },
    /// The payload of a tensor does not have the length that its shape and type call for.
    SizeMismatch { name: String, expected: usize, elems: u64, elem_size: u64, got: usize },
}

impl GgufError {
    /// The text that describes the failure.
    pub open spec fn spec_message(self) -> Seq<char> {
        match self {
            GgufError::Parse(text) => "failed to parse GGUF file: "@ + text@,
            GgufError::Incomplete => "failed to parse GGUF file"@,
            GgufError::OffsetOutOfBounds { name, offset } => "offset of tensor '"@ + name@
                + "' out of bounds: "@ + decimal(offset as nat),
            GgufError::SizeMismatch { name, expected, elems, elem_size, got } =>
                "payload size mismatch for tensor '"@ + name@ + "': expected "@ + decimal(
                expected as nat,
            ) + " bytes ("@ + decimal(elems as nat) + " elements * "@ + decimal(elem_size as nat)
                + " bytes), got "@ + decimal(got as nat) + " bytes"@,
        }
    }

    /// The text that describes the failure.
    pub fn message(&self) -> (s: String)
        ensures
            s@ == self.spec_message(),
    {
        match self {
            GgufError::Parse(text) => {
                let mut s: String = "failed to parse GGUF file: ".to_owned();
                s.append(text.as_str());
                s
            },
            GgufError::Incomplete => "failed to parse GGUF file".to_owned(),
            GgufError::OffsetOutOfBounds { name, offset } => {
                let mut s: String = "offset of tensor '".to_owned();
                s.append(name.as_str());
                s.append("' out of bounds: ");
                append_decimal(&mut s, *offset);
                s
            },
            GgufError::SizeMismatch { name, expected, elems, elem_size, got } => {
                let mut s: String = "payload size mismatch for tensor '".to_owned();
                s.append(name.as_str());
                s.append("': expected ");
                append_decimal(&mut s, *expected as u64);
                s.append(" bytes (");
                append_decimal(&mut s, *elems);
                s.append(" elements * ");
                append_decimal(&mut s, *elem_size);
                s.append(" bytes), got ");
                append_decimal(&mut s, *got as u64);
                s.append(" bytes");
                s
            },
        }
    }
}

/// What a GGUF file says about one tensor.
#[derive(Debug)]
pub struct GgufTensor {
    /// Tensor name.
    pub name: String,
    /// Extent of each dimension.
    pub dimensions: Vec<u64>,
    /// Number of the element type.
    pub type_code: u32,
    /// Where the payload starts.
    pub offset: u64,
}

impl View for GgufTensor {
    type V = (Seq<char>, Seq<u64>, u32, u64);

    open spec fn view(&self) -> (Seq<char>, Seq<u64>, u32, u64) {
        (self.name@, self.dimensions@, self.type_code, self.offset)
    }
}

/// What a list of GGUF tensors says.
pub open spec fn gguf_views(tensors: Seq<GgufTensor>) -> Seq<(Seq<char>, Seq<u64>, u32, u64)> {
    Seq::new(tensors.len(), |i: int| tensors[i]@)
}

/// What the GGUF parser finds in a file: name, dimensions, type number and offset of each tensor,
/// nothing if the file ends too early, or the text of an error.
pub uninterp spec fn gguf_parsed(data: Seq<u8>) -> Result<
    Option<Seq<(Seq<char>, Seq<u64>, u32, u64)>>,
    Seq<char>,
>;

/// Arrays inside one another in metadata that is given to the parser. It calls itself once for
/// each.
pub const MAX_NESTING: u32 = 64;

/// The file that is parsed in place of the given one: the file itself, unless its metadata arrays
/// nest too deep for the parser's recursion. They are then taken out of one another.
///
/// The tensors are listed behind the metadata, and the parser reads every name, type and value of
/// the metadata in the same order in both files. So it finds the same tensors in both, or finds
/// that both end too early, or refuses both.
pub open spec fn shallow(data: Seq<u8>) -> Seq<u8> {
    if nests_within(data, MAX_NESTING as nat) {
        data
    } else {
        flattened(data)
    }
}

/// Calls `gguf::GGUFFile::read` and takes the tensors out, the element type as its number.
/// Claimed of it, where metadata arrays do not nest too deep for its recursion: tensors and error
/// text are a function of the bytes alone.
#[verifier::external_body]
fn parse_gguf(data: &[u8]) -> (r: Result<Option<Vec<GgufTensor>>, String>)
    requires
        nests_within(data@, MAX_NESTING as nat),
    ensures
        match (r, gguf_parsed(data@)) {
            (Ok(Some(ts)), Ok(Some(parsed))) => gguf_views(ts@) == parsed,
            (Ok(None), Ok(None)) => true,
            (Err(e), Err(text)) => e@ == text,
            _ => false,
        },
{
    let file = match gguf::GGUFFile::read(data)? {
        Some(file) => file,
        None => return Ok(None),
    };
    let tensors = file.tensors.into_iter().map(
        |t| GgufTensor {
            name: t.name,
            dimensions: t.dimensions,
            type_code: t.tensor_type as u32,
            offset: t.offset,
        },
    );
    Ok(Some(tensors.collect()))
}

/// The element type for a GGUF type number.
pub open spec fn dtype_of_code(code: u32) -> DType {
    if code == 0 {
        DType::F32
    } else if code == 1 {
        DType::F16
    } else if code == 2 || code == 3 {
        DType::Q4_0
    } else if code == 6 {
        DType::Custom(5)
    } else if code == 7 {
        DType::Custom(6)
    } else if code == 8 || code == 15 {
        DType::Q8_0
    } else if code == 9 || code == 11 || code == 13 || code == 14 {
        DType::Custom(code)
    } else if code == 10 || code == 12 {
        DType::Q4K
    } else if code == 16 {
        DType::I8
    } else if code == 17 {
        DType::I16
    } else if code == 18 {
        DType::I32
    } else {
        DType::Custom(0)
    }
}

/// The element type for a GGUF type number.
pub fn gguf_type_to_dtype(code: u32) -> (d: DType)
    ensures
        d == dtype_of_code(code),
{
    match code {
        0 => DType::F32,
        1 => DType::F16,
        2 => DType::Q4_0,
        3 => DType::Q4_0,
        6 => DType::Custom(5),
        7 => DType::Custom(6),
        8 => DType::Q8_0,
        9 => DType::Custom(9),
        10 => DType::Q4K,
        11 => DType::Custom(11),
        12 => DType::Q4K,
        13 => DType::Custom(13),
        14 => DType::Custom(14),
        15 => DType::Q8_0,
        16 => DType::I8,
        17 => DType::I16,
        18 => DType::I32,
        _ => DType::Custom(0),
    }
}

/// Bytes per element, for types that do not pack elements.
pub open spec fn element_size(dtype: DType) -> Option<u64> {
    match dtype {
        DType::F64 => Some(8),
        DType::F32 | DType::I32 => Some(4),
        DType::F16 | DType::BF16 | DType::I16 => Some(2),
        DType::I8 | DType::U8 => Some(1),
        DType::Q4K | DType::Q4_0 | DType::Q8_0 | DType::Custom(_) => None,
    }
}

fn get_element_size(dtype: DType) -> (r: Option<u64>)
    ensures
        r == element_size(dtype),
{
    match dtype {
        DType::F64 => Some(8),
        DType::F32 => Some(4),
        DType::F16 => Some(2),
        DType::BF16 => Some(2),
        DType::I32 => Some(4),
        DType::I16 => Some(2),
        DType::I8 => Some(1),
        DType::U8 => Some(1),
        DType::Q4K => None,
        DType::Q4_0 => None,
        DType::Q8_0 => None,
        DType::Custom(_) => None,
    }
}

/// A product, or the largest number of 64 bits if the product is larger.
pub open spec fn capped_product(a: int, b: int) -> int {
    if a * b > u64::MAX {
        u64::MAX as int
    } else {
        a * b
    }
}

/// The number of elements of a tensor, capped at every factor.
pub open spec fn element_count(dimensions: Seq<u64>) -> int
    decreases dimensions.len(),
{
    if dimensions.len() == 0 {
        1
    } else {
        capped_product(element_count(dimensions.drop_last()), dimensions.last() as int)
    }
}

fn multiply_capped(a: u64, b: u64) -> (p: u64)
    ensures
        p == capped_product(a as int, b as int),
{
    match a.checked_mul(b) {
        Some(p) => p,
        None => u64::MAX,
    }
}

fn count_elements(dimensions: &[u64]) -> (n: u64)
    ensures
        n == element_count(dimensions@),
{
    let mut n: u64 = 1;
    let mut i: usize = 0;
    assert(dimensions@.take(0) =~= Seq::<u64>::empty());
    while i < dimensions.len()
        invariant
            i <= dimensions@.len(),
            n == element_count(dimensions@.take(i as int)),
        decreases dimensions@.len() - i,
    {
        assert(dimensions@.take(i + 1).drop_last() =~= dimensions@.take(i as int));
        n = multiply_capped(n, dimensions[i]);
        i += 1;
    }
    assert(dimensions@.take(i as int) =~= dimensions@);
    n
}

/// The least of the file length and those of the first `n` offsets that lie between `offset` and
/// it.
pub open spec fn next_above(
    ts: Seq<(Seq<char>, Seq<u64>, u32, u64)>,
    file_size: int,
    offset: u64,
    n: int,
) -> int
    decreases n,
{
    if n <= 0 {
        file_size
    } else {
        let best = next_above(ts, file_size, offset, n - 1);
        if offset < ts[n - 1].3 < best {
            ts[n - 1].3 as int
        } else {
            best
        }
    }
}

/// Whether another tensor starts where tensor `i` does.
pub open spec fn shares_offset(ts: Seq<(Seq<char>, Seq<u64>, u32, u64)>, i: int) -> bool {
    exists|j: int| 0 <= j < ts.len() && j != i && (#[trigger] ts[j]).3 == ts[i].3
}

/// Where the payload of tensor `i` ends: where the next tensor starts or the file ends; a tensor
/// that starts where another one does, or at the end of the file, has no payload.
pub open spec fn gguf_end(
    ts: Seq<(Seq<char>, Seq<u64>, u32, u64)>,
    file_size: int,
    i: int,
) -> int {
    if ts[i].3 == file_size || shares_offset(ts, i) {
        ts[i].3 as int
    } else {
        next_above(ts, file_size, ts[i].3, ts.len() as int)
    }
}

/// The payload length that the shape and type of tensor `i` call for, if the type tells.
pub open spec fn expected_len(
    ts: Seq<(Seq<char>, Seq<u64>, u32, u64)>,
    i: int,
) -> Option<usize> {
    match element_size(dtype_of_code(ts[i].2)) {
        Some(size) => Some(
            (capped_product(element_count(ts[i].1), size as int) as u64) as usize,
        ),
        None => None,
    }
}

/// Whether the payload of tensor `i` has another length than its shape and type call for.
pub open spec fn size_mismatch(
    ts: Seq<(Seq<char>, Seq<u64>, u32, u64)>,
    file_size: int,
    i: int,
) -> bool {
    expected_len(ts, i) matches Some(expected) && expected != gguf_end(ts, file_size, i) - ts[i].3
}

/// Whether no tensor before `i` has a payload of a wrong length, so that conversion comes to it.
pub open spec fn gets_to(
    ts: Seq<(Seq<char>, Seq<u64>, u32, u64)>,
    file_size: int,
    i: int,
) -> bool {
    forall|j: int| 0 <= j < i ==> !#[trigger] size_mismatch(ts, file_size, j)
}

/// Whether every tensor that conversion comes to starts within the file.
pub open spec fn offsets_within(
    ts: Seq<(Seq<char>, Seq<u64>, u32, u64)>,
    file_size: int,
) -> bool {
    forall|i: int|
        0 <= i < ts.len() && #[trigger] gets_to(ts, file_size, i) ==> ts[i].3 <= file_size
}

/// The converted tensors.
pub open spec fn gguf_converted(
    ts: Seq<(Seq<char>, Seq<u64>, u32, u64)>,
    data: Seq<u8>,
) -> Seq<(SchemaView, Seq<u8>)> {
    Seq::new(
        ts.len(),
        |i: int|
            (
                SchemaView {
                    name: ts[i].0,
                    dtype: dtype_of_code(ts[i].2),
                    shape: ts[i].1,
                    column_layout: Layout::RowMajor,
                    compression: Compression::Uncompressed,
                    encoding: Encoding::Plain,
                    chunks: Seq::empty(),
                },
                data.subrange(ts[i].3 as int, gguf_end(ts, data.len() as int, i)),
            ),
    )
}

proof fn lemma_next_above(
    ts: Seq<(Seq<char>, Seq<u64>, u32, u64)>,
    file_size: int,
    offset: u64,
    n: int,
)
    requires
        offset <= file_size,
        n <= ts.len(),
    ensures
        offset <= next_above(ts, file_size, offset, n) <= file_size,
    decreases n,
{
    if n > 0 {
        lemma_next_above(ts, file_size, offset, n - 1);
    }
}

fn find_end(tensors: &[GgufTensor], file_size: usize, i: usize) -> (end: usize)
    requires
        i < tensors@.len(),
        tensors@[i as int].offset <= file_size,
    ensures
        end == gguf_end(gguf_views(tensors@), file_size as int, i as int),
        tensors@[i as int].offset <= end <= file_size,
{
    let ghost ts = gguf_views(tensors@);
    let offset: u64 = tensors[i].offset;
    let mut shared: bool = offset == file_size as u64;
    let mut best: u64 = file_size as u64;
    let mut j: usize = 0;
    while j < tensors.len()
        invariant
            i < tensors@.len(),
            j <= tensors@.len(),
            ts == gguf_views(tensors@),
            offset == ts[i as int].3,
            best == next_above(ts, file_size as int, offset, j as int),
            shared <==> offset == file_size || exists|k: int|
                0 <= k < j && k != i && (#[trigger] ts[k]).3 == offset,
        decreases tensors@.len() - j,
    {
        let other: u64 = tensors[j].offset;
        assert(ts[j as int].3 == other);
        if j != i && other == offset {
            shared = true;
        }
        if offset < other && other < best {
            best = other;
        }
        j += 1;
    }
    proof {
        lemma_next_above(ts, file_size as int, offset, ts.len() as int);
        assert(shares_offset(ts, i as int) <==> exists|k: int|
            0 <= k < ts.len() && k != i && (#[trigger] ts[k]).3 == offset);
    }
    if shared {
        offset as usize
    } else {
        best as usize
    }
}

/// How the length of the payload of a tensor compares with what its shape and type call for:
/// expected length, elements and element size if it is wrong.
fn check_size(tensor: &GgufTensor, got: usize) -> (r: Option<(usize, u64, u64)>)
    ensures
        match r {
            Some(m) => {
                &&& element_size(dtype_of_code(tensor.type_code)) == Some(m.2)
                &&& m.1 == element_count(tensor.dimensions@)
                &&& m.0 == (capped_product(m.1 as int, m.2 as int) as u64) as usize
                &&& m.0 != got
            },
            None => element_size(dtype_of_code(tensor.type_code)) matches Some(size) ==> got == (
            capped_product(element_count(tensor.dimensions@), size as int) as u64) as usize,
        },
{
    match get_element_size(gguf_type_to_dtype(tensor.type_code)) {
        Some(elem_size) => {
            let elems: u64 = count_elements(tensor.dimensions.as_slice());
            let expected: usize = multiply_capped(elems, elem_size) as usize;
            if expected != got {
                Some((expected, elems, elem_size))
            } else {
                None
            }
        },
        None => None,
    }
}

/// Whether `e` reports the wrong payload length of tensor `i`.
pub open spec fn reports_mismatch(
    e: GgufError,
    ts: Seq<(Seq<char>, Seq<u64>, u32, u64)>,
    file_size: int,
    i: int,
) -> bool {
    &&& e matches GgufError::SizeMismatch { name, expected, elems, elem_size, got }
    &&& name@ == ts[i].0
    &&& expected_len(ts, i) == Some(expected)
    &&& elems == element_count(ts[i].1)
    &&& element_size(dtype_of_code(ts[i].2)) == Some(elem_size)
    &&& got == gguf_end(ts, file_size, i) - ts[i].3
}

/// Convert the tensors of a GGUF file, up to the first whose payload has a wrong length.
pub fn convert_tensors(tensors: &[GgufTensor], data: &[u8]) -> (r: Result<
    Vec<(TensorSchema, Vec<u8>)>,
    GgufError,
>)
    requires
        offsets_within(gguf_views(tensors@), data@.len() as int),
    ensures
        match r {
            Ok(v) => {
                &&& gets_to(gguf_views(tensors@), data@.len() as int, tensors@.len() as int)
                &&& tensor_views(v@) == gguf_converted(gguf_views(tensors@), data@)
            },
            Err(e) => exists|i: int|
                0 <= i < tensors@.len() && #[trigger] gets_to(
                    gguf_views(tensors@),
                    data@.len() as int,
                    i,
                ) && size_mismatch(gguf_views(tensors@), data@.len() as int, i)
                    && reports_mismatch(e, gguf_views(tensors@), data@.len() as int, i),
        },
{
    let ghost ts = gguf_views(tensors@);
    let ghost size = data@.len() as int;
    let mut converted: Vec<(TensorSchema, Vec<u8>)> = Vec::new();
    let mut i: usize = 0;
    while i < tensors.len()
        invariant
            i <= tensors@.len(),
            ts == gguf_views(tensors@),
            size == data@.len(),
            offsets_within(ts, size),
            gets_to(ts, size, i as int),
            converted@.len() == i,
            forall|k: int|
                0 <= k < i ==> ((#[trigger] converted@[k]).0@, converted@[k].1@) == gguf_converted(
                    ts,
                    data@,
                )[k],
        decreases tensors@.len() - i,
    {
        let tensor: &GgufTensor = &tensors[i];
        assert(ts[i as int] == tensor@);
        let start: usize = tensor.offset as usize;
        let end: usize = find_end(tensors, data.len(), i);
        if let Some(m) = check_size(tensor, end - start) {
            let e: GgufError = GgufError::SizeMismatch {
                name: tensor.name.clone(),
                expected: m.0,
                elems: m.1,
                elem_size: m.2,
                got: end - start,
            };
            assert(size_mismatch(ts, size, i as int));
            assert(reports_mismatch(e, ts, size, i as int));
            return Err(e);
        }
        assert(!size_mismatch(ts, size, i as int));
        let shape: Vec<u64> = tensor.dimensions.clone();
        assert(shape@ =~= tensor.dimensions@);
        let schema: TensorSchema = TensorSchema {
            name: tensor.name.clone(),
            dtype: gguf_type_to_dtype(tensor.type_code),
            shape,
            column_layout: Layout::RowMajor,
            compression: Compression::Uncompressed,
            encoding: Encoding::Plain,
            chunks: Vec::new(),
        };
        assert(schema@ =~= gguf_converted(ts, data@)[i as int].0);
        converted.push((schema, copy_bytes(slice_subrange(data, start, end))));
        i += 1;
    }
    assert(tensor_views(converted@) =~= gguf_converted(ts, data@));
    Ok(converted)
}

/// The first tensor that conversion comes to and that starts behind the end of the file.
fn find_out_of_bounds(tensors: &[GgufTensor], data: &[u8]) -> (r: Option<usize>)
    ensures
        match r {
            Some(i) => {
                &&& i < tensors@.len()
                &&& gets_to(gguf_views(tensors@), data@.len() as int, i as int)
                &&& tensors@[i as int].offset > data@.len()
                &&& forall|j: int|
                    0 <= j < i ==> (#[trigger] tensors@[j]).offset <= data@.len()
            },
            None => offsets_within(gguf_views(tensors@), data@.len() as int),
        },
{
    let ghost ts = gguf_views(tensors@);
    let ghost size = data@.len() as int;
    let file_size: usize = data.len();
    let mut i: usize = 0;
    while i < tensors.len()
        invariant
            i <= tensors@.len(),
            ts == gguf_views(tensors@),
            size == data@.len(),
            file_size == size,
            gets_to(ts, size, i as int),
            forall|j: int| 0 <= j < i ==> (#[trigger] tensors@[j]).offset <= size,
        decreases tensors@.len() - i,
    {
        let tensor: &GgufTensor = &tensors[i];
        assert(ts[i as int] == tensor@);
        if tensor.offset > file_size as u64 {
            return Some(i);
        }
        let end: usize = find_end(tensors, file_size, i);
        if check_size(tensor, end - tensor.offset as usize).is_some() {
            proof {
                assert(size_mismatch(ts, size, i as int));
                assert forall|k: int| 0 <= k < ts.len() && #[trigger] gets_to(
                    ts,
                    size,
                    k,
                ) implies ts[k].3 <= size by {
                    assert(k <= i);
                    assert(ts[k].3 == tensors@[k].offset);
                }
            }
            return None;
        }
        assert(!size_mismatch(ts, size, i as int));
        i += 1;
    }
    assert forall|k: int| 0 <= k < ts.len() && #[trigger] gets_to(ts, size, k) implies ts[k].3
        <= size by {
        assert(ts[k].3 == tensors@[k].offset);
    }
    None
}

/// Whether `e` reports that tensor `i` is the first that starts behind the end of the file, and
/// that conversion comes to it.
pub open spec fn reports_out_of_bounds(
    e: GgufError,
    ts: Seq<(Seq<char>, Seq<u64>, u32, u64)>,
    file_size: int,
    i: int,
) -> bool {
    &&& e matches GgufError::OffsetOutOfBounds { name, offset }
    &&& name@ == ts[i].0
    &&& offset == ts[i].3
    &&& offset > file_size
    &&& forall|j: int| 0 <= j < i ==> (#[trigger] ts[j]).3 <= file_size
}

/// What the conversion of parsed tensors gives: the converted tensors, or the failure at the first
/// tensor that starts behind the file or has a payload of a wrong length.
pub open spec fn is_gguf_outcome(
    ts: Seq<(Seq<char>, Seq<u64>, u32, u64)>,
    data: Seq<u8>,
    r: Result<NcfWriter, GgufError>,
) -> bool {
    match r {
        Ok(writer) => {
            &&& offsets_within(ts, data.len() as int)
            &&& gets_to(ts, data.len() as int, ts.len() as int)
            &&& writer.spec_tensors() == gguf_converted(ts, data)
        },
        Err(e) => exists|i: int|
            0 <= i < ts.len() && #[trigger] gets_to(ts, data.len() as int, i) && (
            reports_out_of_bounds(e, ts, data.len() as int, i) || (offsets_within(
                ts,
                data.len() as int,
            ) && size_mismatch(ts, data.len() as int, i) && reports_mismatch(
                e,
                ts,
                data.len() as int,
                i,
            ))),
    }
}

/// Convert a GGUF file: the writer of the NCF file that holds its tensors.
pub fn gguf_to_ncf(
    data: &[u8],
    model_name: &str,
    architecture: Option<&str>,
    created_at: u64,
    author: Option<&str>,
) -> (r: Result<NcfWriter, GgufError>)
    ensures
        match gguf_parsed(shallow(data@)) {
            Err(text) => r matches Err(GgufError::Parse(t)) && t@ == text,
            Ok(None) => r matches Err(GgufError::Incomplete),
            Ok(Some(ts)) => is_gguf_outcome(ts, data@, r),
        },
        r matches Ok(writer) ==> {
            &&& is_converted_header(
                writer.metadata,
                model_name@,
                text_or(architecture, "gguf-converted"@),
                created_at,
                text_view(author),
            )
            &&& writer.flags.bits == 0
            &&& writer.tensor_quant_levels@ == Map::<Seq<char>, QuantLevel>::empty()
        },
{
    let parsed: Result<Option<Vec<GgufTensor>>, String> = if nesting_within(data, MAX_NESTING) {
        parse_gguf(data)
    } else {
        parse_gguf(flatten(data).as_slice())
    };
    let tensors: Vec<GgufTensor> = match parsed {
        Ok(Some(tensors)) => tensors,
        Ok(None) => return Err(GgufError::Incomplete),
        Err(text) => return Err(GgufError::Parse(text)),
    };
    let ghost ts = gguf_views(tensors@);
    let ghost size = data@.len() as int;
    if let Some(i) = find_out_of_bounds(tensors.as_slice(), data) {
        let e: GgufError = GgufError::OffsetOutOfBounds {
            name: tensors[i].name.clone(),
            offset: tensors[i].offset,
        };
        proof {
            assert(ts[i as int] == tensors@[i as int]@);
            assert forall|j: int| 0 <= j < i implies (#[trigger] ts[j]).3 <= size by {
                assert(ts[j].3 == tensors@[j].offset);
            }
            assert(gets_to(ts, size, i as int));
            assert(reports_out_of_bounds(e, ts, size, i as int));
        }
        return Err(e);
    }
    let header: NcfHeader = converted_header(
        model_name,
        architecture,
        "gguf-converted",
        created_at,
        author,
    );
    let mut writer: NcfWriter = NcfWriter::new(header, NcfFlags::empty());
    match convert_tensors(tensors.as_slice(), data) {
        Ok(converted) => {
            writer.tensors = converted;
            Ok(writer)
        },
        Err(e) => Err(e),
    }
}

proof fn lemma_next_above_least(
    ts: Seq<(Seq<char>, Seq<u64>, u32, u64)>,
    file_size: int,
    offset: u64,
    n: int,
    j: int,
)
    requires
        0 <= j < n <= ts.len(),
        offset < ts[j].3,
    ensures
        next_above(ts, file_size, offset, n) <= ts[j].3,
    decreases n,
{
    if j < n - 1 {
        lemma_next_above_least(ts, file_size, offset, n - 1, j);
    }
}

/// The payloads of two tensors do not overlap.
pub proof fn law_gguf_payloads_do_not_overlap(
    ts: Seq<(Seq<char>, Seq<u64>, u32, u64)>,
    file_size: int,
    i: int,
    j: int,
)
    requires
        0 <= i < ts.len(),
        0 <= j < ts.len(),
        i != j,
    ensures
        gguf_end(ts, file_size, i) <= ts[j].3 || gguf_end(ts, file_size, j) <= ts[i].3,
{
    if ts[i].3 < ts[j].3 {
        lemma_next_above_least(ts, file_size, ts[i].3, ts.len() as int, j);
    } else if ts[j].3 < ts[i].3 {
        lemma_next_above_least(ts, file_size, ts[j].3, ts.len() as int, i);
    } else {
        assert(shares_offset(ts, i));
    }
}

/// Every payload lies within the file if its tensor starts there.
pub proof fn law_gguf_payload_lies_within(
    ts: Seq<(Seq<char>, Seq<u64>, u32, u64)>,
    file_size: int,
    i: int,
)
    requires
        0 <= i < ts.len(),
        ts[i].3 <= file_size,
    ensures
        ts[i].3 <= gguf_end(ts, file_size, i) <= file_size,
{
    lemma_next_above(ts, file_size, ts[i].3, ts.len() as int);
}

} // verus!
