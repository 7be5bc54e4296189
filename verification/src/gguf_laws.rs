//! What the conversion of a GGUF file gives.

use crate::convert::{is_converted_header, text_or, text_view};
use crate::from_gguf::{
    capped_product, dtype_of_code, element_count, element_size, expected_len, gets_to,
    gguf_converted, gguf_end, is_gguf_outcome, next_above, offsets_within, reports_mismatch,
    reports_out_of_bounds, shares_offset, size_mismatch, GgufError,
};
use crate::header::NcfHeader;
use crate::schema::{Compression, DType, Encoding, Layout};
use crate::text::decimal;
use crate::writer::NcfWriter;
use vstd::prelude::*;
use vstd::string::*;

verus! {

/// An element takes 8 bytes as a 64-bit float, 4 as a 32-bit float or integer, 2 as a 16-bit float
/// of either kind or a 16-bit integer, and 1 as an 8-bit integer; packed and custom types have no
/// width of an element.
pub proof fn law_elements_have_their_width(code: u32)
    ensures
        element_size(DType::F64) == Some(8u64),
        element_size(DType::F32) == Some(4u64),
        element_size(DType::I32) == Some(4u64),
        element_size(DType::F16) == Some(2u64),
        element_size(DType::BF16) == Some(2u64),
        element_size(DType::I16) == Some(2u64),
        element_size(DType::I8) == Some(1u64),
        element_size(DType::U8) == Some(1u64),
        element_size(DType::Q4K) is None,
        element_size(DType::Q4_0) is None,
        element_size(DType::Q8_0) is None,
        element_size(DType::Custom(code)) is None,
{
}

/// The type numbers stand for these types; every number without a type of its own stands for the
/// custom type 0.
pub proof fn law_type_numbers(code: u32)
    ensures
        dtype_of_code(0) == DType::F32,
        dtype_of_code(1) == DType::F16,
        dtype_of_code(2) == DType::Q4_0,
        dtype_of_code(3) == DType::Q4_0,
        dtype_of_code(6) == DType::Custom(5),
        dtype_of_code(7) == DType::Custom(6),
        dtype_of_code(8) == DType::Q8_0,
        dtype_of_code(9) == DType::Custom(9),
        dtype_of_code(10) == DType::Q4K,
        dtype_of_code(11) == DType::Custom(11),
        dtype_of_code(12) == DType::Q4K,
        dtype_of_code(13) == DType::Custom(13),
        dtype_of_code(14) == DType::Custom(14),
        dtype_of_code(15) == DType::Q8_0,
        dtype_of_code(16) == DType::I8,
        dtype_of_code(17) == DType::I16,
        dtype_of_code(18) == DType::I32,
        code == 4 || code == 5 || code > 18 ==> dtype_of_code(code) == DType::Custom(0),
{
}

/// The number of elements is the product of the extents: one for no extent, the extent for one, and
/// for extents in two parts the product of the two numbers, where it has no more than 64 bits.
pub proof fn law_elements_multiply(a: Seq<u64>, b: Seq<u64>, d: u64)
    ensures
        element_count(Seq::empty()) == 1,
        element_count(seq![d]) == d,
        0 <= element_count(a) <= u64::MAX,
        element_count(a) * element_count(b) <= u64::MAX ==> element_count(a + b) == element_count(a)
            * element_count(b),
        element_count(a) * element_count(b) > u64::MAX ==> element_count(a + b) == u64::MAX,
    decreases b.len(),
{
    lemma_count_bounds(a);
    lemma_count_bounds(b);
    reveal_with_fuel(element_count, 2);
    assert(seq![d].drop_last() =~= Seq::<u64>::empty());
    if b.len() == 0 {
        assert(a + b =~= a);
    } else {
        let t = b.drop_last();
        let x = element_count(a);
        let y = element_count(t);
        let z = b.last() as int;
        law_elements_multiply(a, t, d);
        lemma_count_bounds(t);
        assert((a + b).drop_last() =~= a + t);
        assert((a + b).last() == b.last());
        lemma_capped_products(x, y, z);
    }
}

proof fn lemma_count_bounds(a: Seq<u64>)
    ensures
        0 <= element_count(a) <= u64::MAX,
    decreases a.len(),
{
    if a.len() > 0 {
        lemma_count_bounds(a.drop_last());
        let x = element_count(a.drop_last());
        let y = a.last() as int;
        assert(x * y >= 0) by (nonlinear_arith)
            requires
                x >= 0,
                y >= 0,
        ;
    }
}

proof fn lemma_capped_products(x: int, y: int, z: int)
    requires
        0 <= x <= u64::MAX,
        0 <= y <= u64::MAX,
        0 <= z <= u64::MAX,
    ensures
        capped_product(capped_product(x, y), z) == capped_product(x, capped_product(y, z)),
{
    let m = u64::MAX as int;
    assert((x * y) * z == x * (y * z)) by (nonlinear_arith);
    if x == 0 {
        assert(x * y == 0 && x * capped_product(y, z) == 0 && 0 * z == 0) by (nonlinear_arith)
            requires
                x == 0,
        ;
    } else if z == 0 {
        assert(y * z == 0 && x * 0 == 0 && capped_product(x, y) * z == 0) by (nonlinear_arith)
            requires
                z == 0,
        ;
    } else if y == 0 {
        assert(x * y == 0 && y * z == 0 && 0 * z == 0 && x * 0 == 0) by (nonlinear_arith)
            requires
                y == 0,
        ;
    } else {
        assert(x * y >= x && x * y >= y && y * z >= y && y * z >= z) by (nonlinear_arith)
            requires
                x >= 1,
                y >= 1,
                z >= 1,
        ;
        if x * y > m {
            assert(m * z >= m) by (nonlinear_arith)
                requires
                    z >= 1,
                    m >= 0,
            ;
            assert(x * (y * z) >= x * y) by (nonlinear_arith)
                requires
                    y * z >= y,
                    x >= 1,
            ;
            if y * z > m {
                assert(x * m >= m) by (nonlinear_arith)
                    requires
                        x >= 1,
                        m >= 0,
                ;
            }
        } else if y * z > m {
            assert(x * m >= m) by (nonlinear_arith)
                requires
                    x >= 1,
                    m >= 0,
            ;
            assert((x * y) * z >= y * z) by (nonlinear_arith)
                requires
                    x * y >= y,
                    z >= 1,
            ;
        }
    }
}

/// The payload of a tensor runs from its offset to the nearest later offset of a tensor, or to the
/// end of the file; it is empty where another tensor, or the end of the file, has the same offset.
pub proof fn law_payload_runs_to_the_next(
    ts: Seq<(Seq<char>, Seq<u64>, u32, u64)>,
    data: Seq<u8>,
    i: int,
)
    requires
        0 <= i < ts.len(),
        ts[i].3 <= data.len(),
    ensures
        ({
            let offset = ts[i].3 as int;
            let payload = gguf_converted(ts, data)[i].1;
            let end = offset + payload.len();
            let alone = offset < data.len() && forall|j: int|
                0 <= j < ts.len() && j != i ==> (#[trigger] ts[j]).3 != offset;
            &&& end <= data.len()
            &&& payload == data.subrange(offset, end)
            &&& alone ==> offset < end && forall|j: int|
                0 <= j < ts.len() ==> !(offset < (#[trigger] ts[j]).3 < end)
            &&& alone ==> end == data.len() || exists|j: int|
                0 <= j < ts.len() && (#[trigger] ts[j]).3 == end
            &&& !alone ==> end == offset
        }),
{
    let size = data.len() as int;
    lemma_nearest(ts, size, ts[i].3, ts.len() as int);
    let offset = ts[i].3 as int;
    let alone = offset < data.len() && forall|j: int|
        0 <= j < ts.len() && j != i ==> (#[trigger] ts[j]).3 != offset;
    if !alone && offset < data.len() {
        let j = choose|j: int| 0 <= j < ts.len() && j != i && (#[trigger] ts[j]).3 == offset;
        assert(shares_offset(ts, i));
    }
}

proof fn lemma_nearest(
    ts: Seq<(Seq<char>, Seq<u64>, u32, u64)>,
    size: int,
    offset: u64,
    n: int,
)
    requires
        offset <= size,
        0 <= n <= ts.len(),
    ensures
        ({
            let end = next_above(ts, size, offset, n);
            &&& offset <= end <= size
            &&& offset < size ==> offset < end
            &&& forall|j: int| 0 <= j < n ==> !(offset < (#[trigger] ts[j]).3 < end)
            &&& end == size || exists|j: int| 0 <= j < n && (#[trigger] ts[j]).3 == end
        }),
    decreases n,
{
    if n > 0 {
        lemma_nearest(ts, size, offset, n - 1);
        let best = next_above(ts, size, offset, n - 1);
        if !(offset < ts[n - 1].3 < best) && best != size {
            let j = choose|j: int| 0 <= j < n - 1 && (#[trigger] ts[j]).3 == best;
            assert(ts[j].3 == best);
        }
    }
}

/// A converted tensor has the name and the extents that the file gives it, the type of its type
/// number, row-major order, no compression, plain encoding, and no chunk yet.
pub proof fn law_converted_schema_says_what_the_file_says(
    ts: Seq<(Seq<char>, Seq<u64>, u32, u64)>,
    data: Seq<u8>,
    i: int,
)
    requires
        0 <= i < ts.len(),
    ensures
        ({
            let schema = gguf_converted(ts, data)[i].0;
            &&& gguf_converted(ts, data).len() == ts.len()
            &&& schema.name == ts[i].0
            &&& schema.shape == ts[i].1
            &&& schema.column_layout == Layout::RowMajor
            &&& schema.compression == Compression::Uncompressed
            &&& schema.encoding == Encoding::Plain
            &&& schema.chunks.len() == 0
            &&& ts[i].2 == 0 ==> schema.dtype == DType::F32
            &&& ts[i].2 == 1 ==> schema.dtype == DType::F16
            &&& ts[i].2 == 16 ==> schema.dtype == DType::I8
            &&& ts[i].2 == 17 ==> schema.dtype == DType::I16
            &&& ts[i].2 == 18 ==> schema.dtype == DType::I32
            &&& ts[i].2 == 2 || ts[i].2 == 3 ==> schema.dtype == DType::Q4_0
            &&& ts[i].2 == 10 || ts[i].2 == 12 ==> schema.dtype == DType::Q4K
            &&& ts[i].2 == 8 || ts[i].2 == 15 ==> schema.dtype == DType::Q8_0
        }),
{
}

/// Bytes of an element of a type number; nothing for packed and custom types.
pub open spec fn width(code: u32) -> Option<int> {
    if code == 0 || code == 18 {
        Some(4)
    } else if code == 1 || code == 17 {
        Some(2)
    } else if code == 16 {
        Some(1)
    } else {
        None
    }
}

/// Whether the payload of a tensor has as many bytes as its elements take, where their type tells.
pub open spec fn has_its_size(
    ts: Seq<(Seq<char>, Seq<u64>, u32, u64)>,
    data: Seq<u8>,
    i: int,
) -> bool {
    width(ts[i].2) matches Some(w) ==> gguf_converted(ts, data)[i].1.len() == element_count(ts[i].1)
        * w
}

proof fn lemma_has_its_size(ts: Seq<(Seq<char>, Seq<u64>, u32, u64)>, data: Seq<u8>, i: int)
    requires
        0 <= i < ts.len(),
        ts[i].3 <= data.len() <= usize::MAX,
        element_count(ts[i].1) * 4 <= usize::MAX,
    ensures
        has_its_size(ts, data, i) == !size_mismatch(ts, data.len() as int, i),
{
    law_payload_runs_to_the_next(ts, data, i);
    lemma_count_bounds(ts[i].1);
    let end = gguf_end(ts, data.len() as int, i);
    assert(gguf_converted(ts, data)[i].1.len() == end - ts[i].3) by {
        lemma_nearest(ts, data.len() as int, ts[i].3, ts.len() as int);
    }
    if let Some(w) = width(ts[i].2) {
        let count = element_count(ts[i].1);
        assert(element_size(dtype_of_code(ts[i].2)) == Some(w as u64));
        assert(0 <= count * w <= count * 4 <= u64::MAX) by {
            assert(w == 1 || w == 2 || w == 4);
            if w == 1 {
                assert(count * w == count);
            } else if w == 2 {
                assert(count * w == count * 2);
            }
        }
        assert(capped_product(count, w) == count * w);
        assert(expected_len(ts, i) == Some((count * w) as usize));
    }
}

/// A file is converted exactly if every tensor starts within it and has a payload of 4 bytes for
/// each element of type number 0 or 18, 2 for 1 or 17, 1 for 16, and any payload for every other
/// number. Else it is refused. Numbers of elements too large for an address are left aside.
pub proof fn law_well_formed_file_is_converted(
    ts: Seq<(Seq<char>, Seq<u64>, u32, u64)>,
    data: Seq<u8>,
    r: Result<NcfWriter, GgufError>,
)
    requires
        is_gguf_outcome(ts, data, r),
        data.len() <= usize::MAX,
        forall|i: int| 0 <= i < ts.len() ==> element_count((#[trigger] ts[i]).1) * 4 <= usize::MAX,
    ensures
        r is Ok <==> forall|i: int|
            0 <= i < ts.len() ==> (#[trigger] ts[i]).3 <= data.len() && has_its_size(ts, data, i),
{
    let size = data.len() as int;
    if r is Ok {
        assert forall|i: int| 0 <= i < ts.len() implies (#[trigger] ts[i]).3 <= data.len()
            && has_its_size(ts, data, i) by {
            assert(gets_to(ts, size, i));
            assert(!size_mismatch(ts, size, i));
            lemma_has_its_size(ts, data, i);
        }
    } else {
        let e = r->Err_0;
        let i = choose|i: int|
            0 <= i < ts.len() && #[trigger] gets_to(ts, size, i) && (reports_out_of_bounds(
                e,
                ts,
                size,
                i,
            ) || (offsets_within(ts, size) && size_mismatch(ts, size, i) && reports_mismatch(
                e,
                ts,
                size,
                i,
            )));
        if ts[i].3 <= size {
            lemma_has_its_size(ts, data, i);
        }
    }
}

/// A refusal names a tensor that starts behind the file, with its offset, or one whose payload does
/// not have the bytes that its elements take, with the number and the width of the elements and
/// the bytes that they take and that there are.
pub proof fn law_refusal_names_what_is_wrong(
    ts: Seq<(Seq<char>, Seq<u64>, u32, u64)>,
    data: Seq<u8>,
    r: Result<NcfWriter, GgufError>,
)
    requires
        is_gguf_outcome(ts, data, r),
        data.len() <= usize::MAX,
        forall|i: int| 0 <= i < ts.len() ==> element_count((#[trigger] ts[i]).1) * 4 <= usize::MAX,
    ensures
        r matches Err(e) ==> match e {
            GgufError::OffsetOutOfBounds { name, offset } => exists|i: int|
                0 <= i < ts.len() && (#[trigger] ts[i]).0 == name@ && ts[i].3 == offset && offset
                    > data.len(),
            GgufError::SizeMismatch { name, expected, elems, elem_size, got } => exists|i: int|
                0 <= i < ts.len() && (#[trigger] ts[i]).0 == name@ && width(ts[i].2) == Some(
                    elem_size as int,
                ) && elems == element_count(ts[i].1) && expected == elems * elem_size && got
                    == gguf_converted(ts, data)[i].1.len() && got != expected,
            _ => false,
        },
{
    if let Err(e) = r {
        let size = data.len() as int;
        let i = choose|i: int|
            0 <= i < ts.len() && #[trigger] gets_to(ts, size, i) && (reports_out_of_bounds(
                e,
                ts,
                size,
                i,
            ) || (offsets_within(ts, size) && size_mismatch(ts, size, i) && reports_mismatch(
                e,
                ts,
                size,
                i,
            )));
        if !reports_out_of_bounds(e, ts, size, i) {
            lemma_count_bounds(ts[i].1);
            assert(gets_to(ts, size, i) ==> ts[i].3 <= size);
            lemma_has_its_size(ts, data, i);
            law_payload_runs_to_the_next(ts, data, i);
            lemma_nearest(ts, size, ts[i].3, ts.len() as int);
        }
    }
}

/// The header of a converted file has the given model name, time and author, the given architecture
/// or the default where none is given, and nothing else.
pub proof fn law_converted_header_says_what_was_given(
    h: NcfHeader,
    model_name: Seq<char>,
    architecture: Option<&str>,
    default: Seq<char>,
    created_at: u64,
    author: Option<&str>,
)
    requires
        is_converted_header(
            h,
            model_name,
            text_or(architecture, default),
            created_at,
            text_view(author),
        ),
    ensures
        h.metadata.model_name@ == model_name,
        architecture matches Some(a) ==> h.metadata.architecture@ == a@,
        architecture is None ==> h.metadata.architecture@ == default,
        h.metadata.created_at == created_at,
        author matches Some(a) ==> (h.metadata.author matches Some(b) && b@ == a@),
        author is None ==> h.metadata.author is None,
        h.metadata.license is None,
        h.metadata.quantization is None,
        h.metadata.custom@ == Map::<Seq<char>, ciborium::value::Value>::empty(),
{
}

/// A converted file has one tensor for each of the given ones, in their order, with the given name
/// and extents, the type of the type number, and the bytes from the given offset up to the nearest
/// later offset or the end of the file.
pub proof fn law_converted_tensors_are_the_given_ones(
    ts: Seq<(Seq<char>, Seq<u64>, u32, u64)>,
    data: Seq<u8>,
    writer: NcfWriter,
    i: int,
)
    requires
        is_gguf_outcome(ts, data, Ok(writer)),
        0 <= i < ts.len(),
    ensures
        ({
            let schema = writer.tensors@[i].0;
            let payload = writer.tensors@[i].1@;
            let offset = ts[i].3 as int;
            let end = offset + payload.len();
            &&& writer.tensors@.len() == ts.len()
            &&& schema.name@ == ts[i].0
            &&& schema.shape@ == ts[i].1
            &&& schema.dtype == dtype_of_code(ts[i].2)
            &&& schema.column_layout == Layout::RowMajor
            &&& schema.compression == Compression::Uncompressed
            &&& schema.encoding == Encoding::Plain
            &&& schema.chunks@.len() == 0
            &&& end <= data.len()
            &&& payload == data.subrange(offset, end)
            &&& forall|j: int| 0 <= j < ts.len() ==> !(offset < (#[trigger] ts[j]).3 < end)
            &&& payload.len() > 0 ==> end == data.len() || exists|j: int|
                0 <= j < ts.len() && (#[trigger] ts[j]).3 == end
            &&& payload.len() == 0 ==> offset == data.len() || exists|j: int|
                0 <= j < ts.len() && j != i && (#[trigger] ts[j]).3 == offset
        }),
{
    let views = writer.spec_tensors();
    assert(views.len() == writer.tensors@.len());
    assert(views[i].0 == writer.tensors@[i].0@);
    assert(views[i].1 == writer.tensors@[i].1@);
    assert(gets_to(ts, data.len() as int, i));
    law_payload_runs_to_the_next(ts, data, i);
}

/// A refused conversion is shown by what is wrong, with the tensor and the numbers.
pub proof fn law_refusal_is_shown(
    text: String,
    name: String,
    offset: u64,
    expected: usize,
    elems: u64,
    elem_size: u64,
    got: usize,
)
    ensures
        GgufError::Parse(text).spec_message() == "failed to parse GGUF file: "@ + text@,
        GgufError::Incomplete.spec_message() == "failed to parse GGUF file"@,
        (GgufError::OffsetOutOfBounds { name, offset }).spec_message() == "offset of tensor '"@
            + name@ + "' out of bounds: "@ + decimal(offset as nat),
        (GgufError::SizeMismatch { name, expected, elems, elem_size, got }).spec_message()
            == "payload size mismatch for tensor '"@ + name@ + "': expected "@ + decimal(
            expected as nat,
        ) + " bytes ("@ + decimal(elems as nat) + " elements * "@ + decimal(elem_size as nat)
            + " bytes), got "@ + decimal(got as nat) + " bytes"@,
{
}

} // verus!
