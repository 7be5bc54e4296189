//! What is shown of a file, of its flags and of errors.

use crate::error::{IoError, IoErrorKind, NcfError};
use crate::header::{joined, NcfFlags, NcfHeader};
use crate::inference::{generated, CONTEXT_LIMIT};
use crate::reader::{inspect_lines, line_views, shape_text, tensor_line};
use crate::schema::{schema_views, DType, TensorSchema};
use crate::text::decimal;
use vstd::prelude::*;
use vstd::string::*;

verus! {

/// A list of texts is joined from the left: each further text follows the separator, and none
/// stands before the first.
pub proof fn law_joining_adds_one_text(
    parts: Seq<Seq<char>>,
    part: Seq<char>,
    separator: Seq<char>,
)
    ensures
        joined(seq![part], separator) == part,
        joined(Seq::<Seq<char>>::empty(), separator).len() == 0,
        parts.len() > 0 ==> joined(parts.push(part), separator) == joined(parts, separator)
            + separator + part,
{
    assert(parts.push(part).drop_last() =~= parts);
}

/// The names of the element types.
pub proof fn law_type_is_shown_by_its_name(n: u32)
    ensures
        DType::F64.spec_name() == "F64"@,
        DType::F32.spec_name() == "F32"@,
        DType::F16.spec_name() == "F16"@,
        DType::BF16.spec_name() == "BF16"@,
        DType::I32.spec_name() == "I32"@,
        DType::I16.spec_name() == "I16"@,
        DType::I8.spec_name() == "I8"@,
        DType::U8.spec_name() == "U8"@,
        DType::Q4K.spec_name() == "Q4K"@,
        DType::Q4_0.spec_name() == "Q4_0"@,
        DType::Q8_0.spec_name() == "Q8_0"@,
        DType::Custom(n).spec_name() == "Custom("@ + decimal(n as nat) + ")"@,
{
}

/// A file is shown by a line for the model name, one for the architecture, one for the number of
/// tensors, and one for each tensor, in order, with its name, its type and its extents.
pub proof fn law_lines_tell_of_the_file(
    metadata: NcfHeader,
    schemas: Seq<TensorSchema>,
    lines: Seq<String>,
    i: int,
)
    requires
        line_views(lines) == inspect_lines(metadata, schema_views(schemas)),
        0 <= i < schemas.len(),
    ensures
        lines.len() == 3 + schemas.len(),
        lines[0]@ == "Model: "@ + metadata.metadata.model_name@,
        lines[1]@ == "Architecture: "@ + metadata.metadata.architecture@,
        lines[2]@ == "Tensors: "@ + decimal(schemas.len()),
        lines[3 + i]@ == " - "@ + schemas[i].name@ + " "@ + schemas[i].dtype.spec_name() + " "@
            + shape_text(schemas[i].shape@),
{
    let views = line_views(lines);
    assert(views.len() == lines.len());
    assert(inspect_lines(metadata, schema_views(schemas)).len() == 3 + schemas.len());
    assert(views[0] == lines[0]@);
    assert(views[1] == lines[1]@);
    assert(views[2] == lines[2]@);
    assert(views[3 + i] == lines[3 + i]@);
    assert(schema_views(schemas)[i] == schemas[i]@);
    assert(views[3 + i] == tensor_line(schemas[i]@));
}

/// The extents of a shape stand in square brackets, with a comma and a space between neighbours.
pub proof fn law_shape_is_shown_in_brackets(shape: Seq<u64>, d: u64)
    ensures
        shape_text(Seq::empty()) == "["@ + "]"@,
        shape_text(seq![d]) == "["@ + decimal(d as nat) + "]"@,
        shape.len() > 0 ==> shape_text(shape.push(d)) == shape_text(shape).drop_last() + ", "@
            + decimal(d as nat) + "]"@,
{
    reveal_strlit("[");
    reveal_strlit("]");
    let parts = Seq::new(shape.len(), |i: int| decimal(shape[i] as nat));
    let longer = shape.push(d);
    let more = Seq::new(longer.len(), |i: int| decimal(longer[i] as nat));
    assert(more =~= parts.push(decimal(d as nat)));
    law_joining_adds_one_text(parts, decimal(d as nat), ", "@);
    let none = Seq::<u64>::empty();
    assert(Seq::new(none.len(), |i: int| decimal(none[i] as nat)) =~= Seq::<Seq<char>>::empty());
    assert(shape_text(none) =~= "["@ + "]"@);
    let one = seq![d];
    assert(Seq::new(one.len(), |i: int| decimal(one[i] as nat)) =~= seq![decimal(d as nat)]);
    assert(shape_text(shape).drop_last() =~= "["@ + joined(parts, ", "@));
    if shape.len() > 0 {
        assert(shape_text(longer) =~= shape_text(shape).drop_last() + ", "@ + decimal(d as nat)
            + "]"@);
    }
}

/// The flags that are shown are those whose bit is set: bit 0 for compressed chunks, bit 1 for
/// encryption, bit 2 for streaming. The lower bits come first.
pub proof fn law_flags_are_shown_by_their_bits(flags: NcfFlags)
    ensures
        ({
            let a = flags.bits % 2 == 1;
            let b = flags.bits / 2 % 2 == 1;
            let c = flags.bits / 4 % 2 == 1;
            let names = flags.spec_names();
            &&& !a && !b && !c ==> names == Seq::<Seq<char>>::empty()
            &&& a && !b && !c ==> names == seq!["COMPRESSED"@]
            &&& !a && b && !c ==> names == seq!["ENCRYPTED"@]
            &&& !a && !b && c ==> names == seq!["STREAMING_SAFE"@]
            &&& a && b && !c ==> names == seq!["COMPRESSED"@, "ENCRYPTED"@]
            &&& a && !b && c ==> names == seq!["COMPRESSED"@, "STREAMING_SAFE"@]
            &&& !a && b && c ==> names == seq!["ENCRYPTED"@, "STREAMING_SAFE"@]
            &&& a && b && c ==> names == seq!["COMPRESSED"@, "ENCRYPTED"@, "STREAMING_SAFE"@]
        }),
{
    let bits = flags.bits;
    assert((bits & 1 == 1) <==> (bits % 2 == 1)) by (bit_vector);
    assert((bits & 2 == 2) <==> (bits / 2 % 2 == 1)) by (bit_vector);
    assert((bits & 4 == 4) <==> (bits / 4 % 2 == 1)) by (bit_vector);
    let names = flags.spec_names();
    if bits % 2 == 1 && bits / 2 % 2 == 1 && bits / 4 % 2 == 1 {
        assert(names =~= seq!["COMPRESSED"@, "ENCRYPTED"@, "STREAMING_SAFE"@]);
    } else if bits % 2 == 1 && bits / 2 % 2 == 1 {
        assert(names =~= seq!["COMPRESSED"@, "ENCRYPTED"@]);
    } else if bits % 2 == 1 && bits / 4 % 2 == 1 {
        assert(names =~= seq!["COMPRESSED"@, "STREAMING_SAFE"@]);
    } else if bits / 2 % 2 == 1 && bits / 4 % 2 == 1 {
        assert(names =~= seq!["ENCRYPTED"@, "STREAMING_SAFE"@]);
    } else if bits / 2 % 2 == 1 {
        assert(names =~= seq!["ENCRYPTED"@]);
    } else if bits / 4 % 2 == 1 {
        assert(names =~= seq!["STREAMING_SAFE"@]);
    }
}

/// One set of flags contains another exactly if it has every bit that the other has; what both
/// contain is contained in either.
pub proof fn law_contained_flags_are_a_subset(a: NcfFlags, b: NcfFlags, bit: u32)
    requires
        bit < 32,
        a.spec_contains(b),
    ensures
        (b.bits >> bit) % 2 == 1 ==> (a.bits >> bit) % 2 == 1,
        a.bits | b.bits == a.bits,
        b.spec_contains(a) ==> a == b,
        a.spec_contains(a),
        a.spec_contains(NcfFlags { bits: 0 }),
{
    let x = a.bits;
    let y = b.bits;
    assert((y >> bit) % 2 == 1 ==> (x >> bit) % 2 == 1) by (bit_vector)
        requires
            x & y == y,
            bit < 32,
    ;
    assert(x | y == x) by (bit_vector)
        requires
            x & y == y,
    ;
    assert(x & x == x && x & 0 == 0 && y & x == x & y) by (bit_vector);
}

/// A set of flags that has every bit of another contains it.
pub proof fn law_all_bits_are_contained(a: NcfFlags, b: NcfFlags)
    requires
        a.bits | b.bits == a.bits,
    ensures
        a.spec_contains(b),
{
    let x = a.bits;
    let y = b.bits;
    assert(x & y == y) by (bit_vector)
        requires
            x | y == x,
    ;
}

/// A file that is too small is reported as one that ended early, a failure of the compressor under
/// the class that it was given, and every other failure as malformed data.
pub proof fn law_failures_have_their_class(e: IoError)
    ensures
        e is FileTooSmall ==> e.spec_kind() == IoErrorKind::UnexpectedEof,
        e matches IoError::Codec { kind, .. } ==> e.spec_kind() == kind,
        !(e is FileTooSmall) && !(e is Codec) ==> e.spec_kind() == IoErrorKind::InvalidData,
{
}

/// The failures that tell lengths and places say which, as decimal numbers.
pub proof fn law_failures_tell_their_numbers(a: usize, b: usize, c: usize, target: u64)
    ensures
        (IoError::FileTooSmall { len: a }).spec_message() == "file too small: "@ + decimal(a as nat)
            + " bytes, need at least 48"@,
        (IoError::HeaderOutOfBounds { end: a, file_size: b }).spec_message()
            == "header block out of bounds: end="@ + decimal(a as nat) + ", file_size="@ + decimal(
            b as nat,
        ),
        (IoError::SchemaOutOfBounds { start: a, end: b, file_size: c }).spec_message()
            == "schema block out of bounds: start="@ + decimal(a as nat) + ", end="@ + decimal(
            b as nat,
        ) + ", file_size="@ + decimal(c as nat),
        (IoError::IndexOverlapsFooter { end: a, footer_pos: b }).spec_message()
            == "index block overlaps footer: end="@ + decimal(a as nat) + ", footer_pos="@ + decimal(
            b as nat,
        ),
        (IoError::ChunkOffsetOutOfBounds { offset: a, file_size: b }).spec_message()
            == "chunk offset out of bounds: offset="@ + decimal(a as nat) + ", file_size="@
            + decimal(b as nat),
        (IoError::ChunkTooSmall { total_len: a, overhead: b }).spec_message()
            == "chunk size too small: total_len="@ + decimal(a as nat) + ", overhead="@ + decimal(
            b as nat,
        ),
        (IoError::ChunkDataOutOfBounds { end: a, file_size: b }).spec_message()
            == "chunk data out of bounds: end="@ + decimal(a as nat) + ", file_size="@ + decimal(
            b as nat,
        ),
        (IoError::MissingSnapshotFor { target }).spec_message()
            == "missing full KV snapshot for target index "@ + decimal(target as nat),
{
}

/// The failures without numbers have one text each; what an encoder or a decoder said is passed on
/// unchanged.
pub proof fn law_other_failures_have_one_text(text: String, kind: IoErrorKind)
    ensures
        IoError::BadMagic.spec_message() == "Header parse error: Invalid magic bytes"@,
        IoError::HeaderOverflow.spec_message() == "header size overflow"@,
        IoError::BadFooterMagic.spec_message() == "missing or invalid footer magic"@,
        IoError::IndexOverflow.spec_message() == "index size overflow"@,
        IoError::ChunkOffsetOverflow.spec_message() == "chunk offset overflow"@,
        IoError::ChunkDataOverflow.spec_message() == "chunk data size overflow"@,
        IoError::ChunkDataPastEnd.spec_message() == "chunk data out of bounds"@,
        IoError::ChecksumMismatch.spec_message() == "checksum mismatch"@,
        IoError::LayoutUnsettled.spec_message() == "schema block length does not settle"@,
        IoError::MissingSnapshot.spec_message() == "missing full KV snapshot"@,
        IoError::Decode(text).spec_message() == text@,
        (IoError::Codec { kind, text }).spec_message() == text@,
{
}

/// An error is shown by its kind, then what it holds.
pub proof fn law_errors_are_shown_by_their_kind(e: IoError, text: String)
    ensures
        NcfError::Io(e).spec_message() == "IO error: "@ + e.spec_message(),
        NcfError::Cbor(text).spec_message() == "CBOR deserialize error: "@ + text@,
        NcfError::CborSer(text).spec_message() == "CBOR serialize error: "@ + text@,
        NcfError::Header(text).spec_message() == "Header parse error: "@ + text@,
{
}

/// A generated text starts with the prompt, says whether it is streamed, and ends with the number
/// of tokens asked for.
pub proof fn law_generated_text_starts_with_the_prompt(
    prompt: Seq<char>,
    stream: bool,
    max_tokens: usize,
)
    ensures
        generated(prompt, true, max_tokens) == prompt + " [streaming]"@ + " [max_tokens="@ + decimal(
            max_tokens as nat,
        ) + "]"@,
        generated(prompt, false, max_tokens) == prompt + " [max_tokens="@ + decimal(
            max_tokens as nat,
        ) + "]"@,
        generated(prompt, stream, max_tokens).take(prompt.len() as int) == prompt,
        CONTEXT_LIMIT == 2048,
{
    assert(generated(prompt, stream, max_tokens).take(prompt.len() as int) =~= prompt);
}

} // verus!
