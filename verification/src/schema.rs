//! Tensor schemas and the references to the chunks that hold tensor payloads.

use crate::text::{append_decimal, decimal};
use vstd::prelude::*;
use vstd::string::*;

verus! {

/// Element type of a tensor.
#[allow(non_camel_case_types)]
#[derive(Debug, Clone, Copy, PartialEq, Eq, Structural)]
pub enum DType {
    F64,
    F32,
    F16,
    BF16,
    I32,
    I16,
    I8,
    U8,
    Q4K,
    Q4_0,
    Q8_0,
    /// A type that only its number identifies.
    Custom(u32),
}

impl DType {
    /// The name shown for the type.
    pub open spec fn spec_name(self) -> Seq<char> {
        match self {
            DType::F64 => "F64"@,
            DType::F32 => "F32"@,
            DType::F16 => "F16"@,
            DType::BF16 => "BF16"@,
            DType::I32 => "I32"@,
            DType::I16 => "I16"@,
            DType::I8 => "I8"@,
            DType::U8 => "U8"@,
            DType::Q4K => "Q4K"@,
            DType::Q4_0 => "Q4_0"@,
            DType::Q8_0 => "Q8_0"@,
            DType::Custom(n) => "Custom("@ + decimal(n as nat) + ")"@,
        }
    }

    /// The name shown for the type.
    pub fn name(&self) -> (s: String)
        ensures
            s@ == self.spec_name(),
    {
        match self {
            DType::F64 => "F64".to_owned(),
            DType::F32 => "F32".to_owned(),
            DType::F16 => "F16".to_owned(),
            DType::BF16 => "BF16".to_owned(),
            DType::I32 => "I32".to_owned(),
            DType::I16 => "I16".to_owned(),
            DType::I8 => "I8".to_owned(),
            DType::U8 => "U8".to_owned(),
            DType::Q4K => "Q4K".to_owned(),
            DType::Q4_0 => "Q4_0".to_owned(),
            DType::Q8_0 => "Q8_0".to_owned(),
            DType::Custom(n) => {
                let mut s: String = "Custom(".to_owned();
                append_decimal(&mut s, *n as u64);
                s.append(")");
                s
            },
        }
    }
}

/// Order in which the elements of a tensor are stored.
#[derive(Debug, Clone, Copy, PartialEq, Eq, Structural)]
pub enum Layout {
    RowMajor,
    ColumnMajor,
}

/// Compression announced for a tensor payload.
#[derive(Debug, Clone, Copy, PartialEq, Eq, Structural)]
pub enum Compression {
    Uncompressed,
    Zstd,
}

/// Encoding announced for a tensor payload.
#[derive(Debug, Clone, Copy, PartialEq, Eq, Structural)]
pub enum Encoding {
    Plain,
    Delta,
}

/// Where one chunk of a tensor stands in the file.
#[derive(Debug, Clone, Copy)]
pub struct ChunkRef {
    /// Chunk identifier.
    pub chunk_id: u64,
    /// Byte offset of the chunk header within the file.
    pub byte_offset: u64,
    /// Length of the chunk: header, payload and checksum.
    pub byte_len: u64,
    /// Length of the payload before compression.
    pub uncompressed_len: u64,
    /// BLAKE3 digest of the payload.
    pub checksum: [u8; 32],
    /// Offset of the chunk that already held this payload, if one did.
    pub canonical_offset: Option<u64>,
}

/// Description of one tensor.
#[derive(Debug)]
pub struct TensorSchema {
    /// Tensor name.
    pub name: String,
    /// Element type.
    pub dtype: DType,
    /// Extent of each dimension.
    pub shape: Vec<u64>,
    /// Element order.
    pub column_layout: Layout,
    /// Announced compression.
    pub compression: Compression,
    /// Announced encoding.
    pub encoding: Encoding,
    /// Chunks that hold the payload, in order.
    pub chunks: Vec<ChunkRef>,
}

/// What a tensor schema says.
#[verifier::ext_equal]
pub struct SchemaView {
    pub name: Seq<char>,
    pub dtype: DType,
    pub shape: Seq<u64>,
    pub column_layout: Layout,
    pub compression: Compression,
    pub encoding: Encoding,
    pub chunks: Seq<ChunkRef>,
}

impl View for TensorSchema {
    type V = SchemaView;

    open spec fn view(&self) -> SchemaView {
        SchemaView {
            name: self.name@,
            dtype: self.dtype,
            shape: self.shape@,
            column_layout: self.column_layout,
            compression: self.compression,
            encoding: self.encoding,
            chunks: self.chunks@,
        }
    }
}

/// What a list of schemas says.
pub open spec fn schema_views(schemas: Seq<TensorSchema>) -> Seq<SchemaView> {
    Seq::new(schemas.len(), |i: int| schemas[i]@)
}

impl Clone for TensorSchema {
    fn clone(&self) -> (r: Self)
        ensures
            r@ == self@,
            r.name@ == self.name@,
            r.dtype == self.dtype,
            r.shape@ == self.shape@,
            r.column_layout == self.column_layout,
            r.compression == self.compression,
            r.encoding == self.encoding,
            r.chunks@ == self.chunks@,
    {
        let shape: Vec<u64> = self.shape.clone();
        let chunks: Vec<ChunkRef> = self.chunks.clone();
        assert(shape@ =~= self.shape@);
        assert(chunks@ =~= self.chunks@);
        TensorSchema {
            name: self.name.clone(),
            dtype: self.dtype,
            shape,
            column_layout: self.column_layout,
            compression: self.compression,
            encoding: self.encoding,
            chunks,
        }
    }
}

} // verus!
