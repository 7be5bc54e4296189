//! Errors of the format and the text that describes them.

use crate::text::{append_decimal, decimal};
use vstd::prelude::*;
use vstd::string::*;

verus! {

/// Broad class of an I/O level failure.
#[derive(Debug, Clone, Copy, PartialEq, Eq, Structural)]
pub enum IoErrorKind {
    /// The data ends before the required bytes.
    UnexpectedEof,
    /// The data is malformed.
    InvalidData,
    /// Any other failure.
    Other,
}

/// A failure met while walking the bytes of a file or a KV chain.
#[derive(Debug)]
pub enum IoError {
    /// The file cannot hold the binary prefix.
    FileTooSmall { len: usize },
    /// The file does not start with the magic bytes.
    BadMagic,
    /// The end of the header block is not addressable.
    HeaderOverflow,
    /// The header block ends behind the file.
    HeaderOutOfBounds { end: usize, file_size: usize },
    /// The schema block is no range within the file.
    SchemaOutOfBounds { start: usize, end: usize, file_size: usize },
    /// The footer magic is missing.
    BadFooterMagic,
    /// The end of the index block is not addressable.
    IndexOverflow,
    /// The index block runs into the footer.
    IndexOverlapsFooter { end: usize, footer_pos: usize },
    /// The start of a chunk payload is not addressable.
    ChunkOffsetOverflow,
    /// A chunk payload starts behind the file.
    ChunkOffsetOutOfBounds { offset: usize, file_size: usize },
    /// A chunk is shorter than its header and checksum.
    ChunkTooSmall { total_len: usize, overhead: usize },
    /// The end of a chunk payload is not addressable.
    ChunkDataOverflow,
    /// A chunk payload ends behind the file.
    ChunkDataOutOfBounds { end: usize, file_size: usize },
    /// A chunk payload ends behind the file, reported without the numbers.
    ChunkDataPastEnd,
    /// A payload does not have the recorded checksum.
    ChecksumMismatch,
    /// The length of the encoded schemas does not settle.
    LayoutUnsettled,
    /// A KV chain holds no full snapshot to start from.
    MissingSnapshot,
    /// A KV chain holds no full snapshot at or before the wanted token.
    MissingSnapshotFor { target: u64 },
    /// A block could not be decoded; holds the decoder's own text.
    Decode(String),
    /// The compressor or decompressor failed; holds its own text.
    Codec { kind: IoErrorKind, text: String },
}

impl IoError {
    /// The class that the failure is reported under.
    pub open spec fn spec_kind(self) -> IoErrorKind {
        match self {
            IoError::FileTooSmall { .. } => IoErrorKind::UnexpectedEof,
            IoError::Codec { kind, .. } => kind,
            _ => IoErrorKind::InvalidData,
        }
    }

    /// The text that describes the failure.
    pub open spec fn spec_message(self) -> Seq<char> {
        match self {
            IoError::FileTooSmall { len } => "file too small: "@ + decimal(len as nat)
                + " bytes, need at least 48"@,
            IoError::BadMagic => "Header parse error: Invalid magic bytes"@,
            IoError::HeaderOverflow => "header size overflow"@,
            IoError::HeaderOutOfBounds { end, file_size } => "header block out of bounds: end="@
                + decimal(end as nat) + ", file_size="@ + decimal(file_size as nat),
            IoError::SchemaOutOfBounds { start, end, file_size } =>
                "schema block out of bounds: start="@ + decimal(start as nat) + ", end="@ + decimal(
                end as nat,
            ) + ", file_size="@ + decimal(file_size as nat),
            IoError::BadFooterMagic => "missing or invalid footer magic"@,
            IoError::IndexOverflow => "index size overflow"@,
            IoError::IndexOverlapsFooter { end, footer_pos } => "index block overlaps footer: end="@
                + decimal(end as nat) + ", footer_pos="@ + decimal(footer_pos as nat),
            IoError::ChunkOffsetOverflow => "chunk offset overflow"@,
            IoError::ChunkOffsetOutOfBounds { offset, file_size } =>
                "chunk offset out of bounds: offset="@ + decimal(offset as nat) + ", file_size="@
                + decimal(file_size as nat),
            IoError::ChunkTooSmall { total_len, overhead } => "chunk size too small: total_len="@
                + decimal(total_len as nat) + ", overhead="@ + decimal(overhead as nat),
            IoError::ChunkDataOverflow => "chunk data size overflow"@,
            IoError::ChunkDataOutOfBounds { end, file_size } => "chunk data out of bounds: end="@
                + decimal(end as nat) + ", file_size="@ + decimal(file_size as nat),
            IoError::ChunkDataPastEnd => "chunk data out of bounds"@,
            IoError::ChecksumMismatch => "checksum mismatch"@,
            IoError::LayoutUnsettled => "schema block length does not settle"@,
            IoError::MissingSnapshot => "missing full KV snapshot"@,
            IoError::MissingSnapshotFor { target } =>
                "missing full KV snapshot for target index "@ + decimal(target as nat),
            IoError::Decode(text) => text@,
            IoError::Codec { text, .. } => text@,
        }
    }

    /// The class that the failure is reported under.
    pub fn kind(&self) -> (k: IoErrorKind)
        ensures
            k == self.spec_kind(),
    {
        match self {
            IoError::FileTooSmall { .. } => IoErrorKind::UnexpectedEof,
            IoError::Codec { kind, .. } => *kind,
            _ => IoErrorKind::InvalidData,
        }
    }

    /// The text that describes the failure.
    pub fn message(&self) -> (s: String)
        ensures
            s@ == self.spec_message(),
    {
        match self {
            IoError::FileTooSmall { len } => {
                let mut s: String = numbered("file too small: ", *len as u64);
                s.append(" bytes, need at least 48");
                s
            },
            IoError::BadMagic => "Header parse error: Invalid magic bytes".to_owned(),
            IoError::HeaderOverflow => "header size overflow".to_owned(),
            IoError::HeaderOutOfBounds { end, file_size } => numbered_pair(
                "header block out of bounds: end=",
                *end as u64,
                ", file_size=",
                *file_size as u64,
            ),
            IoError::SchemaOutOfBounds { start, end, file_size } => {
                let mut s: String = numbered_pair(
                    "schema block out of bounds: start=",
                    *start as u64,
                    ", end=",
                    *end as u64,
                );
                s.append(", file_size=");
                append_decimal(&mut s, *file_size as u64);
                s
            },
            IoError::BadFooterMagic => "missing or invalid footer magic".to_owned(),
            IoError::IndexOverflow => "index size overflow".to_owned(),
            IoError::IndexOverlapsFooter { end, footer_pos } => numbered_pair(
                "index block overlaps footer: end=",
                *end as u64,
                ", footer_pos=",
                *footer_pos as u64,
            ),
            IoError::ChunkOffsetOverflow => "chunk offset overflow".to_owned(),
            IoError::ChunkOffsetOutOfBounds { offset, file_size } => numbered_pair(
                "chunk offset out of bounds: offset=",
                *offset as u64,
                ", file_size=",
                *file_size as u64,
            ),
            IoError::ChunkTooSmall { total_len, overhead } => numbered_pair(
                "chunk size too small: total_len=",
                *total_len as u64,
                ", overhead=",
                *overhead as u64,
            ),
            IoError::ChunkDataOverflow => "chunk data size overflow".to_owned(),
            IoError::ChunkDataOutOfBounds { end, file_size } => numbered_pair(
                "chunk data out of bounds: end=",
                *end as u64,
                ", file_size=",
                *file_size as u64,
            ),
            IoError::ChunkDataPastEnd => "chunk data out of bounds".to_owned(),
            IoError::ChecksumMismatch => "checksum mismatch".to_owned(),
            IoError::LayoutUnsettled => "schema block length does not settle".to_owned(),
            IoError::MissingSnapshot => "missing full KV snapshot".to_owned(),
            IoError::MissingSnapshotFor { target } => numbered(
                "missing full KV snapshot for target index ",
                *target,
            ),
            IoError::Decode(text) => text.clone(),
            IoError::Codec { text, .. } => text.clone(),
        }
    }
}

fn numbered(lead: &str, n: u64) -> (s: String)
    ensures
        s@ == lead@ + decimal(n as nat),
{
    let mut s: String = lead.to_owned();
    append_decimal(&mut s, n);
    s
}

fn numbered_pair(lead: &str, a: u64, middle: &str, b: u64) -> (s: String)
    ensures
        s@ == lead@ + decimal(a as nat) + middle@ + decimal(b as nat),
{
    let mut s: String = numbered(lead, a);
    s.append(middle);
    append_decimal(&mut s, b);
    s
}

/// Errors that can occur while parsing or handling NCF files.
#[derive(Debug)]
pub enum NcfError {
    /// I/O level failure.
    Io(IoError),
    /// A CBOR block could not be deserialized; holds the decoder's own text.
    Cbor(String),
    /// A value could not be serialized to CBOR; holds the encoder's own text.
    CborSer(String),
    /// The header or a schema is malformed.
    Header(String),
}

impl NcfError {
    /// The text that describes the error.
    pub open spec fn spec_message(self) -> Seq<char> {
        match self {
            NcfError::Io(e) => "IO error: "@ + e.spec_message(),
            NcfError::Cbor(text) => "CBOR deserialize error: "@ + text@,
            NcfError::CborSer(text) => "CBOR serialize error: "@ + text@,
            NcfError::Header(text) => "Header parse error: "@ + text@,
        }
    }

    /// The text that describes the error.
    pub fn message(&self) -> (s: String)
        ensures
            s@ == self.spec_message(),
    {
        match self {
            NcfError::Io(e) => {
                let detail: String = e.message();
                "IO error: ".to_owned().concat(detail.as_str())
            },
            NcfError::Cbor(text) => "CBOR deserialize error: ".to_owned().concat(text.as_str()),
            NcfError::CborSer(text) => "CBOR serialize error: ".to_owned().concat(text.as_str()),
            NcfError::Header(text) => "Header parse error: ".to_owned().concat(text.as_str()),
        }
    }
}

} // verus!
