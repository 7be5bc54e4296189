//! The file header: flags, model metadata and the fixed binary prefix.

use crate::bytes::{
    get_u32, get_u64, le_bytes, le_value, lemma_le_bytes_len, lemma_le_value_of_le_bytes,
    lemma_pow256_widths, put_u32, put_u64, same_bytes, to_array,
};
use crate::constants::FILE_HEADER_PREFIX_SIZE;
use crate::error::NcfError;
use crate::name_map::NameMap;
use vstd::prelude::*;
use vstd::slice::slice_subrange;
use vstd::string::*;

verus! {

/// Magic bytes at the start of an NCF file.
pub const NCF_MAGIC: [u8; 8] = [0x4E, 0x43, 0x46, 0x00, 0xDE, 0xAD, 0xBE, 0xEF];

/// Magic bytes at the start of the footer of an NCF file.
pub const FOOTER_MAGIC: [u8; 8] = [0x4E, 0x43, 0x46, 0x45, 0x4E, 0x44, 0x21, 0x21];

/// Version number that writers put into the prefix.
pub const FORMAT_VERSION: u32 = 0x0001_0000;

/// Flag bit: the file contains compressed chunks.
pub const COMPRESSED: u32 = 0x1;

/// Flag bit: the file is encrypted.
pub const ENCRYPTED: u32 = 0x2;

/// Flag bit: the file is marked streaming-safe.
pub const STREAMING_SAFE: u32 = 0x4;

/// Bits of all flags that have a meaning.
pub const KNOWN_FLAGS: u32 = 0x7;

/// Flags in the file header that announce features of the file.
#[derive(Debug, Clone, Copy, PartialEq, Eq, Structural)]
pub struct NcfFlags {
    /// One bit per feature.
    pub bits: u32,
}

/// Texts joined with a separator between neighbours.
pub open spec fn joined(parts: Seq<Seq<char>>, separator: Seq<char>) -> Seq<char>
    decreases parts.len(),
{
    if parts.len() == 0 {
        Seq::empty()
    } else if parts.len() == 1 {
        parts[0]
    } else {
        joined(parts.drop_last(), separator) + separator + parts.last()
    }
}

impl NcfFlags {
    /// No flag at all.
    pub fn empty() -> (f: Self)
        ensures
            f.bits == 0,
    {
        NcfFlags { bits: 0 }
    }

    /// The flags as an integer.
    pub fn bits(&self) -> (b: u32)
        ensures
            b == self.bits,
    {
        self.bits
    }

    /// The known flags among `bits`; unknown bits are dropped.
    pub fn from_bits_truncate(bits: u32) -> (f: Self)
        ensures
            f.bits == bits & KNOWN_FLAGS,
            f.bits == bits % 8,
    {
        assert(bits & 7 == bits % 8) by (bit_vector);
        NcfFlags { bits: bits & KNOWN_FLAGS }
    }

    /// Whether every flag of `other` is set.
    pub open spec fn spec_contains(self, other: NcfFlags) -> bool {
        self.bits & other.bits == other.bits
    }

    /// Whether every flag of `other` is set.
    pub fn contains(&self, other: NcfFlags) -> (r: bool)
        ensures
            r == self.spec_contains(other),
    {
        self.bits & other.bits == other.bits
    }

    /// The names of the set flags, in order of their bits.
    pub open spec fn spec_names(self) -> Seq<Seq<char>> {
        let a = if self.spec_contains(NcfFlags { bits: COMPRESSED }) {
            seq!["COMPRESSED"@]
        } else {
            seq![]
        };
        let b = if self.spec_contains(NcfFlags { bits: ENCRYPTED }) {
            a.push("ENCRYPTED"@)
        } else {
            a
        };
        if self.spec_contains(NcfFlags { bits: STREAMING_SAFE }) {
            b.push("STREAMING_SAFE"@)
        } else {
            b
        }
    }

    /// The names of the set flags with `|` between them.
    pub fn display(&self) -> (s: String)
        ensures
            s@ == joined(self.spec_names(), "|"@),
    {
        let mut s: String = String::new();
        let ghost mut parts: Seq<Seq<char>> = seq![];
        let mut first: bool = true;
        if self.contains(NcfFlags { bits: COMPRESSED }) {
            append_part(&mut s, Ghost(parts), "COMPRESSED", first);
            first = false;
            proof {
                parts = parts.push("COMPRESSED"@);
                assert(parts =~= seq!["COMPRESSED"@]);
            }
        }
        if self.contains(NcfFlags { bits: ENCRYPTED }) {
            append_part(&mut s, Ghost(parts), "ENCRYPTED", first);
            first = false;
            proof {
                parts = parts.push("ENCRYPTED"@);
            }
        }
        if self.contains(NcfFlags { bits: STREAMING_SAFE }) {
            append_part(&mut s, Ghost(parts), "STREAMING_SAFE", first);
            proof {
                parts = parts.push("STREAMING_SAFE"@);
            }
        }
        assert(parts =~= self.spec_names());
        s
    }
}

fn append_part(s: &mut String, Ghost(parts): Ghost<Seq<Seq<char>>>, part: &str, first: bool)
    requires
        old(s)@ == joined(parts, "|"@),
        first <==> parts.len() == 0,
    ensures
        final(s)@ == joined(parts.push(part@), "|"@),
{
    if !first {
        s.append("|");
    }
    s.append(part);
    proof {
        assert(parts.push(part@).drop_last() =~= parts);
        assert(s@ =~= joined(parts.push(part@), "|"@));
    }
}

/// A CBOR value that is carried along without being looked at.
#[verifier::external_type_specification]
#[verifier::external_body]
pub struct ExCborValue(ciborium::value::Value);

/// High-level metadata about the model stored in the file.
#[derive(Debug)]
pub struct Metadata {
    /// Human-readable model name.
    pub model_name: String,
    /// Architecture identifier.
    pub architecture: String,
    /// Creation time in seconds since the UNIX epoch.
    pub created_at: u64,
    /// Author, if known.
    pub author: Option<String>,
    /// License, if known.
    pub license: Option<String>,
    /// Quantization note, if any.
    pub quantization: Option<String>,
    /// Arbitrary custom values.
    pub custom: NameMap<ciborium::value::Value>,
}

/// Top-level header that stands behind the binary prefix.
#[derive(Debug)]
pub struct NcfHeader {
    /// The model metadata.
    pub metadata: Metadata,
}

/// Binary prefix at the start of every file; it locates the other blocks.
#[derive(Debug, Clone, Copy)]
pub struct FileHeaderPrefix {
    /// Magic bytes identifying the format.
    pub magic: [u8; 8],
    /// Format version.
    pub version: u32,
    /// Features of the file.
    pub flags: NcfFlags,
    /// Length of the header block in bytes.
    pub header_len: u64,
    /// Offset of the schema block.
    pub schema_offset: u64,
    /// Offset of the index block.
    pub index_offset: u64,
    /// Number of chunks that tensors refer to.
    pub chunk_count: u64,
}

/// The bytes of a prefix: its fields in order, integers little-endian.
pub open spec fn prefix_bytes(p: FileHeaderPrefix) -> Seq<u8> {
    p.magic@ + le_bytes(p.version as nat, 4) + le_bytes(p.flags.bits as nat, 4) + le_bytes(
        p.header_len as nat,
        8,
    ) + le_bytes(p.schema_offset as nat, 8) + le_bytes(p.index_offset as nat, 8) + le_bytes(
        p.chunk_count as nat,
        8,
    )
}

/// Whether `bytes` start with the magic bytes of the format.
pub open spec fn has_magic(bytes: Seq<u8>) -> bool {
    bytes.subrange(0, 8) == NCF_MAGIC@
}

/// The prefix that stands at the start of `bytes`; unknown flags are dropped.
pub open spec fn prefix_of(bytes: Seq<u8>) -> FileHeaderPrefix {
    FileHeaderPrefix {
        magic: NCF_MAGIC,
        version: le_value(bytes.subrange(8, 12)) as u32,
        flags: NcfFlags { bits: (le_value(bytes.subrange(12, 16)) as u32) & KNOWN_FLAGS },
        header_len: le_value(bytes.subrange(16, 24)) as u64,
        schema_offset: le_value(bytes.subrange(24, 32)) as u64,
        index_offset: le_value(bytes.subrange(32, 40)) as u64,
        chunk_count: le_value(bytes.subrange(40, 48)) as u64,
    }
}

impl FileHeaderPrefix {
    /// A prefix of the current version with the given flags and no blocks.
    pub fn new(flags: NcfFlags) -> (p: Self)
        ensures
            p == (FileHeaderPrefix {
                magic: NCF_MAGIC,
                version: FORMAT_VERSION,
                flags,
                header_len: 0,
                schema_offset: 0,
                index_offset: 0,
                chunk_count: 0,
            }),
            p.magic@ == seq![78u8, 67, 70, 0, 222, 173, 190, 239],
            p.version == 65536,
    {
        assert(NCF_MAGIC@ =~= seq![78u8, 67, 70, 0, 222, 173, 190, 239]);
        FileHeaderPrefix {
            magic: NCF_MAGIC,
            version: FORMAT_VERSION,
            flags,
            header_len: 0,
            schema_offset: 0,
            index_offset: 0,
            chunk_count: 0,
        }
    }

    /// Encode the prefix into its binary form.
    pub fn encode(&self) -> (bytes: [u8; 48])
        ensures
            bytes@ == prefix_bytes(*self),
    {
        broadcast use lemma_le_bytes_len;

        let mut out: Vec<u8> = Vec::new();
        out.extend_from_slice(self.magic.as_slice());
        put_u32(&mut out, self.version);
        put_u32(&mut out, self.flags.bits());
        put_u64(&mut out, self.header_len);
        put_u64(&mut out, self.schema_offset);
        put_u64(&mut out, self.index_offset);
        put_u64(&mut out, self.chunk_count);
        assert(out@ =~= prefix_bytes(*self));
        to_array(&out)
    }

    /// Decode the prefix at the start of `bytes`.
    pub fn decode(bytes: &[u8]) -> (r: Result<Self, NcfError>)
        ensures
            bytes@.len() < FILE_HEADER_PREFIX_SIZE ==> (r matches Err(NcfError::Header(text))
                && text@ == "Header prefix too short"@),
            bytes@.len() >= FILE_HEADER_PREFIX_SIZE && !has_magic(bytes@) ==> (r matches Err(
                NcfError::Header(text),
            ) && text@ == "Invalid magic bytes"@),
            bytes@.len() >= FILE_HEADER_PREFIX_SIZE && has_magic(bytes@) ==> r == Ok::<
                Self,
                NcfError,
            >(prefix_of(bytes@)),
    {
        if bytes.len() < FILE_HEADER_PREFIX_SIZE as usize {
            return Err(NcfError::Header("Header prefix too short".to_owned()));
        }
        let magic: [u8; 8] = NCF_MAGIC;
        if !same_bytes(slice_subrange(bytes, 0, 8), magic.as_slice()) {
            return Err(NcfError::Header("Invalid magic bytes".to_owned()));
        }
        Ok(
            FileHeaderPrefix {
                magic,
                version: get_u32(bytes, 8),
                flags: NcfFlags::from_bits_truncate(get_u32(bytes, 12)),
                header_len: get_u64(bytes, 16),
                schema_offset: get_u64(bytes, 24),
                index_offset: get_u64(bytes, 32),
                chunk_count: get_u64(bytes, 40),
            },
        )
    }
}

/// A prefix takes the same number of bytes whatever it says.
pub broadcast proof fn lemma_prefix_len(p: FileHeaderPrefix)
    ensures
        #[trigger] prefix_bytes(p).len() == FILE_HEADER_PREFIX_SIZE,
{
    broadcast use lemma_le_bytes_len;

}

/// Decoding an encoded prefix gives the prefix back, whatever follows it, provided that it
/// carries the magic bytes and no unknown flag.
pub proof fn law_prefix_roundtrip(p: FileHeaderPrefix, rest: Seq<u8>)
    requires
        p.magic@ == NCF_MAGIC@,
        p.flags.bits & KNOWN_FLAGS == p.flags.bits,
    ensures
        has_magic(prefix_bytes(p) + rest),
        prefix_of(prefix_bytes(p) + rest) == p,
{
    lemma_prefix_fields(p, rest);
    assert(p.magic =~= NCF_MAGIC);
}

/// Decoding an encoded prefix keeps every field but the unknown flags, which are dropped.
pub proof fn law_prefix_drops_unknown_flags(p: FileHeaderPrefix, rest: Seq<u8>)
    requires
        p.magic@ == NCF_MAGIC@,
    ensures
        prefix_of(prefix_bytes(p) + rest) == (FileHeaderPrefix {
            flags: NcfFlags { bits: p.flags.bits & KNOWN_FLAGS },
            ..p
        }),
{
    lemma_prefix_fields(p, rest);
    assert(p.magic =~= NCF_MAGIC);
}

proof fn lemma_prefix_fields(p: FileHeaderPrefix, rest: Seq<u8>)
    ensures
        ({
            let q = prefix_of(prefix_bytes(p) + rest);
            &&& (prefix_bytes(p) + rest).subrange(0, 8) == p.magic@
            &&& q.version == p.version
            &&& q.flags.bits == p.flags.bits & KNOWN_FLAGS
            &&& q.header_len == p.header_len
            &&& q.schema_offset == p.schema_offset
            &&& q.index_offset == p.index_offset
            &&& q.chunk_count == p.chunk_count
        }),
{
    broadcast use lemma_le_bytes_len;

    let s = prefix_bytes(p) + rest;
    lemma_pow256_widths();
    assert(s.subrange(0, 8) =~= p.magic@);
    assert(s.subrange(8, 12) =~= le_bytes(p.version as nat, 4));
    assert(s.subrange(12, 16) =~= le_bytes(p.flags.bits as nat, 4));
    assert(s.subrange(16, 24) =~= le_bytes(p.header_len as nat, 8));
    assert(s.subrange(24, 32) =~= le_bytes(p.schema_offset as nat, 8));
    assert(s.subrange(32, 40) =~= le_bytes(p.index_offset as nat, 8));
    assert(s.subrange(40, 48) =~= le_bytes(p.chunk_count as nat, 8));
    lemma_le_value_of_le_bytes(p.version as nat, 4);
    lemma_le_value_of_le_bytes(p.flags.bits as nat, 4);
    lemma_le_value_of_le_bytes(p.header_len as nat, 8);
    lemma_le_value_of_le_bytes(p.schema_offset as nat, 8);
    lemma_le_value_of_le_bytes(p.index_offset as nat, 8);
    lemma_le_value_of_le_bytes(p.chunk_count as nat, 8);
}

} // verus!
