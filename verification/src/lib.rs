//! Verified core of NCF, a container format for model tensors.

pub mod agreement;
pub mod blocks;
pub mod bytes;
pub mod chunk;
pub mod constants;
pub mod convert;
pub mod damage;
pub mod dedup;
pub mod digest;
pub mod error;
pub mod from_gguf;
pub mod from_safetensors;
pub mod gguf_flat;
pub mod gguf_flat_laws;
pub mod gguf_laws;
pub mod gguf_nesting;
pub mod handle;
pub mod header;
pub mod index;
pub mod inference;
pub mod json_pairs;
pub mod kv_delta;
pub mod kv_stream;
pub mod layout;
pub mod mmap;
pub mod name_map;
pub mod opening_laws;
pub mod prefetch;
pub mod prefetch_laws;
pub mod quantize;
pub mod quantize_laws;
pub mod reader;
pub mod reading_laws;
pub mod roundtrip;
pub mod safetensors_laws;
pub mod schema;
pub mod showing_laws;
pub mod text;
pub mod writer;
pub mod writer_laws;
