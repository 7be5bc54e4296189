//! The model handle and the text that it generates.

use crate::text::{append_decimal, decimal};
use vstd::prelude::*;
use vstd::string::*;

verus! {

/// Tokens that a context can hold.
pub const CONTEXT_LIMIT: usize = 2048;

/// A model file and how it is to be used.
#[derive(Debug)]
pub struct NcfModel {
    /// Path of the model file.
    pub path: String,
    /// Whether to prefetch.
    pub prefetch: bool,
    /// Whether to quantize adaptively.
    pub adaptive_quant: bool,
}

/// The text generated for a prompt.
pub open spec fn generated(prompt: Seq<char>, stream: bool, max_tokens: usize) -> Seq<char> {
    let start = if stream {
        prompt + " [streaming]"@
    } else {
        prompt
    };
    start + " [max_tokens="@ + decimal(max_tokens as nat) + "]"@
}

/// Generate the text for a prompt.
pub fn generate(prompt: &str, stream: bool, max_tokens: usize) -> (s: String)
    ensures
        s@ == generated(prompt@, stream, max_tokens),
{
    let mut s: String = prompt.to_owned();
    if stream {
        s.append(" [streaming]");
    }
    s.append(" [max_tokens=");
    append_decimal(&mut s, max_tokens as u64);
    s.append("]");
    s
}

/// Tokens that a context can hold.
pub fn context_limit() -> (n: usize)
    ensures
        n == CONTEXT_LIMIT,
{
    CONTEXT_LIMIT
}

impl NcfModel {
    /// A handle for the model file at a path.
    pub fn new(path: String, prefetch: bool, adaptive_quant: bool) -> (m: Self)
        ensures
            m == (NcfModel { path, prefetch, adaptive_quant }),
    {
        NcfModel { path, prefetch, adaptive_quant }
    }

    /// Generate the text for a prompt.
    pub fn generate(&self, prompt: &str, stream: bool, max_tokens: usize) -> (s: String)
        ensures
            s@ == generated(prompt@, stream, max_tokens),
    {
        generate(prompt, stream, max_tokens)
    }

    /// Tokens that a context can hold.
    pub fn context_limit(&self) -> (n: usize)
        ensures
            n == CONTEXT_LIMIT,
    {
        context_limit()
    }
}

} // verus!
