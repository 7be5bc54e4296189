//! What the conversions from other formats share.

use crate::header::{Metadata, NcfHeader};
use crate::name_map::NameMap;
use vstd::prelude::*;
use vstd::string::*;

verus! {

/// Whether this is the header of a converted file.
pub open spec fn is_converted_header(
    h: NcfHeader,
    model_name: Seq<char>,
    architecture: Seq<char>,
    created_at: u64,
    author: Option<Seq<char>>,
) -> bool {
    &&& h.metadata.model_name@ == model_name
    &&& h.metadata.architecture@ == architecture
    &&& h.metadata.created_at == created_at
    &&& match (h.metadata.author, author) {
        (Some(a), Some(b)) => a@ == b,
        (None, None) => true,
        _ => false,
    }
    &&& h.metadata.license is None
    &&& h.metadata.quantization is None
    &&& h.metadata.custom@ == Map::<Seq<char>, ciborium::value::Value>::empty()
}

/// What an optional text says.
pub open spec fn text_view(s: Option<&str>) -> Option<Seq<char>> {
    match s {
        Some(t) => Some(t@),
        None => None,
    }
}

/// A given text, or a default.
pub open spec fn text_or(s: Option<&str>, default: Seq<char>) -> Seq<char> {
    match s {
        Some(t) => t@,
        None => default,
    }
}

/// The header of a converted file.
pub fn converted_header(
    model_name: &str,
    architecture: Option<&str>,
    default_architecture: &str,
    created_at: u64,
    author: Option<&str>,
) -> (h: NcfHeader)
    ensures
        is_converted_header(
            h,
            model_name@,
            text_or(architecture, default_architecture@),
            created_at,
            text_view(author),
        ),
{
    NcfHeader {
        metadata: Metadata {
            model_name: model_name.to_owned(),
            architecture: match architecture {
                Some(s) => s.to_owned(),
                None => default_architecture.to_owned(),
            },
            created_at,
            author: match author {
                Some(s) => Some(s.to_owned()),
                None => None,
            },
            license: None,
            quantization: None,
            custom: NameMap::new(),
        },
    }
}

} // verus!
