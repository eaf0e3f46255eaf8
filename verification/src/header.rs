//! The header names this client knows by name.

use vstd::prelude::*;
use crate::scan::{content_length_name, content_type_name};

verus! {

/// A header name with a meaning to this client: the body-length
/// declaration and the body's media type.
pub enum Headers {
    /// `content-length`: declares the exact body length in bytes.
    ContentLength,
    /// `content-type`: names the media type of the body.
    ContentType,
}

impl Headers {
    /// The header's name on the wire.
    pub fn as_str(&self) -> (r: &'static str)
        ensures
            match self {
                Headers::ContentLength => r@ == "content-length"@,
                Headers::ContentType => r@ == "content-type"@,
            },
    {
        match self {
            Headers::ContentLength => "content-length",
            Headers::ContentType => "content-type",
        }
    }

    /// The header's name as bytes, ready for a lookup in a frame's header
    /// list.
    pub fn as_bytes(&self) -> (r: Vec<u8>)
        ensures
            match self {
                Headers::ContentLength => r@ == content_length_name(),
                Headers::ContentType => r@ == content_type_name(),
            },
    {
        match self {
            Headers::ContentLength => {
                let v: Vec<u8> = vec![99, 111, 110, 116, 101, 110, 116, 45, 108, 101, 110, 103, 116, 104];
                assert(v@ =~= content_length_name());
                v
            },
            Headers::ContentType => {
                let v: Vec<u8> = vec![99, 111, 110, 116, 101, 110, 116, 45, 116, 121, 112, 101];
                assert(v@ =~= content_type_name());
                v
            },
        }
    }
}

} // verus!
