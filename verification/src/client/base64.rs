//! Raw bytes carried over the wire in base64url text.

use vstd::prelude::*;
use vstd::utf8::encode_utf8;
use crate::base64url::{b64_chars, b64_decode, base64url_decode, base64url_encode_string};

verus! {

/// A byte string, read from and written to base64url text.
#[derive(Debug, Clone, PartialEq, Eq)]
pub struct Base64(pub Vec<u8>);

impl View for Base64 {
    type V = Seq<u8>;

    open spec fn view(&self) -> Seq<u8> {
        self.0@
    }
}

impl Base64 {
    /// Parse base64url text; `None` where it is not a canonical encoding.
    pub fn from_text(s: &str) -> (r: Option<Base64>)
        ensures
            match r {
                Some(b) => b64_decode(encode_utf8(s@)) == Some(b@),
                None => b64_decode(encode_utf8(s@)) is None,
            },
    {
        match base64url_decode(s.as_bytes()) {
            Some(v) => Some(Base64(v)),
            None => None,
        }
    }

    /// The base64url text of the bytes.
    pub fn to_text(&self) -> (r: String)
        ensures
            r@ == b64_chars(self@),
    {
        base64url_encode_string(self.0.as_slice())
    }
}

} // verus!
