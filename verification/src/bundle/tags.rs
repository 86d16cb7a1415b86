//! Decoded item tags, kept in URL-safe base64 textual form.

use vstd::prelude::*;
use vstd::utf8::{valid_utf8, decode_utf8, encode_utf8};
use crate::avro;
use crate::base64url::{b64_chars, b64_decode, base64url_decode, base64url_encode_string};
use crate::text::string_from_utf8;

verus! {

/// Failure while decoding tags or their textual form.
#[derive(Debug, Clone, Copy, PartialEq, Eq, Structural)]
pub enum Error {
    /// The Avro datum carrying the tag array is malformed.
    AvroError,
    /// A tag string is not canonical base64url.
    Base64Error,
    /// Decoded tag bytes are not valid UTF-8.
    Utf8Error,
}

/// A string holding URL-safe base64 without padding.
#[derive(Debug, Clone, PartialEq, Eq)]
pub struct Base64(pub String);

/// The bytes a base64url string stands for, decoded from its UTF-8 bytes;
/// `None` where the text is not a canonical encoding.
pub open spec fn base64_text_bytes(s: Seq<char>) -> Option<Seq<u8>> {
    b64_decode(encode_utf8(s))
}

impl View for Base64 {
    type V = Seq<char>;

    open spec fn view(&self) -> Seq<char> {
        self.0@
    }
}

impl Base64 {
    /// Decode the base64url text back to the string it encodes.
    pub fn decode(&self) -> (r: Result<String, Error>)
        ensures
            match r {
                Ok(out) => {
                    &&& base64_text_bytes(self@) matches Some(bytes)
                    &&& valid_utf8(bytes)
                    &&& out@ == decode_utf8(bytes)
                },
                Err(Error::Base64Error) => base64_text_bytes(self@) is None,
                Err(Error::Utf8Error) => {
                    &&& base64_text_bytes(self@) matches Some(bytes)
                    &&& !valid_utf8(bytes)
                },
                Err(Error::AvroError) => false,
            },
    {
        let bytes = match base64url_decode(self.0.as_str().as_bytes()) {
            Some(v) => v,
            None => {
                return Err(Error::Base64Error);
            },
        };
        match string_from_utf8(bytes) {
            Some(s) => Ok(s),
            None => Err(Error::Utf8Error),
        }
    }
}

/// A name/value pair.
#[derive(Debug, Clone, PartialEq, Eq)]
pub struct Tag<T> {
    pub name: T,
    pub value: T,
}

/// A tag list in base64url textual form.
#[derive(Debug, Clone, PartialEq, Eq)]
pub struct Base64Tags(pub Vec<Tag<Base64>>);

/// The textual pairs of a tag vector.
pub open spec fn tags_seq_view(v: Seq<Tag<Base64>>) -> Seq<(Seq<char>, Seq<char>)> {
    v.map_values(|t: Tag<Base64>| (t.name@, t.value@))
}

impl View for Base64Tags {
    type V = Seq<(Seq<char>, Seq<char>)>;

    open spec fn view(&self) -> Seq<(Seq<char>, Seq<char>)> {
        tags_seq_view(self.0@)
    }
}

/// The textual form of raw tag pairs: each side base64url encoded.
pub open spec fn encoded_pairs(pairs: Seq<avro::TagPair>) -> Seq<(Seq<char>, Seq<char>)> {
    pairs.map_values(|p: avro::TagPair| (b64_chars(p.0), b64_chars(p.1)))
}

impl Base64Tags {
    /// Decode an Avro tag datum, retaining both sides of each pair in
    /// base64url textual form.
    pub fn from_avro(value: Vec<u8>) -> (r: Result<Self, Error>)
        ensures
            match r {
                Ok(tags) => {
                    &&& avro::avro_tags(value@) matches Some(pairs)
                    &&& tags@ == encoded_pairs(pairs)
                },
                Err(Error::AvroError) => avro::avro_tags(value@) is None,
                Err(_) => false,
            },
    {
        let pairs = match avro::decode_tag_pairs(value.as_slice()) {
            Some(p) => p,
            None => {
                return Err(Error::AvroError);
            },
        };
        let ghost pairs_snap = avro::pairs_view(pairs@);
        let mut out: Vec<Tag<Base64>> = Vec::new();
        let mut i: usize = 0;
        while i < pairs.len()
            invariant
                i <= pairs@.len(),
                pairs_snap == avro::pairs_view(pairs@),
                out@.len() == i,
                tags_seq_view(out@) == encoded_pairs(pairs_snap.take(i as int)),
            decreases pairs@.len() - i,
        {
            let name = base64url_encode_string(pairs[i].0.as_slice());
            let val = base64url_encode_string(pairs[i].1.as_slice());
            let ghost prev = out@;
            out.push(Tag { name: Base64(name), value: Base64(val) });
            proof {
                assert(pairs_snap[i as int] == (pairs@[i as int].0@, pairs@[i as int].1@));
                assert(name@ == b64_chars(pairs_snap[i as int].0));
                assert(val@ == b64_chars(pairs_snap[i as int].1));
                assert(tags_seq_view(out@)[i as int] == (name@, val@));
                assert forall|j: int| 0 <= j < i implies tags_seq_view(out@)[j] == encoded_pairs(
                    pairs_snap.take(i + 1),
                )[j] by {
                    assert(out@[j] == prev[j]);
                    assert(tags_seq_view(prev)[j] == encoded_pairs(pairs_snap.take(i as int))[j]);
                    assert(pairs_snap.take(i as int)[j] == pairs_snap[j]);
                    assert(pairs_snap.take(i + 1)[j] == pairs_snap[j]);
                }
                assert(tags_seq_view(out@) =~= encoded_pairs(pairs_snap.take(i + 1)));
            }
            i = i + 1;
        }
        proof {
            assert(pairs_snap.take(pairs_snap.len() as int) =~= pairs_snap);
        }
        Ok(Base64Tags(out))
    }
}

} // verus!
