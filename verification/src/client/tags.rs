//! Tags as plain strings, the client-side twin of the bundle tag list.

use vstd::prelude::*;
use crate::avro;
use crate::base64url::base64url_encode_string;
use crate::bundle::tags::encoded_pairs;

verus! {

/// Failure while decoding a tag datum.
#[derive(Debug, Clone, Copy, PartialEq, Eq, Structural)]
pub enum Error {
    AvroError,
}

/// A name/value pair.
#[derive(Debug, Clone, PartialEq, Eq)]
pub struct Tag<T> {
    pub name: T,
    pub value: T,
}

/// A tag list whose sides are base64url text in plain strings.
#[derive(Debug, Clone, PartialEq, Eq)]
pub struct Base64Tags(pub Vec<Tag<String>>);

/// The textual pairs of a tag vector.
pub open spec fn string_tags_view(v: Seq<Tag<String>>) -> Seq<(Seq<char>, Seq<char>)> {
    v.map_values(|t: Tag<String>| (t.name@, t.value@))
}

impl View for Base64Tags {
    type V = Seq<(Seq<char>, Seq<char>)>;

    open spec fn view(&self) -> Seq<(Seq<char>, Seq<char>)> {
        string_tags_view(self.0@)
    }
}

impl Base64Tags {
    /// Decode an Avro tag datum, retaining both sides of each pair in
    /// base64url textual form.
    pub fn from_avro(value: Vec<u8>) -> (r: Result<Self, Error>)
        ensures
            match r {
                Ok(tags) => {
                    &&& avro::avro_tags(value@) matches Some(pairs)
                    &&& tags@ == encoded_pairs(pairs)
                },
                Err(Error::AvroError) => avro::avro_tags(value@) is None,
            },
    {
        let pairs = match avro::decode_tag_pairs(value.as_slice()) {
            Some(p) => p,
            None => {
                return Err(Error::AvroError);
            },
        };
        let ghost pairs_snap = avro::pairs_view(pairs@);
        let mut out: Vec<Tag<String>> = Vec::new();
        let mut i: usize = 0;
        while i < pairs.len()
            invariant
                i <= pairs@.len(),
                pairs_snap == avro::pairs_view(pairs@),
                out@.len() == i,
                string_tags_view(out@) == encoded_pairs(pairs_snap.take(i as int)),
            decreases pairs@.len() - i,
        {
            let name = base64url_encode_string(pairs[i].0.as_slice());
            let value = base64url_encode_string(pairs[i].1.as_slice());
            let ghost prev = out@;
            out.push(Tag { name, value });
            proof {
                assert(pairs_snap[i as int] == (pairs@[i as int].0@, pairs@[i as int].1@));
                assert forall|j: int| 0 <= j < i implies string_tags_view(out@)[j]
                    == encoded_pairs(pairs_snap.take(i + 1))[j] by {
                    assert(out@[j] == prev[j]);
                    assert(string_tags_view(prev)[j] == encoded_pairs(
                        pairs_snap.take(i as int),
                    )[j]);
                    assert(pairs_snap.take(i as int)[j] == pairs_snap[j]);
                    assert(pairs_snap.take(i + 1)[j] == pairs_snap[j]);
                }
                assert(string_tags_view(out@) =~= encoded_pairs(pairs_snap.take(i + 1)));
            }
            i = i + 1;
        }
        proof {
            assert(pairs_snap.take(pairs_snap.len() as int) =~= pairs_snap);
        }
        Ok(Base64Tags(out))
    }
}

} // verus!
