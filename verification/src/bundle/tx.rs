//! The parent bundle transaction and its validation.

use vstd::prelude::*;
use vstd::utf8::{valid_utf8, decode_utf8};
use crate::bundle::tags::{self, Base64Tags, base64_text_bytes};

verus! {

/// Rejection of a parent transaction that does not carry a supported bundle.
#[derive(Debug, Clone, PartialEq, Eq)]
pub enum Error {
    InvalidBundleFormat { expected: String, found: String },
    InvalidBundleVersion { expected: String, found: String },
    TagsError(tags::Error),
}

/// The decoded text of one base64url tag side, or the error its decoding
/// surfaces.
#[verifier::opaque]
pub open spec fn tag_text(s: Seq<char>) -> Result<Seq<char>, tags::Error> {
    match base64_text_bytes(s) {
        None => Err(tags::Error::Base64Error),
        Some(bytes) => if valid_utf8(bytes) {
            Ok(decode_utf8(bytes))
        } else {
            Err(tags::Error::Utf8Error)
        },
    }
}

/// Scan a tag list for the bundle designators, decoding every tag in order;
/// later occurrences win. Returns the final `Bundle-Format` and
/// `Bundle-Version` values, or the first decoding failure.
pub open spec fn scan_tags(
    ts: Seq<(Seq<char>, Seq<char>)>,
    fmt: Seq<char>,
    ver: Seq<char>,
) -> Result<(Seq<char>, Seq<char>), tags::Error>
    decreases ts.len(),
{
    if ts.len() == 0 {
        Ok((fmt, ver))
    } else {
        match tag_text(ts[0].0) {
            Err(e) => Err(e),
            Ok(name) => match tag_text(ts[0].1) {
                Err(e) => Err(e),
                Ok(value) => {
                    let fmt2 = if name == "Bundle-Format"@ {
                        value
                    } else {
                        fmt
                    };
                    let ver2 = if name == "Bundle-Version"@ {
                        value
                    } else {
                        ver
                    };
                    scan_tags(ts.drop_first(), fmt2, ver2)
                },
            },
        }
    }
}

proof fn lemma_tag_text_ok(s: Seq<char>, out: Seq<char>)
    requires
        match base64_text_bytes(s) {
            Some(bytes) => valid_utf8(bytes) && out == decode_utf8(bytes),
            None => false,
        },
    ensures
        tag_text(s) == Ok::<Seq<char>, tags::Error>(out),
{
    reveal(tag_text);
}

proof fn lemma_tag_text_err(s: Seq<char>, e: tags::Error)
    requires
        match base64_text_bytes(s) {
            Some(bytes) => !valid_utf8(bytes) && e == tags::Error::Utf8Error,
            None => e == tags::Error::Base64Error,
        },
    ensures
        tag_text(s) == Err::<Seq<char>, tags::Error>(e),
{
    reveal(tag_text);
}

proof fn lemma_scan_err_name(ts: Seq<(Seq<char>, Seq<char>)>, fmt: Seq<char>, ver: Seq<char>, e: tags::Error)
    requires
        ts.len() > 0,
        tag_text(ts[0].0) == Err::<Seq<char>, tags::Error>(e),
    ensures
        scan_tags(ts, fmt, ver) == Err::<(Seq<char>, Seq<char>), tags::Error>(e),
{
}

proof fn lemma_scan_err_value(
    ts: Seq<(Seq<char>, Seq<char>)>,
    fmt: Seq<char>,
    ver: Seq<char>,
    name: Seq<char>,
    e: tags::Error,
)
    requires
        ts.len() > 0,
        tag_text(ts[0].0) == Ok::<Seq<char>, tags::Error>(name),
        tag_text(ts[0].1) == Err::<Seq<char>, tags::Error>(e),
    ensures
        scan_tags(ts, fmt, ver) == Err::<(Seq<char>, Seq<char>), tags::Error>(e),
{
}

proof fn lemma_scan_step(
    ts: Seq<(Seq<char>, Seq<char>)>,
    fmt: Seq<char>,
    ver: Seq<char>,
    name: Seq<char>,
    value: Seq<char>,
)
    requires
        ts.len() > 0,
        tag_text(ts[0].0) == Ok::<Seq<char>, tags::Error>(name),
        tag_text(ts[0].1) == Ok::<Seq<char>, tags::Error>(value),
    ensures
        scan_tags(ts, fmt, ver) == scan_tags(
            ts.drop_first(),
            if name == "Bundle-Format"@ {
                value
            } else {
                fmt
            },
            if name == "Bundle-Version"@ {
                value
            } else {
                ver
            },
        ),
{
}

/// The designator values of a tag list, starting from empty strings.
pub open spec fn bundle_designators(ts: Seq<(Seq<char>, Seq<char>)>) -> Result<
    (Seq<char>, Seq<char>),
    tags::Error,
> {
    scan_tags(ts, Seq::empty(), Seq::empty())
}

/// The specification-level shape of a parent transaction.
pub struct TxView {
    pub format: u8,
    pub id: Seq<char>,
    pub last_tx: Seq<char>,
    pub owner: Seq<char>,
    pub tags: Seq<(Seq<char>, Seq<char>)>,
    pub target: Seq<char>,
    pub quantity: Seq<char>,
    pub data: Seq<char>,
    pub data_root: Seq<char>,
    pub data_size: Seq<char>,
    pub reward: Seq<char>,
    pub signature: Seq<char>,
}

/// A parent Arweave transaction, as fetched from a node.
#[derive(Debug, Clone, PartialEq, Eq)]
pub struct BundleTx {
    pub format: u8,
    pub id: String,
    pub last_tx: String,
    pub owner: String,
    pub tags: Base64Tags,
    pub target: String,
    pub quantity: String,
    pub data: String,
    pub data_root: String,
    pub data_size: String,
    pub reward: String,
    pub signature: String,
}

impl View for BundleTx {
    type V = TxView;

    open spec fn view(&self) -> TxView {
        TxView {
            format: self.format,
            id: self.id@,
            last_tx: self.last_tx@,
            owner: self.owner@,
            tags: self.tags@,
            target: self.target@,
            quantity: self.quantity@,
            data: self.data@,
            data_root: self.data_root@,
            data_size: self.data_size@,
            reward: self.reward@,
            signature: self.signature@,
        }
    }
}

impl BundleTx {
    /// Decode every tag in order and return the final designator values.
    #[verifier::rlimit(100)]
    #[verifier::spinoff_prover]
    fn scan_designators(&self) -> (r: Result<(String, String), tags::Error>)
        ensures
            match r {
                Ok((f, v)) => bundle_designators(self.tags@) == Ok::<
                    (Seq<char>, Seq<char>),
                    tags::Error,
                >((f@, v@)),
                Err(e) => bundle_designators(self.tags@) == Err::<
                    (Seq<char>, Seq<char>),
                    tags::Error,
                >(e),
            },
    {
        let name_format = String::from_str("Bundle-Format");
        let name_version = String::from_str("Bundle-Version");

        let mut format = String::new();
        let mut version = String::new();
        let ghost all = self.tags@;
        let mut i: usize = 0;

        proof {
            assert(all.skip(0) =~= all);
            assert(format@ =~= Seq::<char>::empty());
            assert(version@ =~= Seq::<char>::empty());
        }

        while i < self.tags.0.len()
            invariant
                i <= self.tags.0@.len(),
                all == self.tags@,
                all.len() == self.tags.0@.len(),
                name_format@ == "Bundle-Format"@,
                name_version@ == "Bundle-Version"@,
                bundle_designators(all) == scan_tags(all.skip(i as int), format@, version@),
            decreases self.tags.0@.len() - i,
        {
            let ghost rest = all.skip(i as int);
            proof {
                assert(rest[0] == all[i as int]);
                assert(rest.drop_first() =~= all.skip(i + 1));
                assert(all[i as int] == (self.tags.0@[i as int].name@,
                self.tags.0@[i as int].value@));
            }
            let tag = &self.tags.0[i];
            proof {
                assert(rest[0] == (tag.name@, tag.value@));
            }
            let name = match tag.name.decode() {
                Ok(s) => s,
                Err(e) => {
                    proof {
                        lemma_tag_text_err(rest[0].0, e);
                        lemma_scan_err_name(rest, format@, version@, e);
                    }
                    return Err(e);
                },
            };
            proof {
                lemma_tag_text_ok(rest[0].0, name@);
            }
            let value = match tag.value.decode() {
                Ok(s) => s,
                Err(e) => {
                    proof {
                        lemma_tag_text_err(rest[0].1, e);
                        lemma_scan_err_value(rest, format@, version@, name@, e);
                    }
                    return Err(e);
                },
            };
            proof {
                lemma_tag_text_ok(rest[0].1, value@);
                lemma_scan_step(rest, format@, version@, name@, value@);
                // The two designator names differ, so at most one branch below fires.
                reveal_strlit("Bundle-Format");
                reveal_strlit("Bundle-Version");
            }
            if name == name_format {
                format = value;
            } else if name == name_version {
                version = value;
            }
            i = i + 1;
        }
        proof {
            assert(all.skip(i as int) =~= Seq::<(Seq<char>, Seq<char>)>::empty());
        }
        Ok((format, version))
    }

    /// Check that the transaction's tags mark a supported binary bundle:
    /// `Bundle-Format` must decode to `binary` and `Bundle-Version` to
    /// `2.0.0`. The errors carry the expected and the found value.
    pub fn is_valid(&self) -> (r: Result<(), Error>)
        ensures
            match r {
                Ok(()) => {
                    &&& bundle_designators(self.tags@) matches Ok((fmt, ver))
                    &&& fmt == "binary"@
                    &&& ver == "2.0.0"@
                },
                Err(Error::TagsError(te)) => bundle_designators(self.tags@) == Err::<
                    (Seq<char>, Seq<char>),
                    tags::Error,
                >(te),
                Err(Error::InvalidBundleFormat { expected, found }) => {
                    &&& bundle_designators(self.tags@) matches Ok((fmt, ver))
                    &&& fmt != "binary"@
                    &&& expected@ == "binary"@
                    &&& found@ == fmt
                },
                Err(Error::InvalidBundleVersion { expected, found }) => {
                    &&& bundle_designators(self.tags@) matches Ok((fmt, ver))
                    &&& fmt == "binary"@
                    &&& ver != "2.0.0"@
                    &&& expected@ == "2.0.0"@
                    &&& found@ == ver
                },
            },
    {
        let supported_format = String::from_str("binary");
        let supported_version = String::from_str("2.0.0");

        let (format, version) = match self.scan_designators() {
            Ok(fv) => fv,
            Err(e) => {
                return Err(Error::TagsError(e));
            },
        };

        if !(format == supported_format) {
            return Err(Error::InvalidBundleFormat { expected: supported_format, found: format });
        }
        if !(version == supported_version) {
            return Err(
                Error::InvalidBundleVersion { expected: supported_version, found: version },
            );
        }
        Ok(())
    }
}

} // verus!
