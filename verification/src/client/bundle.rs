//! The ANS-104 bundle decoder: bundle bytes in, a validated item list out.
//!
//! A bundle starts with 32 bytes holding the item count, then one 64-byte
//! directory entry per item (32 bytes length, 32 bytes raw id), then the
//! items back to back. Bytes after the last item are ignored.

use vstd::prelude::*;
use crate::avro;
use crate::base64url::{b64_chars, base64url_encode_string};
use crate::bundle::signatures::{sig_config, sig_lengths};
use crate::bundle::tags::{self, Base64Tags, encoded_pairs};
use crate::utils::{
    self, byte_array_to_u64, le_bytes_val, lemma_le_bytes_val_fits_u64, sha256, sha256_of,
};
use vstd::slice::{slice_subrange, slice_to_vec};

verus! {

/// Failure while decoding a bundle or one of its items.
#[derive(Debug, Clone, PartialEq, Eq)]
pub enum Error {
    /// The bundle is shorter than its 32-byte count field.
    BundleLessThanMinimum,
    /// The bundle ends inside the item directory.
    BundleHeadersIncomplete,
    /// The bundle ends inside an item's directory entry.
    ItemHeaderIncomplete,
    /// An item region ends before its declared contents.
    ItemDataIncomplete,
    /// An item is shorter than its two-byte signature type.
    ItemDataLessThanMinimum,
    /// The signature type is not in the registry.
    SignatureNotSupported { sig_type: u64 },
    /// An item ends inside its signature or owner key.
    ItemDataLessThanSignature,
    /// The item's tag bytes do not decode.
    TagsParseError(tags::Error),
    /// The declared tag count differs from the decoded tag list.
    TagCountMismatch { expected: u64, found: u64 },
    /// The computed item id differs from the directory id.
    IdMismatch { expected: String, found: String },
    /// A count or length field does not fit in 64 bits.
    BytesError(utils::Error),
}

/// The specification-level shape of a decode failure.
pub enum ErrorSpec {
    BundleLessThanMinimum,
    BundleHeadersIncomplete,
    ItemHeaderIncomplete,
    ItemDataIncomplete,
    ItemDataLessThanMinimum,
    SignatureNotSupported(u64),
    ItemDataLessThanSignature,
    TagsParseError(tags::Error),
    TagCountMismatch(u64, u64),
    IdMismatch(Seq<char>, Seq<char>),
    BytesError(utils::Error),
}

impl View for Error {
    type V = ErrorSpec;

    open spec fn view(&self) -> ErrorSpec {
        match self {
            Error::BundleLessThanMinimum => ErrorSpec::BundleLessThanMinimum,
            Error::BundleHeadersIncomplete => ErrorSpec::BundleHeadersIncomplete,
            Error::ItemHeaderIncomplete => ErrorSpec::ItemHeaderIncomplete,
            Error::ItemDataIncomplete => ErrorSpec::ItemDataIncomplete,
            Error::ItemDataLessThanMinimum => ErrorSpec::ItemDataLessThanMinimum,
            Error::SignatureNotSupported { sig_type } => ErrorSpec::SignatureNotSupported(
                *sig_type,
            ),
            Error::ItemDataLessThanSignature => ErrorSpec::ItemDataLessThanSignature,
            Error::TagsParseError(e) => ErrorSpec::TagsParseError(*e),
            Error::TagCountMismatch { expected, found } => ErrorSpec::TagCountMismatch(
                *expected,
                *found,
            ),
            Error::IdMismatch { expected, found } => ErrorSpec::IdMismatch(expected@, found@),
            Error::BytesError(e) => ErrorSpec::BytesError(*e),
        }
    }
}

/// The specification-level shape of a decoded item.
pub struct ItemView {
    pub id: Seq<char>,
    pub owner: Seq<char>,
    pub target: Seq<char>,
    pub anchor: Seq<char>,
    pub tags: Seq<(Seq<char>, Seq<char>)>,
    pub data: Seq<char>,
    pub signature: Seq<char>,
    pub signature_type: u16,
}

/// A decoded, validated data item. The data payload is referenced by id and
/// not carried, so `data` is kept empty.
#[derive(Debug, PartialEq, Eq)]
pub struct BundleItem {
    pub id: String,
    pub owner: String,
    pub target: String,
    pub anchor: String,
    pub tags: Base64Tags,
    pub data: String,
    pub signature: String,
    pub signature_type: u16,
}

impl View for BundleItem {
    type V = ItemView;

    open spec fn view(&self) -> ItemView {
        ItemView {
            id: self.id@,
            owner: self.owner@,
            target: self.target@,
            anchor: self.anchor@,
            tags: self.tags@,
            data: self.data@,
            signature: self.signature@,
            signature_type: self.signature_type,
        }
    }
}

/// What one item region decodes to. `d` is the item's byte region alone.
pub open spec fn spec_decode_item(d: Seq<u8>) -> Result<ItemView, ErrorSpec> {
    if d.len() < 2 {
        Err(ErrorSpec::ItemDataLessThanMinimum)
    } else {
        let sig_type = le_bytes_val(d.subrange(0, 2)) as u64;
        match sig_lengths(sig_type) {
            None => Err(ErrorSpec::SignatureNotSupported(sig_type)),
            Some((sl, pl)) => {
                let s = sl as int;
                let p = pl as int;
                if d.len() < 2 + s {
                    Err(ErrorSpec::ItemDataIncomplete)
                } else if d.len() < 2 + s + p {
                    Err(ErrorSpec::ItemDataLessThanSignature)
                } else {
                    let sig = d.subrange(2, 2 + s);
                    let owner = d.subrange(2 + s, 2 + s + p);
                    let pos = 2 + s + p;
                    spec_decode_item_tail(d, sig_type, sig, owner, pos)
                }
            },
        }
    }
}

/// The flags, tags and assembly of an item, after the fixed-layout head.
pub open spec fn spec_decode_item_tail(
    d: Seq<u8>,
    sig_type: u64,
    sig: Seq<u8>,
    owner: Seq<u8>,
    pos: int,
) -> Result<ItemView, ErrorSpec> {
    if d.len() <= pos {
        Err(ErrorSpec::ItemDataIncomplete)
    } else {
        let target_present = d[pos] == 1;
        if target_present && d.len() < pos + 33 {
            Err(ErrorSpec::ItemDataIncomplete)
        } else {
            let target = if target_present {
                b64_chars(d.subrange(pos + 1, pos + 33))
            } else {
                Seq::empty()
            };
            let anchor_byte = pos + 1 + if target_present {
                32int
            } else {
                0int
            };
            if d.len() <= anchor_byte {
                Err(ErrorSpec::ItemDataIncomplete)
            } else {
                let anchor_present = d[anchor_byte] == 1;
                if anchor_present && d.len() < anchor_byte + 33 {
                    Err(ErrorSpec::ItemDataIncomplete)
                } else {
                    let anchor = if anchor_present {
                        b64_chars(d.subrange(anchor_byte + 1, anchor_byte + 33))
                    } else {
                        Seq::empty()
                    };
                    let tags_start = anchor_byte + 1 + if anchor_present {
                        32int
                    } else {
                        0int
                    };
                    match spec_decode_item_tags(d, tags_start) {
                        Err(e) => Err(e),
                        Ok(tag_pairs) => Ok(
                            ItemView {
                                id: b64_chars(sha256_of(sig)),
                                owner: b64_chars(owner),
                                target: target,
                                anchor: anchor,
                                tags: encoded_pairs(tag_pairs),
                                data: Seq::empty(),
                                signature: b64_chars(sig),
                                signature_type: sig_type as u16,
                            },
                        ),
                    }
                }
            }
        }
    }
}

/// The tag region of an item: an eight-byte count, and if it is non-zero an
/// eight-byte byte length and the Avro tag datum, which must hold exactly
/// `count` tags.
pub open spec fn spec_decode_item_tags(d: Seq<u8>, tags_start: int) -> Result<
    Seq<avro::TagPair>,
    ErrorSpec,
> {
    if d.len() < tags_start + 8 {
        Err(ErrorSpec::ItemDataIncomplete)
    } else {
        let tag_count = le_bytes_val(d.subrange(tags_start, tags_start + 8));
        if tag_count == 0 {
            Ok(Seq::empty())
        } else if d.len() < tags_start + 16 {
            Err(ErrorSpec::ItemDataIncomplete)
        } else {
            let tag_bytes_len = le_bytes_val(d.subrange(tags_start + 8, tags_start + 16));
            if d.len() < tags_start + 16 + tag_bytes_len {
                Err(ErrorSpec::ItemDataIncomplete)
            } else {
                let region = d.subrange(
                    tags_start + 16,
                    tags_start + 16 + tag_bytes_len,
                );
                match avro::avro_tags(region) {
                    None => Err(ErrorSpec::TagsParseError(tags::Error::AvroError)),
                    Some(pairs) => if pairs.len() != tag_count {
                        Err(
                            ErrorSpec::TagCountMismatch(
                                tag_count as u64,
                                pairs.len() as u64,
                            ),
                        )
                    } else {
                        Ok(pairs)
                    },
                }
            }
        }
    }
}

impl BundleItem {
    /// Decode one item from its byte region.
    pub fn new(data: &[u8]) -> (r: Result<BundleItem, Error>)
        ensures
            match r {
                Ok(item) => spec_decode_item(data@) == Ok::<ItemView, ErrorSpec>(item@),
                Err(e) => spec_decode_item(data@) == Err::<ItemView, ErrorSpec>(e@),
            },
    {
        if data.len() < 2 {
            return Err(Error::ItemDataLessThanMinimum);
        }
        proof {
            lemma_le_bytes_val_fits_u64(data@.subrange(0, 2));
        }
        let sig_type = match byte_array_to_u64(slice_subrange(data, 0, 2)) {
            Ok(v) => v,
            Err(_) => {
                proof {
                    assert(false);
                }
                return Err(Error::BytesError(utils::Error::OverflowError));
            },
        };
        let cfg = match sig_config(sig_type) {
            Some(c) => c,
            None => {
                return Err(Error::SignatureNotSupported { sig_type });
            },
        };
        let s = cfg.sig_length as usize;
        let p = cfg.pub_length as usize;
        if data.len() < 2 + s {
            return Err(Error::ItemDataIncomplete);
        }
        if data.len() - (2 + s) < p {
            return Err(Error::ItemDataLessThanSignature);
        }
        let sig_bytes = slice_subrange(data, 2, 2 + s);
        let signature = base64url_encode_string(sig_bytes);
        let id_hash = sha256(sig_bytes);
        let id = base64url_encode_string(id_hash.as_slice());
        let owner = base64url_encode_string(slice_subrange(data, 2 + s, 2 + s + p));
        let pos = 2 + s + p;

        if data.len() <= pos {
            return Err(Error::ItemDataIncomplete);
        }
        let target_present = data[pos] == 1;
        let mut target = String::new();
        if target_present {
            if data.len() - pos < 33 {
                return Err(Error::ItemDataIncomplete);
            }
            target = base64url_encode_string(slice_subrange(data, pos + 1, pos + 33));
        }
        let anchor_byte = if target_present {
            pos + 33
        } else {
            pos + 1
        };
        proof {
            assert(anchor_byte == pos + 1 + if target_present {
                32int
            } else {
                0int
            });
        }
        if data.len() <= anchor_byte {
            return Err(Error::ItemDataIncomplete);
        }
        let anchor_present = data[anchor_byte] == 1;
        let mut anchor = String::new();
        if anchor_present {
            if data.len() - anchor_byte < 33 {
                return Err(Error::ItemDataIncomplete);
            }
            anchor = base64url_encode_string(
                slice_subrange(data, anchor_byte + 1, anchor_byte + 33),
            );
        }
        let tags_start = if anchor_present {
            anchor_byte + 33
        } else {
            anchor_byte + 1
        };
        proof {
            assert(tags_start == anchor_byte + 1 + if anchor_present {
                32int
            } else {
                0int
            });
        }

        let (tags, tag_count) = match Self::decode_tags(data, tags_start) {
            Ok(tc) => tc,
            Err(e) => {
                return Err(e);
            },
        };

        let item = BundleItem {
            id,
            owner,
            target,
            anchor,
            tags,
            data: String::new(),
            signature,
            signature_type: sig_type as u16,
        };
        proof {
            assert(item@.target =~= (if data@[pos as int] == 1 {
                b64_chars(data@.subrange(pos + 1, pos + 33))
            } else {
                Seq::<char>::empty()
            }));
            assert(item@.anchor =~= (if data@[anchor_byte as int] == 1 {
                b64_chars(data@.subrange(anchor_byte + 1, anchor_byte + 33))
            } else {
                Seq::<char>::empty()
            }));
            assert(item@.data =~= Seq::<char>::empty());
        }
        Ok(item)
    }

    /// Decode the tag region at `tags_start`, returning the textual tags and
    /// the declared count.
    fn decode_tags(data: &[u8], tags_start: usize) -> (r: Result<(Base64Tags, u64), Error>)
        requires
            tags_start <= data@.len(),
        ensures
            match r {
                Ok((tags, count)) => {
                    &&& spec_decode_item_tags(data@, tags_start as int) matches Ok(pairs)
                    &&& tags@ == encoded_pairs(pairs)
                    &&& count == pairs.len()
                },
                Err(e) => spec_decode_item_tags(data@, tags_start as int) == Err::<
                    Seq<avro::TagPair>,
                    ErrorSpec,
                >(e@),
            },
    {
        if data.len() - tags_start < 8 {
            return Err(Error::ItemDataIncomplete);
        }
        proof {
            lemma_le_bytes_val_fits_u64(data@.subrange(tags_start as int, tags_start + 8));
        }
        let tag_count = match byte_array_to_u64(
            slice_subrange(data, tags_start, tags_start + 8),
        ) {
            Ok(v) => v,
            Err(_) => {
                proof {
                    assert(false);
                }
                return Err(Error::BytesError(utils::Error::OverflowError));
            },
        };
        if tag_count == 0 {
            let tags = Base64Tags(Vec::new());
            proof {
                assert(tags@ =~= encoded_pairs(Seq::<avro::TagPair>::empty()));
            }
            return Ok((tags, 0));
        }
        if data.len() - tags_start < 16 {
            return Err(Error::ItemDataIncomplete);
        }
        proof {
            lemma_le_bytes_val_fits_u64(data@.subrange(tags_start + 8, tags_start + 16));
        }
        let tag_bytes_len = match byte_array_to_u64(
            slice_subrange(data, tags_start + 8, tags_start + 16),
        ) {
            Ok(v) => v,
            Err(_) => {
                proof {
                    assert(false);
                }
                return Err(Error::BytesError(utils::Error::OverflowError));
            },
        };
        if ((data.len() - tags_start - 16) as u64) < tag_bytes_len {
            return Err(Error::ItemDataIncomplete);
        }
        let region_end = tags_start + 16 + (tag_bytes_len as usize);
        let region = slice_to_vec(slice_subrange(data, tags_start + 16, region_end));
        let ghost rv = region@;
        let tags = match Base64Tags::from_avro(region) {
            Ok(t) => t,
            Err(e) => {
                return Err(Error::TagsParseError(e));
            },
        };
        let found = tags.0.len() as u64;
        proof {
            assert(rv == data@.subrange(
                tags_start + 16,
                tags_start + 16 + le_bytes_val(
                    data@.subrange(tags_start + 8, tags_start + 16),
                ),
            ));
            match avro::avro_tags(rv) {
                Some(pairs) => {
                    assert(tags@ == encoded_pairs(pairs));
                    assert(tags@.len() == tags.0@.len());
                    assert(encoded_pairs(pairs).len() == pairs.len());
                    assert(found == pairs.len());
                },
                None => {
                    assert(false);
                },
            }
        }
        if found != tag_count {
            return Err(Error::TagCountMismatch { expected: tag_count, found });
        }
        Ok((tags, tag_count))
    }
}

/// The views of a decoded item vector.
pub open spec fn items_view(v: Seq<BundleItem>) -> Seq<ItemView> {
    v.map_values(|it: BundleItem| it@)
}

/// A decoded bundle: its validated items, in directory order.
#[derive(Debug, PartialEq, Eq)]
pub struct Bundle {
    pub items: Vec<BundleItem>,
}

impl View for Bundle {
    type V = Seq<ItemView>;

    open spec fn view(&self) -> Seq<ItemView> {
        items_view(self.items@)
    }
}

/// The length of item `i` as declared in the directory.
pub open spec fn spec_item_len(d: Seq<u8>, i: int) -> nat {
    le_bytes_val(d.subrange(32 + 64 * i, 32 + 64 * i + 32))
}

/// The raw directory id of item `i`.
pub open spec fn spec_item_dir_id(d: Seq<u8>, i: int) -> Seq<u8> {
    d.subrange(32 + 64 * i + 32, 32 + 64 * i + 64)
}

/// What the items from `i` on decode to, with item data starting at `cursor`.
pub open spec fn spec_decode_items(d: Seq<u8>, n: int, i: int, cursor: int) -> Result<
    Seq<ItemView>,
    ErrorSpec,
>
    decreases n - i,
{
    if i >= n {
        Ok(Seq::empty())
    } else {
        let len_i = spec_item_len(d, i);
        if len_i > u64::MAX {
            Err(ErrorSpec::BytesError(utils::Error::OverflowError))
        } else if d.len() < cursor + len_i {
            Err(ErrorSpec::ItemDataIncomplete)
        } else {
            match spec_decode_item(d.subrange(cursor, cursor + len_i)) {
                Err(e) => Err(e),
                Ok(item) => {
                    let dir_id = b64_chars(spec_item_dir_id(d, i));
                    if item.id != dir_id {
                        Err(ErrorSpec::IdMismatch(dir_id, item.id))
                    } else {
                        match spec_decode_items(d, n, i + 1, cursor + len_i) {
                            Ok(rest) => Ok(seq![item] + rest),
                            Err(e) => Err(e),
                        }
                    }
                },
            }
        }
    }
}

/// What a whole bundle decodes to.
pub open spec fn spec_decode_bundle(d: Seq<u8>) -> Result<Seq<ItemView>, ErrorSpec> {
    if d.len() < 32 {
        Err(ErrorSpec::BundleLessThanMinimum)
    } else {
        let n = le_bytes_val(d.subrange(0, 32));
        if n > u64::MAX {
            Err(ErrorSpec::BytesError(utils::Error::OverflowError))
        } else if d.len() < 32 + 64 * n {
            Err(ErrorSpec::BundleHeadersIncomplete)
        } else {
            spec_decode_items(d, n as int, 0, (32 + 64 * n) as int)
        }
    }
}

impl Bundle {
    /// Decode a bundle: read the directory, decode each item, and check each
    /// computed id against its directory entry.
    pub fn new(data: &[u8]) -> (r: Result<Self, Error>)
        ensures
            match r {
                Ok(b) => spec_decode_bundle(data@) == Ok::<Seq<ItemView>, ErrorSpec>(b@),
                Err(e) => spec_decode_bundle(data@) == Err::<Seq<ItemView>, ErrorSpec>(e@),
            },
    {
        if data.len() < 32 {
            return Err(Error::BundleLessThanMinimum);
        }
        let items_len = match byte_array_to_u64(slice_subrange(data, 0, 32)) {
            Ok(v) => v,
            Err(e) => {
                return Err(Error::BytesError(e));
            },
        };
        let ghost n = le_bytes_val(data@.subrange(0, 32));
        // `data.len() >= 32 + 64 n`, phrased without overflow.
        if items_len > ((data.len() - 32) / 64) as u64 {
            proof {
                assert(64 * n > data@.len() - 32) by (nonlinear_arith)
                    requires n > (data@.len() - 32) / 64, data@.len() >= 32;
            }
            return Err(Error::BundleHeadersIncomplete);
        }
        proof {
            assert(64 * n <= data@.len() - 32) by (nonlinear_arith)
                requires n <= (data@.len() - 32) / 64, data@.len() >= 32;
        }
        let n_items = items_len as usize;
        let mut items: Vec<BundleItem> = Vec::new();
        let mut cursor: usize = 32 + 64 * n_items;
        let mut i: usize = 0;

        proof {
            assert(items_view(items@) =~= Seq::<ItemView>::empty());
            if let Ok(rest) = spec_decode_items(data@, n as int, 0, (32 + 64 * n) as int) {
                assert(items_view(items@) + rest =~= rest);
            }
        }

        while i < n_items
            invariant
                n == items_len,
                n_items == items_len,
                i <= n_items,
                data@.len() >= 32 + 64 * n,
                32 + 64 * n <= cursor <= data@.len(),
                items@.len() == i,
                (match spec_decode_items(data@, n as int, i as int, cursor as int) {
                    Ok(rest) => spec_decode_bundle(data@) == Ok::<Seq<ItemView>, ErrorSpec>(
                        items_view(items@) + rest,
                    ),
                    Err(e) => spec_decode_bundle(data@) == Err::<Seq<ItemView>, ErrorSpec>(e),
                }),
            decreases n_items - i,
        {
            let hdr = 32 + 64 * i;
            proof {
                assert(64 * i + 64 <= 64 * n) by (nonlinear_arith)
                    requires i < n;
            }
            let item_length = match byte_array_to_u64(slice_subrange(data, hdr, hdr + 32)) {
                Ok(v) => v,
                Err(e) => {
                    return Err(Error::BytesError(e));
                },
            };
            let item_id = base64url_encode_string(slice_subrange(data, hdr + 32, hdr + 64));
            if ((data.len() - cursor) as u64) < item_length {
                return Err(Error::ItemDataIncomplete);
            }
            let item_end = cursor + (item_length as usize);
            let item = match BundleItem::new(slice_subrange(data, cursor, item_end)) {
                Ok(it) => it,
                Err(e) => {
                    return Err(e);
                },
            };
            if !(item.id == item_id) {
                return Err(Error::IdMismatch { expected: item_id, found: item.id });
            }
            let ghost prev = items@;
            items.push(item);
            proof {
                assert(items_view(items@) =~= items_view(prev) + seq![items@[i as int]@]);
                match spec_decode_items(data@, n as int, i + 1, item_end as int) {
                    Ok(rest) => {
                        assert(items_view(prev) + (seq![items@[i as int]@] + rest) =~= items_view(
                            items@,
                        ) + rest);
                    },
                    Err(_) => {
                    },
                }
            }
            cursor = item_end;
            i = i + 1;
        }
        proof {
            assert(items_view(items@) + Seq::<ItemView>::empty() =~= items_view(items@));
        }
        Ok(Bundle { items })
    }
}


/// The sum of the directory lengths of items `i` up to `n`.
pub open spec fn sum_item_lens(d: Seq<u8>, i: int, n: int) -> nat
    decreases n - i,
{
    if i >= n {
        0
    } else {
        spec_item_len(d, i) + sum_item_lens(d, i + 1, n)
    }
}

proof fn lemma_items_length(d: Seq<u8>, n: int, i: int, cursor: int)
    requires
        0 <= i <= n,
        0 <= cursor <= d.len(),
        spec_decode_items(d, n, i, cursor) is Ok,
    ensures
        cursor + sum_item_lens(d, i, n) <= d.len(),
    decreases n - i,
{
    if i < n {
        let len_i = spec_item_len(d, i);
        lemma_items_length(d, n, i + 1, cursor + len_i);
    }
}

/// Length accounting: a bundle that decodes holds its 32-byte count, the
/// whole directory, and every item's declared bytes; anything after the last
/// item was ignored.
pub proof fn lemma_length_accounting(d: Seq<u8>, items: Seq<ItemView>)
    requires
        spec_decode_bundle(d) == Ok::<Seq<ItemView>, ErrorSpec>(items),
    ensures
        32 + 64 * le_bytes_val(d.subrange(0, 32)) + sum_item_lens(
            d,
            0,
            le_bytes_val(d.subrange(0, 32)) as int,
        ) <= d.len(),
{
    let n = le_bytes_val(d.subrange(0, 32));
    lemma_items_length(d, n as int, 0, (32 + 64 * n) as int);
}


proof fn lemma_subrange_prefix(d: Seq<u8>, extra: Seq<u8>, a: int, b: int)
    requires
        0 <= a <= b <= d.len(),
    ensures
        (d + extra).subrange(a, b) == d.subrange(a, b),
{
    assert((d + extra).subrange(a, b) =~= d.subrange(a, b));
}

proof fn lemma_items_frame(
    d: Seq<u8>,
    extra: Seq<u8>,
    n: int,
    i: int,
    cursor: int,
    items: Seq<ItemView>,
)
    requires
        0 <= i <= n,
        0 <= cursor,
        32 + 64 * n <= d.len(),
        spec_decode_items(d, n, i, cursor) == Ok::<Seq<ItemView>, ErrorSpec>(items),
    ensures
        spec_decode_items(d + extra, n, i, cursor) == Ok::<Seq<ItemView>, ErrorSpec>(items),
    decreases n - i,
{
    if i < n {
        let hdr = 32 + 64 * i;
        assert(hdr + 64 <= 32 + 64 * n) by (nonlinear_arith)
            requires i < n, hdr == 32 + 64 * i;
        lemma_subrange_prefix(d, extra, hdr, hdr + 32);
        assert(spec_item_len(d + extra, i) == spec_item_len(d, i));
        let len_i = spec_item_len(d, i);
        lemma_subrange_prefix(d, extra, hdr + 32, hdr + 64);
        assert(spec_item_dir_id(d + extra, i) == spec_item_dir_id(d, i));
        lemma_subrange_prefix(d, extra, cursor, cursor + len_i);
        let item = spec_decode_item(d.subrange(cursor, cursor + len_i))->Ok_0;
        let rest = spec_decode_items(d, n, i + 1, cursor + len_i)->Ok_0;
        lemma_items_frame(d, extra, n, i + 1, cursor + len_i, rest);
    }
}

/// Bytes past the last item are ignored: appending anything to a bundle that
/// decodes leaves the decoded items unchanged.
pub proof fn lemma_trailing_bytes_ignored(d: Seq<u8>, extra: Seq<u8>, items: Seq<ItemView>)
    requires
        spec_decode_bundle(d) == Ok::<Seq<ItemView>, ErrorSpec>(items),
    ensures
        spec_decode_bundle(d + extra) == Ok::<Seq<ItemView>, ErrorSpec>(items),
{
    lemma_subrange_prefix(d, extra, 0, 32);
    let n = le_bytes_val(d.subrange(0, 32));
    lemma_items_frame(d, extra, n as int, 0, (32 + 64 * n) as int, items);
}

proof fn lemma_items_ids(d: Seq<u8>, n: int, i: int, cursor: int, items: Seq<ItemView>)
    requires
        0 <= i <= n,
        spec_decode_items(d, n, i, cursor) == Ok::<Seq<ItemView>, ErrorSpec>(items),
    ensures
        items.len() == n - i,
        forall|j: int| 0 <= j < items.len() ==> #[trigger] items[j].id == b64_chars(
            spec_item_dir_id(d, i + j),
        ),
    decreases n - i,
{
    if i < n {
        let len_i = spec_item_len(d, i);
        let item = spec_decode_item(d.subrange(cursor, cursor + len_i))->Ok_0;
        let rest = spec_decode_items(d, n, i + 1, cursor + len_i)->Ok_0;
        lemma_items_ids(d, n, i + 1, cursor + len_i, rest);
        assert(items == seq![item] + rest);
        assert forall|j: int| 0 <= j < items.len() implies #[trigger] items[j].id == b64_chars(
            spec_item_dir_id(d, i + j),
        ) by {
            if j == 0 {
                assert(items[0] == item);
            } else {
                assert(items[j] == rest[j - 1]);
            }
        }
    }
}

/// An item that decodes carries as id the base64url encoding of the SHA-256
/// of its signature bytes.
pub proof fn lemma_item_id_is_signature_hash(r: Seq<u8>, item: ItemView)
    requires
        spec_decode_item(r) == Ok::<ItemView, ErrorSpec>(item),
    ensures
        exists|sig: Seq<u8>|
            #![trigger b64_chars(sha256_of(sig))]
            item.id == b64_chars(sha256_of(sig)) && item.signature == b64_chars(sig),
{
    let sig_type = le_bytes_val(r.subrange(0, 2)) as u64;
    let (sl, pl) = sig_lengths(sig_type)->Some_0;
    let sig = r.subrange(2, 2 + sl as int);
    assert(item.id == b64_chars(sha256_of(sig)) && item.signature == b64_chars(sig));
}

/// The id property: every decoded item's id — the base64url encoding of the
/// SHA-256 of its signature bytes — equals its raw directory id, encoded.
pub proof fn lemma_id_property(d: Seq<u8>, items: Seq<ItemView>, j: int)
    requires
        spec_decode_bundle(d) == Ok::<Seq<ItemView>, ErrorSpec>(items),
        0 <= j < items.len(),
    ensures
        items[j].id == b64_chars(spec_item_dir_id(d, j)),
{
    let n = le_bytes_val(d.subrange(0, 32));
    lemma_items_ids(d, n as int, 0, (32 + 64 * n) as int, items);
}

/// The JSON bytes of one string value.
pub open spec fn json_of_chars(s: Seq<char>) -> Seq<u8> {
    crate::json::json_string(vstd::utf8::encode_utf8(s))
}

/// The JSON bytes of one tag.
pub open spec fn json_of_tag(p: (Seq<char>, Seq<char>)) -> Seq<u8> {
    vstd::utf8::encode_utf8("{\"name\":"@) + json_of_chars(p.0) + vstd::utf8::encode_utf8(
        ",\"value\":"@,
    ) + json_of_chars(p.1) + vstd::utf8::encode_utf8("}"@)
}

/// The later elements of a JSON list, each after a comma.
pub open spec fn json_tags_rest(ts: Seq<(Seq<char>, Seq<char>)>) -> Seq<u8>
    decreases ts.len(),
{
    if ts.len() == 0 {
        Seq::empty()
    } else {
        seq![0x2Cu8] + json_of_tag(ts[0]) + json_tags_rest(ts.drop_first())
    }
}

/// The JSON bytes of a tag list.
pub open spec fn json_of_tags(ts: Seq<(Seq<char>, Seq<char>)>) -> Seq<u8> {
    if ts.len() == 0 {
        vstd::utf8::encode_utf8("[]"@)
    } else {
        seq![0x5Bu8] + json_of_tag(ts[0]) + json_tags_rest(ts.drop_first()) + seq![0x5Du8]
    }
}

/// The JSON bytes of one item, fields in declaration order.
#[verifier::opaque]
pub open spec fn json_of_item(v: ItemView) -> Seq<u8> {
    vstd::utf8::encode_utf8("{\"id\":"@) + json_of_chars(v.id) + vstd::utf8::encode_utf8(
        ",\"owner\":"@,
    ) + json_of_chars(v.owner) + vstd::utf8::encode_utf8(",\"target\":"@) + json_of_chars(
        v.target,
    ) + vstd::utf8::encode_utf8(",\"anchor\":"@) + json_of_chars(v.anchor)
        + vstd::utf8::encode_utf8(",\"tags\":"@) + json_of_tags(v.tags)
        + vstd::utf8::encode_utf8(",\"data\":"@) + json_of_chars(v.data)
        + vstd::utf8::encode_utf8(",\"signature\":"@) + json_of_chars(v.signature)
        + vstd::utf8::encode_utf8(",\"signature_type\":"@) + crate::json::dec_digits(
        v.signature_type as nat,
    ) + vstd::utf8::encode_utf8("}"@)
}

/// The later items of the JSON list.
pub open spec fn json_items_rest(items: Seq<ItemView>) -> Seq<u8>
    decreases items.len(),
{
    if items.len() == 0 {
        Seq::empty()
    } else {
        seq![0x2Cu8] + json_of_item(items[0]) + json_items_rest(items.drop_first())
    }
}

/// The JSON bytes of an item list.
pub open spec fn json_of_items(items: Seq<ItemView>) -> Seq<u8> {
    if items.len() == 0 {
        vstd::utf8::encode_utf8("[]"@)
    } else {
        seq![0x5Bu8] + json_of_item(items[0]) + json_items_rest(items.drop_first()) + seq![0x5Du8]
    }
}

/// Item JSON is stable: two decodes of the same bundle bytes print the same
/// item JSON, byte for byte.
pub proof fn lemma_item_json_stable(d: Seq<u8>, items1: Seq<ItemView>, items2: Seq<ItemView>)
    requires
        spec_decode_bundle(d) == Ok::<Seq<ItemView>, ErrorSpec>(items1),
        spec_decode_bundle(d) == Ok::<Seq<ItemView>, ErrorSpec>(items2),
    ensures
        json_of_items(items1) == json_of_items(items2),
{
}

proof fn lemma_tags_rest_snoc(ts: Seq<(Seq<char>, Seq<char>)>, j: int)
    requires
        0 <= j < ts.len(),
    ensures
        json_tags_rest(ts.take(j + 1)) == json_tags_rest(ts.take(j)) + seq![0x2Cu8] + json_of_tag(
            ts[j],
        ),
    decreases j,
{
    if j == 0 {
        assert(ts.take(0) =~= Seq::<(Seq<char>, Seq<char>)>::empty());
        assert(ts.take(1)[0] == ts[0]);
        assert(ts.take(1).drop_first() =~= Seq::<(Seq<char>, Seq<char>)>::empty());
        assert(json_tags_rest(ts.take(1)) =~= json_tags_rest(ts.take(0)) + seq![0x2Cu8]
            + json_of_tag(ts[0]));
    } else {
        lemma_tags_rest_snoc(ts.drop_first(), j - 1);
        assert(ts.take(j + 1).drop_first() =~= ts.drop_first().take(j));
        assert(ts.take(j).drop_first() =~= ts.drop_first().take(j - 1));
        assert(ts.take(j + 1)[0] == ts[0]);
        assert(ts.take(j)[0] == ts[0]);
        assert(ts.drop_first()[j - 1] == ts[j]);
        assert(json_tags_rest(ts.take(j + 1)) =~= json_tags_rest(ts.take(j)) + seq![0x2Cu8]
            + json_of_tag(ts[j]));
    }
}

proof fn lemma_items_rest_snoc(items: Seq<ItemView>, j: int)
    requires
        0 <= j < items.len(),
    ensures
        json_items_rest(items.take(j + 1)) == json_items_rest(items.take(j)) + seq![0x2Cu8]
            + json_of_item(items[j]),
    decreases j,
{
    if j == 0 {
        assert(items.take(0) =~= Seq::<ItemView>::empty());
        assert(items.take(1)[0] == items[0]);
        assert(items.take(1).drop_first() =~= Seq::<ItemView>::empty());
        assert(json_items_rest(items.take(1)) =~= json_items_rest(items.take(0)) + seq![0x2Cu8]
            + json_of_item(items[0]));
    } else {
        lemma_items_rest_snoc(items.drop_first(), j - 1);
        assert(items.take(j + 1).drop_first() =~= items.drop_first().take(j));
        assert(items.take(j).drop_first() =~= items.drop_first().take(j - 1));
        assert(items.take(j + 1)[0] == items[0]);
        assert(items.take(j)[0] == items[0]);
        assert(items.drop_first()[j - 1] == items[j]);
        assert(json_items_rest(items.take(j + 1)) =~= json_items_rest(items.take(j)) + seq![
            0x2Cu8,
        ] + json_of_item(items[j]));
    }
}

fn push_chars_json(out: &mut Vec<u8>, s: &String)
    ensures
        final(out)@ == old(out)@ + json_of_chars(s@),
{
    crate::json::push_json_string(out, s.as_str().as_bytes());
}

fn push_tag_json(out: &mut Vec<u8>, t: &crate::bundle::tags::Tag<crate::bundle::tags::Base64>)
    ensures
        final(out)@ == old(out)@ + json_of_tag((t.name@, t.value@)),
{
    crate::json::push_bytes(out, "{\"name\":".as_bytes());
    push_chars_json(out, &t.name.0);
    crate::json::push_bytes(out, ",\"value\":".as_bytes());
    push_chars_json(out, &t.value.0);
    crate::json::push_bytes(out, "}".as_bytes());
    proof {
        assert(out@ =~= old(out)@ + json_of_tag((t.name@, t.value@)));
    }
}

fn push_tags_json(out: &mut Vec<u8>, tags: &Base64Tags)
    ensures
        final(out)@ == old(out)@ + json_of_tags(tags@),
{
    let ghost ts = tags@;
    if tags.0.len() == 0 {
        crate::json::push_bytes(out, "[]".as_bytes());
        return;
    }
    crate::json::push_bytes(out, "[".as_bytes());
    proof {
        assert(("["@).len() == 1 && vstd::utf8::encode_utf8("["@) =~= seq![0x5Bu8]) by {
            reveal_strlit("[");
            vstd::utf8::is_ascii_chars_encode_utf8("["@);
            assert(("["@)[0] == '[');
        }
    }
    push_tag_json(out, &tags.0[0]);
    let ghost base = out@;
    let mut j: usize = 1;
    proof {
        assert(ts[0] == (tags.0@[0].name@, tags.0@[0].value@));
        assert(ts.take(1).drop_first() =~= Seq::<(Seq<char>, Seq<char>)>::empty());
        assert(json_tags_rest(ts.take(1).drop_first()) =~= Seq::<u8>::empty());
        assert(base + json_tags_rest(ts.drop_first().take(0)) =~= base);
        assert(ts.drop_first().take(0) =~= Seq::<(Seq<char>, Seq<char>)>::empty());
    }
    while j < tags.0.len()
        invariant
            1 <= j <= tags.0@.len(),
            ts == tags@,
            ts.len() == tags.0@.len(),
            out@ == base + json_tags_rest(ts.drop_first().take(j - 1)),
        decreases tags.0@.len() - j,
    {
        crate::json::push_bytes(out, ",".as_bytes());
        proof {
            assert((","@).len() == 1 && vstd::utf8::encode_utf8(","@) =~= seq![0x2Cu8]) by {
                reveal_strlit(",");
                vstd::utf8::is_ascii_chars_encode_utf8(","@);
                assert((","@)[0] == ',');
            }
        }
        push_tag_json(out, &tags.0[j]);
        proof {
            assert(ts[j as int] == (tags.0@[j as int].name@, tags.0@[j as int].value@));
            lemma_tags_rest_snoc(ts.drop_first(), j - 1);
            assert(ts.drop_first()[j - 1] == ts[j as int]);
            assert(out@ =~= base + json_tags_rest(ts.drop_first().take(j as int)));
        }
        j = j + 1;
    }
    crate::json::push_bytes(out, "]".as_bytes());
    proof {
        assert(("]"@).len() == 1 && vstd::utf8::encode_utf8("]"@) =~= seq![0x5Du8]) by {
            reveal_strlit("]");
            vstd::utf8::is_ascii_chars_encode_utf8("]"@);
            assert(("]"@)[0] == ']');
        }
        assert(ts.drop_first().take(ts.len() - 1) =~= ts.drop_first());
        assert(out@ =~= old(out)@ + json_of_tags(ts));
    }
}

fn push_item_json(out: &mut Vec<u8>, it: &BundleItem)
    ensures
        final(out)@ == old(out)@ + json_of_item(it@),
{
    crate::json::push_bytes(out, "{\"id\":".as_bytes());
    push_chars_json(out, &it.id);
    crate::json::push_bytes(out, ",\"owner\":".as_bytes());
    push_chars_json(out, &it.owner);
    crate::json::push_bytes(out, ",\"target\":".as_bytes());
    push_chars_json(out, &it.target);
    crate::json::push_bytes(out, ",\"anchor\":".as_bytes());
    push_chars_json(out, &it.anchor);
    crate::json::push_bytes(out, ",\"tags\":".as_bytes());
    push_tags_json(out, &it.tags);
    crate::json::push_bytes(out, ",\"data\":".as_bytes());
    push_chars_json(out, &it.data);
    crate::json::push_bytes(out, ",\"signature\":".as_bytes());
    push_chars_json(out, &it.signature);
    crate::json::push_bytes(out, ",\"signature_type\":".as_bytes());
    crate::json::push_decimal(out, it.signature_type as u64);
    crate::json::push_bytes(out, "}".as_bytes());
    proof {
        reveal(json_of_item);
        assert(out@ =~= old(out)@ + json_of_item(it@));
    }
}

impl Bundle {
    /// The JSON of the item list, as persisted to the output file. Field
    /// order is fixed, so equal item lists print byte-identical JSON.
    pub fn items_json(&self) -> (r: Vec<u8>)
        ensures
            r@ == json_of_items(self@),
    {
        let ghost items = self@;
        let mut out: Vec<u8> = Vec::new();
        if self.items.len() == 0 {
            crate::json::push_bytes(&mut out, "[]".as_bytes());
            proof {
                assert(out@ =~= json_of_items(items));
            }
            return out;
        }
        crate::json::push_bytes(&mut out, "[".as_bytes());
        proof {
            assert(("["@).len() == 1 && vstd::utf8::encode_utf8("["@) =~= seq![0x5Bu8]) by {
                reveal_strlit("[");
                vstd::utf8::is_ascii_chars_encode_utf8("["@);
                assert(("["@)[0] == '[');
            }
        }
        push_item_json(&mut out, &self.items[0]);
        let ghost base = out@;
        let mut j: usize = 1;
        proof {
            assert(items[0] == self.items@[0]@);
            assert(base + json_items_rest(items.drop_first().take(0)) =~= base);
            assert(items.drop_first().take(0) =~= Seq::<ItemView>::empty());
        }
        while j < self.items.len()
            invariant
                1 <= j <= self.items@.len(),
                items == self@,
                items.len() == self.items@.len(),
                out@ == base + json_items_rest(items.drop_first().take(j - 1)),
            decreases self.items@.len() - j,
        {
            crate::json::push_bytes(&mut out, ",".as_bytes());
            proof {
                assert((","@).len() == 1 && vstd::utf8::encode_utf8(","@) =~= seq![0x2Cu8]) by {
                    reveal_strlit(",");
                    vstd::utf8::is_ascii_chars_encode_utf8(","@);
                    assert((","@)[0] == ',');
                }
            }
            push_item_json(&mut out, &self.items[j]);
            proof {
                assert(items[j as int] == self.items@[j as int]@);
                lemma_items_rest_snoc(items.drop_first(), j - 1);
                assert(items.drop_first()[j - 1] == items[j as int]);
                assert(out@ =~= base + json_items_rest(items.drop_first().take(j as int)));
            }
            j = j + 1;
        }
        crate::json::push_bytes(&mut out, "]".as_bytes());
        proof {
            assert(("]"@).len() == 1 && vstd::utf8::encode_utf8("]"@) =~= seq![0x5Du8]) by {
                reveal_strlit("]");
                vstd::utf8::is_ascii_chars_encode_utf8("]"@);
                assert(("]"@)[0] == ']');
            }
            assert(items.drop_first().take(items.len() - 1) =~= items.drop_first());
            assert(out@ =~= json_of_items(items));
        }
        out
    }
}

} // verus!

