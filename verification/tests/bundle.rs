use axer::client::bundle::{Bundle, BundleItem, Error};
use axer::utils;
use base64::Engine;
use base64::prelude::BASE64_URL_SAFE_NO_PAD;
use apache_avro::types::Value;

fn le_bytes(value: u64, width: usize) -> Vec<u8> {
    let mut out = vec![0u8; width];
    let le = value.to_le_bytes();
    for i in 0..8.min(width) {
        out[i] = le[i];
    }
    out
}

/// A minimal valid ed25519 item: signature and owner filled with markers, no
/// target, no anchor, no tags, and `extra` bytes of payload after the tag
/// counters.
fn ed25519_item(extra: &[u8]) -> Vec<u8> {
    let mut item = Vec::new();
    item.extend_from_slice(&[2, 0]); // sig type 2 (ed25519)
    item.extend_from_slice(&[7u8; 64]); // signature
    item.extend_from_slice(&[9u8; 32]); // owner key
    item.push(0); // no target
    item.push(0); // no anchor
    item.extend_from_slice(&le_bytes(0, 8)); // tag count
    item.extend_from_slice(extra);
    item
}

fn one_item_bundle(item: &[u8], header_id: &[u8; 32]) -> Vec<u8> {
    let mut d = Vec::new();
    d.extend_from_slice(&le_bytes(1, 32));
    d.extend_from_slice(&le_bytes(item.len() as u64, 32));
    d.extend_from_slice(header_id);
    d.extend_from_slice(item);
    d
}

fn item_id(item: &[u8]) -> [u8; 32] {
    utils::sha256(&item[2..2 + 64])
}

#[test]
fn empty_bundle_header() {
    let d = le_bytes(0, 32);
    let bundle = Bundle::new(&d).unwrap();
    assert_eq!(bundle.items.len(), 0);
}

#[test]
fn too_short_blob() {
    let d = [0u8; 31];
    assert!(matches!(Bundle::new(&d), Err(Error::BundleLessThanMinimum)));
}

#[test]
fn bad_id() {
    let item = ed25519_item(&[]);
    let d = one_item_bundle(&item, &[0u8; 32]);
    match Bundle::new(&d) {
        Err(Error::IdMismatch { expected, found }) => {
            assert_eq!(expected, "A".repeat(43));
            assert_eq!(found, BASE64_URL_SAFE_NO_PAD.encode(utils::sha256(&[7u8; 64])));
        },
        other => panic!("unexpected result: {:?}", other.map(|b| b.items.len())),
    }
}

#[test]
fn unknown_sig_type() {
    let mut item = ed25519_item(&[]);
    item[0] = 99;
    match BundleItem::new(&item) {
        Err(Error::SignatureNotSupported { sig_type }) => assert_eq!(sig_type, 99),
        other => panic!("unexpected result: {:?}", other.map(|i| i.id)),
    }
}

#[test]
fn overflow_count() {
    let mut d = vec![0u8; 32];
    d[8] = 1;
    assert!(matches!(
        Bundle::new(&d),
        Err(Error::BytesError(utils::Error::OverflowError))
    ));
}

#[test]
fn single_item_bundle_decodes() {
    let item = ed25519_item(b"payload bytes");
    let d = one_item_bundle(&item, &item_id(&item));
    let bundle = Bundle::new(&d).unwrap();
    assert_eq!(bundle.items.len(), 1);
    let it = &bundle.items[0];
    assert_eq!(it.id, BASE64_URL_SAFE_NO_PAD.encode(utils::sha256(&[7u8; 64])));
    assert_eq!(it.owner, BASE64_URL_SAFE_NO_PAD.encode([9u8; 32]));
    assert_eq!(it.signature, BASE64_URL_SAFE_NO_PAD.encode([7u8; 64]));
    assert_eq!(it.signature_type, 2);
    assert_eq!(it.target, "");
    assert_eq!(it.anchor, "");
    assert_eq!(it.data, "");
    assert_eq!(it.tags.0.len(), 0);
}

#[test]
fn trailing_bytes_are_ignored() {
    let item = ed25519_item(&[]);
    let mut d = one_item_bundle(&item, &item_id(&item));
    d.extend_from_slice(b"trailing garbage");
    let bundle = Bundle::new(&d).unwrap();
    assert_eq!(bundle.items.len(), 1);
}

#[test]
fn item_with_target_and_anchor() {
    let mut item = Vec::new();
    item.extend_from_slice(&[2, 0]);
    item.extend_from_slice(&[7u8; 64]);
    item.extend_from_slice(&[9u8; 32]);
    item.push(1);
    item.extend_from_slice(&[3u8; 32]); // target
    item.push(1);
    item.extend_from_slice(&[4u8; 32]); // anchor
    item.extend_from_slice(&le_bytes(0, 8));
    let it = BundleItem::new(&item).unwrap();
    assert_eq!(it.target, BASE64_URL_SAFE_NO_PAD.encode([3u8; 32]));
    assert_eq!(it.anchor, BASE64_URL_SAFE_NO_PAD.encode([4u8; 32]));
}

#[test]
fn truncated_item_errors() {
    let item = ed25519_item(&[]);
    // Cut inside the signature.
    assert!(matches!(BundleItem::new(&item[..30]), Err(Error::ItemDataIncomplete)));
    // Cut inside the owner key.
    assert!(matches!(BundleItem::new(&item[..80]), Err(Error::ItemDataLessThanSignature)));
    // Cut inside the tag counters.
    assert!(matches!(BundleItem::new(&item[..102]), Err(Error::ItemDataIncomplete)));
    // One byte only.
    assert!(matches!(BundleItem::new(&item[..1]), Err(Error::ItemDataLessThanMinimum)));
}

fn avro_tags_datum(pairs: &[(&[u8], &[u8])]) -> Vec<u8> {
    let schema_text = "{\"type\":\"array\",\"items\":{\"type\":\"record\",\"name\":\"Tag\",\"fields\":[{\"name\":\"name\",\"type\":\"bytes\"},{\"name\":\"value\",\"type\":\"bytes\"}]}}";
    let schema = apache_avro::Schema::parse_str(schema_text).unwrap();
    let records: Vec<Value> = pairs
        .iter()
        .map(|(n, v)| {
            Value::Record(vec![
                ("name".to_string(), Value::Bytes(n.to_vec())),
                ("value".to_string(), Value::Bytes(v.to_vec())),
            ])
        })
        .collect();
    apache_avro::to_avro_datum(&schema, Value::Array(records)).unwrap()
}

#[test]
fn avro_tag_datum_decodes() {
    let pairs: [(&[u8], &[u8]); 3] = [
        (b"Bundle-Format", b"binary"),
        (b"Bundle-Version", b"2.0.0"),
        (b"weird\xffbytes", b""),
    ];
    let datum = avro_tags_datum(&pairs);
    let decoded = axer::avro::decode_tag_pairs(&datum).unwrap();
    assert_eq!(decoded.len(), 3);
    for (i, (n, v)) in pairs.iter().enumerate() {
        assert_eq!(decoded[i].0.as_slice(), *n);
        assert_eq!(decoded[i].1.as_slice(), *v);
    }
}

#[test]
fn avro_rejects_truncated_datum() {
    let datum = avro_tags_datum(&[(b"k", b"v")]);
    assert!(axer::avro::decode_tag_pairs(&datum[..datum.len() - 2]).is_none());
}

fn item_with_tag_region(tag_count: u64, datum: &[u8]) -> Vec<u8> {
    let mut item = Vec::new();
    item.extend_from_slice(&[2, 0]);
    item.extend_from_slice(&[7u8; 64]);
    item.extend_from_slice(&[9u8; 32]);
    item.push(0);
    item.push(0);
    item.extend_from_slice(&le_bytes(tag_count, 8));
    item.extend_from_slice(&le_bytes(datum.len() as u64, 8));
    item.extend_from_slice(datum);
    item
}

#[test]
fn item_tags_decode_to_base64url_text() {
    let datum = avro_tags_datum(&[(b"Content-Type", b"text/plain")]);
    let item = item_with_tag_region(1, &datum);
    let it = BundleItem::new(&item).unwrap();
    assert_eq!(it.tags.0.len(), 1);
    assert_eq!(it.tags.0[0].name.0, BASE64_URL_SAFE_NO_PAD.encode(b"Content-Type"));
    assert_eq!(it.tags.0[0].value.0, BASE64_URL_SAFE_NO_PAD.encode(b"text/plain"));
}

#[test]
fn item_tag_count_mismatch_errors() {
    let datum = avro_tags_datum(&[(b"a", b"b"), (b"c", b"d")]);
    let item = item_with_tag_region(3, &datum);
    match BundleItem::new(&item) {
        Err(Error::TagCountMismatch { expected, found }) => {
            assert_eq!(expected, 3);
            assert_eq!(found, 2);
        },
        other => panic!("unexpected result: {:?}", other.map(|i| i.id)),
    }
}

#[test]
fn item_bad_avro_errors() {
    // A varint that never terminates is not a tag datum.
    let datum = [0x80u8, 0x80, 0x80, 0x80, 0x80, 0x80, 0x80, 0x80, 0x80, 0x80, 0x80];
    let item = item_with_tag_region(1, &datum);
    assert!(matches!(
        BundleItem::new(&item),
        Err(Error::TagsParseError(axer::bundle::tags::Error::AvroError))
    ));
}

#[test]
fn items_json_is_stable_and_valid() {
    let datum = avro_tags_datum(&[(b"App-Name", b"test \"quoted\"")]);
    let item = item_with_tag_region(1, &datum);
    let d = one_item_bundle(&item, &item_id(&item));
    let b1 = Bundle::new(&d).unwrap();
    let b2 = Bundle::new(&d).unwrap();
    let j1 = b1.items_json();
    let j2 = b2.items_json();
    assert_eq!(j1, j2);

    let value: serde_json::Value = serde_json::from_slice(&j1).unwrap();
    let arr = value.as_array().unwrap();
    assert_eq!(arr.len(), 1);
    let obj = arr[0].as_object().unwrap();
    assert_eq!(obj["id"].as_str().unwrap(), b1.items[0].id);
    assert_eq!(obj["signature_type"].as_u64().unwrap(), 2);
    assert_eq!(obj["data"].as_str().unwrap(), "");
    assert_eq!(
        obj["tags"][0]["name"].as_str().unwrap(),
        BASE64_URL_SAFE_NO_PAD.encode(b"App-Name")
    );
}

#[test]
fn items_json_matches_serde_shape_exactly() {
    let item = ed25519_item(&[]);
    let d = one_item_bundle(&item, &item_id(&item));
    let b = Bundle::new(&d).unwrap();
    let expected = format!(
        "[{{\"id\":\"{}\",\"owner\":\"{}\",\"target\":\"\",\"anchor\":\"\",\"tags\":[],\"data\":\"\",\"signature\":\"{}\",\"signature_type\":2}}]",
        b.items[0].id, b.items[0].owner, b.items[0].signature,
    );
    assert_eq!(String::from_utf8(b.items_json()).unwrap(), expected);
}
