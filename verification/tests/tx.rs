use axer::bundle::tags::{Base64, Base64Tags, Tag, Error as TagsError};
use axer::bundle::tx::{BundleTx, Error};
use base64::Engine;
use base64::prelude::BASE64_URL_SAFE_NO_PAD;

fn tag(name: &str, value: &str) -> Tag<Base64> {
    Tag {
        name: Base64(BASE64_URL_SAFE_NO_PAD.encode(name)),
        value: Base64(BASE64_URL_SAFE_NO_PAD.encode(value)),
    }
}

fn tx_with_tags(tags: Vec<Tag<Base64>>) -> BundleTx {
    BundleTx {
        format: 2,
        id: "tx-id".to_string(),
        last_tx: "last".to_string(),
        owner: "owner".to_string(),
        tags: Base64Tags(tags),
        target: "".to_string(),
        quantity: "0".to_string(),
        data: "".to_string(),
        data_root: "".to_string(),
        data_size: "1024".to_string(),
        reward: "1".to_string(),
        signature: "sig".to_string(),
    }
}

#[test]
fn valid_bundle_tx_passes() {
    let tx = tx_with_tags(vec![
        tag("Bundle-Format", "binary"),
        tag("Bundle-Version", "2.0.0"),
    ]);
    assert!(tx.is_valid().is_ok());
}

#[test]
fn wrong_bundle_version_is_rejected() {
    let tx = tx_with_tags(vec![
        tag("Bundle-Format", "binary"),
        tag("Bundle-Version", "1.0.0"),
    ]);
    match tx.is_valid() {
        Err(Error::InvalidBundleVersion { expected, found }) => {
            assert_eq!(expected, "2.0.0");
            assert_eq!(found, "1.0.0");
        },
        other => panic!("unexpected result: {:?}", other),
    }
}

#[test]
fn wrong_bundle_format_is_rejected() {
    let tx = tx_with_tags(vec![
        tag("Bundle-Format", "json"),
        tag("Bundle-Version", "2.0.0"),
    ]);
    match tx.is_valid() {
        Err(Error::InvalidBundleFormat { expected, found }) => {
            assert_eq!(expected, "binary");
            assert_eq!(found, "json");
        },
        other => panic!("unexpected result: {:?}", other),
    }
}

#[test]
fn missing_tags_are_rejected_as_empty_format() {
    let tx = tx_with_tags(vec![tag("App-Name", "demo")]);
    match tx.is_valid() {
        Err(Error::InvalidBundleFormat { expected, found }) => {
            assert_eq!(expected, "binary");
            assert_eq!(found, "");
        },
        other => panic!("unexpected result: {:?}", other),
    }
}

#[test]
fn later_designator_tags_win() {
    let tx = tx_with_tags(vec![
        tag("Bundle-Format", "json"),
        tag("Bundle-Version", "2.0.0"),
        tag("Bundle-Format", "binary"),
    ]);
    assert!(tx.is_valid().is_ok());
}

#[test]
fn undecodable_tag_is_a_tags_error() {
    let tx = tx_with_tags(vec![Tag {
        name: Base64("!!!not-base64!!!".to_string()),
        value: Base64("".to_string()),
    }]);
    assert!(matches!(tx.is_valid(), Err(Error::TagsError(TagsError::Base64Error))));
}

#[test]
fn base64_newtype_decodes_its_text() {
    let b = Base64(BASE64_URL_SAFE_NO_PAD.encode("hello tags"));
    assert_eq!(b.decode().unwrap(), "hello tags");

    let bad = Base64("&&&".to_string());
    assert!(matches!(bad.decode(), Err(TagsError::Base64Error)));

    // Valid base64 of invalid UTF-8.
    let non_utf8 = Base64(BASE64_URL_SAFE_NO_PAD.encode([0xFFu8, 0xFE]));
    assert!(matches!(non_utf8.decode(), Err(TagsError::Utf8Error)));
}
