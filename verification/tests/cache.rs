use axer::bundle::tags::{Base64, Base64Tags, Tag};
use axer::bundle::tx::BundleTx;
use axer::cache::Cache;
use base64::Engine;
use base64::prelude::BASE64_URL_SAFE_NO_PAD;

fn tx_named(name: &str) -> BundleTx {
    BundleTx {
        format: 2,
        id: name.to_string(),
        last_tx: "prev".to_string(),
        owner: "owner-key".to_string(),
        tags: Base64Tags(vec![Tag {
            name: Base64(BASE64_URL_SAFE_NO_PAD.encode("Bundle-Format")),
            value: Base64(BASE64_URL_SAFE_NO_PAD.encode("binary")),
        }]),
        target: "".to_string(),
        quantity: "0".to_string(),
        data: "".to_string(),
        data_root: "root".to_string(),
        data_size: "42".to_string(),
        reward: "17".to_string(),
        signature: "sig \"quoted\" \\ and\ncontrol".to_string(),
    }
}

#[test]
fn test_cache() {
    let mut cache: Cache<BundleTx> = Cache::new("test_cache.json".to_string());
    cache.insert("1".to_string(), tx_named("duck"));
    assert_eq!(cache.get(&"1".to_string()).unwrap().id, "duck");
}

#[test]
fn test_cache_flush() {
    let mut cache: Cache<BundleTx> = Cache::new("test_cache.json".to_string());
    cache.insert("1".to_string(), tx_named("duck"));
    assert_eq!(cache.get(&"1".to_string()).unwrap().id, "duck");

    cache.insert("2".to_string(), tx_named("goose"));
    let bytes = cache.flush_bytes();

    let cache = Cache::<BundleTx>::load_bytes("test_cache.json".to_string(), &bytes).unwrap();
    assert_eq!(cache.get(&"2".to_string()).unwrap().id, "goose");
}

#[test]
fn cache_round_trips_through_json() {
    let mut cache: Cache<BundleTx> = Cache::new("cache.json".to_string());
    cache.insert("aJ3PrkyJ6GpdwwUxxXFHiB40cEg-GPRUWcKUI6wCgPQ".to_string(), tx_named("one"));
    cache.insert("second-id".to_string(), tx_named("two"));
    let bytes = cache.flush_bytes();

    let loaded = Cache::<BundleTx>::load_bytes("cache.json".to_string(), &bytes).unwrap();
    assert_eq!(loaded.data.len(), 2);
    assert_eq!(loaded.data[0].0, "aJ3PrkyJ6GpdwwUxxXFHiB40cEg-GPRUWcKUI6wCgPQ");
    assert_eq!(loaded.data[0].1, cache.data[0].1);
    assert_eq!(loaded.data[1].1, cache.data[1].1);
}

#[test]
fn empty_cache_round_trips() {
    let cache: Cache<BundleTx> = Cache::new("cache.json".to_string());
    let bytes = cache.flush_bytes();
    assert_eq!(bytes, b"{}");
    let loaded = Cache::<BundleTx>::load_bytes("cache.json".to_string(), &bytes).unwrap();
    assert_eq!(loaded.data.len(), 0);
}

#[test]
fn cache_json_is_readable_by_other_parsers() {
    let mut cache: Cache<BundleTx> = Cache::new("cache.json".to_string());
    cache.insert("k".to_string(), tx_named("v"));
    let bytes = cache.flush_bytes();
    let value: serde_json::Value = serde_json::from_slice(&bytes).unwrap();
    assert_eq!(value["k"]["id"].as_str().unwrap(), "v");
    assert_eq!(value["k"]["format"].as_u64().unwrap(), 2);
    assert_eq!(
        value["k"]["signature"].as_str().unwrap(),
        "sig \"quoted\" \\ and\ncontrol"
    );
}

#[test]
fn malformed_cache_bytes_are_rejected() {
    assert!(Cache::<BundleTx>::load_bytes("f".to_string(), b"").is_none());
    assert!(Cache::<BundleTx>::load_bytes("f".to_string(), b"[]").is_none());
    assert!(Cache::<BundleTx>::load_bytes("f".to_string(), b"{\"k\":1}").is_none());
    let mut cache: Cache<BundleTx> = Cache::new("f".to_string());
    cache.insert("k".to_string(), tx_named("v"));
    let mut bytes = cache.flush_bytes();
    bytes.push(b' ');
    assert!(Cache::<BundleTx>::load_bytes("f".to_string(), &bytes).is_none());
}

#[test]
fn insert_replaces_an_existing_key() {
    let mut cache: Cache<BundleTx> = Cache::new("f".to_string());
    cache.insert("k".to_string(), tx_named("old"));
    cache.insert("k".to_string(), tx_named("new"));
    assert_eq!(cache.data.len(), 1);
    assert_eq!(cache.get(&"k".to_string()).unwrap().id, "new");
    assert!(cache.contains_key(&"k".to_string()));
    assert!(!cache.contains_key(&"other".to_string()));
}
