use axer::bundle::signatures::{get_sig_types, sig_config};
use base64::Engine;
use base64::prelude::BASE64_URL_SAFE_NO_PAD;

#[test]
fn registry_holds_the_four_supported_schemes() {
    let m = get_sig_types();
    assert_eq!(m.len(), 4);
    let arweave = m.get(&1).unwrap();
    assert_eq!((arweave.sig_name, arweave.sig_length, arweave.pub_length), ("arweave", 512, 512));
    let ed25519 = m.get(&2).unwrap();
    assert_eq!((ed25519.sig_name, ed25519.sig_length, ed25519.pub_length), ("ed25519", 64, 32));
    let ethereum = m.get(&3).unwrap();
    assert_eq!(
        (ethereum.sig_name, ethereum.sig_length, ethereum.pub_length),
        ("ethereum", 65, 65)
    );
    let solana = m.get(&4).unwrap();
    assert_eq!((solana.sig_name, solana.sig_length, solana.pub_length), ("solana", 64, 32));
    assert!(!m.contains_key(&0));
    assert!(!m.contains_key(&5));
}

#[test]
fn lookup_rejects_unknown_types() {
    assert!(sig_config(0).is_none());
    assert!(sig_config(99).is_none());
    assert_eq!(sig_config(3).unwrap().sig_length, 65);
}

#[test]
fn client_tags_decode_like_the_bundle_tags() {
    // A hand-assembled Avro datum: one block of one record, then the end
    // marker. Record fields are length-prefixed byte strings; lengths are
    // zigzag varints, so 2 encodes 1.
    let datum: Vec<u8> = vec![
        2, // block count 1
        6, b'k', b'e', b'y', // name, 3 bytes
        4, b'v', b'!', // value, 2 bytes
        0, // end of array
    ];
    let tags = axer::client::tags::Base64Tags::from_avro(datum.clone()).unwrap();
    assert_eq!(tags.0.len(), 1);
    assert_eq!(tags.0[0].name, BASE64_URL_SAFE_NO_PAD.encode(b"key"));
    assert_eq!(tags.0[0].value, BASE64_URL_SAFE_NO_PAD.encode(b"v!"));

    let btags = axer::bundle::tags::Base64Tags::from_avro(datum).unwrap();
    assert_eq!(btags.0[0].name.0, tags.0[0].name);
    assert_eq!(btags.0[0].value.0, tags.0[0].value);
}

#[test]
fn negative_block_counts_carry_a_block_size() {
    // A block count of -1 (zigzag 1) is followed by a block byte size.
    let datum: Vec<u8> = vec![
        1, // block count -1: one record, size-prefixed
        14, // block size in bytes (ignored): zigzag for 7
        2, b'n', // name, 1 byte
        2, b'w', // value, 1 byte
        0, // end of array
    ];
    let pairs = axer::avro::decode_tag_pairs(&datum).unwrap();
    assert_eq!(pairs.len(), 1);
    assert_eq!(pairs[0].0, b"n");
    assert_eq!(pairs[0].1, b"w");
}
