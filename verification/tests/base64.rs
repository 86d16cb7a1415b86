use axer::base64url::{base64url_decode, base64url_encode, base64url_encode_string};
use base64::Engine;
use base64::prelude::BASE64_URL_SAFE_NO_PAD;

#[test]
fn encode_matches_reference_implementation() {
    let samples: [&[u8]; 8] = [
        b"",
        b"f",
        b"fo",
        b"foo",
        b"foob",
        b"fooba",
        b"foobar",
        &[0xFF, 0xFE, 0x00, 0x7F, 0x80, 0x3E, 0x3F],
    ];
    for sample in samples {
        let mine = base64url_encode_string(sample);
        let reference = BASE64_URL_SAFE_NO_PAD.encode(sample);
        assert_eq!(mine, reference);
        assert_eq!(base64url_encode(sample), reference.as_bytes());
    }
}

#[test]
fn decode_round_trips() {
    let samples: [&[u8]; 5] = [b"", b"a", b"ab", b"abc", &[0u8, 255, 13, 200, 1]];
    for sample in samples {
        let text = base64url_encode(sample);
        let decoded = base64url_decode(&text).unwrap();
        assert_eq!(decoded.as_slice(), sample);
    }
}

#[test]
fn decode_rejects_non_canonical_input() {
    // Length 4k + 1 can never be an encoding.
    assert!(base64url_decode(b"A").is_none());
    assert!(base64url_decode(b"AAAAB").is_none());
    // Trailing bits must be zero: the reference implementation agrees.
    assert!(base64url_decode(b"AB").is_none());
    assert!(BASE64_URL_SAFE_NO_PAD.decode("AB").is_err());
    assert!(base64url_decode(b"AA").is_some());
    assert!(BASE64_URL_SAFE_NO_PAD.decode("AA").is_ok());
    // Padding and characters outside the URL-safe alphabet are refused.
    assert!(base64url_decode(b"AA==").is_none());
    assert!(base64url_decode(b"A+/A").is_none());
}

#[test]
fn decode_matches_reference_on_text() {
    let texts = ["AQID", "eWABlTtLgOcrcWHWJNRBGSBSRmwN9_Rlm_IetJuir3o", "-_-_"];
    for text in texts {
        let mine = base64url_decode(text.as_bytes()).unwrap();
        let reference = BASE64_URL_SAFE_NO_PAD.decode(text).unwrap();
        assert_eq!(mine, reference);
    }
}

#[test]
fn client_base64_wraps_the_codec() {
    let b = axer::client::base64::Base64(vec![1, 2, 3, 255]);
    let text = b.to_text();
    assert_eq!(text, BASE64_URL_SAFE_NO_PAD.encode([1, 2, 3, 255]));
    let back = axer::client::base64::Base64::from_text(&text).unwrap();
    assert_eq!(back.0, vec![1, 2, 3, 255]);
    assert!(axer::client::base64::Base64::from_text("not base64!").is_none());
}
