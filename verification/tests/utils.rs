use axer::utils::{byte_array_to_u64, sha256, Error};
use sha2::Digest;

#[test]
fn test_byte_array_to_u64() {
    let bytes = [
        100, 0, 0, 0, 0, 0, 0, 0, 0, 0, 0, 0, 0, 0, 0, 0, 0, 0, 0, 0, 0, 0, 0, 0, 0, 0, 0, 0, 0,
        0, 0, 0,
    ];
    assert_eq!(byte_array_to_u64(&bytes), Ok(100));

    let bytes = [
        255, 255, 255, 255, 255, 255, 255, 255, 0, 0, 0, 0, 0, 0, 0, 0, 0, 0, 0, 0, 0, 0, 0, 0, 0,
        0, 0, 0, 0, 0, 0, 0,
    ];
    assert_eq!(byte_array_to_u64(&bytes), Ok(u64::MAX));

    let bytes = [
        255, 255, 255, 255, 255, 255, 255, 255, 255, 0, 0, 0, 0, 0, 0, 0, 0, 0, 0, 0, 0, 0, 0, 0,
        0, 0, 0, 0, 0, 0, 0, 0,
    ];
    assert_eq!(byte_array_to_u64(&bytes), Err(Error::OverflowError));
}

#[test]
fn test_sha256() {
    let message = b"hello world";
    let expected = [
        185, 77, 39, 185, 147, 77, 62, 8, 165, 46, 82, 215, 218, 125, 171, 250, 196, 132, 239,
        227, 122, 83, 128, 238, 144, 136, 247, 172, 226, 239, 205, 233,
    ];
    assert_eq!(sha256(message), expected);
}

#[test]
fn byte_array_to_u64_small_slices() {
    assert_eq!(byte_array_to_u64(&[]), Ok(0));
    assert_eq!(byte_array_to_u64(&[7]), Ok(7));
    assert_eq!(byte_array_to_u64(&[0x34, 0x12]), Ok(0x1234));
    // Zero padding past eight bytes changes nothing.
    assert_eq!(byte_array_to_u64(&[0x34, 0x12, 0, 0, 0, 0, 0, 0, 0, 0, 0]), Ok(0x1234));
}

#[test]
fn sha256_matches_reference_implementation() {
    let inputs: [&[u8]; 3] = [b"", b"a", b"The quick brown fox jumps over the lazy dog"];
    for input in inputs {
        let mut ctx = sha2::Sha256::new();
        ctx.update(input);
        let expected = ctx.finalize();
        let expected_bytes: &[u8] = expected.as_ref();
        assert_eq!(&sha256(input)[..], expected_bytes);
    }
}
