//! Zstandard payloads.

use rdwarfs::Error;
use rdwarfs::compression::zstd::decompress;
fn encode(src: &[u8], level: i32) -> Vec<u8> {
    zstd::encode_all(src, level).expect("zstd encode")
}

#[test]
fn zstd_roundtrip_short() {
    let raw = b"the quick brown fox jumps over the lazy dog".to_vec();
    let enc = encode(&raw, 3);
    let dec = decompress(&enc, 1024).unwrap();
    assert_eq!(dec, raw);
}

#[test]
fn zstd_roundtrip_repeated() {
    let raw = vec![0x5Au8; 64 * 1024];
    let enc = encode(&raw, 19);
    assert!(enc.len() < raw.len() / 4);
    let dec = decompress(&enc, raw.len()).unwrap();
    assert_eq!(dec, raw);
}

#[test]
fn empty_input() {
    let enc = encode(b"", 1);
    assert!(decompress(&enc, 16).unwrap().is_empty());
}

#[test]
fn rejects_when_output_exceeds_cap() {
    let raw = vec![0u8; 8192];
    let enc = encode(&raw, 1);
    let err = decompress(&enc, 1024).unwrap_err();
    assert!(matches!(err, Error::Decode { codec: "zstd", .. }));
}

#[test]
fn rejects_truncated_frame() {
    let raw = b"some bytes to be compressed".to_vec();
    let enc = encode(&raw, 3);
    let err = decompress(&enc[..enc.len() / 2], 1024).unwrap_err();
    assert!(matches!(err, Error::Decode { codec: "zstd", .. }));
}

#[test]
fn rejects_garbage() {
    let err = decompress(&[0u8; 16], 64).unwrap_err();
    assert!(matches!(err, Error::Decode { codec: "zstd", .. }));
}
