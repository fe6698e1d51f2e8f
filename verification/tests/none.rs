//! Stored payloads.

use rdwarfs::Error;
use rdwarfs::compression::none::decompress;

#[test]
fn passes_through() {
    assert_eq!(decompress(b"hello", 1024).unwrap(), b"hello");
}

#[test]
fn enforces_cap() {
    let err = decompress(b"abcdef", 3).unwrap_err();
    assert!(matches!(err, Error::Decode { codec: "none", .. }));
}
