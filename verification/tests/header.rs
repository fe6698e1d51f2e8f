//! Section headers.

use rdwarfs::Error;
use rdwarfs::format::header::{SUPPORTED_MINOR, SectionHeader};
use rdwarfs::format::types::{Compression, SectionType};
fn sample() -> SectionHeader {
    SectionHeader {
        major: 2,
        minor: 5,
        sha512_256: [0xAB; 32],
        xxh3_64: 0x0123_4567_89AB_CDEF,
        number: 7,
        section_type: SectionType::MetadataV2,
        compression: Compression::Zstd,
        payload_len: 1024,
    }
}

#[test]
fn roundtrip() {
    let h = sample();
    let bytes = h.write();
    let parsed = SectionHeader::parse(&bytes, 0).unwrap();
    assert_eq!(parsed.major, 2);
    assert_eq!(parsed.minor, 5);
    assert_eq!(parsed.sha512_256, h.sha512_256);
    assert_eq!(parsed.xxh3_64, h.xxh3_64);
    assert_eq!(parsed.number, h.number);
    assert_eq!(parsed.section_type, h.section_type);
    assert_eq!(parsed.compression, h.compression);
    assert_eq!(parsed.payload_len, h.payload_len);
    assert_eq!(parsed.section_len(), 64 + 1024);
}

#[test]
fn rejects_short_input() {
    let bytes = [0u8; 32];
    let err = SectionHeader::parse(&bytes, 0x1000).unwrap_err();
    assert!(matches!(err, Error::TruncatedHeader { offset: 0x1000 }));
}

#[test]
fn rejects_bad_magic() {
    let mut bytes = sample().write();
    bytes[0] = b'X';
    let err = SectionHeader::parse(&bytes, 42).unwrap_err();
    assert!(matches!(err, Error::BadMagic { offset: 42 }));
}

#[test]
fn rejects_unsupported_major() {
    let mut h = sample();
    h.major = 3;
    let bytes = h.write();
    let err = SectionHeader::parse(&bytes, 0).unwrap_err();
    assert!(matches!(
        err,
        Error::UnsupportedVersion { major: 3, minor: 5 }
    ));
}

#[test]
fn accepts_every_supported_minor() {
    for minor in 0..=SUPPORTED_MINOR {
        let mut h = sample();
        h.minor = minor;
        let bytes = h.write();
        let parsed = SectionHeader::parse(&bytes, 0).expect("supported minor parses");
        assert_eq!(parsed.minor, minor);
    }
}

#[test]
fn rejects_newer_minor() {
    let mut h = sample();
    h.minor = SUPPORTED_MINOR + 1;
    let bytes = h.write();
    let err = SectionHeader::parse(&bytes, 0).unwrap_err();
    assert!(matches!(
        err,
        Error::UnsupportedVersion {
            major: 2,
            minor
        } if minor == SUPPORTED_MINOR + 1
    ));
}

#[test]
fn accepts_unknown_section_type() {
    let mut bytes = sample().write();
    bytes[0x34..0x36].copy_from_slice(&123u16.to_le_bytes());
    let header = SectionHeader::parse(&bytes, 0).expect("unknown types are tolerated");
    assert_eq!(header.section_type, SectionType::Unknown(123));
}

#[test]
fn accepts_unknown_compression_algorithm() {
    let mut bytes = sample().write();
    bytes[0x36..0x38].copy_from_slice(&99u16.to_le_bytes());
    let header = SectionHeader::parse(&bytes, 0).expect("unknown codecs are tolerated");
    assert_eq!(header.compression, Compression::Unknown(99));
}
