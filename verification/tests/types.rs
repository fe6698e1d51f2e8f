//! Header values.

use rdwarfs::format::types::{Compression, SectionType};
#[test]
fn section_type_roundtrip() {
    for value in [0u16, 7, 8, 9, 10] {
        assert_eq!(SectionType::from_u16(value).as_u16(), value);
    }
}

#[test]
fn section_type_preserves_unknown_values() {
    for value in [1u16, 6, 11, 0xFFFF] {
        let kind = SectionType::from_u16(value);
        assert_eq!(kind, SectionType::Unknown(value));
        assert_eq!(kind.as_u16(), value);
    }
}

#[test]
fn compression_roundtrip() {
    for value in 0u16..=7 {
        assert_eq!(Compression::from_u16(value).as_u16(), value);
    }
}

#[test]
fn compression_preserves_unknown_values() {
    for value in [8u16, 42, 0xFFFF] {
        let codec = Compression::from_u16(value);
        assert_eq!(codec, Compression::Unknown(value));
        assert_eq!(codec.as_u16(), value);
    }
}
