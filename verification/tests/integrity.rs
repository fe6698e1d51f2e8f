//! Section hashes.

use rdwarfs::Error;
use rdwarfs::format::header::{HEADER_LEN, SectionHeader};
use rdwarfs::format::integrity::{
    compute_sha512_256, compute_xxh3, verify, verify_sha512_256, verify_xxh3,
};
use rdwarfs::format::types::{Compression, SectionType};
fn build_section(payload: &[u8]) -> Vec<u8> {
    let mut bytes = vec![0u8; HEADER_LEN + payload.len()];
    bytes[0..6].copy_from_slice(b"DWARFS");
    bytes[6] = 2;
    bytes[7] = 5;
    bytes[0x30..0x34].copy_from_slice(&1u32.to_le_bytes());
    bytes[0x34..0x36].copy_from_slice(&SectionType::Block.as_u16().to_le_bytes());
    bytes[0x36..0x38].copy_from_slice(&Compression::Stored.as_u16().to_le_bytes());
    bytes[0x38..0x40].copy_from_slice(&(payload.len() as u64).to_le_bytes());
    bytes[HEADER_LEN..].copy_from_slice(payload);

    let xxh = compute_xxh3(&bytes);
    bytes[0x28..0x30].copy_from_slice(&xxh.to_le_bytes());
    let sha = compute_sha512_256(&bytes);
    bytes[0x08..0x28].copy_from_slice(&sha);
    bytes
}

#[test]
fn verify_good_section() {
    let bytes = build_section(b"hello, dwarfs");
    let header = SectionHeader::parse(&bytes, 0).unwrap();
    verify(&header, &bytes).unwrap();
}

#[test]
fn rejects_corrupt_payload() {
    let mut bytes = build_section(b"payload");
    let header = SectionHeader::parse(&bytes, 0).unwrap();
    bytes[HEADER_LEN] ^= 0xFF;
    assert!(matches!(
        verify_xxh3(&header, &bytes),
        Err(Error::IntegrityMismatch { kind: "xxh3", .. })
    ));
}

#[test]
fn rejects_tampered_section_number() {
    let mut bytes = build_section(b"payload");
    let header = SectionHeader::parse(&bytes, 0).unwrap();
    bytes[0x30] ^= 0x01;
    assert!(matches!(
        verify_xxh3(&header, &bytes),
        Err(Error::IntegrityMismatch { kind: "xxh3", .. })
    ));
}

#[test]
fn rejects_tampered_hash_field() {
    let mut bytes = build_section(b"payload");
    let header = SectionHeader::parse(&bytes, 0).unwrap();
    bytes[0x28] ^= 0x01;
    assert!(matches!(
        verify_sha512_256(&header, &bytes),
        Err(Error::IntegrityMismatch {
            kind: "sha512_256",
            ..
        })
    ));
}
