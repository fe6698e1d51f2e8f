//! Finding where an image starts.

use rdwarfs::Error;
use rdwarfs::format::detect::detect_base_offset;
use rdwarfs::format::header::HEADER_LEN;
use rdwarfs::format::integrity::{compute_sha512_256, compute_xxh3};
use rdwarfs::format::types::{Compression, SectionType};
fn section(number: u32, st: SectionType, payload: &[u8]) -> Vec<u8> {
    let mut bytes = vec![0u8; HEADER_LEN + payload.len()];
    bytes[0..6].copy_from_slice(b"DWARFS");
    bytes[6] = 2;
    bytes[7] = 5;
    bytes[0x30..0x34].copy_from_slice(&number.to_le_bytes());
    bytes[0x34..0x36].copy_from_slice(&st.as_u16().to_le_bytes());
    bytes[0x36..0x38].copy_from_slice(&Compression::Stored.as_u16().to_le_bytes());
    bytes[0x38..0x40].copy_from_slice(&(payload.len() as u64).to_le_bytes());
    bytes[HEADER_LEN..].copy_from_slice(payload);
    let xxh = compute_xxh3(&bytes);
    bytes[0x28..0x30].copy_from_slice(&xxh.to_le_bytes());
    let sha = compute_sha512_256(&bytes);
    bytes[0x08..0x28].copy_from_slice(&sha);
    bytes
}

#[test]
fn no_prefix() {
    let mut img = section(0, SectionType::Block, b"AAAA");
    img.extend(section(1, SectionType::MetadataV2, b"BBBB"));
    assert_eq!(detect_base_offset(&img).unwrap(), 0);
}

#[test]
fn shell_prefix() {
    let prefix = b"#!/bin/sh\nexec dwarfs \"$@\"\n";
    let mut img = prefix.to_vec();
    img.extend(section(0, SectionType::Block, b"X"));
    img.extend(section(1, SectionType::MetadataV2, b"Y"));
    assert_eq!(detect_base_offset(&img).unwrap(), prefix.len() as u64);
}

#[test]
fn ignores_decoy_magic_in_prefix() {
    let mut img = b"prefix DWARFS not a header here ".to_vec();
    let pad_len = img.len();
    img.extend(section(0, SectionType::Block, b"P"));
    let base = detect_base_offset(&img).unwrap();
    assert_eq!(base, pad_len as u64);
}

#[test]
fn single_section_with_no_trailing_bytes() {
    let img = section(0, SectionType::Block, b"only");
    assert_eq!(detect_base_offset(&img).unwrap(), 0);
}

#[test]
fn rejects_pure_garbage() {
    let img = vec![0u8; 256];
    assert!(matches!(
        detect_base_offset(&img),
        Err(Error::NotADwarfsImage)
    ));
}
