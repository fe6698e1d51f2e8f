//! The section index.

use rdwarfs::Error;
use rdwarfs::format::header::HEADER_LEN;
use rdwarfs::format::index::SectionIndex;
use rdwarfs::format::integrity::{compute_sha512_256, compute_xxh3};
use rdwarfs::format::types::{Compression, SectionType};
fn finish_section(bytes: &mut [u8]) {
    let xxh = compute_xxh3(bytes);
    bytes[0x28..0x30].copy_from_slice(&xxh.to_le_bytes());
    let sha = compute_sha512_256(bytes);
    bytes[0x08..0x28].copy_from_slice(&sha);
}

fn section(number: u32, st: SectionType, payload: &[u8]) -> Vec<u8> {
    let mut bytes = vec![0u8; HEADER_LEN + payload.len()];
    bytes[0..6].copy_from_slice(b"DWARFS");
    bytes[6] = 2;
    bytes[7] = 5;
    bytes[0x30..0x34].copy_from_slice(&number.to_le_bytes());
    bytes[0x34..0x36].copy_from_slice(&st.as_u16().to_le_bytes());
    bytes[0x36..0x38].copy_from_slice(&Compression::Stored.as_u16().to_le_bytes());
    bytes[0x38..0x40].copy_from_slice(&(payload.len() as u64).to_le_bytes());
    bytes[HEADER_LEN..].copy_from_slice(payload);
    finish_section(&mut bytes);
    bytes
}

fn build_image_with_index(prefix: &[u8], body: &[(u32, SectionType, &[u8])]) -> (Vec<u8>, u64) {
    let mut image = prefix.to_vec();
    let base_offset = image.len() as u64;
    let mut entries: Vec<(SectionType, u64)> = Vec::new();

    for (number, kind, payload) in body {
        let here = image.len() as u64;
        entries.push((*kind, here - base_offset));
        image.extend(section(*number, *kind, payload));
    }

    let index_offset_rel = image.len() as u64 - base_offset;
    entries.push((SectionType::SectionIndex, index_offset_rel));

    let mut payload = Vec::with_capacity(entries.len() * 8);
    for (kind, off) in &entries {
        let raw = (u64::from(kind.as_u16()) << 48) | *off;
        payload.extend_from_slice(&raw.to_le_bytes());
    }

    let next_number = body.last().map(|b| b.0 + 1).unwrap_or(0);
    image.extend(section(next_number, SectionType::SectionIndex, &payload));
    (image, base_offset)
}

#[test]
fn detects_no_index() {
    let img = section(0, SectionType::Block, b"X");
    assert!(SectionIndex::from_source(&img, 0).unwrap().is_none());
}

#[test]
fn parses_valid_index() {
    let (img, base) = build_image_with_index(
        &[],
        &[
            (0, SectionType::Block, b"AAAA"),
            (1, SectionType::MetadataV2Schema, b"S"),
            (2, SectionType::MetadataV2, b"MMMMM"),
        ],
    );
    let index = SectionIndex::from_source(&img, base).unwrap().unwrap();
    assert_eq!(index.entries.len(), 4);
    assert_eq!(index.entries[0].section_type, SectionType::Block);
    assert_eq!(index.entries[0].offset_from_base, 0);
    assert_eq!(
        index.entries.last().unwrap().section_type,
        SectionType::SectionIndex
    );
    assert_eq!(index.find(SectionType::MetadataV2), Some(64 + 4 + 64 + 1));
    assert_eq!(index.find(SectionType::History), None);
}

#[test]
fn rejects_index_compressed_marker() {
    let (mut img, base) = build_image_with_index(&[], &[(0, SectionType::Block, b"X")]);

    let index_hdr_pos = img.len() - (64 + 16);
    img[index_hdr_pos + 0x36..index_hdr_pos + 0x38]
        .copy_from_slice(&Compression::Zstd.as_u16().to_le_bytes());
    finish_section(&mut img[index_hdr_pos..]);

    let err = SectionIndex::from_source(&img, base).unwrap_err();
    assert!(matches!(err, Error::CorruptSectionIndex { .. }));
}

#[test]
fn rejects_unsorted_entries() {
    let mut prefix = Vec::new();
    let mut image = prefix.clone();
    let mut entries: Vec<(SectionType, u64)> = Vec::new();

    let payload = b"AAAA";
    let here = image.len() as u64;
    entries.push((SectionType::Block, here));
    image.extend(section(0, SectionType::Block, payload));

    let here = image.len() as u64;
    entries.push((SectionType::MetadataV2, here));
    image.extend(section(1, SectionType::MetadataV2, b"M"));

    entries.swap(0, 1);

    let index_offset = image.len() as u64;
    entries.push((SectionType::SectionIndex, index_offset));

    let mut payload = Vec::with_capacity(entries.len() * 8);
    for (kind, off) in &entries {
        let raw = (u64::from(kind.as_u16()) << 48) | *off;
        payload.extend_from_slice(&raw.to_le_bytes());
    }
    image.extend(section(2, SectionType::SectionIndex, &payload));
    prefix.extend(image);

    let err = SectionIndex::from_source(&prefix, 0).unwrap_err();
    assert!(matches!(err, Error::CorruptSectionIndex { .. }));
}
