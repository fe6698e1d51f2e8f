//! Walking sections.

use rdwarfs::Error;
use rdwarfs::format::header::HEADER_LEN;
use rdwarfs::format::integrity::{compute_sha512_256, compute_xxh3};
use rdwarfs::format::sections::{SectionRef, Sections};
use rdwarfs::format::types::{Compression, SectionType};

fn collect<'a>(image: &'a [u8], base: u64) -> Vec<Result<SectionRef<'a>, Error>> {
    let mut sections = Sections::new(image, base);
    let mut out = Vec::new();
    while let Some(next) = sections.next() {
        out.push(next);
    }
    out
}
fn build_section(number: u32, st: SectionType, payload: &[u8]) -> Vec<u8> {
    let mut bytes = vec![0u8; HEADER_LEN + payload.len()];
    bytes[0..6].copy_from_slice(b"DWARFS");
    bytes[6] = 2;
    bytes[7] = 5;
    bytes[0x30..0x34].copy_from_slice(&number.to_le_bytes());
    bytes[0x34..0x36].copy_from_slice(&st.as_u16().to_le_bytes());
    bytes[0x36..0x38].copy_from_slice(&Compression::Stored.as_u16().to_le_bytes());
    bytes[0x38..0x40].copy_from_slice(&(payload.len() as u64).to_le_bytes());
    bytes[HEADER_LEN..].copy_from_slice(payload);
    let xxh = compute_xxh3(&bytes);
    bytes[0x28..0x30].copy_from_slice(&xxh.to_le_bytes());
    let sha = compute_sha512_256(&bytes);
    bytes[0x08..0x28].copy_from_slice(&sha);
    bytes
}

fn build_image(prefix: &[u8], sections: &[(u32, SectionType, &[u8])]) -> Vec<u8> {
    let mut img = prefix.to_vec();
    for (n, t, p) in sections {
        img.extend(build_section(*n, *t, p));
    }
    img
}

#[test]
fn walks_two_sections_no_prefix() {
    let img = build_image(
        &[],
        &[
            (0, SectionType::Block, b"AAAA"),
            (1, SectionType::MetadataV2, b"BBBBBBBB"),
        ],
    );
    let walked: Vec<_> = collect(&img, 0).into_iter().map(|r| r.unwrap()).collect();
    assert_eq!(walked.len(), 2);
    assert_eq!(walked[0].header.number, 0);
    assert_eq!(walked[0].header.section_type, SectionType::Block);
    assert_eq!(walked[0].payload(), b"AAAA");
    assert_eq!(walked[1].header.number, 1);
    assert_eq!(walked[1].header.section_type, SectionType::MetadataV2);
    assert_eq!(walked[1].payload(), b"BBBBBBBB");
}

#[test]
fn truncated_tail_produces_error() {
    let mut img = build_image(&[], &[(0, SectionType::Block, b"DATA")]);
    img.truncate(img.len() - 1);
    let results: Vec<_> = collect(&img, 0);
    assert_eq!(results.len(), 1);
    assert!(matches!(results[0], Err(Error::TruncatedSection { .. })));
}

#[test]
fn walks_with_prefix() {
    let prefix = b"#!/bin/sh\necho hello\n";
    let img = build_image(prefix, &[(0, SectionType::Block, b"X")]);
    let walked: Vec<_> = collect(&img, prefix.len() as u64)
        .into_iter()
        .map(|r| r.unwrap())
        .collect();
    assert_eq!(walked.len(), 1);
    assert_eq!(walked[0].file_offset, prefix.len() as u64);
}

#[test]
fn iterator_stops_after_error() {
    let mut img = build_image(&[], &[(0, SectionType::Block, b"ABCD")]);
    img.extend([0u8; 8]); // garbage tail too small for a header
    let results: Vec<_> = collect(&img, 0);
    assert!(matches!(results.last(), Some(Err(_))));
}
