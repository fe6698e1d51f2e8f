//! Opening and verifying images.

use rdwarfs::Error;
use rdwarfs::format::header::HEADER_LEN;
use rdwarfs::format::image::Image;
use rdwarfs::format::integrity::{compute_sha512_256, compute_xxh3};
use rdwarfs::format::types::{Compression, SectionType};
fn finish_section(bytes: &mut [u8]) {
    let xxh = compute_xxh3(bytes);
    bytes[0x28..0x30].copy_from_slice(&xxh.to_le_bytes());
    let sha = compute_sha512_256(bytes);
    bytes[0x08..0x28].copy_from_slice(&sha);
}

fn section(number: u32, kind: SectionType, payload: &[u8]) -> Vec<u8> {
    let mut bytes = vec![0u8; HEADER_LEN + payload.len()];
    bytes[0..6].copy_from_slice(b"DWARFS");
    bytes[6] = 2;
    bytes[7] = 5;
    bytes[0x30..0x34].copy_from_slice(&number.to_le_bytes());
    bytes[0x34..0x36].copy_from_slice(&kind.as_u16().to_le_bytes());
    bytes[0x36..0x38].copy_from_slice(&Compression::Stored.as_u16().to_le_bytes());
    bytes[0x38..0x40].copy_from_slice(&(payload.len() as u64).to_le_bytes());
    bytes[HEADER_LEN..].copy_from_slice(payload);
    finish_section(&mut bytes);
    bytes
}

fn build_image(prefix: &[u8], body: &[(u32, SectionType, &[u8])], with_index: bool) -> Vec<u8> {
    let mut image = prefix.to_vec();
    let base = image.len() as u64;
    let mut entries: Vec<(SectionType, u64)> = Vec::new();
    for (n, k, p) in body {
        let here = image.len() as u64;
        entries.push((*k, here - base));
        image.extend(section(*n, *k, p));
    }

    if with_index {
        let here = image.len() as u64;
        entries.push((SectionType::SectionIndex, here - base));
        let mut payload = Vec::with_capacity(entries.len() * 8);
        for (k, off) in &entries {
            let raw = (u64::from(k.as_u16()) << 48) | *off;
            payload.extend_from_slice(&raw.to_le_bytes());
        }
        let next = body.last().map(|b| b.0 + 1).unwrap_or(0);
        image.extend(section(next, SectionType::SectionIndex, &payload));
    }
    image
}

#[test]
fn opens_image_without_index() {
    let img = build_image(
        &[],
        &[
            (0, SectionType::Block, b"AAAA"),
            (1, SectionType::MetadataV2, b"MMMM"),
        ],
        false,
    );
    let image = Image::from_vec(img).unwrap();
    assert_eq!(image.base_offset(), 0);
    assert_eq!(image.sections().len(), 2);
    assert!(image.section_index().is_none());
    assert_eq!(
        image
            .find_section(SectionType::MetadataV2)
            .map(|s| s.file_offset),
        Some((HEADER_LEN + 4) as u64)
    );
}

#[test]
fn opens_image_with_index_and_prefix() {
    let prefix = b"#!/bin/sh\n";
    let img = build_image(
        prefix,
        &[
            (0, SectionType::Block, b"AAAA"),
            (1, SectionType::MetadataV2, b"MMMM"),
        ],
        true,
    );
    let image = Image::from_vec(img).unwrap();
    assert_eq!(image.base_offset(), prefix.len() as u64);
    assert_eq!(image.sections().len(), 3);
    assert_eq!(
        image.section_index().map(|i| i.entries.len()).unwrap_or(0),
        3
    );
}

#[test]
fn verify_all_accepts_clean_image() {
    let img = build_image(&[], &[(0, SectionType::Block, b"hello")], true);
    Image::from_vec(img).unwrap().verify_all().unwrap();
}

#[test]
fn verify_deep_accepts_clean_image() {
    let img = build_image(&[], &[(0, SectionType::Block, b"hello")], true);
    Image::from_vec(img).unwrap().verify_deep().unwrap();
}

#[test]
fn verify_all_rejects_payload_corruption() {
    let mut img = build_image(&[], &[(0, SectionType::Block, b"PAYLOAD")], false);
    let payload_off = HEADER_LEN;
    img[payload_off] ^= 0x80;
    let image = Image::from_vec(img).unwrap();
    assert!(matches!(
        image.verify_all(),
        Err(Error::IntegrityMismatch { kind: "xxh3", .. })
    ));
}

#[test]
fn payload_bytes_match_header_length() {
    let img = build_image(&[], &[(0, SectionType::Block, b"XYZ")], false);
    let image = Image::from_vec(img).unwrap();
    let s = &image.sections()[0];
    assert_eq!(&*image.payload_bytes(s).unwrap(), b"XYZ");
    assert_eq!(image.section_bytes(s).unwrap().len(), HEADER_LEN + 3);
}
