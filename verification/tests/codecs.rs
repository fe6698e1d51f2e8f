//! Codecs on damaged and bounded input.

use std::io::Write;

use rdwarfs::Error;
use rdwarfs::compression::lz4::lengths_fit_in;
use rdwarfs::compression::{decompress, decompress_prefix, lz4, lzma};
use rdwarfs::format::types::Compression;

fn text() -> Vec<u8> {
    let mut out = Vec::new();
    for i in 0..200u32 {
        out.extend_from_slice(b"entry ");
        out.extend_from_slice(&(i * i).to_le_bytes());
    }
    out
}

fn encode(codec: Compression, raw: &[u8]) -> Vec<u8> {
    match codec {
        Compression::Zstd => zstd::encode_all(raw, 3).expect("zstd"),
        Compression::Lzma => liblzma::encode_all(raw, 6).expect("xz"),
        Compression::Lz4 => {
            let mut out = (raw.len() as u32).to_le_bytes().to_vec();
            out.extend(lz4_flex::block::compress(raw));
            out
        }
        Compression::Brotli => {
            let mut out = vec![(raw.len() % 128) as u8 | 0x80, (raw.len() / 128) as u8];
            {
                let mut enc = brotli::CompressorWriter::new(&mut out, 4096, 6, 22);
                enc.write_all(raw).expect("brotli");
            }
            out
        }
        _ => raw.to_vec(),
    }
}

const CODECS: [Compression; 4] = [
    Compression::Zstd,
    Compression::Lzma,
    Compression::Lz4,
    Compression::Brotli,
];

#[test]
fn payloads_decode_to_what_was_encoded() {
    let raw = text();
    for codec in CODECS {
        let payload = encode(codec, &raw);
        assert!(payload.len() < raw.len());
        assert_eq!(decompress(codec, &payload, raw.len()).expect("decodes"), raw);
        assert!(matches!(
            decompress(codec, &payload, raw.len() - 1),
            Err(Error::Decode { .. })
        ));
    }
}

#[test]
fn the_front_of_a_payload_is_the_front_of_the_whole() {
    let raw = text();
    for codec in CODECS {
        let payload = encode(codec, &raw);
        for needed in [0usize, 1, 99, raw.len(), raw.len() + 5] {
            if let Some(front) = decompress_prefix(codec, &payload, needed).expect("front") {
                assert_eq!(front, &raw[..needed.min(raw.len())]);
            }
        }
    }
}

#[test]
fn damaged_payloads_are_refused_or_decode_within_the_cap() {
    let raw = text();
    for codec in CODECS {
        let payload = encode(codec, &raw);
        for i in 0..payload.len().min(300) {
            for flip in [0x01u8, 0x10, 0x80, 0xff] {
                let mut bad = payload.clone();
                bad[i] ^= flip;
                if let Ok(out) = decompress(codec, &bad, raw.len()) {
                    assert!(out.len() <= raw.len());
                }
            }
            let _ = decompress(codec, &payload[..i], raw.len());
        }
    }
}

#[test]
fn xz_streams_carry_a_check() {
    let raw = text();
    let mut payload = encode(Compression::Lzma, &raw);
    assert_eq!(lzma::decompress(&payload, raw.len()).expect("decodes"), raw);
    assert_eq!(lzma::decompress_prefix(&payload, 7).expect("front"), &raw[..7]);
    match lzma::decompress(&payload, 16) {
        Err(Error::Decode { codec: "lzma", message }) => {
            assert!(message.contains("16"), "{message}")
        }
        other => panic!("unexpected {other:?}"),
    }
    let middle = payload.len() / 2;
    payload[middle] ^= 0x40;
    assert!(matches!(
        lzma::decompress(&payload, raw.len()),
        Err(Error::Decode { codec: "lzma", .. })
    ));
    assert!(lzma::decompress(&[0u8; 32], 64).is_err());
    assert!(lzma::decompress(&[], 64).is_err());
}

#[test]
fn lz4_lengths_are_added_up_before_decoding() {
    assert!(lengths_fit_in(&[]));
    assert!(lengths_fit_in(&[0x10, b'a']));
    assert!(lengths_fit_in(&lz4_flex::block::compress(&text())));
    // Every further byte 255 adds as much to a length.
    let mut literals = vec![0xf0];
    literals.extend(vec![0xffu8; 1 << 24]);
    literals.push(0);
    assert!(lengths_fit_in(&literals));
    literals.pop();
    literals.extend(vec![0xffu8; 1 << 20]);
    literals.push(0);
    assert!(!lengths_fit_in(&literals));
    let mut payload = 4u32.to_le_bytes().to_vec();
    payload.extend_from_slice(&literals);
    match lz4::decompress(&payload, 64) {
        Err(Error::Decode { codec: "lz4", message }) => {
            assert_eq!(message, "block lengths exceed 32 bits")
        }
        other => panic!("unexpected {other:?}"),
    }
}
