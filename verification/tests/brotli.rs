//! Brotli payloads.

use rdwarfs::Error;
use rdwarfs::compression::brotli::{
    OUTPUT_LIMIT, STREAM_LIMIT, decompress, finish, read_leb128_u64,
};
use brotli::CompressorWriter;
use std::io::Write;

fn write_leb128_u64(mut value: u64, out: &mut Vec<u8>) {
    loop {
        let mut byte = (value & 0x7F) as u8;
        value >>= 7;
        if value != 0 {
            byte |= 0x80;
            out.push(byte);
        } else {
            out.push(byte);
            return;
        }
    }
}

fn encode(src: &[u8]) -> Vec<u8> {
    let mut out = Vec::new();
    write_leb128_u64(src.len() as u64, &mut out);
    {
        let mut enc = CompressorWriter::new(&mut out, 4096, 6, 22);
        enc.write_all(src).unwrap();
        enc.flush().unwrap();
    }
    out
}

#[test]
fn leb128_roundtrip() {
    for value in [0u64, 1, 127, 128, 16384, u64::from(u32::MAX), u64::MAX] {
        let mut buf = Vec::new();
        write_leb128_u64(value, &mut buf);
        let (parsed, n) = read_leb128_u64(&buf).unwrap();
        assert_eq!(parsed, value);
        assert_eq!(n, buf.len());
    }
}

#[test]
fn leb128_rejects_truncated() {
    let err = read_leb128_u64(&[0x80, 0x80]).unwrap_err();
    assert!(matches!(
        err,
        Error::Decode {
            codec: "brotli",
            ..
        }
    ));
}

#[test]
fn brotli_roundtrip_short() {
    let raw = b"hello brotli world".to_vec();
    let enc = encode(&raw);
    let dec = decompress(&enc, 1024).unwrap();
    assert_eq!(dec, raw);
}

#[test]
fn brotli_roundtrip_repeated() {
    let raw = vec![0x33u8; 32 * 1024];
    let enc = encode(&raw);
    let dec = decompress(&enc, raw.len()).unwrap();
    assert_eq!(dec, raw);
}

#[test]
fn rejects_size_exceeding_cap() {
    let raw = vec![1u8; 4096];
    let enc = encode(&raw);
    let err = decompress(&enc, 1024).unwrap_err();
    assert!(matches!(
        err,
        Error::Decode {
            codec: "brotli",
            ..
        }
    ));
}

#[test]
fn rejects_garbage_stream() {
    let mut input = Vec::new();
    write_leb128_u64(64, &mut input);
    input.extend([0xFFu8; 32]);
    let err = decompress(&input, 128).unwrap_err();
    assert!(matches!(
        err,
        Error::Decode {
            codec: "brotli",
            ..
        }
    ));
}

fn message_of(err: Error) -> String {
    match err {
        Error::Decode {
            codec: "brotli",
            message,
        } => message,
        other => panic!("{other:?}"),
    }
}

#[test]
fn streams_past_the_limit_are_refused() {
    let mut input = Vec::new();
    write_leb128_u64(5, &mut input);
    input.resize(1 + STREAM_LIMIT, 0xFF);
    let within = message_of(decompress(&input, 16).unwrap_err());
    assert!(!within.starts_with("stream of"), "{within}");

    input.push(0xFF);
    let past = message_of(decompress(&input, 16).unwrap_err());
    assert_eq!(past, "stream of 11534337 bytes exceeds 11534336");

    // The declared size is looked at first.
    let declared = message_of(decompress(&input, 4).unwrap_err());
    assert_eq!(declared, "declared size 5 exceeds cap 4");
}

#[test]
fn a_large_stream_within_the_limit_decodes() {
    let mut state = 0x9E37_79B9_7F4A_7C15u64;
    let raw: Vec<u8> = (0..2 << 20)
        .map(|_| {
            state ^= state << 13;
            state ^= state >> 7;
            state ^= state << 17;
            (state >> 24) as u8
        })
        .collect();
    let enc = encode(&raw);
    assert!(enc.len() > 2 << 20 && enc.len() <= STREAM_LIMIT);
    assert!(decompress(&enc, raw.len()).unwrap() == raw);
    // A cap past the decoder's own limit changes nothing.
    assert!(OUTPUT_LIMIT < 1 << 40);
    assert!(decompress(&enc, 1 << 40).unwrap() == raw);
}

#[test]
fn finish_bounds_the_decoded_bytes() {
    assert_eq!(finish(Ok(vec![1, 2, 3]), 3).unwrap(), [1, 2, 3]);
    assert_eq!(
        message_of(finish(Ok(vec![1, 2, 3]), 2).unwrap_err()),
        message_of(decompress(&encode_declaring(1, &[7; 3]), 2).unwrap_err())
    );
    assert_eq!(
        message_of(finish(Err("broken".to_string()), 2).unwrap_err()),
        "broken"
    );
}

/// A payload that declares another size than its stream has.
fn encode_declaring(declared: u64, src: &[u8]) -> Vec<u8> {
    let mut out = Vec::new();
    write_leb128_u64(declared, &mut out);
    {
        let mut enc = CompressorWriter::new(&mut out, 4096, 6, 22);
        enc.write_all(src).unwrap();
        enc.flush().unwrap();
    }
    out
}
