//! FSST symbol tables.

use rdwarfs::Error;
use rdwarfs::metadata::fsst::{FSST_ESC, FSST_VERSION, SymTable};
/// Build a symbol table blob that maps codes 0..N to short
/// symbols. The encoding mirrors the FSST `fsst_export`:
/// `histo[0]` counts 1-byte symbols, `histo[k]` (k=1..7) counts
/// (k+1)-byte symbols, and symbol bytes are appended in order of
/// length 2, 3, ..., 8, then 1.
fn build_test_blob(symbols: &[&[u8]]) -> Vec<u8> {
    let mut histo = [0u8; 8];
    for s in symbols {
        assert!(!s.is_empty() && s.len() <= 8);
        histo[s.len() - 1] += 1;
    }
    let mut buf = Vec::new();
    let version = (u64::from(FSST_VERSION)) << 32;
    buf.extend(version.to_le_bytes());
    buf.push(0); // zeroTerminated
    buf.extend(histo);

    for l in 1u8..=8 {
        let want = (l & 7) + 1;
        for s in symbols.iter().filter(|s| s.len() as u8 == want) {
            buf.extend_from_slice(s);
        }
    }
    buf
}

#[test]
fn parses_and_decodes_short_table() {
    let blob = build_test_blob(&[b"ab", b"cd", b"q"]);
    let (table, used) = SymTable::parse(&blob).unwrap();
    assert_eq!(used, blob.len());

    // codes assigned by length order 2,3,4,...,8,1: first two
    // codes are 2-byte symbols (ab, cd), then 1-byte (q).
    let mut out = Vec::new();
    table.decode(&[0, 1, 2], &mut out).unwrap();
    assert_eq!(out, b"abcdq");
}

#[test]
fn escape_byte_is_literal() {
    let blob = build_test_blob(&[b"hi"]);
    let (table, _) = SymTable::parse(&blob).unwrap();
    let out = table.decode_to_vec(&[0, FSST_ESC, b'Z', 0]).unwrap();
    assert_eq!(out, b"hiZhi");
}

#[test]
fn rejects_wrong_version() {
    let mut blob = build_test_blob(&[b"x"]);
    blob[4] = 0x00;
    let err = SymTable::parse(&blob).unwrap_err();
    assert!(matches!(err, Error::Decode { codec: "fsst", .. }));
}

#[test]
fn rejects_truncated_symbols() {
    let mut blob = build_test_blob(&[b"ab"]);
    blob.pop();
    let err = SymTable::parse(&blob).unwrap_err();
    assert!(matches!(err, Error::Decode { codec: "fsst", .. }));
}

#[test]
fn unused_code_is_an_error() {
    let blob = build_test_blob(&[b"a"]);
    let (table, _) = SymTable::parse(&blob).unwrap();
    let err = table.decode_to_vec(&[5]).unwrap_err();
    assert!(matches!(err, Error::Decode { codec: "fsst", .. }));
}

#[test]
fn header_len_is_what_parsing_consumed() {
    let mut blob = build_test_blob(&[b"ab", b"cde", b"q"]);
    let len = blob.len();
    blob.extend_from_slice(b"trailing");
    let (table, used) = SymTable::parse(&blob).unwrap();
    assert_eq!(used, len);
    assert_eq!(table.header_len(), 17 + 2 + 3 + 1);
    assert_eq!(table.header_len(), used);
    assert_eq!(table.clone().header_len(), used);

    let (empty, used) = SymTable::parse(&build_test_blob(&[])).unwrap();
    assert_eq!((empty.header_len(), used), (17, 17));
}
