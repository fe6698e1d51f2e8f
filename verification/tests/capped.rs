//! The bounded output buffer.

use rdwarfs::compression::capped::CappedWriter;
#[test]
fn accepts_writes_within_cap() {
    let mut w = CappedWriter::new(16);
    w.write_all(b"hello").unwrap();
    w.write_all(b" world").unwrap();
    assert_eq!(w.as_slice(), b"hello world");
    assert_eq!(w.len(), 11);
}

#[test]
fn rejects_exceeding_cap_in_one_write() {
    let mut w = CappedWriter::new(4);
    assert!(w.write_all(b"toolong").is_err());
}

#[test]
fn rejects_exceeding_cap_across_writes() {
    let mut w = CappedWriter::new(8);
    w.write_all(b"abcdef").unwrap();
    assert!(w.write_all(b"ghi").is_err());
}

#[test]
fn empty_writer() {
    let w = CappedWriter::new(0);
    assert!(w.is_empty());
}
