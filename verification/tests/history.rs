//! History sections.

use rdwarfs::format::history;

#[test]
fn trailing_garbage_in_a_history_payload_is_reported_not_panicked() {
    let mut payload = vec![0u8; 8];
    payload.extend_from_slice(&[0xFF; 32]);
    let _ = history::parse(&payload);
}

#[test]
fn an_empty_history_payload_decodes_to_no_entries() {
    let entries = history::parse(&[0x00]).expect("empty struct parses");
    assert!(entries.is_empty());
}
