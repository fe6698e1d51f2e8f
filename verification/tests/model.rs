//! String tables.

use rdwarfs::Error;
use rdwarfs::metadata::string_table::decode_string_table;
/// The symbol table from the format spec's FSST worked example:
/// `["FS", "war", "!", "D"]`, so the code sequence `03 01 00 02`
/// decodes to `DwarFS!`.
fn spec_symtab() -> Vec<u8> {
    let mut out = vec![0x01, 0x04, 0x00, 0x00, 0x0A, 0x14, 0x34, 0x01];
    out.push(0x00);
    out.extend_from_slice(&[2, 1, 1, 0, 0, 0, 0, 0]);
    out.extend_from_slice(b"FSwar!D");
    out
}

fn deltas(offsets: &[u32]) -> Vec<u32> {
    offsets.windows(2).map(|w| w[1] - w[0]).collect()
}

#[test]
fn packed_and_plain_indexes_agree() {
    let buffer = b"alphabravocharliedelta";
    let plain = [0u32, 5, 10, 17, 22];
    let packed = deltas(&plain);

    let want: Vec<Vec<u8>> = vec![
        b"alpha".to_vec(),
        b"bravo".to_vec(),
        b"charlie".to_vec(),
        b"delta".to_vec(),
    ];

    assert_eq!(
        decode_string_table(buffer, None, &plain, false).unwrap(),
        want
    );
    assert_eq!(
        decode_string_table(buffer, None, &packed, true).unwrap(),
        want
    );
}

#[test]
fn packed_index_yields_one_string_per_delta() {
    let buffer = b"aabbbcccc";
    let packed = [1u32, 1, 3, 4];
    let decoded = decode_string_table(buffer, None, &packed, true).unwrap();
    assert_eq!(decoded.len(), packed.len());
    assert_eq!(decoded[0], b"a");
    assert_eq!(decoded[3], b"cccc");
}

#[test]
fn empty_table_decodes_to_no_strings() {
    assert!(
        decode_string_table(b"", None, &[], true)
            .unwrap()
            .is_empty()
    );
    assert!(
        decode_string_table(b"", None, &[0], false)
            .unwrap()
            .is_empty()
    );
}

#[test]
fn packed_index_with_symbol_table() {
    let symtab = spec_symtab();
    // "DwarFS!" twice, as two independently coded windows.
    let buffer = [0x03, 0x01, 0x00, 0x02, 0x03, 0x01, 0x00, 0x02];
    let plain = [0u32, 4, 8];
    let packed = deltas(&plain);

    let want: Vec<Vec<u8>> = vec![b"DwarFS!".to_vec(), b"DwarFS!".to_vec()];
    assert_eq!(
        decode_string_table(&buffer, Some(&symtab), &plain, false).unwrap(),
        want
    );
    assert_eq!(
        decode_string_table(&buffer, Some(&symtab), &packed, true).unwrap(),
        want
    );
}

#[test]
fn index_past_end_of_buffer_is_rejected() {
    let err = decode_string_table(b"abc", None, &[0, 99], false).unwrap_err();
    assert!(matches!(err, Error::Decode { .. }));
}
