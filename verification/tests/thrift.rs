//! Thrift compact encoding.

use rdwarfs::metadata::thrift::{TType, ThriftReader};
fn write_varint(value: u64, out: &mut Vec<u8>) {
    let mut v = value;
    loop {
        let mut byte = (v & 0x7F) as u8;
        v >>= 7;
        if v != 0 {
            byte |= 0x80;
            out.push(byte);
        } else {
            out.push(byte);
            return;
        }
    }
}

fn write_zigzag(value: i64, out: &mut Vec<u8>) {
    let zz = ((value << 1) ^ (value >> 63)) as u64;
    write_varint(zz, out);
}

#[test]
fn varint_roundtrip() {
    for v in [0u64, 1, 127, 128, 16384, u64::MAX] {
        let mut buf = Vec::new();
        write_varint(v, &mut buf);
        let mut r = ThriftReader::new(&buf);
        assert_eq!(r.read_varint_u64().unwrap(), v);
    }
}

#[test]
fn zigzag_roundtrip() {
    for v in [0i64, 1, -1, 12345, -12345, i64::MAX, i64::MIN] {
        let mut buf = Vec::new();
        write_zigzag(v, &mut buf);
        let mut r = ThriftReader::new(&buf);
        assert_eq!(r.read_i64().unwrap(), v);
    }
}

#[test]
fn truncated_varint_errors() {
    let mut r = ThriftReader::new(&[0x80]);
    assert!(r.read_varint_u64().is_err());
}

#[test]
fn small_field_header_delta() {
    // delta = 1, ttype = I32; field id resolves to 1.
    let bytes = [(1u8 << 4) | 5, 0];
    let mut r = ThriftReader::new(&bytes);
    r.read_struct_begin();
    let f = r.read_field_header().unwrap().unwrap();
    assert_eq!(f.id, 1);
    assert_eq!(f.ttype, TType::I32);
}

#[test]
fn explicit_field_id_via_delta_zero() {
    let mut buf = vec![5u8]; // delta=0, ttype=I32
    write_zigzag(42, &mut buf); // explicit i16 = 42
    buf.push(0); // STOP
    let mut r = ThriftReader::new(&buf);
    r.read_struct_begin();
    let f = r.read_field_header().unwrap().unwrap();
    assert_eq!(f.id, 42);
    assert_eq!(f.ttype, TType::I32);
    assert!(r.read_field_header().unwrap().is_none());
}

#[test]
fn list_short_and_long_header() {
    // size 3, etype I32: header = 0x35
    let mut r = ThriftReader::new(&[0x35]);
    assert_eq!(r.read_list_header().unwrap(), (TType::I32, 3));

    // size 20, etype I32: header = 0xF5, varint(20)
    let mut buf = vec![0xF5u8];
    write_varint(20, &mut buf);
    let mut r = ThriftReader::new(&buf);
    assert_eq!(r.read_list_header().unwrap(), (TType::I32, 20));
}

#[test]
fn map_empty_omits_type_byte() {
    let mut buf = Vec::new();
    write_varint(0, &mut buf);
    let mut r = ThriftReader::new(&buf);
    assert_eq!(r.read_map_header().unwrap(), (TType::Stop, TType::Stop, 0));
}

#[test]
fn binary_and_string_roundtrip() {
    let s = "hello world";
    let mut buf = Vec::new();
    write_varint(s.len() as u64, &mut buf);
    buf.extend(s.as_bytes());
    let mut r = ThriftReader::new(&buf);
    assert_eq!(r.read_string().unwrap(), s);
}

#[test]
fn skip_value_skips_struct() {
    // Outer struct with one struct field (id=1) and stop.
    // Inner struct has one I32 field id=1, value=42, stop.
    let mut inner = vec![(1u8 << 4) | 5];
    write_zigzag(42, &mut inner);
    inner.push(0);

    let mut outer = vec![(1u8 << 4) | 12];
    outer.extend(&inner);
    outer.push(0);

    let mut r = ThriftReader::new(&outer);
    r.read_struct_begin();
    let f = r.read_field_header().unwrap().unwrap();
    assert_eq!(f.ttype, TType::Struct);
    r.skip_value(TType::Struct).unwrap();
    assert!(r.read_field_header().unwrap().is_none());
    r.read_struct_end();
}
