//! Frozen schemas.

use rdwarfs::metadata::schema::{Field, Schema};
fn write_varint(value: u64, out: &mut Vec<u8>) {
    let mut v = value;
    loop {
        let mut byte = (v & 0x7F) as u8;
        v >>= 7;
        if v != 0 {
            byte |= 0x80;
            out.push(byte);
        } else {
            out.push(byte);
            return;
        }
    }
}

fn write_zigzag(value: i64, out: &mut Vec<u8>) {
    let zz = ((value << 1) ^ (value >> 63)) as u64;
    write_varint(zz, out);
}

fn write_field_header(prev: &mut i16, ttype: u8, id: i16, out: &mut Vec<u8>) {
    let delta = (id - *prev) as i32;
    if (1..=15).contains(&delta) {
        out.push(((delta as u8) << 4) | ttype);
    } else {
        out.push(ttype);
        write_zigzag(id as i64, out);
    }
    *prev = id;
}

fn write_string_field(prev: &mut i16, id: i16, value: &str, out: &mut Vec<u8>) {
    write_field_header(prev, 8, id, out);
    write_varint(value.len() as u64, out);
    out.extend(value.as_bytes());
}

fn write_i16_field(prev: &mut i16, id: i16, value: i16, out: &mut Vec<u8>) {
    write_field_header(prev, 4, id, out);
    write_zigzag(value as i64, out);
}

fn write_i32_field(prev: &mut i16, id: i16, value: i32, out: &mut Vec<u8>) {
    write_field_header(prev, 5, id, out);
    write_zigzag(value as i64, out);
}

fn build_field(layout_id: i16, offset: i16) -> Vec<u8> {
    let mut buf = Vec::new();
    let mut prev = 0i16;
    write_i16_field(&mut prev, 1, layout_id, &mut buf);
    write_i16_field(&mut prev, 2, offset, &mut buf);
    buf.push(0); // STOP
    buf
}

fn build_layout(size: u32, bits: u16, fields: &[(i16, Vec<u8>)], type_label: &str) -> Vec<u8> {
    let mut buf = Vec::new();
    let mut prev = 0i16;
    if size != 0 {
        write_i32_field(&mut prev, 1, size as i32, &mut buf);
    }
    if bits != 0 {
        write_i16_field(&mut prev, 2, bits as i16, &mut buf);
    }
    if !fields.is_empty() {
        write_field_header(&mut prev, 11, 3, &mut buf); // type Map
        write_varint(fields.len() as u64, &mut buf);
        // i16 (4) keys, struct (12) values
        buf.push((4 << 4) | 12);
        for (k, body) in fields {
            write_zigzag(*k as i64, &mut buf);
            buf.extend(body);
        }
    }
    write_string_field(&mut prev, 4, type_label, &mut buf);
    buf.push(0);
    buf
}

fn build_schema(
    file_version: i32,
    root: i16,
    layouts: &[(i16, Vec<u8>)],
    relax: bool,
) -> Vec<u8> {
    let mut buf = Vec::new();
    let mut prev = 0i16;
    if relax {
        write_field_header(&mut prev, 1, 1, &mut buf);
    }
    // map layouts as field 2
    write_field_header(&mut prev, 11, 2, &mut buf);
    write_varint(layouts.len() as u64, &mut buf);
    buf.push((4 << 4) | 12);
    for (k, body) in layouts {
        write_zigzag(*k as i64, &mut buf);
        buf.extend(body);
    }
    write_i16_field(&mut prev, 3, root, &mut buf);
    write_i32_field(&mut prev, 4, file_version, &mut buf);
    buf.push(0);
    buf
}

#[test]
fn parses_minimal_schema() {
    // Layout 1: a struct with one field referring to layout 2
    let f = build_field(2, -3);
    let layout1 = build_layout(4, 0, &[(7, f)], "struct demo");
    // Layout 2: an integer with 5 bits
    let layout2 = build_layout(0, 5, &[], "i32");
    let blob = build_schema(1, 1, &[(1, layout1), (2, layout2)], true);

    let schema = Schema::parse(&blob).unwrap();
    assert_eq!(schema.file_version, 1);
    assert_eq!(schema.root_layout, 1);
    assert!(schema.relax_type_checks);

    let root = schema.root().unwrap();
    assert_eq!(root.size, 4);
    assert_eq!(root.type_label, "struct demo");
    let f = root.field(7).unwrap();
    assert_eq!(f.layout_id, 2);
    assert!(f.is_bit_offset());
    assert_eq!(f.bit_offset(), 3);

    let int = schema.layout(2).unwrap();
    assert!(int.is_integral());
    assert_eq!(int.bits, 5);
}

#[test]
fn missing_root_layout_errors() {
    let layout1 = build_layout(0, 0, &[], "phantom");
    let blob = build_schema(1, 99, &[(1, layout1)], false);
    let schema = Schema::parse(&blob).unwrap();
    assert!(schema.root().is_err());
}

#[test]
fn field_offset_byte_path() {
    let f = Field {
        layout_id: 0,
        offset: 7,
    };
    assert!(!f.is_bit_offset());
    assert_eq!(f.byte_offset(), 7);
    assert_eq!(f.bit_offset(), 56);
}
