//! Frozen layouts.

use rdwarfs::metadata::frozen::{Frozen, LayoutKind, Pos, RangeView};
use rdwarfs::metadata::schema::{Field, Layout, Schema};
use std::collections::BTreeMap;

fn integral(bits: u16) -> Layout {
    Layout {
        size: 0,
        bits,
        fields: BTreeMap::new(),
        type_label: String::new(),
    }
}

fn struct_layout(size: u32, fields: Vec<(i16, Field)>) -> Layout {
    let mut map = BTreeMap::new();
    for (k, v) in fields {
        map.insert(k, v);
    }
    Layout {
        size,
        bits: 0,
        fields: map,
        type_label: String::new(),
    }
}

#[test]
fn child_pos_byte_offset() {
    let pos = Pos { byte: 4, bit: 3 };
    let f = Field {
        layout_id: 0,
        offset: 5,
    };
    let c = pos.child(&f);
    assert_eq!(c.byte, 9);
    assert_eq!(c.bit, 3);
}

#[test]
fn child_pos_bit_offset() {
    let pos = Pos { byte: 4, bit: 3 };
    let f = Field {
        layout_id: 0,
        offset: -5,
    };
    let c = pos.child(&f);
    assert_eq!(c.byte, 4);
    assert_eq!(c.bit, 8);
}

#[test]
fn classify_integral() {
    let mut schema = Schema {
        file_version: 1,
        relax_type_checks: false,
        layouts: BTreeMap::new(),
        root_layout: 0,
    };
    schema.layouts.insert(1, integral(8));
    let kind = LayoutKind::of(schema.layout(1).unwrap(), &schema).unwrap();
    assert_eq!(kind, LayoutKind::Integral(8));
}

#[test]
fn classify_optional() {
    let mut schema = Schema {
        file_version: 1,
        relax_type_checks: false,
        layouts: BTreeMap::new(),
        root_layout: 0,
    };
    schema.layouts.insert(1, integral(1));
    schema.layouts.insert(2, integral(8));
    let layout = struct_layout(
        2,
        vec![
            (
                1,
                Field {
                    layout_id: 1,
                    offset: -0,
                },
            ),
            (
                2,
                Field {
                    layout_id: 2,
                    offset: 1,
                },
            ),
        ],
    );
    let kind = LayoutKind::of(&layout, &schema).unwrap();
    assert_eq!(
        kind,
        LayoutKind::Optional {
            value_layout_id: Some(2)
        }
    );
}

#[test]
fn classify_string() {
    let mut schema = Schema {
        file_version: 1,
        relax_type_checks: false,
        layouts: BTreeMap::new(),
        root_layout: 0,
    };
    schema.layouts.insert(1, integral(16));
    schema.layouts.insert(2, integral(16));
    let layout = struct_layout(
        4,
        vec![
            (
                1,
                Field {
                    layout_id: 1,
                    offset: 0,
                },
            ),
            (
                2,
                Field {
                    layout_id: 2,
                    offset: 2,
                },
            ),
        ],
    );
    let kind = LayoutKind::of(&layout, &schema).unwrap();
    assert_eq!(kind, LayoutKind::String);
}

#[test]
fn classify_array() {
    let mut schema = Schema {
        file_version: 1,
        relax_type_checks: false,
        layouts: BTreeMap::new(),
        root_layout: 0,
    };
    schema.layouts.insert(1, integral(16));
    schema.layouts.insert(2, integral(16));
    schema.layouts.insert(3, integral(8));
    let layout = struct_layout(
        4,
        vec![
            (
                1,
                Field {
                    layout_id: 1,
                    offset: 0,
                },
            ),
            (
                2,
                Field {
                    layout_id: 2,
                    offset: 2,
                },
            ),
            (
                3,
                Field {
                    layout_id: 3,
                    offset: 0,
                },
            ),
        ],
    );
    let kind = LayoutKind::of(&layout, &schema).unwrap();
    assert_eq!(kind, LayoutKind::Array { item_layout_id: 3 });
}

#[test]
fn classify_struct_with_a_field_no_range_has() {
    let mut schema = Schema {
        file_version: 1,
        relax_type_checks: false,
        layouts: BTreeMap::new(),
        root_layout: 0,
    };
    schema.layouts.insert(3, integral(16));
    let field = |offset: i16| Field {
        layout_id: 3,
        offset,
    };
    let mut layout = struct_layout(
        8,
        vec![(1, field(0)), (2, field(2)), (3, field(4)), (4, field(6))],
    );
    assert_eq!(LayoutKind::of(&layout, &schema).unwrap(), LayoutKind::Struct);
    layout.fields.remove(&4);
    assert_eq!(
        LayoutKind::of(&layout, &schema).unwrap(),
        LayoutKind::Array { item_layout_id: 3 }
    );
    layout.fields.insert(-1, field(6));
    assert_eq!(LayoutKind::of(&layout, &schema).unwrap(), LayoutKind::Struct);
    // A range may leave out its distance, or its distance and count.
    layout.fields.remove(&-1);
    layout.fields.remove(&1);
    layout.fields.remove(&2);
    assert_eq!(
        LayoutKind::of(&layout, &schema).unwrap(),
        LayoutKind::Array { item_layout_id: 3 }
    );
}

#[test]
fn range_view_uses_relative_distance() {
    // String layout at byte 8 with distance=5 means data starts
    // at 8 + 5 = 13. Placing ABC at byte 13 proves the decoder
    // adds distance to the range field's own byte, not to the
    // blob start.
    let mut schema = Schema {
        file_version: 1,
        relax_type_checks: false,
        layouts: BTreeMap::new(),
        root_layout: 0,
    };
    schema.layouts.insert(1, integral(8));
    schema.layouts.insert(2, integral(8));
    let string_layout = struct_layout(
        2,
        vec![
            (
                1,
                Field {
                    layout_id: 1,
                    offset: 0,
                },
            ),
            (
                2,
                Field {
                    layout_id: 2,
                    offset: 1,
                },
            ),
        ],
    );

    let mut blob = vec![0u8; 13];
    blob[8] = 5;
    blob[9] = 3;
    blob.extend_from_slice(b"ABC");

    let frozen = Frozen::new(&schema, &blob);
    let view = frozen
        .read_range(Pos { byte: 8, bit: 0 }, &string_layout)
        .unwrap();
    assert_eq!(view.data_byte, 13);
    assert_eq!(view.count, 3);
    assert_eq!(view.item_layout_id, None);
    assert_eq!(&blob[view.data_byte as usize..], b"ABC");
}

#[test]
fn empty_range_has_no_distance() {
    // String layout at byte 8 with count=0 - distance field must
    // not be read (it could legitimately be zero or garbage).
    let mut schema = Schema {
        file_version: 1,
        relax_type_checks: false,
        layouts: BTreeMap::new(),
        root_layout: 0,
    };
    schema.layouts.insert(1, integral(8));
    schema.layouts.insert(2, integral(8));
    let string_layout = struct_layout(
        2,
        vec![
            (
                1,
                Field {
                    layout_id: 1,
                    offset: 0,
                },
            ),
            (
                2,
                Field {
                    layout_id: 2,
                    offset: 1,
                },
            ),
        ],
    );

    let mut blob = vec![0u8; 10];
    blob[8] = 0xFF; // distance bytes "garbage"
    blob[9] = 0; // count = 0

    let frozen = Frozen::new(&schema, &blob);
    let view = frozen
        .read_range(Pos { byte: 8, bit: 0 }, &string_layout)
        .unwrap();
    assert_eq!(view.count, 0);
    assert_eq!(view.data_byte, 8);
}

#[test]
fn bit_strided_elements_keep_the_byte_anchor() {
    // A nested range resolves its `distance` against `Pos::byte`,
    // so a bit-strided element must leave the byte anchor at the
    // array's data start and accumulate the whole offset in bits.
    let mut schema = Schema {
        file_version: 1,
        relax_type_checks: false,
        layouts: BTreeMap::new(),
        root_layout: 0,
    };
    schema.layouts.insert(1, integral(23));
    let frozen = Frozen::new(&schema, &[]);
    let range = RangeView {
        data_byte: 100,
        count: 4,
        item_layout_id: Some(1),
    };

    for i in 0..4u64 {
        let pos = frozen.element_pos(range, i).unwrap();
        assert_eq!(pos.byte, 100, "element {i} moved the byte anchor");
        assert_eq!(pos.absolute_bit(), 100 * 8 + i * 23);
    }
}

#[test]
fn byte_sized_elements_advance_the_byte_anchor() {
    let mut schema = Schema {
        file_version: 1,
        relax_type_checks: false,
        layouts: BTreeMap::new(),
        root_layout: 0,
    };
    schema.layouts.insert(1, struct_layout(6, vec![]));
    let frozen = Frozen::new(&schema, &[]);
    let range = RangeView {
        data_byte: 8,
        count: 3,
        item_layout_id: Some(1),
    };

    for i in 0..3u64 {
        let pos = frozen.element_pos(range, i).unwrap();
        assert_eq!(pos.byte, 8 + i * 6);
        assert_eq!(pos.bit, 0);
    }
}
