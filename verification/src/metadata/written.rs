//! A schema reads back as it was written.

use crate::error::ErrorView;
use crate::metadata::schema::{
    Field, LayoutView, SchemaView, field_entries_step, field_map_step, field_members_step,
    field_step, layout_entries_step, layout_map_step, layout_members_step, layout_step,
    parse_schema, schema_members_step,
};
use crate::metadata::thrift::{TType, ThriftState};
use crate::metadata::wire::{
    Value, at_next, at_value, comes_next, fields_come, item_bytes, items_bytes, lemma_end_comes,
    lemma_field_comes, lemma_map_fronts_read_back, lemma_next_after, lemma_next_field,
    lemma_next_item, lemma_no_next_field, lemma_numbers_read_back, lemma_strings_read_back,
    lemma_struct_comes, lemma_unknown_values_are_passed_over, map_front, sound, value_bytes,
};
use crate::utf8::text_of;
use vstd::prelude::*;

verus! {

/// A field as a writer records it.
pub open spec fn field_value(f: Field) -> Value {
    Value::Struct {
        ids: seq![1i16, 2i16],
        values: seq![
            Value::I16 { value: f.layout_id as i64 },
            Value::I16 { value: f.offset as i64 },
        ],
    }
}

/// A layout before it is written: its fields come in some order.
pub struct WrittenLayout {
    pub size: i32,
    pub bits: i16,
    pub ids: Seq<i16>,
    pub fields: Seq<Field>,
    pub label: Seq<u8>,
}

/// The entries of a map from ids to values.
pub open spec fn entries_of(ids: Seq<i16>, values: Seq<Value>) -> Seq<Value> {
    Seq::new(
        2 * ids.len(),
        |i: int|
            if i % 2 == 0 {
                Value::I16 { value: ids[i / 2] as i64 }
            } else {
                values[i / 2]
            },
    )
}

/// A map from ids to structs as a writer records it.
pub open spec fn map_value(ids: Seq<i16>, values: Seq<Value>) -> Value {
    Value::MapOf { from: TType::I16, to: TType::Struct, entries: entries_of(ids, values) }
}

/// The fields as a writer records them.
pub open spec fn field_values(fields: Seq<Field>) -> Seq<Value> {
    fields.map_values(|f: Field| field_value(f))
}

/// A layout as a writer records it.
pub open spec fn layout_value(l: WrittenLayout) -> Value {
    Value::Struct {
        ids: seq![1i16, 2i16, 3i16, 4i16],
        values: seq![
            Value::I32 { value: l.size as i64 },
            Value::I16 { value: l.bits as i64 },
            map_value(l.ids, field_values(l.fields)),
            Value::Binary { bytes: l.label },
        ],
    }
}

/// The map that takes each id to the item that stands with it.
pub open spec fn paired<V>(ids: Seq<i16>, items: Seq<V>) -> Map<i16, V> {
    Map::new(|id: i16| ids.contains(id), |id: i16| items[ids.index_of(id)])
}

/// Whether a layout can be written.
pub open spec fn writable(l: WrittenLayout) -> bool {
    &&& l.size >= 0
    &&& l.bits >= 0
    &&& l.ids.len() == l.fields.len() <= u32::MAX
    &&& l.ids.no_duplicates()
    &&& text_of(l.label) is Some
}

/// What a layout says.
pub open spec fn said(l: WrittenLayout) -> LayoutView {
    LayoutView {
        size: l.size as u32,
        bits: l.bits as u16,
        fields: paired(l.ids, l.fields),
        type_label: text_of(l.label)->Some_0,
    }
}

proof fn lemma_paired_push<V>(ids: Seq<i16>, items: Seq<V>, k: nat)
    requires
        k < ids.len() == items.len(),
        ids.no_duplicates(),
    ensures
        paired(ids.take(k as int), items.take(k as int)).insert(ids[k as int], items[k as int])
            == paired(ids.take((k + 1) as int), items.take((k + 1) as int)),
{
    let before = ids.take(k as int);
    let after = ids.take((k + 1) as int);
    let a = paired(before, items.take(k as int)).insert(ids[k as int], items[k as int]);
    let b = paired(after, items.take((k + 1) as int));
    assert forall|id: i16| a.contains_key(id) == b.contains_key(id) by {
        if before.contains(id) {
            assert(after[before.index_of(id)] == id);
        }
        if id == ids[k as int] {
            assert(after[k as int] == id);
        }
        if after.contains(id) {
            let j = after.index_of(id);
            if j < k {
                assert(before[j] == id);
            }
        }
    }
    assert forall|id: i16| a.contains_key(id) implies #[trigger] a[id] == b[id] by {
        let j = after.index_of(id);
        assert(after[j] == id);
        if id == ids[k as int] {
            assert(ids[j] == ids[k as int]);
        } else {
            let i = before.index_of(id);
            assert(before[i] == id);
            assert(ids[j] == ids[i]);
        }
    }
    assert(a =~= b);
}

/// A field reads back as it was written.
pub proof fn lemma_fields_read_back(st: ThriftState, f: Field)
    requires
        comes_next(st, value_bytes(field_value(f))),
    ensures
        field_step(st) == (
            Ok::<Field, ErrorView>(f),
            st.advance(value_bytes(field_value(f)).len()),
        ),
{
    let ids = seq![1i16, 2i16];
    let values = seq![
        Value::I16 { value: f.layout_id as i64 },
        Value::I16 { value: f.offset as i64 },
    ];
    let st0 = st.begin_struct();
    lemma_next_field(st0, ids, values, 0);
    let in0 = crate::metadata::thrift::field_header_step(st0).1;
    lemma_numbers_read_back(in0, f.layout_id as i64);
    let st1 = in0.advance(value_bytes(values[0]).len());
    lemma_next_field(st1, ids, values, 1);
    let in1 = crate::metadata::thrift::field_header_step(st1).1;
    lemma_numbers_read_back(in1, f.offset as i64);
    let st2 = in1.advance(value_bytes(values[1]).len());
    lemma_no_next_field(st2, ids, values);
    let a0 = Field { layout_id: 0, offset: 0 };
    let a1 = Field { layout_id: f.layout_id, offset: 0 };
    assert(field_members_step(st2, f) == (Ok::<Field, ErrorView>(f), st2.advance(1).end_struct()));
    assert(field_members_step(st1, a1) == field_members_step(st2, f));
    assert(field_members_step(st0, a0) == field_members_step(st1, a1));
    assert(st2.advance(1).end_struct() =~= st.advance(value_bytes(field_value(f)).len()));
}

proof fn lemma_field_entries(st: ThriftState, ids: Seq<i16>, fields: Seq<Field>, k: nat)
    requires
        k <= ids.len() == fields.len(),
        ids.no_duplicates(),
        comes_next(st, items_bytes(entries_of(ids, field_values(fields)), 2 * k)),
    ensures
        field_entries_step(
            st,
            (ids.len() - k) as nat,
            paired(ids.take(k as int), fields.take(k as int)),
        ) == (
            Ok::<Map<i16, Field>, ErrorView>(paired(ids, fields)),
            st.advance(items_bytes(entries_of(ids, field_values(fields)), 2 * k).len()),
        ),
    decreases ids.len() - k,
{
    let entries = entries_of(ids, field_values(fields));
    if k < ids.len() {
        lemma_next_item(st, entries, 2 * k);
        assert(entries[(2 * k) as int] == Value::I16 { value: ids[k as int] as i64 });
        lemma_numbers_read_back(st, ids[k as int] as i64);
        let mid = st.advance(item_bytes(entries[(2 * k) as int]).len());
        lemma_next_item(mid, entries, 2 * k + 1);
        assert(entries[(2 * k + 1) as int] == field_value(fields[k as int]));
        lemma_fields_read_back(mid, fields[k as int]);
        let next = mid.advance(value_bytes(field_value(fields[k as int])).len());
        lemma_paired_push(ids, fields, k);
        assert(2 * (k + 1) == 2 * k + 1 + 1);
        lemma_field_entries(next, ids, fields, k + 1);
        assert(next.advance(items_bytes(entries, 2 * (k + 1)).len()) == st.advance(
            items_bytes(entries, 2 * k).len(),
        ));
    } else {
        assert(ids.take(k as int) =~= ids);
        assert(fields.take(k as int) =~= fields);
    }
}

/// A field map reads back as it was written.
pub proof fn lemma_field_maps_read_back(st: ThriftState, ids: Seq<i16>, fields: Seq<Field>)
    requires
        ids.len() == fields.len() <= u32::MAX,
        ids.no_duplicates(),
        comes_next(st, value_bytes(map_value(ids, field_values(fields)))),
    ensures
        field_map_step(st) == (
            Ok::<Map<i16, Field>, ErrorView>(paired(ids, fields)),
            st.advance(value_bytes(map_value(ids, field_values(fields))).len()),
        ),
{
    let entries = entries_of(ids, field_values(fields));
    let front = map_front(TType::I16, TType::Struct, entries.len() / 2);
    assert(entries.len() / 2 == ids.len());
    let next = st.advance(front.len());
    lemma_next_after(st, front, items_bytes(entries, 0), next);
    lemma_map_fronts_read_back(st, TType::I16, TType::Struct, ids.len());
    assert(paired(ids.take(0), fields.take(0)) =~= Map::<i16, Field>::empty());
    assert(2 * 0nat == 0nat);
    lemma_field_entries(next, ids, fields, 0);
    assert(next.advance(items_bytes(entries, 0).len()) == st.advance(
        value_bytes(map_value(ids, field_values(fields))).len(),
    ));
}

proof fn lemma_layout_takes_size(
    st: ThriftState,
    ids: Seq<i16>,
    values: Seq<Value>,
    i: nat,
    end: nat,
    acc: LayoutView,
    n: i32,
)
    requires
        i < values.len(),
        fields_come(st, ids, values, i, end),
        n >= 0,
        ids[i as int] == 1,
        values[i as int] == (Value::I32 { value: n as i64 }),
    ensures
        fields_come(at_next(st, ids, values, i), ids, values, i + 1, end),
        layout_members_step(st, acc) == layout_members_step(
            at_next(st, ids, values, i),
            LayoutView { size: n as u32, ..acc },
        ),
{
    lemma_field_comes(st, ids, values, i, end);
    lemma_numbers_read_back(at_value(st, ids, values, i), n as i64);
}

proof fn lemma_layout_takes_bits(
    st: ThriftState,
    ids: Seq<i16>,
    values: Seq<Value>,
    i: nat,
    end: nat,
    acc: LayoutView,
    n: i16,
)
    requires
        i < values.len(),
        fields_come(st, ids, values, i, end),
        n >= 0,
        ids[i as int] == 2,
        values[i as int] == (Value::I16 { value: n as i64 }),
    ensures
        fields_come(at_next(st, ids, values, i), ids, values, i + 1, end),
        layout_members_step(st, acc) == layout_members_step(
            at_next(st, ids, values, i),
            LayoutView { bits: n as u16, ..acc },
        ),
{
    lemma_field_comes(st, ids, values, i, end);
    lemma_numbers_read_back(at_value(st, ids, values, i), n as i64);
}

proof fn lemma_layout_takes_fields(
    st: ThriftState,
    ids: Seq<i16>,
    values: Seq<Value>,
    i: nat,
    end: nat,
    acc: LayoutView,
    fids: Seq<i16>,
    fields: Seq<Field>,
)
    requires
        i < values.len(),
        fields_come(st, ids, values, i, end),
        ids[i as int] == 3,
        values[i as int] == map_value(fids, field_values(fields)),
        fids.len() == fields.len() <= u32::MAX,
        fids.no_duplicates(),
    ensures
        fields_come(at_next(st, ids, values, i), ids, values, i + 1, end),
        layout_members_step(st, acc) == layout_members_step(
            at_next(st, ids, values, i),
            LayoutView { fields: paired(fids, fields), ..acc },
        ),
{
    lemma_field_comes(st, ids, values, i, end);
    lemma_field_maps_read_back(at_value(st, ids, values, i), fids, fields);
}

proof fn lemma_layout_takes_label(
    st: ThriftState,
    ids: Seq<i16>,
    values: Seq<Value>,
    i: nat,
    end: nat,
    acc: LayoutView,
    t: Seq<u8>,
)
    requires
        i < values.len(),
        fields_come(st, ids, values, i, end),
        text_of(t) is Some,
        ids[i as int] == 4,
        values[i as int] == (Value::Binary { bytes: t }),
    ensures
        fields_come(at_next(st, ids, values, i), ids, values, i + 1, end),
        layout_members_step(st, acc) == layout_members_step(
            at_next(st, ids, values, i),
            LayoutView { type_label: text_of(t)->Some_0, ..acc },
        ),
{
    lemma_field_comes(st, ids, values, i, end);
    lemma_strings_read_back(at_value(st, ids, values, i), t);
}

/// A layout reads back as it was written.
pub proof fn lemma_layouts_read_back(st: ThriftState, l: WrittenLayout)
    requires
        writable(l),
        comes_next(st, value_bytes(layout_value(l))),
    ensures
        layout_step(st) == (
            Ok::<LayoutView, ErrorView>(said(l)),
            st.advance(value_bytes(layout_value(l)).len()),
        ),
{
    let ids = seq![1i16, 2i16, 3i16, 4i16];
    let values = seq![
        Value::I32 { value: l.size as i64 },
        Value::I16 { value: l.bits as i64 },
        map_value(l.ids, field_values(l.fields)),
        Value::Binary { bytes: l.label },
    ];
    let end = st.pos + value_bytes(layout_value(l)).len();
    let st0 = st.begin_struct();
    let st1 = at_next(st0, ids, values, 0);
    let st2 = at_next(st1, ids, values, 1);
    let st3 = at_next(st2, ids, values, 2);
    let st4 = at_next(st3, ids, values, 3);
    let a0 = LayoutView::blank();
    let a1 = LayoutView { size: l.size as u32, ..a0 };
    let a2 = LayoutView { bits: l.bits as u16, ..a1 };
    let a3 = LayoutView { fields: paired(l.ids, l.fields), ..a2 };
    assert(LayoutView { type_label: text_of(l.label)->Some_0, ..a3 } == said(l));
    lemma_struct_comes(st, ids, values);
    lemma_layout_takes_size(st0, ids, values, 0, end, a0, l.size);
    lemma_layout_takes_bits(st1, ids, values, 1, end, a1, l.bits);
    lemma_layout_takes_fields(st2, ids, values, 2, end, a2, l.ids, l.fields);
    lemma_layout_takes_label(st3, ids, values, 3, end, a3, l.label);
    lemma_end_comes(st4, ids, values, end);
    assert(st4.advance(1).end_struct() =~= st.advance(value_bytes(layout_value(l)).len()));
}

/// The layouts as a writer records them.
pub open spec fn layout_values(layouts: Seq<WrittenLayout>) -> Seq<Value> {
    layouts.map_values(|l: WrittenLayout| layout_value(l))
}

/// What the layouts say.
pub open spec fn all_said(layouts: Seq<WrittenLayout>) -> Seq<LayoutView> {
    layouts.map_values(|l: WrittenLayout| said(l))
}

proof fn lemma_layout_entries(st: ThriftState, ids: Seq<i16>, layouts: Seq<WrittenLayout>, k: nat)
    requires
        k <= ids.len() == layouts.len(),
        ids.no_duplicates(),
        forall|i: int| 0 <= i < layouts.len() ==> writable(#[trigger] layouts[i]),
        comes_next(st, items_bytes(entries_of(ids, layout_values(layouts)), 2 * k)),
    ensures
        layout_entries_step(
            st,
            (ids.len() - k) as nat,
            paired(ids.take(k as int), all_said(layouts).take(k as int)),
        ) == (
            Ok::<Map<i16, LayoutView>, ErrorView>(paired(ids, all_said(layouts))),
            st.advance(items_bytes(entries_of(ids, layout_values(layouts)), 2 * k).len()),
        ),
    decreases ids.len() - k,
{
    let entries = entries_of(ids, layout_values(layouts));
    let views = all_said(layouts);
    if k < ids.len() {
        lemma_next_item(st, entries, 2 * k);
        assert(entries[(2 * k) as int] == Value::I16 { value: ids[k as int] as i64 });
        lemma_numbers_read_back(st, ids[k as int] as i64);
        let mid = st.advance(item_bytes(entries[(2 * k) as int]).len());
        lemma_next_item(mid, entries, 2 * k + 1);
        assert(entries[(2 * k + 1) as int] == layout_value(layouts[k as int]));
        lemma_layouts_read_back(mid, layouts[k as int]);
        let next = mid.advance(value_bytes(layout_value(layouts[k as int])).len());
        lemma_paired_push(ids, views, k);
        assert(2 * (k + 1) == 2 * k + 1 + 1);
        lemma_layout_entries(next, ids, layouts, k + 1);
        assert(next.advance(items_bytes(entries, 2 * (k + 1)).len()) == st.advance(
            items_bytes(entries, 2 * k).len(),
        ));
    } else {
        assert(ids.take(k as int) =~= ids);
        assert(views.take(k as int) =~= views);
    }
}

proof fn lemma_layout_maps(st: ThriftState, ids: Seq<i16>, layouts: Seq<WrittenLayout>)
    requires
        ids.len() == layouts.len() <= u32::MAX,
        ids.no_duplicates(),
        forall|i: int| 0 <= i < layouts.len() ==> writable(#[trigger] layouts[i]),
        comes_next(st, value_bytes(map_value(ids, layout_values(layouts)))),
    ensures
        layout_map_step(st) == (
            Ok::<Map<i16, LayoutView>, ErrorView>(paired(ids, all_said(layouts))),
            st.advance(value_bytes(map_value(ids, layout_values(layouts))).len()),
        ),
{
    let entries = entries_of(ids, layout_values(layouts));
    let front = map_front(TType::I16, TType::Struct, entries.len() / 2);
    assert(entries.len() / 2 == ids.len());
    let next = st.advance(front.len());
    lemma_next_after(st, front, items_bytes(entries, 0), next);
    lemma_map_fronts_read_back(st, TType::I16, TType::Struct, ids.len());
    assert(paired(ids.take(0), all_said(layouts).take(0)) =~= Map::<i16, LayoutView>::empty());
    assert(2 * 0nat == 0nat);
    lemma_layout_entries(next, ids, layouts, 0);
    assert(next.advance(items_bytes(entries, 0).len()) == st.advance(
        value_bytes(map_value(ids, layout_values(layouts))).len(),
    ));
}

/// A schema as a writer records it, with one more field that this version
/// does not know.
pub open spec fn schema_value(
    relax: bool,
    ids: Seq<i16>,
    layouts: Seq<WrittenLayout>,
    root: i16,
    version: i32,
    id: i16,
    unknown: Value,
) -> Value {
    Value::Struct {
        ids: seq![1i16, 2i16, 3i16, 4i16, id],
        values: seq![
            Value::Flag { on: relax },
            map_value(ids, layout_values(layouts)),
            Value::I16 { value: root as i64 },
            Value::I32 { value: version as i64 },
            unknown,
        ],
    }
}

proof fn lemma_schema_takes_flag(
    st: ThriftState,
    ids: Seq<i16>,
    values: Seq<Value>,
    i: nat,
    end: nat,
    acc: SchemaView,
    on: bool,
)
    requires
        i < values.len(),
        fields_come(st, ids, values, i, end),
        ids[i as int] == 1,
        values[i as int] == (Value::Flag { on }),
    ensures
        fields_come(at_next(st, ids, values, i), ids, values, i + 1, end),
        schema_members_step(st, acc) == schema_members_step(
            at_next(st, ids, values, i),
            SchemaView { relax_type_checks: on, ..acc },
        ),
{
    lemma_field_comes(st, ids, values, i, end);
    assert(at_next(st, ids, values, i) == at_value(st, ids, values, i));
}

proof fn lemma_schema_takes_layouts(
    st: ThriftState,
    ids: Seq<i16>,
    values: Seq<Value>,
    i: nat,
    end: nat,
    acc: SchemaView,
    lids: Seq<i16>,
    layouts: Seq<WrittenLayout>,
)
    requires
        i < values.len(),
        fields_come(st, ids, values, i, end),
        ids[i as int] == 2,
        values[i as int] == map_value(lids, layout_values(layouts)),
        lids.len() == layouts.len() <= u32::MAX,
        lids.no_duplicates(),
        forall|k: int| 0 <= k < layouts.len() ==> writable(#[trigger] layouts[k]),
    ensures
        fields_come(at_next(st, ids, values, i), ids, values, i + 1, end),
        schema_members_step(st, acc) == schema_members_step(
            at_next(st, ids, values, i),
            SchemaView { layouts: paired(lids, all_said(layouts)), ..acc },
        ),
{
    lemma_field_comes(st, ids, values, i, end);
    lemma_layout_maps(at_value(st, ids, values, i), lids, layouts);
}

proof fn lemma_schema_takes_root(
    st: ThriftState,
    ids: Seq<i16>,
    values: Seq<Value>,
    i: nat,
    end: nat,
    acc: SchemaView,
    n: i16,
)
    requires
        i < values.len(),
        fields_come(st, ids, values, i, end),
        ids[i as int] == 3,
        values[i as int] == (Value::I16 { value: n as i64 }),
    ensures
        fields_come(at_next(st, ids, values, i), ids, values, i + 1, end),
        schema_members_step(st, acc) == schema_members_step(
            at_next(st, ids, values, i),
            SchemaView { root_layout: n, ..acc },
        ),
{
    lemma_field_comes(st, ids, values, i, end);
    lemma_numbers_read_back(at_value(st, ids, values, i), n as i64);
}

proof fn lemma_schema_takes_version(
    st: ThriftState,
    ids: Seq<i16>,
    values: Seq<Value>,
    i: nat,
    end: nat,
    acc: SchemaView,
    n: i32,
)
    requires
        i < values.len(),
        fields_come(st, ids, values, i, end),
        ids[i as int] == 4,
        values[i as int] == (Value::I32 { value: n as i64 }),
    ensures
        fields_come(at_next(st, ids, values, i), ids, values, i + 1, end),
        schema_members_step(st, acc) == schema_members_step(
            at_next(st, ids, values, i),
            SchemaView { file_version: n, ..acc },
        ),
{
    lemma_field_comes(st, ids, values, i, end);
    lemma_numbers_read_back(at_value(st, ids, values, i), n as i64);
}

proof fn lemma_schema_takes_nothing(
    st: ThriftState,
    ids: Seq<i16>,
    values: Seq<Value>,
    i: nat,
    end: nat,
    acc: SchemaView,
)
    requires
        i < values.len(),
        fields_come(st, ids, values, i, end),
        !(1 <= ids[i as int] <= 4),
        sound(values[i as int]),
    ensures
        fields_come(at_next(st, ids, values, i), ids, values, i + 1, end),
        schema_members_step(st, acc) == schema_members_step(at_next(st, ids, values, i), acc),
{
    lemma_field_comes(st, ids, values, i, end);
    lemma_unknown_values_are_passed_over(at_value(st, ids, values, i), values[i as int]);
}

/// A schema reads back as it was written. Fields that are not known are
/// passed over, and so is what stands behind the schema.
pub proof fn lemma_schemas_read_back(
    relax: bool,
    ids: Seq<i16>,
    layouts: Seq<WrittenLayout>,
    root: i16,
    version: i32,
    id: i16,
    unknown: Value,
    tail: Seq<u8>,
)
    requires
        ids.len() == layouts.len() <= u32::MAX,
        ids.no_duplicates(),
        forall|i: int| 0 <= i < layouts.len() ==> writable(#[trigger] layouts[i]),
        sound(unknown),
        !(1 <= id <= 4),
        (value_bytes(schema_value(relax, ids, layouts, root, version, id, unknown)) + tail).len()
            <= usize::MAX,
    ensures
        parse_schema(
            value_bytes(schema_value(relax, ids, layouts, root, version, id, unknown)) + tail,
        ) == Ok::<SchemaView, ErrorView>(
            SchemaView {
                file_version: version,
                relax_type_checks: relax,
                layouts: paired(ids, all_said(layouts)),
                root_layout: root,
            },
        ),
{
    let fids = seq![1i16, 2i16, 3i16, 4i16, id];
    let values = seq![
        Value::Flag { on: relax },
        map_value(ids, layout_values(layouts)),
        Value::I16 { value: root as i64 },
        Value::I32 { value: version as i64 },
        unknown,
    ];
    let whole = value_bytes(schema_value(relax, ids, layouts, root, version, id, unknown));
    let st = ThriftState::start(whole + tail);
    assert((whole + tail).subrange(0, whole.len() as int) =~= whole);
    let end = whole.len();
    let st0 = st.begin_struct();
    let st1 = at_next(st0, fids, values, 0);
    let st2 = at_next(st1, fids, values, 1);
    let st3 = at_next(st2, fids, values, 2);
    let st4 = at_next(st3, fids, values, 3);
    let st5 = at_next(st4, fids, values, 4);
    let a0 = SchemaView::blank();
    let a1 = SchemaView { relax_type_checks: relax, ..a0 };
    let a2 = SchemaView { layouts: paired(ids, all_said(layouts)), ..a1 };
    let a3 = SchemaView { root_layout: root, ..a2 };
    let a4 = SchemaView { file_version: version, ..a3 };
    lemma_struct_comes(st, fids, values);
    lemma_schema_takes_flag(st0, fids, values, 0, end, a0, relax);
    lemma_schema_takes_layouts(st1, fids, values, 1, end, a1, ids, layouts);
    lemma_schema_takes_root(st2, fids, values, 2, end, a2, root);
    lemma_schema_takes_version(st3, fids, values, 3, end, a3, version);
    lemma_schema_takes_nothing(st4, fids, values, 4, end, a4);
    lemma_end_comes(st5, fids, values, end);
}

} // verus!
